use utxo2webgraph::cli::{
    parse_duration, parse_num_nodes, Command, CommonOpts, CompressArgs, InputFormatArg, ModeArg,
    NumNodesSpec, OnMissingSourceArg, SortAlgoArg, SortEdgesArgs, StatsArg, VerifyArg,
};
use utxo2webgraph::compress::VerifyLevel;
use utxo2webgraph::{Mode, OnMissingSource, SortAlgo, StatsStyle};

#[test]
fn num_nodes_spec_parses() {
    assert_eq!(parse_num_nodes("node-map").unwrap(), NumNodesSpec::NodeMap);
    assert_eq!(
        parse_num_nodes("from-arcs").unwrap(),
        NumNodesSpec::FromArcs
    );
    assert_eq!(
        parse_num_nodes("2147483647").unwrap(),
        NumNodesSpec::Explicit(2_147_483_647)
    );
    assert!(parse_num_nodes("nope").is_err());
}

#[test]
fn log_interval_parses_like_webgraph() {
    let secs = |n: u128| n * 1000;
    assert_eq!(
        parse_duration("1d2h3m4s567").unwrap(),
        secs(((24 + 2) * 60 + 3) * 60 + 4) + 567
    );
    // A bare number is MILLISECONDS, not seconds.
    assert_eq!(parse_duration("500").unwrap(), 500);
    assert_eq!(parse_duration("10s").unwrap(), secs(10));
    assert_eq!(parse_duration("0").unwrap(), 0);
    // White space is ignored.
    assert_eq!(parse_duration("1m 30s").unwrap(), secs(90));
    assert!(parse_duration("").is_err());
    assert!(parse_duration("3x").is_err());
}

#[test]
fn durations_accumulate_and_are_checked() {
    assert_eq!(parse_duration("1s1s").unwrap(), 2000);
    assert_eq!(parse_duration("1 2").unwrap(), 12);
    assert_eq!(
        parse_duration("").unwrap_err(),
        "empty duration string; for every 0 milliseconds use `0`"
    );
    assert_eq!(parse_duration("3x").unwrap_err(), "invalid duration suffix: x");
    assert_eq!(
        parse_duration("s").unwrap_err(),
        "invalid duration \"s\": cannot parse integer from empty string"
    );
    assert_eq!(
        parse_duration("18446744073709551616s").unwrap_err(),
        "invalid duration \"18446744073709551616s\": number too large to fit in target type"
    );
    assert!(parse_duration("18446744073709551615d18446744073709551615d").is_err());
}

#[test]
fn node_counts_are_read_with_latitude() {
    for s in [" node-map ", "node_map", "nodemap"] {
        assert_eq!(parse_num_nodes(s).unwrap(), NumNodesSpec::NodeMap);
    }
    for s in ["from_arcs", "fromarcs\n"] {
        assert_eq!(parse_num_nodes(s).unwrap(), NumNodesSpec::FromArcs);
    }
    assert_eq!(parse_num_nodes("\t+7 ").unwrap(), NumNodesSpec::Explicit(7));
    assert_eq!(
        parse_num_nodes("-1").unwrap_err(),
        "invalid node count \"-1\": expected `node-map`, `from-arcs`, or a non-negative integer"
    );
}

fn common(lenient: bool, stats: StatsArg) -> CommonOpts {
    CommonOpts {
        threads: Some(64),
        memory: None,
        tmp_dir: "./tmp".to_string(),
        log_dir: "./logs".to_string(),
        keep_intermediate: false,
        strict: !lenient,
        lenient,
        verbose: 0,
        log_interval: 10_000,
        dry_run: false,
        stats,
    }
}

#[test]
fn flags_select_mode_and_style() {
    let c = common(false, StatsArg::Brief);
    assert_eq!(c.mode(), Mode::Strict);
    assert_eq!(c.stats_style(), StatsStyle::Brief);
    let c = common(true, StatsArg::Extended);
    assert_eq!(c.mode(), Mode::Lenient);
    assert_eq!(c.stats_style(), StatsStyle::Extended);
}

#[test]
fn arguments_convert() {
    assert_eq!(Mode::from(ModeArg::Strict), Mode::Strict);
    assert_eq!(Mode::from(ModeArg::Lenient), Mode::Lenient);
    assert_eq!(OnMissingSource::from(OnMissingSourceArg::Fail), OnMissingSource::Fail);
    assert_eq!(OnMissingSource::from(OnMissingSourceArg::Skip), OnMissingSource::Skip);
    assert_eq!(OnMissingSource::from(OnMissingSourceArg::Create), OnMissingSource::Create);
    assert_eq!(VerifyLevel::from(VerifyArg::Off), VerifyLevel::Off);
    assert_eq!(VerifyLevel::from(VerifyArg::Quick), VerifyLevel::Quick);
    assert_eq!(VerifyLevel::from(VerifyArg::Full), VerifyLevel::Full);
    assert_eq!(SortAlgo::from(SortAlgoArg::Radix), SortAlgo::Radix);
    assert_eq!(SortAlgo::from(SortAlgoArg::Pdq), SortAlgo::Pdq);
}

#[test]
fn stages_have_names() {
    let sort = Command::SortEdges(SortEdgesArgs {
        input: "a".to_string(),
        input_format: InputFormatArg::Auto,
        edge_list: None,
        sorted_arcs: None,
        sort_algo: SortAlgoArg::Radix,
        no_dedup: false,
    });
    assert_eq!(sort.stage_name(), "sort-edges");
    let compress = Command::Compress(CompressArgs {
        input: "a".to_string(),
        output_prefix: "b".to_string(),
        input_format: InputFormatArg::Auto,
        num_nodes: NumNodesSpec::NodeMap,
        node_map: None,
        parallel: false,
        build_ef: false,
        allow_empty: false,
        verify: VerifyArg::Quick,
    });
    assert_eq!(compress.stage_name(), "compress");
}
