use utxo2webgraph::cli::{
    ArcFormatArg, BuildPgArgs, CompressArgs, EdgeListArgs, InputFormatArg, InputSelector,
    NumNodesSpec, OnMissingSourceArg, SortAlgoArg, SortEdgesArgs, SplitArgs, VerifyArg,
};
use utxo2webgraph::report::{
    build_plan, compress_plan, edge_list_plan, estimate_plan, input_plan, sort_plan, split_plan,
    EstimateTexts,
};

fn estimates() -> EstimateTexts {
    EstimateTexts {
        outputs: "1.650e1".to_string(),
        arcs: "7.000e1".to_string(),
        arc_bytes: "1.09 KiB".to_string(),
        edge_list_bytes: "1.51 KiB".to_string(),
        node_map_bytes: "410 B".to_string(),
    }
}

#[test]
fn inputs_are_listed_with_their_sizes() {
    let paths = vec!["a".to_string(), "dir/b".to_string()];
    let sizes = vec!["1.00 KiB".to_string(), "123456789 TiB".to_string()];
    assert_eq!(
        input_plan(&paths, &sizes, "9 B"),
        "  inputs      : 2 file(s), 9 B\n          1.00 KiB  a\n      123456789 TiB  dir/b\n"
    );
    assert_eq!(input_plan(&vec![], &vec![], "0 B"), "  inputs      : 0 file(s), 0 B\n");
}

#[test]
fn estimates_are_listed() {
    assert_eq!(
        estimate_plan(&estimates(), true),
        "  estimates   :\n      output slots (nodes) ~ 1.650e1\n      raw arcs             ~ \
         7.000e1\n      binary arcs          ~ 1.09 KiB\n      text edge list       ~ 1.51 KiB\n      \
         text node map        ~ 410 B\n"
    );
    assert!(!estimate_plan(&estimates(), false).contains("text edge list"));
}

#[test]
fn a_split_is_described() {
    let mut a = SplitArgs {
        input: "in.txt".to_string(),
        output_dir: "chunks".to_string(),
        start: "2009-01-01".to_string(),
        end: "2010-01-01".to_string(),
        months: 6,
        tz: "utc".to_string(),
        append: false,
        no_create_empty: false,
        skip_out_of_range: false,
        show_boundaries: false,
    };
    assert_eq!(
        split_plan(&a, "7 B", 2, "TABLE\n"),
        "DRY RUN: utxo2webgraph split\n  input       : in.txt (7 B)\n  output dir  : chunks\n  \
         timezone    : utc\n  chunks      : 2\n  mode        : truncate\nTABLE\n"
    );
    a.append = true;
    assert!(split_plan(&a, "7 B", 2, "").contains("mode        : append\n"));
}

fn selector() -> InputSelector {
    InputSelector {
        input: vec!["in.txt".to_string()],
        chunk_dir: None,
    }
}

#[test]
fn an_edge_list_is_described() {
    let mut a = EdgeListArgs {
        inputs: selector(),
        chunks: None,
        node_map: None,
        arcs: "arcs.bin".to_string(),
        arc_format: ArcFormatArg::Binary,
        max_tx_id: None,
        on_missing_source: OnMissingSourceArg::Fail,
        progress_every: 0,
    };
    assert_eq!(
        edge_list_plan(&a, "IN\n", "EST\n"),
        "DRY RUN: utxo2webgraph edge-list\nIN\n  arcs        : arcs.bin (Binary)\n  node map    : \
         (not written)\nEST\n"
    );
    a.node_map = Some("nm.tsv".to_string());
    a.arc_format = ArcFormatArg::Tsv;
    assert_eq!(
        edge_list_plan(&a, "", ""),
        "DRY RUN: utxo2webgraph edge-list\n  arcs        : arcs.bin (Tsv)\n  node map    : nm.tsv\n"
    );
}

#[test]
fn a_sort_is_described() {
    let a = SortEdgesArgs {
        input: "arcs.bin".to_string(),
        input_format: InputFormatArg::Auto,
        edge_list: None,
        sorted_arcs: None,
        sort_algo: SortAlgoArg::Pdq,
        no_dedup: true,
    };
    assert_eq!(
        sort_plan(&a, "5 B", "1.00 GiB", 33_554_432),
        "DRY RUN: utxo2webgraph sort-edges\n  arcs        : arcs.bin (5 B)\n  sort algo   : Pdq\n  \
         memory      : 1.00 GiB  (33554432 arcs/run)\n  dedup       : false\n"
    );
}

#[test]
fn a_compression_is_described() {
    let mut a = CompressArgs {
        input: "el.tsv".to_string(),
        output_prefix: "g/pg".to_string(),
        input_format: InputFormatArg::Auto,
        num_nodes: NumNodesSpec::NodeMap,
        node_map: None,
        parallel: true,
        build_ef: false,
        allow_empty: false,
        verify: VerifyArg::Quick,
    };
    assert_eq!(
        compress_plan(&a, "5 B"),
        "DRY RUN: utxo2webgraph compress\n  edge list   : el.tsv (5 B)\n  output      : \
         g/pg.{graph,offsets,properties}\n  num nodes   : NodeMap\n  parallel    : true\n"
    );
    a.num_nodes = NumNodesSpec::Explicit(12);
    assert!(compress_plan(&a, "").contains("num nodes   : Explicit(12)\n"));
    a.num_nodes = NumNodesSpec::FromArcs;
    assert!(compress_plan(&a, "").contains("num nodes   : FromArcs\n"));
}

#[test]
fn a_build_is_described() {
    let mut a = BuildPgArgs {
        inputs: selector(),
        chunks: None,
        node_map: "nm.tsv".to_string(),
        edge_list: "el.tsv".to_string(),
        output_prefix: "g/pg".to_string(),
        no_text_edge_list: true,
        no_node_map: false,
        sort_algo: SortAlgoArg::Radix,
        max_tx_id: None,
        on_missing_source: OnMissingSourceArg::Fail,
        num_nodes: NumNodesSpec::NodeMap,
        progress_every: 0,
        parallel: false,
        allow_empty: false,
        verify: VerifyArg::Quick,
    };
    assert_eq!(
        build_plan(&a, "IN\n", "1.00 GiB", 7, "EST\n"),
        "DRY RUN: utxo2webgraph build-pg\nIN\n  node map    : nm.tsv\n  edge list   : (not \
         written)\n  BVGraph     : g/pg.{graph,offsets,properties}\n  sort algo   : Radix   \
         parallel: false\n  memory      : 1.00 GiB  (7 arcs/run)\nEST\n"
    );
    a.no_text_edge_list = false;
    a.no_node_map = true;
    let t = build_plan(&a, "", "", 7, "");
    assert!(t.contains("node map    : (not written)\n"));
    assert!(t.contains("edge list   : el.tsv\n"));
}
