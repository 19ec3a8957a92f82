use utxo2webgraph::arcs::ArcFileFormat;
use utxo2webgraph::cli::{
    BuildArgs, CommonOpts, InputFormatArg, InputSelector, NumNodesSpec, OnMissingSourceArg,
    SortAlgoArg, SortEdgesArgs, SplitArgs, StageArg, StatsArg, VerifyArg,
};
use utxo2webgraph::edge_list::EdgeListOpts;
use utxo2webgraph::nodemap::DenseNodeMap;
use utxo2webgraph::pipeline::{build_arcs, build_graph};
use utxo2webgraph::plan::{
    arcs_per_run, build_names, built_num_nodes, check_files, check_graph_file,
    check_mapping_limit, check_sort_outputs, check_space, graph_extensions, kept_arcs_path, larger_id, next_id_from, node_map_next_id,
    nodes_from_arcs, plan_build, read_id_line, resolve_format, resolve_inputs, resolve_memory,
    resolve_num_nodes, resolve_threads, scan_arcs, sort_opts, spill_bytes, split_opts,
    temp_graph_name, total_size, ArcScan, BuildPlan, MappingLimit, SpaceCheck, MEMORY_CAP,
};
use utxo2webgraph::sorter::{ArcSorter, SortOpts};
use utxo2webgraph::{Error, Mode, NodeId, SortAlgo};

fn said<T: std::fmt::Debug>(r: utxo2webgraph::Result<T>) -> String {
    match r {
        Err(Error::Other(msg)) => msg,
        other => panic!("expected an error in words, got {other:?}"),
    }
}

#[test]
fn threads_and_memory_have_defaults() {
    assert_eq!(resolve_threads(Some(3), 8), 3);
    assert_eq!(resolve_threads(Some(0), 8), 8);
    assert_eq!(resolve_threads(None, 8), 8);
    assert_eq!(resolve_threads(None, 0), 1);
    assert_eq!(resolve_memory(Some(5), 1 << 40), 5);
    assert_eq!(resolve_memory(None, 500 << 20), 500 << 20);
    assert_eq!(resolve_memory(None, u64::MAX), MEMORY_CAP);
    assert_eq!(resolve_memory(None, 2 << 30), 2 << 30);
    assert_eq!(MEMORY_CAP, 192 << 30);
}

#[test]
fn runs_and_disks_are_sized() {
    assert_eq!(arcs_per_run(320), 10);
    assert_eq!(arcs_per_run(0), 1);
    assert_eq!(spill_bytes(320, 10, 160), 0);
    assert_eq!(spill_bytes(320, 11, 176), 176);
    assert_eq!(check_space(Some(9), 10), SpaceCheck::Short);
    assert_eq!(check_space(Some(10), 10), SpaceCheck::Enough);
    assert_eq!(check_space(None, 10), SpaceCheck::Unknown);
    assert_eq!(total_size(&vec![1, 2, 3]), 6);
    assert_eq!(total_size(&vec![u64::MAX, 3]), u64::MAX);
}

#[test]
fn the_mapping_limit_is_read() {
    assert_eq!(
        check_mapping_limit("65530\n", 64),
        MappingLimit::Enough { limit: 65530, needed: 4096 }
    );
    assert_eq!(
        check_mapping_limit(" 1000 ", 2),
        MappingLimit::TooLow { limit: 1000, needed: 1024 }
    );
    assert_eq!(check_mapping_limit("lots", 2), MappingLimit::Unreadable);
}

#[test]
fn inputs_are_resolved() {
    let files = InputSelector {
        input: vec!["b".to_string(), "a".to_string()],
        chunk_dir: None,
    };
    assert_eq!(resolve_inputs(&files, None).unwrap(), vec!["b", "a"]);
    let dir = InputSelector {
        input: vec![],
        chunk_dir: Some("c".to_string()),
    };
    assert_eq!(
        resolve_inputs(&dir, Some(2)).unwrap(),
        vec!["c/chunk_01.txt", "c/chunk_02.txt"]
    );
    assert_eq!(said(resolve_inputs(&dir, Some(0))), "--chunks must be at least 1");
    assert_eq!(said(resolve_inputs(&dir, None)), "--chunk-dir requires --chunks");
    let none = InputSelector {
        input: vec![],
        chunk_dir: None,
    };
    assert_eq!(
        said(resolve_inputs(&none, None)),
        "no input files selected; pass -i FILE... or --chunk-dir DIR --chunks N"
    );
    let paths = vec!["a".to_string(), "b".to_string(), "c".to_string()];
    check_files(&paths, &vec![true, true, true], "chunk").expect("all there");
    assert_eq!(
        said(check_files(&paths, &vec![true, false, false], "chunk")),
        "chunk file not found: b"
    );
}

fn build(chunks: usize, from_stage: Option<StageArg>) -> BuildArgs {
    BuildArgs {
        chunks,
        chunk_dir: "chunks".to_string(),
        graph_dir: "graph/".to_string(),
        no_text_edge_list: false,
        no_node_map: false,
        sort_algo: SortAlgoArg::Pdq,
        max_tx_id: Some(9),
        on_missing_source: OnMissingSourceArg::Skip,
        num_nodes: NumNodesSpec::FromArcs,
        progress_every: 7,
        parallel: true,
        allow_empty: false,
        verify: VerifyArg::Full,
        from_stage,
    }
}

#[test]
fn a_build_names_its_files() {
    let names = build_names(&build(2, None), "tmp").unwrap();
    assert_eq!(names.chunks, vec!["chunks/chunk_01.txt", "chunks/chunk_02.txt"]);
    assert_eq!(names.node_map, "graph/pg_nm_2.tsv");
    assert_eq!(names.edge_list, "graph/pg_el_2.tsv");
    assert_eq!(names.output_prefix, "graph/pg_2");
    assert_eq!(names.arcs, "tmp/pg_2_arcs.bin");
    match build_names(&build(0, None), "tmp") {
        Err(Error::Other(msg)) => assert_eq!(msg, "N must be a positive integer"),
        _ => panic!("zero chunks were accepted"),
    }
    assert_eq!(temp_graph_name("graph/pg_2", 5), "pg_2-pgtmp5");
    assert_eq!(temp_graph_name("..", 5), "pg-pgtmp5");
    assert_eq!(kept_arcs_path("t", "g/x"), "t/x_arcs.bin");
}

#[test]
fn a_build_is_planned() {
    let whole = build(1, None);
    let names = build_names(&whole, "tmp").unwrap();
    match plan_build(&whole, names, false, false).unwrap() {
        BuildPlan::Whole(b) => {
            assert_eq!(b.inputs.input, vec!["chunks/chunk_01.txt"]);
            assert_eq!(b.inputs.chunk_dir, None);
            assert_eq!(b.node_map, "graph/pg_nm_1.tsv");
            assert_eq!(b.edge_list, "graph/pg_el_1.tsv");
            assert_eq!(b.output_prefix, "graph/pg_1");
            assert_eq!(b.max_tx_id, Some(9));
            assert_eq!(b.progress_every, 7);
            assert_eq!(b.num_nodes, NumNodesSpec::FromArcs);
            assert_eq!(b.verify, VerifyArg::Full);
        }
        other => panic!("expected the whole build, got {other:?}"),
    }
    let sort = build(1, Some(StageArg::SortEdges));
    match plan_build(&sort, build_names(&sort, "tmp").unwrap(), true, false).unwrap() {
        BuildPlan::SortAndCompress(s, c) => {
            assert_eq!(s.input, "tmp/pg_1_arcs.bin");
            assert_eq!(s.edge_list, Some("graph/pg_el_1.tsv".to_string()));
            assert_eq!(s.sort_algo, SortAlgoArg::Pdq);
            assert!(!s.no_dedup);
            assert_eq!(c.input, "graph/pg_el_1.tsv");
            assert_eq!(c.node_map, Some("graph/pg_nm_1.tsv".to_string()));
            assert!(c.parallel);
        }
        other => panic!("expected a sort, got {other:?}"),
    }
    assert_eq!(
        said(plan_build(&sort, build_names(&sort, "tmp").unwrap(), false, true)),
        "--from-stage sort-edges needs tmp/pg_1_arcs.bin, which a previous run with \
         --keep-intermediate would have left there"
    );
    let mut mute = build(1, Some(StageArg::SortEdges));
    mute.no_text_edge_list = true;
    assert_eq!(
        said(plan_build(&mute, build_names(&mute, "tmp").unwrap(), true, true)),
        "--from-stage sort-edges with --no-text-edge-list has nothing to produce"
    );
    let comp = build(1, Some(StageArg::Compress));
    assert!(matches!(
        plan_build(&comp, build_names(&comp, "tmp").unwrap(), false, true),
        Ok(BuildPlan::CompressOnly(_))
    ));
    assert_eq!(
        said(plan_build(&comp, build_names(&comp, "tmp").unwrap(), true, false)),
        "--from-stage compress needs graph/pg_el_1.tsv, which a previous run would have written"
    );
}

#[test]
fn a_graph_is_put_in_place_file_by_file() {
    assert_eq!(graph_extensions(false), vec!["graph", "offsets", "properties"]);
    assert_eq!(graph_extensions(true), vec!["graph", "offsets", "properties", "ef"]);
    assert!(check_graph_file("g.graph", false, true).unwrap());
    assert!(check_graph_file("g.ef", true, true).unwrap());
    assert!(!check_graph_file("g.ef", true, false).unwrap());
    assert_eq!(
        said(check_graph_file("g.graph", false, false)),
        "the compressor did not produce g.graph; treating the run as incomplete (webgraph writes \
         .properties last, so a missing one means a crash)"
    );
}

#[test]
fn options_are_taken_over() {
    let s = split_opts(&SplitArgs {
        input: "i".to_string(),
        output_dir: "o".to_string(),
        start: "2009-01-01".to_string(),
        end: "2010-01-01".to_string(),
        months: 6,
        tz: "utc".to_string(),
        append: true,
        no_create_empty: true,
        skip_out_of_range: false,
        show_boundaries: false,
    });
    assert_eq!((s.start.as_str(), s.end.as_str()), ("2009-01-01", "2010-01-01"));
    assert_eq!((s.months, s.tz.as_str()), (6, "utc"));
    assert!(s.append && !s.create_empty && !s.skip_out_of_range);
    let common = CommonOpts {
        threads: None,
        memory: None,
        tmp_dir: "t".to_string(),
        log_dir: "l".to_string(),
        keep_intermediate: true,
        strict: false,
        lenient: false,
        verbose: 0,
        log_interval: 0,
        dry_run: false,
        stats: StatsArg::Brief,
    };
    let o = sort_opts(&common, SortAlgo::Pdq, false, 99, 3);
    assert_eq!((o.algo, o.dedup, o.memory_bytes, o.threads), (SortAlgo::Pdq, false, 99, 3));
    assert_eq!(o.tmp_dir, "t");
    assert!(o.keep_intermediate);
    let nothing = SortEdgesArgs {
        input: "i".to_string(),
        input_format: InputFormatArg::Auto,
        edge_list: None,
        sorted_arcs: None,
        sort_algo: SortAlgoArg::Radix,
        no_dedup: false,
    };
    assert_eq!(
        said(check_sort_outputs(&nothing)),
        "nothing to do: pass --edge-list FILE and/or --sorted-arcs FILE"
    );
    let some = SortEdgesArgs {
        sorted_arcs: Some("s".to_string()),
        ..nothing
    };
    check_sort_outputs(&some).expect("one output is enough");
}

#[test]
fn arc_files_are_scanned() {
    let tsv = b"0\t7\n3\t2\n";
    assert_eq!(scan_arcs("f", tsv, ArcFileFormat::Tsv).unwrap(), (2, 7));
    assert_eq!(scan_arcs("f", b"", ArcFileFormat::Tsv).unwrap(), (0, 0));
    assert!(scan_arcs("f", b"x\n", ArcFileFormat::Tsv).is_err());
    assert!(scan_arcs("f", b"x\n", ArcFileFormat::Binary).is_err());
    assert_eq!(
        resolve_format(InputFormatArg::Auto, "f", 8, tsv).unwrap(),
        ArcFileFormat::Tsv
    );
    assert_eq!(
        resolve_format(InputFormatArg::Binary, "f", 8, tsv).unwrap(),
        ArcFileFormat::Binary
    );
    assert_eq!(
        resolve_format(InputFormatArg::Tsv, "f", 1, &[0xFF]).unwrap(),
        ArcFileFormat::Tsv
    );
    assert_eq!(nodes_from_arcs(2, 7), 8);
    assert_eq!(nodes_from_arcs(0, 0), 0);
    let mut scan = ArcScan::new();
    scan.note(4, 1);
    scan.note(0, 9);
    assert_eq!(scan.result(), (2, 9));
}

#[test]
fn node_counts_are_resolved() {
    assert_eq!(resolve_num_nodes(NumNodesSpec::FromArcs, None, 5).unwrap(), 5);
    assert_eq!(resolve_num_nodes(NumNodesSpec::Explicit(6), None, 5).unwrap(), 6);
    assert_eq!(
        resolve_num_nodes(NumNodesSpec::NodeMap, Some(("m", 9)), 5).unwrap(),
        9
    );
    let small = "--num-nodes 4 is smaller than the 5 nodes the arcs require; webgraph would \
                 silently drop the out-of-range arcs";
    assert_eq!(said(resolve_num_nodes(NumNodesSpec::Explicit(4), None, 5)), small);
    assert_eq!(said(built_num_nodes(NumNodesSpec::Explicit(4), 9, 5)), small);
    assert_eq!(
        said(resolve_num_nodes(NumNodesSpec::NodeMap, None, 5)),
        "--num-nodes node-map requires --node-map FILE"
    );
    assert_eq!(
        said(resolve_num_nodes(NumNodesSpec::NodeMap, Some(("m", 4)), 5)),
        "the node map at m declares 4 nodes, fewer than the 5 the arcs require; the two files do \
         not belong to the same run"
    );
    assert_eq!(built_num_nodes(NumNodesSpec::NodeMap, 9, 5).unwrap(), 9);
    assert_eq!(built_num_nodes(NumNodesSpec::FromArcs, 9, 5).unwrap(), 5);
}

#[test]
fn a_node_map_is_read_back() {
    let mut map = DenseNodeMap::new(Mode::Strict);
    let mut ids: Vec<NodeId> = Vec::new();
    map.register_tx(3, 2, 1, &mut ids).unwrap();
    map.register_tx(4, 1, 2, &mut ids).unwrap();
    map.force_create(1, 0, 3).unwrap();
    let mut file = Vec::new();
    map.write_tsv(&mut file).unwrap();
    assert_eq!(node_map_next_id("m", &file).unwrap(), map.next_id());
    assert_eq!(node_map_next_id("m", b"0\t0\t5\r\n\n0\t1\t3\n").unwrap(), 6);
    assert_eq!(said(node_map_next_id("m", b"")), "the node map m is empty");
    assert_eq!(
        said(node_map_next_id("m", b"0\t0\t1\n0\t1\tx\n")),
        "node map m line 2: third column \"x\" is not an integer"
    );
    assert_eq!(
        said(next_id_from("m", Some(u64::MAX))),
        "node map m: node id 18446744073709551615 is out of range"
    );
    assert_eq!(read_id_line(b"0\t0\t7\n", "m", 1).unwrap(), Some(7));
    assert_eq!(read_id_line(b"\n", "m", 1).unwrap(), None);
    assert!(matches!(read_id_line(&[0xFF], "m", 1), Err(Error::Io { .. })));
    assert_eq!(larger_id(None, 0), Some(0));
    assert_eq!(larger_id(Some(3), 2), Some(3));
    assert_eq!(larger_id(Some(3), 4), Some(4));
}

const CHAIN: &[u8] = b"1,0,0,1,0,0,0::a,1,1;b,2,2\n\
                       2,1,1,0,0,0,0:x,5,0,0;y,5,0,1:p,1,1\n\
                       3,1,2,0,0,0,0:x,5,0,0;y,5,0,0:p,1,1;q,1,1\n";

#[test]
fn a_graph_is_built_in_one_go() {
    let g = build_graph(
        CHAIN,
        EdgeListOpts::default(),
        SortOpts::default(),
        Some(2),
        NumNodesSpec::NodeMap,
        false,
    )
    .ok()
    .expect("built");
    assert_eq!(g.stats.tx_count, 3);
    assert_eq!(g.stats.edge_count, 6);
    assert_eq!(g.stats.distinct_nodes, 5);
    assert_eq!(g.num_nodes, 5);
    assert_eq!(g.sort_stats.raw_arcs, 6);
    assert_eq!(g.sort_stats.distinct_arcs, 4);
    let mut out = Vec::new();
    g.sorted.write_tsv(&mut out);
    assert_eq!(out, b"0\t2\n0\t3\n0\t4\n1\t2\n");
    assert_eq!(g.node_map.next_id(), 5);
    let from_arcs = build_graph(
        CHAIN,
        EdgeListOpts::default(),
        SortOpts::default(),
        None,
        NumNodesSpec::FromArcs,
        false,
    );
    assert_eq!(from_arcs.ok().expect("built").num_nodes, 5);
}

#[test]
fn a_graph_without_arcs_is_refused() {
    let build = |input: &[u8], nodes, allow| {
        build_graph(
            input,
            EdgeListOpts::default(),
            SortOpts::default(),
            None,
            nodes,
            allow,
        )
    };
    let coinbase = b"1,0,0,1,0,0,0::a,1,1\n";
    assert!(matches!(
        build(coinbase, NumNodesSpec::NodeMap, false),
        Err(Error::EmptyEdgeList)
    ));
    let empty = build(coinbase, NumNodesSpec::NodeMap, true).ok().expect("allowed");
    assert_eq!(empty.num_nodes, 1);
    assert_eq!(empty.sorted.num_arcs(), 0);
    assert!(matches!(
        build(b"x\n", NumNodesSpec::NodeMap, false),
        Err(Error::BadSectionCount { line: 1, found: 1 })
    ));
    assert!(matches!(
        build(CHAIN, NumNodesSpec::Explicit(2), false),
        Err(Error::Other(_))
    ));
}

#[test]
fn arcs_are_built_with_a_sorter_at_hand() {
    let input = b"1231006505,0,0,1,0,204,0::0,5000000000,1\n\
                  1231006600,1,1,0,0,0,0:0,50,0,0:0,50,1;0,50,2\n";
    let mut map = DenseNodeMap::new(Mode::Strict);
    let sorter = ArcSorter::with_pool(SortOpts::default(), None).unwrap();
    let b = build_arcs(
        input,
        &mut map,
        sorter,
        EdgeListOpts::default(),
        NumNodesSpec::NodeMap,
        false,
    )
    .unwrap();
    assert_eq!((b.num_nodes, b.sorted.num_arcs(), map.next_id()), (3, 2, 3));
    assert_eq!((b.stats.tx_count, b.sort_stats.raw_arcs), (2, 2));
    let sorter = ArcSorter::with_pool(SortOpts::default(), None).unwrap();
    let refused = build_arcs(
        b"",
        &mut map,
        sorter,
        EdgeListOpts::default(),
        NumNodesSpec::FromArcs,
        false,
    );
    assert!(matches!(refused, Err(Error::EmptyEdgeList)));
}
