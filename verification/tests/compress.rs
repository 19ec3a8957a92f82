use utxo2webgraph::arcs::sort_file;
use utxo2webgraph::cli::NumNodesSpec;
use utxo2webgraph::compress::{
    check_arc_set, check_complete, check_request, compressor_outcome, find_property,
    graph_length_bits, parallel_arcs, parallel_result, parse_length, read_property,
    sanitize_basename, sequential_outcome, sequential_result, verify_begin, verify_count,
    verify_header, CompressOpts, CompressStats, CompressorReply, Validate, VerifyLevel, VerifyStep,
};
use utxo2webgraph::edge_list::EdgeListOpts;
use utxo2webgraph::path::{file_name, leaves_working_dir, path_join};
use utxo2webgraph::pipeline::build_graph;
use utxo2webgraph::sorter::SortOpts;
use utxo2webgraph::{Error, NodeId};

fn validate(num_nodes: usize, arcs: &[(NodeId, NodeId)]) -> (u64, Option<Error>) {
    let mut check = Validate::new(num_nodes);
    for &(s, d) in arcs {
        if let Err(e) = check.check(s, d) {
            return (check.count(), Some(e));
        }
    }
    (check.count(), None)
}

#[test]
fn basenames_with_a_dot_are_rejected() {
    assert!(sanitize_basename("graph/pg_1.5").is_err());
    assert!(sanitize_basename("graph/pg_1").is_ok());
    // A dot in a *directory* is harmless: only the file name is rewritten.
    assert!(sanitize_basename("a.b/pg_1").is_ok());
}

#[test]
fn there_is_no_node_count_ceiling() {
    for n in [
        2_181_021_971usize,
        i32::MAX as usize + 1,
        u32::MAX as usize + 1,
        usize::MAX,
    ] {
        let (count, bad) = validate(n, &[(0, n - 1)]);
        assert_eq!(count, 1);
        assert!(bad.is_none(), "{n} nodes must be accepted, got {bad:?}");
    }
    check_request("dir/huge", 1, false).expect("no node count is refused");
}

#[test]
fn unsorted_input_is_an_error_not_a_panic() {
    let (_, bad) = validate(2, &[(1, 0), (0, 1)]);
    let err = sequential_outcome(bad, CompressorReply::Wrote(8)).expect_err("must reject");
    match err {
        Error::UnsortedArcs {
            p_src,
            p_dst,
            c_src,
            c_dst,
        } => {
            assert_eq!((p_src, p_dst), (1, 0));
            assert_eq!((c_src, c_dst), (0, 1));
        }
        other => panic!("expected UnsortedArcs, got {other:?}"),
    }
}

#[test]
fn out_of_bounds_destination_is_rejected() {
    let (_, bad) = validate(2, &[(0, 5)]);
    match bad.expect("must reject") {
        Error::ArcOutOfBounds {
            src,
            dst,
            num_nodes,
        } => {
            assert_eq!((src, dst, num_nodes), (0, 5, 2));
        }
        other => panic!("expected ArcOutOfBounds, got {other:?}"),
    }
}

#[test]
fn empty_input_is_rejected_unless_allowed() {
    let err = check_request("dir/empty", 0, false).expect_err("must reject");
    assert!(matches!(err, Error::EmptyEdgeList));
    check_request("dir/empty", 0, true).expect("allowed");
}

#[test]
fn self_loops_and_isolated_nodes_are_let_past() {
    let (count, bad) = validate(5, &[(0, 0), (1, 1)]);
    assert_eq!(count, 2);
    assert!(bad.is_none());
    let (count, bad) = validate(5, &[(0, 1), (0, 1)]);
    assert_eq!(count, 1);
    assert!(matches!(bad, Some(Error::UnsortedArcs { .. })), "a repeat is refused");
}

#[test]
fn an_arc_set_is_checked_before_a_compression() {
    let (sorted, _) = sort_file("a", b"0\t5\n1\t2\n", SortOpts::default()).unwrap();
    check_arc_set(&sorted, "g/pg", 6, false).expect("fits");
    match check_arc_set(&sorted, "g/pg", 5, false) {
        Err(Error::Other(msg)) => assert_eq!(
            msg,
            "the arc set references node 5 but the graph was asked for only 5 nodes; pass \
             --num-nodes from-arcs (which would give 6) or a larger explicit value"
        ),
        other => panic!("expected an error, got {other:?}"),
    }
    assert!(matches!(
        check_arc_set(&sorted, "g/p.g", 5, false),
        Err(Error::BadBasename(_))
    ));
    let (none, _) = sort_file("a", b"", SortOpts::default()).unwrap();
    assert!(matches!(
        check_arc_set(&none, "g/pg", 5, false),
        Err(Error::EmptyEdgeList)
    ));
}

#[test]
fn an_empty_arc_set_that_is_permitted_fits_no_nodes() {
    let (none, stats) = sort_file("a", b"", SortOpts::default()).unwrap();
    assert_eq!((stats.raw_arcs, stats.max_node_id), (0, 0));
    check_arc_set(&none, "g", 0, true).expect("no arcs, no nodes");
    check_arc_set(&none, "g", 7, true).expect("no arcs, some nodes");
    assert!(matches!(
        check_arc_set(&none, "g", 0, false),
        Err(Error::EmptyEdgeList)
    ));
    assert!(matches!(
        check_arc_set(&none, "g.g", 0, true),
        Err(Error::BadBasename(_))
    ));
    // One arc between node 0 and itself does need a node.
    let (one, _) = sort_file("a", b"0\t0\n", SortOpts::default()).unwrap();
    assert!(matches!(check_arc_set(&one, "g", 0, true), Err(Error::Other(_))));
    check_arc_set(&one, "g", 1, true).expect("fits");

    let none = build_graph(
        b"",
        EdgeListOpts::default(),
        SortOpts::default(),
        None,
        NumNodesSpec::FromArcs,
        true,
    );
    let g = none.expect("an empty graph");
    assert_eq!((g.num_nodes, g.sorted.num_arcs()), (0, 0));
    check_arc_set(&g.sorted, "g", g.num_nodes, true).expect("an empty graph");
    let stats = sequential_result(
        None,
        CompressorReply::Wrote(8),
        "g.properties",
        true,
        g.num_nodes,
        g.sorted.num_arcs(),
    )
    .unwrap();
    assert_eq!((stats.nodes, stats.arcs), (0, 0));
}

#[test]
fn a_compressor_that_fails_is_reported() {
    assert_eq!(sequential_outcome(None, CompressorReply::Wrote(40)).unwrap(), 40);
    assert!(matches!(
        sequential_outcome(Some(Error::EmptyEdgeList), CompressorReply::Wrote(40)),
        Err(Error::EmptyEdgeList)
    ));
    match compressor_outcome(CompressorReply::Panicked("boom".to_string())) {
        Err(Error::CompressorPanic(msg)) => assert_eq!(msg, "boom"),
        other => panic!("expected CompressorPanic, got {other:?}"),
    }
    match compressor_outcome(CompressorReply::Failed("no disk".to_string())) {
        Err(Error::Other(msg)) => assert_eq!(msg, "could not compress the graph: no disk"),
        other => panic!("expected Other, got {other:?}"),
    }
    check_complete("g.properties", true).expect("complete");
    match check_complete("g.properties", false) {
        Err(Error::Other(msg)) => assert_eq!(
            msg,
            "g.properties was not written: the compression did not run to completion"
        ),
        other => panic!("expected Other, got {other:?}"),
    }
}

#[test]
fn a_compression_ends_in_its_statistics() {
    let stats = CompressStats { nodes: 5, arcs: 7, bits: 40 };
    let wrote = || CompressorReply::Wrote(40);
    let p = "g.properties";
    assert_eq!(sequential_result(None, wrote(), p, true, 5, 7).unwrap(), stats);
    assert!(matches!(
        sequential_result(Some(Error::EmptyEdgeList), wrote(), p, true, 5, 7),
        Err(Error::EmptyEdgeList)
    ));
    match sequential_result(None, wrote(), p, false, 5, 7) {
        Err(Error::Other(msg)) => assert_eq!(
            msg,
            "g.properties was not written: the compression did not run to completion"
        ),
        other => panic!("expected Other, got {other:?}"),
    }
    match sequential_result(None, CompressorReply::NotSorted("x".to_string()), p, true, 5, 7) {
        Err(Error::Other(msg)) => assert_eq!(msg, "could not sort the arcs: x"),
        other => panic!("expected Other, got {other:?}"),
    }
    assert_eq!(
        parallel_result(40, Some("7".to_string()), false, p, true, 5).unwrap(),
        stats
    );
    assert!(matches!(
        parallel_result(40, None, false, p, true, 5),
        Err(Error::EmptyEdgeList)
    ));
    assert!(matches!(
        parallel_result(40, Some("7".to_string()), false, p, false, 5),
        Err(Error::Other(_))
    ));
}

const PROPS: &str = "#BVGraph properties\n! another comment\nnodes=5\n arcs = 7 \nlength=40\nk=a=b\n";

#[test]
fn properties_are_found_by_key() {
    assert_eq!(find_property(PROPS, "nodes"), Some("5".to_string()));
    assert_eq!(find_property(PROPS, "arcs"), Some("7".to_string()));
    assert_eq!(find_property(PROPS, "k"), Some("a=b".to_string()));
    assert_eq!(find_property(PROPS, "missing"), None);
    assert_eq!(find_property("#nodes=5", "#nodes"), None);
    let mut raw = vec![0xFF, b'\n'];
    raw.extend_from_slice(PROPS.as_bytes());
    assert_eq!(read_property(&raw, "nodes"), Some("5".to_string()));
    assert_eq!(read_property(b"name=\xFFx", "name"), Some("\u{FFFD}x".to_string()));
}

#[test]
fn the_length_is_read_from_the_properties() {
    assert_eq!(graph_length_bits("g.properties", PROPS.as_bytes()).unwrap(), 40);
    match graph_length_bits("g.properties", b"nodes=5\n") {
        Err(Error::Other(msg)) => assert_eq!(msg, "g.properties: no 'length' property"),
        other => panic!("expected Other, got {other:?}"),
    }
    match parse_length("g.properties", Some("x\"".to_string())) {
        Err(Error::Other(msg)) => {
            assert_eq!(msg, "g.properties: 'length' is not an integer (\"x\\\"\")")
        }
        other => panic!("expected Other, got {other:?}"),
    }
}

#[test]
fn a_parallel_compression_declares_its_arcs() {
    assert_eq!(parallel_arcs(Some("7".to_string()), false).unwrap(), 7);
    assert_eq!(parallel_arcs(None, true).unwrap(), 0);
    assert!(matches!(
        parallel_arcs(Some("x".to_string()), false),
        Err(Error::EmptyEdgeList)
    ));
}

#[test]
fn a_graph_is_verified_step_by_step() {
    let p = "g.properties";
    assert_eq!(verify_begin(VerifyLevel::Off, p, false).unwrap(), VerifyStep::Done);
    assert_eq!(verify_begin(VerifyLevel::Quick, p, true).unwrap(), VerifyStep::Load);
    match verify_begin(VerifyLevel::Full, p, false) {
        Err(Error::Other(msg)) => assert_eq!(
            msg,
            "g.properties is missing; it is written last, so the compression did not finish"
        ),
        other => panic!("expected Other, got {other:?}"),
    }
    assert_eq!(
        verify_header("g", VerifyLevel::Quick, 5, Some(7), 5, 7).unwrap(),
        VerifyStep::Done
    );
    assert_eq!(
        verify_header("g", VerifyLevel::Full, 5, None, 5, 7).unwrap(),
        VerifyStep::Count
    );
    match verify_header("g", VerifyLevel::Full, 4, Some(6), 5, 7) {
        Err(Error::Other(msg)) => assert_eq!(msg, "g: the graph has 4 nodes, expected 5"),
        other => panic!("expected Other, got {other:?}"),
    }
    match verify_header("g", VerifyLevel::Full, 5, Some(6), 5, 7) {
        Err(Error::Other(msg)) => assert_eq!(msg, "g: the graph declares 6 arcs, expected 7"),
        other => panic!("expected Other, got {other:?}"),
    }
    verify_count("g", 7, 7).expect("as many");
    match verify_count("g", 8, 7) {
        Err(Error::Other(msg)) => assert_eq!(msg, "g: the graph contains 8 arcs, expected 7"),
        other => panic!("expected Other, got {other:?}"),
    }
}

#[test]
fn compression_defaults() {
    let o = CompressOpts::default();
    assert_eq!(o.verify, VerifyLevel::Quick);
    assert_eq!(o.memory_bytes, 256 << 20);
    assert_eq!(o.log_interval, 10_000);
    assert_eq!(VerifyLevel::default(), VerifyLevel::Quick);
    assert_eq!(
        CompressStats::default(),
        CompressStats { nodes: 0, arcs: 0, bits: 0 }
    );
}

#[test]
fn file_names_are_what_std_says() {
    for p in [
        "", "/", "a", "a/b", "a/b/", "a/b//", "/a", "..", "a/..", "a/.", "a/./", ".", "./", "a/./.",
        "a//b", "a.b/c", "./x", "é/ü",
    ] {
        let want = std::path::Path::new(p).file_name().map(|s| s.to_str().unwrap());
        assert_eq!(file_name(p), want, "{p:?}");
    }
}

#[test]
fn paths_are_joined_as_std_does() {
    for (d, n) in [("", "x"), ("a", "x"), ("a/", "x"), ("/", "x"), ("a/b", "x_1.txt")] {
        let want = std::path::Path::new(d).join(n);
        assert_eq!(path_join(d, n), want.to_str().unwrap(), "{d:?} {n:?}");
    }
}

#[test]
fn paths_outside_the_working_directory_are_told() {
    assert!(leaves_working_dir("/tmp"));
    assert!(leaves_working_dir("../x"));
    assert!(leaves_working_dir("a/../x"));
    assert!(leaves_working_dir(".."));
    assert!(!leaves_working_dir("a/b"));
    assert!(!leaves_working_dir("./a"));
    assert!(!leaves_working_dir("a..b/c"));
    assert!(!leaves_working_dir(""));
}
