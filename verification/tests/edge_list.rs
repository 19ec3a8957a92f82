use utxo2webgraph::arcs::TsvArcSink;
use utxo2webgraph::edge_list::{
    build_edge_list, line_fits, process_line, progress_due, progress_line, stats_lines, EdgeListOpts,
    EdgeListStats,
};
use utxo2webgraph::nodemap::DenseNodeMap;
use utxo2webgraph::{Error, Mode, NodeId, OnMissingSource, StatsStyle};

/// The arcs in a sink, in emission order.
fn arcs_in(sink: &mut TsvArcSink) -> Vec<(NodeId, NodeId)> {
    String::from_utf8(sink.take_bytes())
        .unwrap()
        .lines()
        .map(|l| {
            let (src, dst) = l.split_once('\t').unwrap();
            (src.parse().unwrap(), dst.parse().unwrap())
        })
        .collect()
}

fn run(input: &str, opts: EdgeListOpts) -> (EdgeListStats, Vec<(NodeId, NodeId)>, NodeId) {
    let mut map = DenseNodeMap::new(opts.mode);
    let mut sink = TsvArcSink::new();
    let stats = build_edge_list(input.as_bytes(), &mut map, &mut sink, opts).unwrap();
    (stats, arcs_in(&mut sink), map.next_id())
}

fn quiet() -> EdgeListOpts {
    EdgeListOpts {
        quiet_stats: true,
        ..Default::default()
    }
}

#[test]
fn invalid_utf8_is_lossy_when_lenient_and_line_numbered_when_strict() {
    let mut input: Vec<u8> = Vec::new();
    input.extend_from_slice(b"1231006505,0,0,1,0,204,0::0,5000000000,1\n");
    // A second, well-formed record whose trailing output label is garbage.
    input.extend_from_slice(b"1231006600,1,1,0,0,0,0:0,50,0,0:");
    input.extend_from_slice(&[0xFF, 0xFE]);
    input.extend_from_slice(b",1,1\n");

    // Lenient: the bad bytes are in a label field nobody parses, so the
    // record still yields its arc.
    let mut map = DenseNodeMap::new(Mode::Lenient);
    let mut sink = TsvArcSink::new();
    let stats = build_edge_list(
        input.as_slice(),
        &mut map,
        &mut sink,
        EdgeListOpts {
            mode: Mode::Lenient,
            quiet_stats: true,
            ..Default::default()
        },
    )
    .expect("a lenient run survives a stray byte");
    assert_eq!(stats.tx_count, 2);
    assert_eq!(stats.non_utf8_lines, 1);
    assert_eq!(arcs_in(&mut sink), vec![(0, 1)]);

    // Strict: a typed error that names the line and the byte offset.
    let mut map = DenseNodeMap::new(Mode::Strict);
    let mut sink = TsvArcSink::new();
    let err = build_edge_list(
        input.as_slice(),
        &mut map,
        &mut sink,
        EdgeListOpts {
            quiet_stats: true,
            ..Default::default()
        },
    )
    .expect_err("strict mode reports it");
    match err {
        Error::InvalidUtf8 { line, offset } => {
            assert_eq!(line, 2);
            assert_eq!(offset, 32);
        }
        other => panic!("expected InvalidUtf8, got {other:?}"),
    }
}

#[test]
fn genesis_only() {
    let (stats, arcs, next_id) = run("1231006505,0,0,1,0,204,0::0,5000000000,1\n", quiet());
    assert_eq!(stats.tx_count, 1);
    assert_eq!(stats.node_slots, 1);
    assert_eq!(stats.edge_count, 0);
    assert_eq!(stats.distinct_nodes, 1);
    assert_eq!(next_id, 1);
    assert!(arcs.is_empty());
}

#[test]
fn two_line_chain() {
    let input = "1231006505,0,0,1,0,204,0::0,5000000000,1\n\
                 1231006600,1,1,0,0,0,0:0,50,0,0:a,1,1;b,2,2\n";
    let (stats, arcs, _) = run(input, quiet());
    assert_eq!(arcs, vec![(0, 1), (0, 2)]);
    assert_eq!(stats.node_slots, 3);
    assert_eq!(stats.edge_count, 2);
    assert_eq!(stats.tx_count, 2);
}

#[test]
fn complete_bipartite_join_is_input_major() {
    let input = "1,0,0,1,0,0,0::a,1,1;b,2,2\n\
                 2,1,1,0,0,0,0:x,5,0,0;y,5,0,1:p,1,1;q,2,2;r,3,3\n";
    let (stats, arcs, _) = run(input, quiet());
    assert_eq!(arcs, vec![(0, 2), (0, 3), (0, 4), (1, 2), (1, 3), (1, 4)]);
    assert_eq!(stats.edge_count, 6);
    assert_eq!(stats.node_slots, 5);
}

#[test]
fn self_spend_yields_a_self_loop() {
    // The outputs are registered before the inputs are resolved, so the
    // lookup succeeds.
    let input = "1,0,0,0,0,0,0:h,5,0,0:a,1,1\n";
    let (stats, arcs, _) = run(input, quiet());
    assert_eq!(arcs, vec![(0, 0)]);
    assert_eq!(stats.edge_count, 1);
}

#[test]
fn duplicate_inputs_emit_duplicate_arcs() {
    // Dedup is the sorter's job, not this stage's.
    let input = "1,0,0,1,0,0,0::a,1,1\n\
                 2,1,1,0,0,0,0:x,5,0,0;y,5,0,0:b,2,2\n";
    let (_, arcs, _) = run(input, quiet());
    assert_eq!(arcs, vec![(0, 1), (0, 1)]);
}

#[test]
fn zero_outputs_emit_no_edge_into_node_zero() {
    let input = "1,0,0,1,0,0,0::a,1,1\n\
                 2,1,1,0,0,0,0:x,5,0,0::trailing\n";
    let opts = EdgeListOpts {
        mode: Mode::Lenient,
        ..quiet()
    };
    let (stats, arcs, _) = run(input, opts);
    assert!(arcs.is_empty(), "no phantom edge into node 0");
    assert_eq!(stats.zero_output_txs, 1);
    assert_eq!(stats.edge_count, 0);
    assert_eq!(stats.node_slots, 1);
}

#[test]
fn blank_lines_are_tallied_not_fatal() {
    let input = "1,0,0,1,0,0,0::a,1,1\n\n   \n";
    let (stats, _, _) = run(input, quiet());
    assert_eq!(stats.tx_count, 1);
    assert_eq!(stats.blank_lines, 2);
    assert_eq!(stats.skipped_lines, 0);
}

#[test]
fn dangling_source_fails_by_default() {
    let input = "1,0,0,1,0,0,0::a,1,1\n\
                 2,1,1,0,0,0,0:x,5,999,0:b,2,2\n";
    let mut map = DenseNodeMap::new(Mode::Strict);
    let mut sink = TsvArcSink::new();
    match build_edge_list(input.as_bytes(), &mut map, &mut sink, quiet()) {
        Err(Error::DanglingSource {
            line: 2,
            tx_id: 1,
            index: 0,
            prev_tx_id: 999,
            prev_offset: 0,
        }) => {}
        other => panic!("expected DanglingSource, got {other:?}"),
    }
}

#[test]
fn dangling_source_can_be_skipped() {
    let input = "1,0,0,1,0,0,0::a,1,1\n\
                 2,1,1,0,0,0,0:x,5,999,0:b,2,2\n";
    let opts = EdgeListOpts {
        on_missing_source: OnMissingSource::Skip,
        ..quiet()
    };
    let (stats, arcs, next_id) = run(input, opts);
    assert!(arcs.is_empty());
    assert_eq!(stats.dangling_refs, 1);
    assert_eq!(next_id, 2);
}

#[test]
fn dangling_source_can_be_created() {
    let input = "1,0,10,1,0,0,0::a,1,1\n\
                 2,1,11,0,0,0,0:x,0,5,0:b,2,2\n";
    let opts = EdgeListOpts {
        on_missing_source: OnMissingSource::Create,
        ..quiet()
    };
    let (stats, arcs, next_id) = run(input, opts);
    // tx 11's own output took id 1, so the minted node is id 2.
    assert_eq!(arcs, vec![(2, 1)]);
    assert_eq!(stats.dangling_refs, 1);
    assert_eq!(next_id, 3);
}

#[test]
fn forward_dangling_source_cannot_be_created() {
    // tx 0 spends (5, 0); transaction 5 arrives three lines later.
    let input = "1,0,0,1,0,0,0:x,0,5,0:a,1,1\n\
                 1,0,1,1,0,0,0::a,1,1\n\
                 1,0,2,1,0,0,0::a,1,1\n\
                 1,0,3,1,0,0,0::a,1,1\n\
                 1,0,4,1,0,0,0::a,1,1\n\
                 1,0,5,1,0,0,0::a,1,1\n";
    let opts = EdgeListOpts {
        on_missing_source: OnMissingSource::Create,
        ..quiet()
    };
    let mut map = DenseNodeMap::new(Mode::Strict);
    let mut sink = TsvArcSink::new();
    match build_edge_list(input.as_bytes(), &mut map, &mut sink, opts) {
        Err(Error::ForwardForcedNode {
            line: 1,
            tx_id: 5,
            offset: 0,
            reached: 0,
        }) => {}
        other => panic!("expected ForwardForcedNode, got {other:?}"),
    }

    // And the same input is fine under the two non-minting policies.
    let (stats, arcs, next_id) = run(
        input,
        EdgeListOpts {
            on_missing_source: OnMissingSource::Skip,
            ..quiet()
        },
    );
    assert!(arcs.is_empty());
    assert_eq!(stats.dangling_refs, 1);
    assert_eq!(next_id, 6);
}

#[test]
fn strict_mode_reports_the_offending_line() {
    let input = "1,0,0,1,0,0,0::a,1,1\n\
                 not-a-record\n";
    let mut map = DenseNodeMap::new(Mode::Strict);
    let mut sink = TsvArcSink::new();
    match build_edge_list(input.as_bytes(), &mut map, &mut sink, quiet()) {
        Err(Error::BadSectionCount { line: 2, found: 1 }) => {}
        other => panic!("expected BadSectionCount, got {other:?}"),
    }
}

#[test]
fn a_lenient_pass_skips_malformed_records_and_counts_them() {
    let input = "1,0,0,1,0,0,0::a,1,1\n\
                 not-a-record\n\
                 2,1,1,0,0,0,0:x,5,zero,0:b,2,2\n\
                 3,1,1,0,0,0,0:x,5,0,0:b,2,2\r\n";
    let opts = EdgeListOpts {
        mode: Mode::Lenient,
        ..quiet()
    };
    let (stats, arcs, next_id) = run(input, opts);
    assert_eq!(stats.skipped_lines, 2);
    assert_eq!(stats.tx_count, 2);
    assert_eq!(arcs, vec![(0, 1)]);
    assert_eq!(next_id, 2, "a skipped record registers nothing");
}

#[test]
fn a_coinbase_emits_nothing_but_registers_its_outputs() {
    let input = "1,0,0,1,0,0,0::a,1,1;b,2,2\n1,0,1,1,0,0,0::c,1,1\n";
    let (stats, arcs, next_id) = run(input, quiet());
    assert!(arcs.is_empty());
    assert_eq!(stats.edge_count, 0);
    assert_eq!(next_id, 3);
}

#[test]
fn a_last_line_without_a_line_feed_counts() {
    let (stats, _, _) = run("1,0,0,1,0,0,0::a,1,1", quiet());
    assert_eq!(stats.tx_count, 1);
    let (stats, arcs, next_id) = run("", quiet());
    assert_eq!(stats, EdgeListStats::default());
    assert!(arcs.is_empty());
    assert_eq!(next_id, 0);
}

#[test]
fn line_by_line_agrees_with_the_whole_pass() {
    let input = "1,0,0,1,0,0,0::a,1,1;b,2,2\n\n\
                 2,1,1,0,0,0,0:x,5,0,0;y,5,0,1:p,1,1;q,2,2;r,3,3\n";
    let (want, arcs, next_id) = run(input, quiet());
    let mut map = DenseNodeMap::new(Mode::Strict);
    let mut sink = TsvArcSink::new();
    let mut stats = EdgeListStats::default();
    let mut ids = Vec::new();
    for (i, line) in input.split_inclusive('\n').enumerate() {
        process_line(
            line.as_bytes(),
            i as u64 + 1,
            &mut map,
            &mut sink,
            quiet(),
            &mut stats,
            &mut ids,
        )
        .unwrap();
    }
    assert_eq!(arcs_in(&mut sink), arcs);
    assert_eq!(map.next_id(), next_id);
    stats.distinct_nodes = map.distinct_nodes();
    assert_eq!(stats, want);
}

#[test]
fn the_report_lines_are_exact() {
    assert_eq!(
        progress_line(1000, 7),
        "Processed: 1000 transactions (after 7 seconds).\n"
    );
    let stats = EdgeListStats {
        tx_count: 2,
        node_slots: 3,
        edge_count: 4,
        distinct_nodes: 5,
        skipped_lines: 6,
        blank_lines: 7,
        dangling_refs: 8,
        zero_output_txs: 9,
        non_utf8_lines: 10,
        elapsed_secs: 11,
    };
    assert_eq!(
        stats_lines(&stats, StatsStyle::Brief),
        "Processed: 2 transactions (after 11 seconds).\nNodes: 3\tEdges: 4\n"
    );
    assert_eq!(
        stats_lines(&stats, StatsStyle::Extended),
        "Processed: 2 transactions (after 11 seconds).\nNodes: 3\tEdges: 4\n\
         Distinct nodes: 5\tOutput slots: 3\n\
         Skipped lines: 6\tBlank lines: 7\tDangling refs: 8\tZero-output txs: 9\n"
    );
}

#[test]
fn progress_is_due_on_multiples_of_the_period() {
    let every = |progress_every, quiet_stats| EdgeListOpts {
        progress_every,
        quiet_stats,
        ..Default::default()
    };
    assert!(progress_due(20, &every(10, false)));
    assert!(!progress_due(21, &every(10, false)));
    assert!(!progress_due(20, &every(0, false)));
    assert!(!progress_due(20, &every(10, true)));
}

#[test]
fn a_failed_line_leaves_the_arcs_before_it_and_no_others() {
    let input = "1231006505,0,0,1,0,204,0::0,5000000000,1\n\
                 1231006600,1,1,0,0,0,0:0,50,0,0:0,50,1\n\
                 1231006700,2,2,0,0,0,0:0,50,9,9:0,50,1\n\
                 1231006800,3,3,0,0,0,0:0,50,1,0:0,50,1\n";
    let mut map = DenseNodeMap::new(Mode::Strict);
    let mut sink = TsvArcSink::new();
    match build_edge_list(input.as_bytes(), &mut map, &mut sink, quiet()) {
        Err(Error::DanglingSource { line, tx_id, prev_tx_id, prev_offset, .. }) => {
            assert_eq!((line, tx_id, prev_tx_id, prev_offset), (3, 2, 9, 9));
        }
        other => panic!("expected a dangling source, got {other:?}"),
    }
    assert_eq!(arcs_in(&mut sink), vec![(0, 1)]);
    assert_eq!(map.next_id(), 3);
}

#[test]
fn room_goes_by_inputs_and_outputs() {
    let map = DenseNodeMap::new(Mode::Strict);
    let full = |edge_count| EdgeListStats {
        edge_count,
        ..EdgeListStats::default()
    };
    // Long, but with two inputs and three outputs only: it makes six arcs.
    let long = format!("1,0,0,{}:0,0,0,0;0,0,0,1:a;b;c\n", "9".repeat(1000));
    let fits = |line: &[u8], mode, edge_count: u64| {
        let opts = EdgeListOpts { mode, ..quiet() };
        line_fits(line, 1, &map, edge_count, opts, &full(edge_count))
    };
    assert!(fits(long.as_bytes(), Mode::Strict, 0));
    assert!(fits(long.as_bytes(), Mode::Strict, u64::MAX - 6));
    assert!(!fits(long.as_bytes(), Mode::Strict, u64::MAX - 5));
    // Nothing is made of a line that is refused or skipped.
    assert!(fits(b"junk", Mode::Strict, u64::MAX));
    assert!(fits(b"junk", Mode::Lenient, u64::MAX));
    assert!(fits(b"\xFF", Mode::Strict, u64::MAX));
    assert!(!fits(b"\xFF", Mode::Lenient, u64::MAX));
    let worn = EdgeListStats {
        non_utf8_lines: u64::MAX,
        ..EdgeListStats::default()
    };
    assert!(!line_fits(b"", 1, &map, 0, quiet(), &worn));
}

#[test]
fn every_line_is_counted_once() {
    let input = "1231006505,0,0,1,0,204,0::0,5000000000,1\n\nnot a record\n  \n\
                 1231006600,1,1,0,0,0,0:0,50,0,0:0,50,1";
    let opts = EdgeListOpts {
        mode: Mode::Lenient,
        ..quiet()
    };
    let (stats, arcs, _) = run(input, opts);
    assert_eq!((stats.tx_count, stats.blank_lines, stats.skipped_lines), (2, 2, 1));
    assert_eq!(arcs, vec![(0, 1)]);
}
