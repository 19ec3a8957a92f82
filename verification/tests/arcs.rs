use utxo2webgraph::arcs::{
    detect_format, read_arc_line, read_binary_arcs, read_tsv_arcs, run_dir_prefix, run_file_name,
    sort_file, sort_file_with, stale_run_dir_owner, temp_file_name, write_arcs, ArcFileFormat, BinaryArcSink,
    NullArcSink, TsvArcSink,
};
use utxo2webgraph::merge::{count_merged, Merger, RunMerge};
use utxo2webgraph::sorter::{pool_threads, ArcSorter, SortOpts, SortedArcs};
use utxo2webgraph::{
    pack_arc, take_iter_error, unpack_arc, ArcSink, Error, NodeId, SortAlgo, ARC_RECORD_SIZE,
};

/// A fixed linear congruential generator.
struct Lcg(u64);

impl Lcg {
    fn next(&mut self) -> u64 {
        self.0 = self
            .0
            .wrapping_mul(6364136223846793005)
            .wrapping_add(1442695040888963407);
        self.0 >> 33
    }
}

/// The first node id that does not fit in 32 bits.
const OLD_CEILING: NodeId = 1 << 32;

fn listed(sorted: &SortedArcs) -> Vec<(NodeId, NodeId)> {
    let mut iter = sorted.iter();
    let mut got = Vec::new();
    while let Some(arc) = iter.next() {
        got.push(arc);
    }
    got
}

fn read_tsv_all(path: &str, input: &[u8]) -> (Vec<(NodeId, NodeId)>, utxo2webgraph::Result<()>) {
    let (mut iter, mut slot) = read_tsv_arcs(path, input);
    let mut got = Vec::new();
    while let Some(arc) = iter.next(&mut slot) {
        got.push(arc);
    }
    (got, take_iter_error(&mut slot))
}

fn read_binary_all(path: &str, input: &[u8]) -> utxo2webgraph::Result<Vec<(NodeId, NodeId)>> {
    let mut iter = read_binary_arcs(path, input)?;
    let mut got = Vec::new();
    while let Some(arc) = iter.next() {
        got.push(arc);
    }
    Ok(got)
}

fn sniff(path: &str, bytes: &[u8]) -> utxo2webgraph::Result<ArcFileFormat> {
    detect_format(path, bytes.len() as u64, &bytes[..bytes.len().min(4096)])
}

#[test]
fn arcs_pack_arc_round_trips_with_no_ceiling() {
    for &(s, d) in &[
        (OLD_CEILING, 0 as NodeId),
        (0, OLD_CEILING),
        (OLD_CEILING + 7, OLD_CEILING + 7),
        (0, 0),
        (1, 2),
        (9, 171),
        (778_613_437, 914),
        (OLD_CEILING - 1, OLD_CEILING - 1),
        (NodeId::MAX, NodeId::MAX),
    ] {
        assert_eq!(unpack_arc(pack_arc(s, d)), (s, d));
    }
    assert_eq!(unpack_arc(pack_arc(1, NodeId::MAX)), (1, NodeId::MAX));
    assert_eq!(ARC_RECORD_SIZE, std::mem::size_of::<u128>());
}

#[test]
fn stale_spill_directories_are_reaped_and_live_ones_are_not() {
    let me = 4242;
    // Process 0 is never a live one.
    assert_eq!(
        stale_run_dir_owner("utxo2webgraph-sort-0-abcdef", me),
        Some(0)
    );
    assert_eq!(
        stale_run_dir_owner(&format!("utxo2webgraph-sort-{me}-abcdef"), me),
        None,
        "a live process's directory must survive"
    );
    assert_eq!(
        stale_run_dir_owner("something-else", me),
        None,
        "unrelated directories are never touched"
    );
    assert_eq!(stale_run_dir_owner("utxo2webgraph-sort-17", me), None);
    assert_eq!(stale_run_dir_owner("utxo2webgraph-sort-x-abc", me), None);
    assert_eq!(stale_run_dir_owner("utxo2webgraph-sort-4294967296-a", me), None);
    assert_eq!(stale_run_dir_owner("utxo2webgraph-sort", me), None);
    let name = format!("{}xyz-1", run_dir_prefix(77));
    assert_eq!(name, "utxo2webgraph-sort-77-xyz-1");
    assert_eq!(stale_run_dir_owner(&name, me), Some(77));
}

#[test]
fn tsv_sink_is_canonical() {
    let mut sink = TsvArcSink::new();
    for &(s, d) in &[(9 as NodeId, 171 as NodeId), (9, 172), (172, 184)] {
        sink.push(s, d).expect("push");
    }
    sink.finish().expect("finish");
    let text = String::from_utf8(sink.take_bytes()).expect("text");
    assert_eq!(text, "9\t171\n9\t172\n172\t184\n");
    assert_eq!(sink.count(), 3);
}

/// 50 000 shuffled arcs with heavy duplication.
fn heavy_duplication_input() -> Vec<(NodeId, NodeId)> {
    let mut lcg = Lcg(0x5EED_1234);
    (0..50_000)
        .map(|_| ((lcg.next() % 400) as NodeId, (lcg.next() % 400) as NodeId))
        .collect()
}

/// A budget of `arcs * 2 * ARC_RECORD_SIZE` buffers exactly `arcs` arcs: the
/// factor two is the radix sort's scratch buffer.
fn budget_for(arcs: u64) -> u64 {
    arcs * 2 * ARC_RECORD_SIZE as u64
}

#[test]
fn spilling_sort_matches_naive_sort_and_dedups() {
    for algo in [SortAlgo::Radix, SortAlgo::Pdq] {
        let input = heavy_duplication_input();
        let opts = SortOpts {
            algo,
            memory_bytes: budget_for(12_000), // 12 000 arcs per run => 5 runs
            ..SortOpts::default()
        };
        let mut sorter = ArcSorter::new(opts).expect("sorter");
        assert_eq!(sorter.arcs_per_run(), 12_000);
        for &(s, d) in &input {
            sorter.push(s, d).expect("push");
        }
        sorter.finish().expect("finish");
        let (sorted, stats) = sorter.into_sorted().expect("into_sorted");
        assert!(stats.runs >= 3, "expected several runs, got {}", stats.runs);

        let mut expected: Vec<(NodeId, NodeId)> = input.clone();
        expected.sort_unstable();
        let raw = expected.len() as u64;
        expected.dedup();

        let got = listed(&sorted);
        assert_eq!(got, expected);
        assert_eq!(sorted.num_arcs(), expected.len() as u64);
        assert_eq!(stats.raw_arcs, raw);
        assert_eq!(stats.distinct_arcs, expected.len() as u64);
        assert_eq!(stats.duplicates_removed, raw - expected.len() as u64);
        assert!(
            stats.duplicates_removed > 0,
            "the fixture must have duplicates"
        );
    }
}

#[test]
fn no_dedup_preserves_every_duplicate() {
    let input = heavy_duplication_input();
    let opts = SortOpts {
        dedup: false,
        memory_bytes: budget_for(12_000),
        ..SortOpts::default()
    };
    let mut sorter = ArcSorter::new(opts).expect("sorter");
    for &(s, d) in &input {
        sorter.push(s, d).expect("push");
    }
    sorter.finish().expect("finish");
    let (sorted, stats) = sorter.into_sorted().expect("into_sorted");

    let mut expected: Vec<(NodeId, NodeId)> = input.clone();
    expected.sort_unstable();

    let got = listed(&sorted);
    assert_eq!(got, expected);
    assert_eq!(stats.duplicates_removed, 0);
    assert_eq!(sorted.num_arcs(), expected.len() as u64);
    assert!(got.windows(2).all(|w| w[0] <= w[1]));
    assert_eq!(stats.runs, 5);
    assert_eq!(stats.spilled_bytes, 50_000 * ARC_RECORD_SIZE as u64);
}

#[test]
fn ids_above_2_32_sort_and_radix_is_not_downgraded() {
    let opts = SortOpts {
        algo: SortAlgo::Radix,
        ..SortOpts::default()
    };
    let mut sorter = ArcSorter::new(opts).expect("sorter");
    assert_eq!(
        sorter.effective_algo(),
        SortAlgo::Radix,
        "radix must survive: a packed arc is a u128 and rdst sorts those"
    );

    let big = OLD_CEILING + 7;
    let arcs = [(big, 5), (1, big), (big, big), (0, 1)];
    for &(s, d) in &arcs {
        sorter.push(s, d).expect("push");
    }
    sorter.finish().expect("finish");
    let (sorted, stats) = sorter.into_sorted().expect("into_sorted");
    assert_eq!(stats.max_node_id, big);

    let got = listed(&sorted);
    let mut expected = arcs.to_vec();
    expected.sort_unstable();
    assert_eq!(got, expected);
}

#[test]
fn the_sorter_accepts_ids_the_old_ceiling_rejected() {
    let mut sorter = ArcSorter::new(SortOpts::default()).expect("sorter");
    for &(s, d) in &[
        (OLD_CEILING, 0 as NodeId),
        (0, OLD_CEILING),
        (NodeId::MAX, NodeId::MAX),
    ] {
        sorter.push(s, d).expect("no id is out of range any more");
    }
    sorter.finish().expect("finish");
    let (sorted, stats) = sorter.into_sorted().expect("into_sorted");
    assert_eq!(stats.max_node_id, NodeId::MAX);
    assert_eq!(sorted.num_arcs(), 3);
    assert_eq!(sorted.max_node_id(), NodeId::MAX);
    assert_eq!(
        listed(&sorted),
        vec![
            (0, OLD_CEILING),
            (OLD_CEILING, 0),
            (NodeId::MAX, NodeId::MAX)
        ]
    );
}

#[test]
fn detect_format_distinguishes_tsv_binary_and_garbage() {
    assert_eq!(
        sniff("a.tsv", b"0\t1\n2\t3\n").expect("detect"),
        ArcFileFormat::Tsv
    );
    assert_eq!(
        sniff("a.bin", &pack_arc(1, 2).to_le_bytes()).expect("detect"),
        ArcFileFormat::Binary
    );
    // 13 bytes is not a whole number of 16-byte records.
    assert!(sniff("a.odd", &[0xFFu8; 13]).is_err());
    assert_eq!(sniff("a.empty", b"").expect("detect"), ArcFileFormat::Tsv);
}

#[test]
fn a_binary_arc_file_has_exactly_one_reading() {
    let bytes = pack_arc(0, 2).to_le_bytes();
    assert_eq!(bytes.len(), ARC_RECORD_SIZE, "one arc is one record");
    assert_eq!(sniff("arcs.bin", &bytes).expect("detect"), ArcFileFormat::Binary);
    let arcs = read_binary_all("arcs.bin", &bytes).expect("open");
    assert_eq!(arcs, vec![(0, 2)], "one arc in, one arc out");
}

#[test]
fn malformed_tsv_line_names_its_line_number() {
    let (got, end) = read_tsv_all("bad.tsv", b"0\t1\n2\t3\nnot an arc\n4\t5\n");
    assert_eq!(got, vec![(0, 1), (2, 3)]);
    match end {
        Err(Error::BadArcLine { line, text, .. }) => {
            assert_eq!(line, 3);
            assert_eq!(text, "not an arc");
        }
        other => panic!("expected BadArcLine, got {other:?}"),
    }
}

#[test]
fn run_file_round_trips_and_detects_truncation() {
    let opts = SortOpts {
        memory_bytes: budget_for(1024),
        keep_intermediate: true,
        ..SortOpts::default()
    };
    let mut sorter = ArcSorter::new(opts.clone()).expect("sorter");
    for i in 0..1024 as NodeId {
        sorter.push(i % 17, i).expect("push");
    }
    // The 1024th push fills the buffer and spills exactly one run.
    sorter.finish().expect("finish");
    let run = sorter.take_run().expect("the run");
    assert!(sorter.take_run().is_none());
    let mut bytes = Vec::new();
    write_arcs(&run, &mut bytes);
    let from_file = read_binary_all("run-00000.arcs", &bytes).expect("no error");

    let mut sorter = ArcSorter::new(opts).expect("sorter");
    for i in 0..1024 as NodeId {
        sorter.push(i % 17, i).expect("push");
    }
    sorter.finish().expect("finish");
    let (sorted, stats) = sorter.into_sorted().expect("into_sorted");
    assert_eq!(stats.runs, 1);

    let from_merge = listed(&sorted);
    assert_eq!(from_file, from_merge);
    assert_eq!(from_file.len(), 1024);

    // Lop off one byte: the length is no longer a multiple of 16.
    bytes.pop();
    match read_binary_all("truncated.arcs", &bytes) {
        Err(Error::TruncatedRun {
            len, record_size, ..
        }) => {
            assert_eq!(len, bytes.len() as u64);
            assert_eq!(record_size, ARC_RECORD_SIZE);
        }
        other => panic!("expected TruncatedRun, got {other:?}"),
    }
}

#[test]
fn sort_file_round_trips_through_tsv() {
    let (sorted, stats) =
        sort_file("raw.tsv", b"5\t4\n1\t2\n5\t4\n0\t9\n", SortOpts::default()).expect("sort");
    assert_eq!(stats.raw_arcs, 4);
    assert_eq!(sorted.num_arcs(), 3);

    let mut out = Vec::new();
    assert_eq!(sorted.write_tsv(&mut out), 3);
    assert_eq!(
        String::from_utf8(out).expect("text"),
        "0\t9\n1\t2\n5\t4\n"
    );
}

#[test]
fn sort_file_round_trips_through_binary() {
    let opts = SortOpts::default();
    let mut sorter = ArcSorter::new(opts.clone()).expect("sorter");
    for &(s, d) in &[(5 as NodeId, 4 as NodeId), (1, 2), (5, 4), (0, OLD_CEILING)] {
        sorter.push(s, d).expect("push");
    }
    sorter.finish().expect("finish");
    let (sorted, _) = sorter.into_sorted().expect("into_sorted");

    let mut bin = Vec::new();
    assert_eq!(
        sorted.write_binary(&mut bin),
        3,
        "the duplicate (5, 4) is removed"
    );

    let (again, stats) = sort_file("arcs.bin", &bin, opts).expect("sort the binary file");
    assert_eq!(stats.raw_arcs, 3);
    assert_eq!(listed(&again), vec![(0, OLD_CEILING), (1, 2), (5, 4)]);
}

#[test]
fn memory_budget_below_one_run_is_rejected() {
    let opts = SortOpts {
        memory_bytes: 64,
        ..SortOpts::default()
    };
    assert!(ArcSorter::new(opts).is_err());
}

#[test]
fn a_record_is_little_endian_with_the_source_above() {
    let mut sink = BinaryArcSink::new();
    sink.push(1, 2).expect("push");
    sink.push(OLD_CEILING, 255).expect("push");
    sink.finish().expect("finish");
    assert_eq!(sink.count(), 2);
    assert_eq!(sink.pending(), 32);
    let bytes = sink.take_bytes();
    assert_eq!(sink.pending(), 0);
    let mut want = Vec::new();
    want.extend_from_slice(&2u64.to_le_bytes());
    want.extend_from_slice(&1u64.to_le_bytes());
    want.extend_from_slice(&255u64.to_le_bytes());
    want.extend_from_slice(&(OLD_CEILING as u64).to_le_bytes());
    assert_eq!(bytes, want);
}

#[test]
fn a_null_sink_only_counts() {
    let mut sink = NullArcSink::new();
    for i in 0..5 {
        sink.push(i, i).expect("push");
    }
    sink.finish().expect("finish");
    assert_eq!(sink.count(), 5);
}

#[test]
fn text_that_was_written_is_read_back() {
    let arcs = vec![(0, 0), (NodeId::MAX, 1), (7, NodeId::MAX), (7, 7)];
    let mut sink = TsvArcSink::new();
    for &(s, d) in &arcs {
        sink.push(s, d).expect("push");
    }
    let bytes = sink.take_bytes();
    let (got, end) = read_tsv_all("x", &bytes);
    assert_eq!(got, arcs);
    assert!(end.is_ok());
}

#[test]
fn text_lines_are_read_with_some_latitude() {
    assert_eq!(read_arc_line(b"3\t4\n", "x", 1).unwrap(), Some((3, 4)));
    assert_eq!(read_arc_line(b"3\t4\r\n", "x", 1).unwrap(), Some((3, 4)));
    assert_eq!(read_arc_line(b"\n", "x", 1).unwrap(), None);
    for bad in [&b"3\n"[..], b"3\t\n", b"3\t4\t5\n", b"3 4\n", b"  \n", b"-3\t4\n", b"18446744073709551616\t0\n"] {
        match read_arc_line(bad, "x", 9) {
            Err(Error::BadArcLine { line: 9, path, .. }) => assert_eq!(path, "x"),
            other => panic!("{bad:?}: expected BadArcLine, got {other:?}"),
        }
    }
    match read_arc_line(&[0xFF, b'\n'], "x", 9) {
        Err(Error::Io { path, .. }) => assert_eq!(path, "x"),
        other => panic!("expected Io, got {other:?}"),
    }
}

#[test]
fn sorting_twice_is_sorting_once() {
    let (once, _) = sort_file("a", b"3\t1\n2\t2\n3\t1\n", SortOpts::default()).unwrap();
    let mut out = Vec::new();
    once.write_tsv(&mut out);
    let (twice, stats) = sort_file("b", &out, SortOpts::default()).unwrap();
    assert_eq!(stats.duplicates_removed, 0);
    assert_eq!(listed(&once), listed(&twice));
    // The order of the input does not matter.
    let (other, _) = sort_file("c", b"3\t1\n3\t1\n2\t2\n", SortOpts::default()).unwrap();
    assert_eq!(listed(&once), listed(&other));
}

#[test]
fn a_broken_file_is_not_sorted() {
    match sort_file("bad.tsv", b"0\t1\n5\n", SortOpts::default()) {
        Err(Error::BadArcLine { line: 2, .. }) => {}
        Err(other) => panic!("expected BadArcLine, got {other:?}"),
        Ok(_) => panic!("a broken file was sorted"),
    }
    match sort_file("bad.bin", &[0xFFu8; 17], SortOpts::default()) {
        Err(Error::TruncatedRun { len: 17, record_size: 16, path }) => assert_eq!(path, "bad.bin"),
        Err(other) => panic!("expected TruncatedRun, got {other:?}"),
        Ok(_) => panic!("a broken file was sorted"),
    }
}

#[test]
fn a_pool_of_its_own_sorts_alike() {
    let opts = SortOpts {
        algo: SortAlgo::Pdq,
        threads: 2,
        ..SortOpts::default()
    };
    let mut sorter = ArcSorter::new(opts).expect("sorter");
    assert_eq!(sorter.effective_algo(), SortAlgo::Pdq);
    for &(s, d) in &[(2, 1), (1, 9), (1, 3), (2, 1)] {
        sorter.push(s, d).expect("push");
    }
    assert_eq!(sorter.stats().raw_arcs, 4);
    sorter.finish().expect("finish");
    let (sorted, stats) = sorter.into_sorted().expect("into_sorted");
    assert_eq!(stats.runs, 0);
    assert_eq!(stats.spilled_bytes, 0);
    assert_eq!(listed(&sorted), vec![(1, 3), (1, 9), (2, 1)]);
}

#[test]
fn a_merge_lists_every_key_of_its_runs() {
    let runs: Vec<Vec<u128>> = vec![vec![1, 4, 4], vec![], vec![0, 4, 9]];
    let walk = |dedup| {
        let mut merge = RunMerge::new(&runs, dedup);
        let mut got = Vec::new();
        while let Some(k) = merge.next() {
            got.push(k);
        }
        got
    };
    assert_eq!(walk(false), vec![0, 1, 4, 4, 4, 9]);
    assert_eq!(walk(true), vec![0, 1, 4, 9]);
    assert_eq!(count_merged(&runs, false), 6);
    assert_eq!(count_merged(&runs, true), 4);
}

#[test]
fn a_merger_hands_out_the_smallest_head() {
    let mut m = Merger::new(true);
    m.offer(Some(5), 0);
    m.offer(None, 1);
    m.offer(Some(3), 2);
    assert_eq!(m.pop(), Some((3, 2)));
    assert!(m.accept(3));
    m.offer(Some(3), 2);
    assert_eq!(m.pop(), Some((3, 2)));
    assert!(!m.accept(3), "a repeat is dropped");
    assert_eq!(m.pop(), Some((5, 0)));
    assert!(m.accept(5));
    assert_eq!(m.pop(), None);
}

#[test]
fn file_names_are_exact() {
    assert_eq!(run_file_name(0), "run-00000.arcs");
    assert_eq!(run_file_name(12_345), "run-12345.arcs");
    assert_eq!(run_file_name(123_456), "run-123456.arcs");
    assert_eq!(temp_file_name("el.tsv", 9), ".el.tsv.utxo2webgraph-tmp-9");
}

#[test]
fn distinct_arcs_are_counted_only_once_sorted() {
    let mut sorter = ArcSorter::new(SortOpts::default()).expect("sorter");
    for (s, d) in [(3, 1), (0, 2), (3, 1)] {
        sorter.push(s, d).unwrap();
    }
    assert_eq!(sorter.stats().raw_arcs, 3);
    assert_eq!(sorter.stats().distinct_arcs, 0);
    sorter.finish().unwrap();
    assert_eq!(sorter.stats().distinct_arcs, 0);
    let (sorted, stats) = sorter.into_sorted().unwrap();
    assert_eq!((stats.distinct_arcs, stats.duplicates_removed), (2, 1));
    assert_eq!(listed(&sorted), vec![(0, 2), (3, 1)]);
}

#[test]
fn a_sorter_takes_the_pool_it_is_given() {
    let opts = |algo, threads| SortOpts {
        algo,
        threads,
        ..SortOpts::default()
    };
    assert_eq!(pool_threads(&opts(SortAlgo::Pdq, 3)), 3);
    assert_eq!(pool_threads(&opts(SortAlgo::Pdq, 0)), 0);
    assert_eq!(pool_threads(&opts(SortAlgo::Radix, 3)), 0);
    let pool = rayon::ThreadPoolBuilder::new().num_threads(2).build().unwrap();
    for pool in [Some(pool), None] {
        let mut sorter = ArcSorter::with_pool(opts(SortAlgo::Pdq, 2), pool).expect("sorter");
        for (s, d) in [(5, 0), (1, 4), (5, 0), (1, 3)] {
            sorter.push(s, d).unwrap();
        }
        sorter.finish().unwrap();
        let (sorted, _) = sorter.into_sorted().unwrap();
        assert_eq!(listed(&sorted), vec![(1, 3), (1, 4), (5, 0)]);
    }
    let tiny = SortOpts {
        memory_bytes: 32 * 1023,
        ..opts(SortAlgo::Pdq, 2)
    };
    assert!(matches!(ArcSorter::with_pool(tiny, None), Err(Error::Other(_))));

    let sorter = ArcSorter::with_pool(SortOpts::default(), None).expect("sorter");
    let (sorted, stats) =
        sort_file_with("a", b"7\t1\n2\t2\n7\t1\n", ArcFileFormat::Tsv, sorter).unwrap();
    assert_eq!(listed(&sorted), vec![(2, 2), (7, 1)]);
    assert_eq!((stats.raw_arcs, stats.duplicates_removed), (3, 1));
    let sorter = ArcSorter::with_pool(SortOpts::default(), None).expect("sorter");
    assert!(matches!(
        sort_file_with("a", b"7\t1\nx\n", ArcFileFormat::Tsv, sorter),
        Err(Error::BadArcLine { line: 2, .. })
    ));
}
