use utxo2webgraph::memory::{
    bad_memory_text, bad_percentage_text, no_memory_text, FALLBACK_TOTAL_MEMORY,
};
use utxo2webgraph::{
    free_space_bytes, mul_capped, new_error_slot, pack, pack_arc, parse_memory_spec,
    sync_is_meaningless, take_iter_error, total_memory_bytes, unpack, unpack_arc, Error,
    MemorySpec, ARC_RECORD_SIZE, DEFAULT_PROGRESS_EVERY,
};

#[test]
fn pack_unpack_round_trips_including_negatives() {
    let table: [(i32, i32, u64); 6] = [
        (-5, 0, 0xFFFF_FFFB_0000_0000),
        (0, 0, 0),
        (i32::MAX, i32::MAX, 0x7FFF_FFFF_7FFF_FFFF),
        (i32::MIN, -1, 0x8000_0000_FFFF_FFFF),
        (1, 2, 0x0000_0001_0000_0002),
        (778_613_437, 914, 0x2E68_B2BD_0000_0392),
    ];
    for (tx, off, key) in table {
        assert_eq!(pack(tx, off), key, "pack({tx}, {off})");
        assert_eq!(unpack(key), (tx, off), "unpack({key:#x})");
    }
}

#[test]
fn lib_pack_arc_round_trips_with_no_ceiling() {
    for (src, dst) in [
        (0usize, 0usize),
        (1, 2),
        (2_210_000_000, 7),
        (2_181_021_971, 2_181_021_970),
        (u32::MAX as usize + 1, u32::MAX as usize + 1),
        (usize::MAX, usize::MAX),
    ] {
        assert_eq!(unpack_arc(pack_arc(src, dst)), (src, dst));
    }

    // The two halves never bleed into each other.
    assert_eq!(unpack_arc(pack_arc(1, usize::MAX)), (1, usize::MAX));
    assert_eq!(unpack_arc(pack_arc(usize::MAX, 0)), (usize::MAX, 0));

    // Sorting packed arcs ascending is by source, then by destination.
    const HIGH: usize = 1 << 32;
    let mut packed: Vec<u128> = [(2, 1), (HIGH, 0), (1, 10), (1, 2), (2, 0)]
        .iter()
        .map(|&(s, d)| pack_arc(s, d))
        .collect();
    packed.sort_unstable();
    let unpacked: Vec<(usize, usize)> = packed.iter().copied().map(unpack_arc).collect();
    assert_eq!(unpacked, vec![(1, 2), (1, 10), (2, 0), (2, 1), (HIGH, 0)]);
}

#[test]
fn arc_record_size_is_the_on_disk_width() {
    assert_eq!(ARC_RECORD_SIZE, std::mem::size_of::<u128>());
    assert_eq!(ARC_RECORD_SIZE, 16);
    assert_eq!(DEFAULT_PROGRESS_EVERY, 10_000_000);
}

/// A memory budget that takes no floating-point number, in bytes.
fn bytes_of(s: &str) -> u64 {
    match parse_memory_spec(s) {
        Ok(MemorySpec::Bytes(n)) => n,
        other => panic!("{s}: expected bytes, got {other:?}"),
    }
}

/// The number of a percentage.
fn percent_of(s: &str) -> String {
    match parse_memory_spec(s) {
        Ok(MemorySpec::Percent { number }) => number,
        other => panic!("{s}: expected a percentage, got {other:?}"),
    }
}

#[test]
fn memory_specs_parse_and_reject() {
    assert_eq!(bytes_of("128GiB"), 128 * (1u64 << 30));
    assert_eq!(bytes_of("200G"), 200 * (1u64 << 30));
    assert_eq!(bytes_of("1024"), 1024);
    // Percentages are relative to whatever the machine reports.
    let total = total_memory_bytes("MemTotal:       65536000 kB\nMemFree: 1 kB\n");
    assert_eq!(total, 65_536_000 * 1024);
    let percent: f64 = percent_of("50%").parse().unwrap();
    let half = (total as f64 * percent / 100.0) as u64;
    assert!(half > 0 && half <= total);
    assert!((half as i128 - (total / 2) as i128).abs() <= 2);

    assert!(parse_memory_spec("").is_err());
    assert!(parse_memory_spec("lots").is_err());
    assert!(parse_memory_spec("0").is_err());
    assert!(parse_memory_spec("12PB").is_err());
    assert!(parse_memory_spec("150%").is_err());
}

#[test]
fn a_long_byte_count_is_that_many_bytes() {
    assert_eq!(bytes_of("9007199254740993"), 9_007_199_254_740_993);
    assert_eq!(bytes_of("9_007_199_254_740_993 b"), 9_007_199_254_740_993);
    assert_eq!(bytes_of("00000000000000000000000000001024"), 1024);
    assert_eq!(bytes_of("4503599627370497k"), 4_503_599_627_370_497 * 1024);
    assert_eq!(bytes_of("18446744073709551615"), u64::MAX);
    assert_eq!(bytes_of("18446744073709551616"), u64::MAX);
    assert_eq!(bytes_of("99999999999999999999999999T"), u64::MAX);
    assert_eq!(
        parse_memory_spec("0000000000000000000").unwrap_err(),
        no_memory_text("0000000000000000000")
    );
}

#[test]
fn a_whole_percentage_is_a_share() {
    assert_eq!(percent_of("1%"), "1");
    assert_eq!(percent_of(" 100 % "), "100");
    assert_eq!(percent_of("0.5%"), "0.5");
    for s in ["0%", "00 %", "101%", "150%", "99999999999999999999999%"] {
        assert_eq!(parse_memory_spec(s).unwrap_err(), bad_percentage_text(s));
    }
    assert_eq!(
        bad_percentage_text("0%"),
        "invalid memory percentage \"0%\": expected a value in (0, 100]"
    );
    for s in ["%", ".%", "1.2.3%", "..", ".", "1.2.3G", "1..5", "_"] {
        assert_eq!(parse_memory_spec(s).unwrap_err(), bad_memory_text(s));
    }
}

#[test]
fn memory_units_are_binary_in_any_case() {
    let bytes = bytes_of;
    assert_eq!(bytes("1k"), 1 << 10);
    assert_eq!(bytes("1KB"), 1 << 10);
    assert_eq!(bytes("1kib"), 1 << 10);
    assert_eq!(bytes(" 64 M "), 64 << 20);
    assert_eq!(bytes("2T"), 2 << 40);
    assert_eq!(bytes("7B"), 7);
    assert_eq!(bytes("1_000"), 1000);
    assert_eq!(bytes("999999999999999T"), u64::MAX);
    match parse_memory_spec("1.5G") {
        Ok(MemorySpec::Scaled { number, multiplier }) => {
            assert_eq!(number, "1.5");
            assert_eq!(multiplier, 1 << 30);
        }
        other => panic!("expected a scaled number, got {other:?}"),
    }
    assert_eq!(percent_of("12.5 %"), "12.5");
    assert_eq!(
        parse_memory_spec("0").unwrap_err(),
        "memory specification \"0\" resolves to 0 bytes; it must be positive"
    );
    assert_eq!(
        parse_memory_spec("lots").unwrap_err(),
        "invalid memory specification \"lots\": expected a byte count (`1024`), a size with a \
         binary suffix (`128GiB`, `200G`, `64M`), or a percentage of total RAM (`45%`)"
    );
}

#[test]
fn a_machine_that_says_nothing_has_the_fallback() {
    assert_eq!(total_memory_bytes(""), FALLBACK_TOTAL_MEMORY);
    assert_eq!(total_memory_bytes("MemTotal: x kB"), FALLBACK_TOTAL_MEMORY);
    assert_eq!(FALLBACK_TOTAL_MEMORY, 8 << 30);
    assert_eq!(total_memory_bytes("MemFree: 1 kB\nMemTotal:\t 2 kB\n"), 2048);
}

#[test]
fn free_space_uses_the_fragment_size_where_there_is_one() {
    assert_eq!(free_space_bytes(10, 4096, 1), 40_960);
    assert_eq!(free_space_bytes(10, 0, 512), 5120);
    assert_eq!(free_space_bytes(u64::MAX, 4096, 512), u64::MAX);
    assert_eq!(mul_capped(3, 4), 12);
    assert_eq!(mul_capped(u64::MAX, 2), u64::MAX);
}

#[test]
fn some_files_cannot_be_synced() {
    assert!(sync_is_meaningless(Some(22)));
    assert!(sync_is_meaningless(Some(95)));
    assert!(!sync_is_meaningless(Some(5)));
    assert!(!sync_is_meaningless(None));
}

#[test]
fn a_slot_keeps_its_error_until_it_is_taken() {
    let mut slot = new_error_slot();
    assert!(take_iter_error(&mut slot).is_ok());
    slot.record(Error::EmptyEdgeList);
    assert!(matches!(take_iter_error(&mut slot), Err(Error::EmptyEdgeList)));
    assert!(take_iter_error(&mut slot).is_ok());
}

#[test]
fn every_error_says_what_it_is() {
    let io = |m: &'static str| std::io::Error::new(std::io::ErrorKind::Other, m);
    let cases: Vec<(Error, &str)> = vec![
        (Error::io("f".to_string(), io("x")), "I/O error on f"),
        (Error::PlainIo(io("broken pipe")), "I/O error: broken pipe"),
        (
            Error::BadSectionCount { line: 3, found: 1 },
            "line 3: expected 3 ':'-separated sections, found 1",
        ),
        (
            Error::BadInfoFields { line: 3, found: 2 },
            "line 3: info section has 2 ','-separated fields, expected at least 3",
        ),
        (
            Error::BadInputFields { line: 3, index: 1, found: 2 },
            "line 3: input #1 has 2 ','-separated fields, expected at least 4",
        ),
        (
            Error::BadInteger { line: 3, field: "txId", value: "a\"b".to_string() },
            "line 3, field txId: cannot parse \"a\\\"b\" as i32",
        ),
        (
            Error::NegativeId { line: 3, field: "txId", value: -5 },
            "line 3, field txId: negative value -5 rejected in strict mode",
        ),
        (
            Error::DanglingSource { line: 3, tx_id: 4, index: 0, prev_tx_id: 9, prev_offset: -1 },
            "line 3, tx 4: input #0 references unknown output (9, -1); the input must be a prefix \
             of the transaction list starting at genesis, or pass --on-missing-source skip|create",
        ),
        (
            Error::NonDenseTxId { line: 3, expected: 4, found: 9 },
            "line 3: transaction id 9 skips ahead of 4, breaking the node-map invariant that \
             transaction ids are consecutive; re-run with --lenient to bridge gaps of up to \
             1048576 ids with zero-output placeholders, or repair the input",
        ),
        (
            Error::TxIdGapTooLarge { line: 3, expected: 4, found: 2_000_000_004 },
            "line 3: transaction id 2000000004 skips ahead of 4 by 2000000000 ids, more than the \
             1048576 --lenient will bridge; filling it would allocate 16000000000 bytes of \
             zero-output placeholders for one line. Repair the input, or split it so each run \
             starts at a transaction it actually contains",
        ),
        (
            Error::ForwardForcedNode { line: 3, tx_id: 5, offset: 0, reached: 2 },
            "line 3: --on-missing-source create cannot mint a node for output (5, 0), because \
             transaction 5 has not been read yet (the node map has only reached transaction 2); \
             minting it now would hand that output a second id once the transaction is read. Use \
             --on-missing-source skip or fail, or feed the input in transaction order starting at \
             genesis",
        ),
        (
            Error::InvalidUtf8 { line: 3, offset: 7 },
            "line 3: invalid UTF-8 at byte offset 7 within the line; re-run with --lenient to \
             replace it with U+FFFD and continue",
        ),
        (
            Error::EmptyEdgeList,
            "the edge list is empty; refusing to build a graph with no arcs (pass --allow-empty)",
        ),
        (
            Error::TruncatedRun { path: "r".to_string(), len: 17, record_size: 16 },
            "run file r: length 17 is not a multiple of 16 bytes (truncated write?)",
        ),
        (
            Error::BadBasename("a.b".to_string()),
            "invalid BVGraph basename a.b: it contains a '.', which webgraph-rs would strip from \
             the extension",
        ),
        (
            Error::BadArcLine { path: "e".to_string(), line: 3, text: "x y".to_string() },
            "edge list e line 3: expected two tab-separated integers, found \"x y\"",
        ),
        (
            Error::UnsortedArcs { p_src: 1, p_dst: 2, c_src: 0, c_dst: 9 },
            "arcs are not sorted: (0, 9) follows (1, 2)",
        ),
        (
            Error::ArcOutOfBounds { src: 1, dst: 2, num_nodes: 2 },
            "arc (1, 2) is out of bounds for a 2-node graph",
        ),
        (
            Error::CompressorPanic("boom".to_string()),
            "the webgraph compressor panicked: boom",
        ),
        (
            Error::BoundaryMismatch { last: 2, end: -1 },
            "boundary table ends at 2 but --end resolves to -1; the last chunk would become a \
             silent catch-all",
        ),
        (Error::BadTimezone("M".to_string()), "unknown timezone \"M\""),
        (
            Error::BadDate("x".to_string()),
            "invalid date \"x\": expected YYYY-MM-DD",
        ),
        (Error::other("anything".to_string()), "anything"),
    ];
    for (e, want) in cases {
        assert_eq!(e.to_string(), want);
    }
}
