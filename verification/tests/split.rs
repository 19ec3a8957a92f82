use utxo2webgraph::split::{
    append_row, chunk_file_name, chunk_paths, civil_date, close_boundaries, compute_boundaries,
    format_boundary_table, leading_timestamp, midnight, months_later, parse_date, resolve_tz,
    split, utc_midnight_of, Boundaries, SplitAction, SplitOpts, Splitter,
};
use utxo2webgraph::Error;

/// The 28 exclusive upper bounds under `Europe/Rome`.
const ROME_UPPER: [i64; 28] = [
    1246399200, 1262300400, 1277935200, 1293836400, 1309471200, 1325372400, 1341093600, 1356994800,
    1372629600, 1388530800, 1404165600, 1420066800, 1435701600, 1451602800, 1467324000, 1483225200,
    1498860000, 1514761200, 1530396000, 1546297200, 1561932000, 1577833200, 1593554400, 1609455600,
    1625090400, 1640991600, 1656626400, 1672527600,
];

#[test]
fn default_boundaries_match_the_reference_table() {
    let b = compute_boundaries(&SplitOpts::default()).unwrap();
    assert_eq!(b.tz, "Europe/Rome");
    assert_eq!(b.start_ts, 1230764400);
    assert_eq!(b.upper.len(), 28);
    assert_eq!(b.upper.as_slice(), &ROME_UPPER[..]);
}

#[test]
fn utc_boundaries_differ_from_local_ones() {
    let opts = SplitOpts {
        tz: "utc".to_string(),
        ..Default::default()
    };
    let b = compute_boundaries(&opts).unwrap();
    assert_eq!(b.tz, "UTC");
    assert_eq!(b.start_ts, 1230768000);
    assert_eq!(b.upper[0], 1246406400);
    assert_eq!(b.upper[1], 1262304000);
    assert_eq!(*b.upper.last().unwrap(), 1672531200);
    assert_ne!(b.upper.as_slice(), &ROME_UPPER[..]);
    // The two tables never agree on any boundary: the offset is always
    // 3600 or 7200 seconds.
    for (local, utc) in ROME_UPPER.iter().zip(b.upper.iter()) {
        let d = utc - local;
        assert!(d == 3600 || d == 7200, "unexpected delta {d}");
    }
}

#[test]
fn an_end_off_the_boundary_grid_is_rejected() {
    let opts = SplitOpts {
        end: "2023-02-01".to_string(),
        ..Default::default()
    };
    match compute_boundaries(&opts) {
        Err(Error::BoundaryMismatch { last, end }) => {
            assert!(last > end, "last {last} should overshoot end {end}");
        }
        other => panic!("expected BoundaryMismatch, got {other:?}"),
    }
}

#[test]
fn unknown_timezone_and_bad_date_are_typed_errors() {
    let opts = SplitOpts {
        tz: "Mars/Olympus".to_string(),
        ..Default::default()
    };
    assert!(matches!(
        compute_boundaries(&opts),
        Err(Error::BadTimezone(_))
    ));
    let opts = SplitOpts {
        start: "2009/01/01".to_string(),
        ..Default::default()
    };
    assert!(matches!(compute_boundaries(&opts), Err(Error::BadDate(_))));
}

#[test]
fn boundary_table_renders_every_chunk() {
    let b = compute_boundaries(&SplitOpts::default()).unwrap();
    let t = format_boundary_table(&b);
    assert!(t.contains("Europe/Rome"));
    assert!(t.contains("2009-07-01"));
    assert!(t.contains("1672527600"));
    // header + title + 28 rows
    assert_eq!(t.lines().count(), 30);
}

/// Builds a two-chunk configuration around the 2009-07-01 boundary.
fn two_chunk_opts() -> SplitOpts {
    SplitOpts {
        start: "2009-01-01".to_string(),
        end: "2010-01-01".to_string(),
        ..Default::default()
    }
}

#[test]
fn split_places_records_on_the_right_side_of_a_boundary() {
    let opts = two_chunk_opts();
    let b = compute_boundaries(&opts).unwrap();
    assert_eq!(b.upper.len(), 2);
    let cut = b.upper[0]; // 1246399200

    let mut input = String::new();
    for i in 0..5 {
        input.push_str(&format!("{},0,{},1,0,0,0::a,1,1\n", b.start_ts + i, i));
    }
    for i in 0..5 {
        input.push_str(&format!("{},0,{},1,0,0,0::a,1,1\n", cut + i, 5 + i));
    }

    let (stats, contents) = split(input.as_bytes(), "out", &opts).unwrap();
    assert_eq!(stats.records_written, 10);
    assert_eq!(stats.records_before_start, 0);
    assert!(stats.stopped_early_at.is_none());
    assert_eq!(stats.chunks[0].records, 5);
    assert_eq!(stats.chunks[1].records, 5);
    assert_eq!(stats.chunks[0].first_ts, Some(b.start_ts));
    assert_eq!(stats.chunks[1].first_ts, Some(cut));
    assert_eq!(stats.chunks[1].last_ts, Some(cut + 4));
    assert_eq!(stats.chunks[0].index, 1);
    assert_eq!(stats.chunks[0].path, "out/chunk_01.txt");
    assert_eq!(stats.chunks[1].path, "out/chunk_02.txt");

    let c1 = String::from_utf8(contents[0].clone()).unwrap();
    let c2 = String::from_utf8(contents[1].clone()).unwrap();
    assert_eq!(c1.lines().count(), 5);
    assert_eq!(c2.lines().count(), 5);
    // Bytes are preserved exactly, and nothing is lost or duplicated.
    assert_eq!(format!("{c1}{c2}"), input);
    assert_eq!(c1.len() as u64, stats.chunks[0].bytes);
    assert_eq!(c2.len() as u64, stats.chunks[1].bytes);
}

#[test]
fn split_creates_every_chunk_file_even_when_empty() {
    let opts = two_chunk_opts();
    let b = compute_boundaries(&opts).unwrap();
    let input = format!("{},0,0,1,0,0,0::a,1,1\n", b.start_ts);
    let (stats, contents) = split(input.as_bytes(), "out", &opts).unwrap();
    assert_eq!(stats.chunks[1].records, 0);
    assert_eq!(contents.len(), 2, "the second chunk is there");
    assert!(contents[1].is_empty());
    assert!(opts.create_empty);
}

#[test]
fn split_stops_at_the_first_out_of_range_record() {
    let opts = two_chunk_opts();
    let b = compute_boundaries(&opts).unwrap();
    let end = *b.upper.last().unwrap();
    let input = format!(
        "{},0,0,1,0,0,0::a,1,1\n{},0,1,1,0,0,0::a,1,1\n{},0,2,1,0,0,0::a,1,1\n",
        b.start_ts,
        end,
        b.start_ts + 1
    );
    let (stats, _) = split(input.as_bytes(), "out", &opts).unwrap();
    assert_eq!(stats.stopped_early_at, Some((2, end)));
    assert_eq!(
        stats.records_written, 1,
        "the third record is never reached"
    );

    // ... unless the operator asks for it.
    let opts2 = SplitOpts {
        skip_out_of_range: true,
        ..two_chunk_opts()
    };
    let (stats2, _) = split(input.as_bytes(), "out", &opts2).unwrap();
    assert_eq!(stats2.stopped_early_at, Some((2, end)));
    assert_eq!(stats2.records_written, 2);
}

#[test]
fn split_drops_records_before_the_start_and_keeps_a_missing_final_newline() {
    let opts = two_chunk_opts();
    let b = compute_boundaries(&opts).unwrap();
    let input = format!(
        "1,0,0,1,0,0,0::a,1,1\n{},0,1,1,0,0,0::a,1,1",
        b.start_ts + 3
    );
    let (stats, contents) = split(input.as_bytes(), "out", &opts).unwrap();
    assert_eq!(stats.records_before_start, 1);
    assert_eq!(stats.records_written, 1);
    assert!(
        !contents[0].ends_with(b"\n"),
        "a missing final newline is preserved"
    );
}

#[test]
fn a_record_without_a_timestamp_ends_the_split() {
    match split(b"1246399200,x\nnever,x\n", "out", &two_chunk_opts()) {
        Err(Error::BadInteger { line: 2, field: "timestamp", value }) => {
            assert_eq!(value, "never")
        }
        other => panic!("expected an error, got {other:?}"),
    }
}

#[test]
fn a_late_record_stays_in_the_chunk_that_is_open() {
    let opts = two_chunk_opts();
    let b = compute_boundaries(&opts).unwrap();
    let mut splitter = Splitter::new(b, "out", false);
    let act = |s: &mut Splitter, ts: i64| s.take_record(format!("{ts},x\n").as_bytes()).unwrap();
    assert_eq!(
        act(&mut splitter, 1230764400),
        SplitAction::Write { chunk: 0, open: true }
    );
    assert_eq!(
        act(&mut splitter, 1246399199),
        SplitAction::Write { chunk: 0, open: false }
    );
    assert_eq!(
        act(&mut splitter, 1246399200),
        SplitAction::Write { chunk: 1, open: true }
    );
    assert_eq!(
        act(&mut splitter, 1246399199),
        SplitAction::Write { chunk: 1, open: false },
        "no chunk is opened twice"
    );
    assert_eq!(act(&mut splitter, 0), SplitAction::Skip);
    assert_eq!(act(&mut splitter, 1262300400), SplitAction::Stop);
    let stats = splitter.into_stats();
    assert_eq!(stats.records_written, 4);
    assert_eq!(stats.records_before_start, 1);
    assert_eq!(stats.stopped_early_at, Some((6, 1262300400)));
    assert_eq!(stats.chunks[1].records, 2);
}

#[test]
fn timestamps_are_the_first_field() {
    assert_eq!(leading_timestamp(b"17,rest"), Some(17));
    assert_eq!(leading_timestamp(b" -17 ,rest"), Some(-17));
    assert_eq!(leading_timestamp(b"+17"), Some(17));
    assert_eq!(leading_timestamp(b"17\n"), Some(17));
    assert_eq!(leading_timestamp(b"17,\xFF\xFE"), Some(17));
    assert_eq!(leading_timestamp(b"\xFF17,"), None);
    assert_eq!(leading_timestamp(b",17"), None);
    assert_eq!(leading_timestamp(b"9223372036854775808,"), None);
    assert_eq!(leading_timestamp(b"9223372036854775807,"), Some(i64::MAX));
}

#[test]
fn dates_are_read_strictly() {
    assert_eq!(parse_date("2009-01-03").unwrap(), (2009, 1, 3));
    assert_eq!(parse_date("2008-02-29").unwrap(), (2008, 2, 29));
    for bad in ["2009-01", "2009-01-01-01", "2009/01/01", "", "x-01-01", "2009-01- 1", "-1-01-01"] {
        match parse_date(bad) {
            Err(Error::BadDate(s)) => assert_eq!(s, bad),
            other => panic!("{bad}: expected BadDate, got {other:?}"),
        }
    }
}

#[test]
fn a_day_that_the_calendar_lacks_has_no_midnight() {
    assert_eq!(parse_date("2009-02-29").unwrap(), (2009, 2, 29));
    match midnight("UTC", 2009, 2, 29) {
        Err(Error::Other(msg)) => assert_eq!(
            msg,
            "2009-02-29 00:00:00 does not exist exactly once in UTC; pick another boundary or \
             timezone"
        ),
        other => panic!("expected an error, got {other:?}"),
    }
    // A zone that changes its clocks at midnight has days that begin at one.
    assert!(midnight("America/Sao_Paulo", 2018, 11, 4).is_err());
}

#[test]
fn zones_are_looked_up_by_name() {
    assert_eq!(resolve_tz("UtC").unwrap(), "UTC");
    assert_eq!(resolve_tz("Europe/Rome").unwrap(), "Europe/Rome");
    match resolve_tz("Mars/Olympus") {
        Err(Error::BadTimezone(s)) => assert_eq!(s, "Mars/Olympus"),
        other => panic!("expected BadTimezone, got {other:?}"),
    }
}

#[test]
fn midnights_follow_the_zone() {
    assert_eq!(midnight("UTC", 1970, 1, 1).unwrap(), 0);
    assert_eq!(midnight("UTC", 2009, 1, 3).unwrap(), 1230940800);
    assert_eq!(midnight("Europe/Rome", 2009, 1, 1).unwrap(), 1230764400);
    assert_eq!(civil_date("Europe/Rome", 1230764400), "2009-01-01");
    assert_eq!(civil_date("UTC", 1230764400), "2008-12-31");
    assert_eq!(utc_midnight_of("Europe/Rome", 1230764400), 1230768000);
}

#[test]
fn months_are_counted_over_the_year_end() {
    assert_eq!(months_later(2009, 1, 6), (2009, 7));
    assert_eq!(months_later(2009, 7, 6), (2010, 1));
    assert_eq!(months_later(2009, 12, 1), (2010, 1));
    assert_eq!(months_later(2009, 12, 25), (2012, 1));
}

#[test]
fn zero_months_and_an_end_before_the_start_are_refused() {
    let zero = SplitOpts {
        months: 0,
        ..two_chunk_opts()
    };
    assert!(compute_boundaries(&zero).is_err());
    let back = SplitOpts {
        end: "2008-01-01".to_string(),
        ..two_chunk_opts()
    };
    assert!(compute_boundaries(&back).is_err());
}

#[test]
fn the_last_boundary_is_the_end() {
    let b = close_boundaries(0, vec![10, 20], 20, "UTC".to_string()).unwrap();
    assert_eq!(
        b,
        Boundaries {
            start_ts: 0,
            upper: vec![10, 20],
            tz: "UTC".to_string()
        }
    );
    match close_boundaries(0, vec![10, 20], 19, "UTC".to_string()) {
        Err(Error::BoundaryMismatch { last: 20, end: 19 }) => {}
        other => panic!("expected BoundaryMismatch, got {other:?}"),
    }
}

#[test]
fn table_rows_are_exact() {
    let b = Boundaries {
        start_ts: 1230764400,
        upper: vec![1246399200],
        tz: "Europe/Rome".to_string(),
    };
    assert_eq!(
        format_boundary_table(&b),
        "Chunk boundaries (Europe/Rome), start 1230764400 (2009-01-01)\n\
         chunk  interval                    upper bound   local ts       utc ts         delta\n    \
         1  2009-01-01 -> 2009-07-01   2009-07-01    1246399200     1246406400     -7200\n"
    );
    let mut row = String::new();
    append_row(&mut row, 12, "a", "b", -1, 2);
    assert_eq!(row, "   12  a -> b   b    -1             2              -3\n");
}

#[test]
fn chunk_files_are_numbered_from_one() {
    assert_eq!(chunk_file_name(1), "chunk_01.txt");
    assert_eq!(chunk_file_name(28), "chunk_28.txt");
    assert_eq!(chunk_file_name(128), "chunk_128.txt");
    assert_eq!(
        chunk_paths("d", 2).unwrap(),
        vec!["d/chunk_01.txt".to_string(), "d/chunk_02.txt".to_string()]
    );
}
