use utxo2webgraph::record::{
    count_outputs, parse_line, split_sections, strip_eol, ParseOpts, TxRecord,
};
use utxo2webgraph::{Error, Mode, Result};

const STRICT: ParseOpts = ParseOpts { mode: Mode::Strict };
const LENIENT: ParseOpts = ParseOpts { mode: Mode::Lenient };

fn inputs_of(rec: &TxRecord) -> Vec<Result<(i32, i32)>> {
    let mut walk = rec.inputs();
    let mut all = Vec::new();
    while let Some(item) = walk.next() {
        all.push(item);
    }
    all
}

fn pairs_of(rec: &TxRecord) -> Vec<(i32, i32)> {
    inputs_of(rec).into_iter().map(|r| r.unwrap()).collect()
}

#[test]
fn split_sections_matches_the_documented_table() {
    assert_eq!(
        split_sections("info:inputs:outputs"),
        (["info", "inputs", "outputs"], 3)
    );
    assert_eq!(split_sections("info::outputs"), (["info", "", "outputs"], 3));
    assert_eq!(split_sections("info:inputs:").1, 2);
    assert_eq!(split_sections("info::").1, 1);
    assert_eq!(split_sections("").1, 1);
    assert_eq!(split_sections("info:inputs::x"), (["info", "inputs", ""], 4));
    assert_eq!(split_sections("a:b:c:").1, 3);
    assert_eq!(split_sections("a:::").1, 1);
    // Degenerate: nothing but separators drops every piece.
    assert_eq!(split_sections(":").1, 0);
    // Leading and interior empties are kept.
    assert_eq!(split_sections(":a:b"), (["", "a", "b"], 3));
}

#[test]
fn count_outputs_ignores_trailing_separators() {
    assert_eq!(count_outputs(""), 0);
    assert_eq!(count_outputs("0,5000000000,1"), 1);
    assert_eq!(count_outputs("a;b"), 2);
    assert_eq!(count_outputs("a;b;"), 2);
    assert_eq!(count_outputs("802635047,635073896,2;1050047673,0,4"), 2);
    assert_eq!(count_outputs(";"), 0);
}

#[test]
fn genesis_line_parses() {
    let rec = parse_line("1231006505,0,0,1,0,204,0::0,5000000000,1", 1, STRICT)
        .unwrap()
        .unwrap();
    assert_eq!(rec.tx_id, 0);
    assert_eq!(rec.num_outputs, 1);
    assert!(rec.is_coinbase());
    assert_eq!(inputs_of(&rec).len(), 0);
}

#[test]
fn two_input_line_parses() {
    let line = "1293837540,100406,217999,0,0,273,0:175742,5000000000,217481,0;\
                175802,5000000000,217536,0:103753,10000000000,2";
    let rec = parse_line(line, 7, STRICT).unwrap().unwrap();
    assert_eq!(rec.tx_id, 217999);
    // One `;`-separated group, hence one output: its trailing `2` is a field.
    assert_eq!(rec.num_outputs, 1);
    assert!(!rec.is_coinbase());
    assert_eq!(pairs_of(&rec), vec![(217481, 0), (217536, 0)]);
}

#[test]
fn late_coinbase_line_parses() {
    let line = "1656626446,743071,745466762,1,0,190,1::802635047,635073896,2;1050047673,0,4";
    let rec = parse_line(line, 1, STRICT).unwrap().unwrap();
    assert_eq!(rec.tx_id, 745466762);
    assert_eq!(rec.num_outputs, 2);
    assert!(rec.is_coinbase());
}

#[test]
fn blank_lines_are_skipped_in_both_modes() {
    for opts in [STRICT, LENIENT] {
        assert!(parse_line("", 1, opts).unwrap().is_none());
        assert!(parse_line("   \t ", 2, opts).unwrap().is_none());
        assert!(parse_line("\n", 3, opts).unwrap().is_none());
    }
}

#[test]
fn short_lines_are_errors_in_strict_and_skips_in_lenient() {
    for line in ["a:b:", "a::"] {
        match parse_line(line, 42, STRICT) {
            Err(Error::BadSectionCount { line: 42, .. }) => {}
            other => panic!("expected BadSectionCount, got {other:?}"),
        }
        assert!(parse_line(line, 42, LENIENT).unwrap().is_none());
    }
}

#[test]
fn over_long_lines_are_errors_in_strict_and_parse_in_lenient() {
    let line = "1,2,3,0,0,0,0:b:c:d";
    match parse_line(line, 9, STRICT) {
        Err(Error::BadSectionCount { line: 9, found: 4 }) => {}
        other => panic!("expected BadSectionCount, got {other:?}"),
    }
    let rec = parse_line(line, 9, LENIENT).unwrap().unwrap();
    assert_eq!(rec.tx_id, 3);
    assert_eq!(rec.num_outputs, 1);
}

#[test]
fn crlf_is_stripped() {
    assert_eq!(strip_eol("abc\r\n"), "abc");
    assert_eq!(strip_eol("abc\n"), "abc");
    assert_eq!(strip_eol("abc"), "abc");
    let rec = parse_line("1231006505,0,0,1,0,204,0::0,5000000000,1\r\n", 1, STRICT)
        .unwrap()
        .unwrap();
    assert_eq!(rec.num_outputs, 1);
}

#[test]
fn tx_id_above_i32_max_is_an_error() {
    match parse_line("1,2,3000000000,0,0,0,0::a", 5, STRICT) {
        Err(Error::BadInteger {
            line: 5,
            field: "txId",
            value,
        }) => assert_eq!(value, "3000000000"),
        other => panic!("expected BadInteger, got {other:?}"),
    }
    assert!(parse_line("1,2,3000000000,0,0,0,0::a", 5, LENIENT)
        .unwrap()
        .is_none());
}

#[test]
fn short_info_section_is_fatal_only_in_strict_mode() {
    match parse_line("1,2::a", 9, STRICT) {
        Err(Error::BadInfoFields { line: 9, found: 2 }) => {}
        other => panic!("expected BadInfoFields, got {other:?}"),
    }
    assert!(parse_line("1,2::a", 9, LENIENT).unwrap().is_none());
}

#[test]
fn negative_tx_id_is_rejected_only_in_strict_mode() {
    match parse_line("1,2,-5,0,0,0,0::a", 3, STRICT) {
        Err(Error::NegativeId {
            line: 3,
            field: "txId",
            value: -5,
        }) => {}
        other => panic!("expected NegativeId, got {other:?}"),
    }
    let rec = parse_line("1,2,-5,0,0,0,0::a", 3, LENIENT)
        .unwrap()
        .unwrap();
    assert_eq!(rec.tx_id, -5);
}

#[test]
fn malformed_input_field_counts_are_reported() {
    let rec = parse_line("1,2,3,0,0,0,0:1,2:a", 11, STRICT)
        .unwrap()
        .unwrap();
    match rec.inputs().next().unwrap() {
        Err(Error::BadInputFields {
            line: 11,
            index: 0,
            found: 2,
        }) => {}
        other => panic!("expected BadInputFields, got {other:?}"),
    }
}

#[test]
fn trailing_input_separator_is_swallowed() {
    let rec = parse_line("1,2,3,0,0,0,0:0,0,1,0;:a", 1, STRICT)
        .unwrap()
        .unwrap();
    assert_eq!(pairs_of(&rec), vec![(1, 0)]);
}

#[test]
fn a_trailing_field_separator_is_not_a_field() {
    // `1,2,` has two fields, not three: the run of separators at its end is
    // not significant.
    match parse_line("1,2,::a", 4, STRICT) {
        Err(Error::BadInfoFields { line: 4, found: 2 }) => {}
        other => panic!("expected BadInfoFields, got {other:?}"),
    }
    let rec = parse_line("1,2,3,,,,:0,0,1,0,,;0,0,2,1,:a;b;;", 1, STRICT)
        .unwrap()
        .unwrap();
    assert_eq!(rec.tx_id, 3);
    assert_eq!(rec.num_outputs, 2);
    assert_eq!(pairs_of(&rec), vec![(1, 0), (2, 1)]);
}

#[test]
fn bad_inputs_name_the_field() {
    let rec = parse_line("1,2,3:h,5,x,0;h,5,1,y;h,5,-1,0;h,5,1,-2:a", 6, STRICT)
        .unwrap()
        .unwrap();
    let got = inputs_of(&rec);
    assert_eq!(got.len(), 4);
    assert!(matches!(&got[0], Err(Error::BadInteger { line: 6, field: "prevTxId", value }) if value == "x"));
    assert!(
        matches!(&got[1], Err(Error::BadInteger { line: 6, field: "prevTxOffset", value }) if value == "y")
    );
    assert!(matches!(
        &got[2],
        Err(Error::NegativeId { line: 6, field: "prevTxId", value: -1 })
    ));
    assert!(matches!(
        &got[3],
        Err(Error::NegativeId { line: 6, field: "prevTxOffset", value: -2 })
    ));
    // Lenient mode takes negative ids as they are.
    let rec = parse_line("1,2,3:h,5,-1,-2:a", 6, LENIENT).unwrap().unwrap();
    assert_eq!(pairs_of(&rec), vec![(-1, -2)]);
}

#[test]
fn signs_are_read_as_integers_are() {
    let rec = parse_line("1,2,+7:h,5,+1,+0:a", 1, STRICT).unwrap().unwrap();
    assert_eq!(rec.tx_id, 7);
    assert_eq!(pairs_of(&rec), vec![(1, 0)]);
    let rec = parse_line("1,2,-2147483648::a", 1, LENIENT).unwrap().unwrap();
    assert_eq!(rec.tx_id, i32::MIN);
    assert!(parse_line("1,2,-2147483649::a", 1, LENIENT).unwrap().is_none());
}
