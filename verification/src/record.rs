//! Record parser for the transaction list.
//!
//! One record is one line:
//!
//! ```text
//! <info>:<inputs>:<outputs>
//! info    := f0 "," f1 "," f2 "," ...      ; f2 = txId, the only field read
//! inputs  := "" | input (";" input)*
//! input   := i0 "," i1 "," i2 "," i3       ; i2 = prevTxId, i3 = prevTxOffset
//! outputs := "" | output (";" output)*     ; only the count matters
//! ```
//!
//! Three separators nest: `':'` cuts a line into sections, `';'` a section
//! into groups, `','` a group into fields. All three obey the one splitting
//! rule of [`text::fields`]: a trailing run of separators is not significant,
//! leading and interior empty fields are, and a text in which the separator
//! never occurs is one field, even when it is empty.
use crate::error::Error;
use crate::text;
use crate::text::{count_fields, cut_before, field, find_byte, is_blank, parse_i32, trimmed_len};
use crate::{Mode, Result};
use vstd::prelude::*;
use vstd::string::*;
use vstd::utf8::*;

verus! {

/// `':'`, between the sections of a record.
pub const SECTION_SEP: u8 = 58;

/// `';'`, between the groups of a section.
pub const GROUP_SEP: u8 = 59;

/// `','`, between the fields of a group.
pub const FIELD_SEP: u8 = 44;

/// Parsing options. Currently only the strict/lenient switch.
#[derive(Copy, Clone, Debug, PartialEq, Eq, Structural, Default)]
pub struct ParseOpts {
    /// How malformed records are treated.
    pub mode: Mode,
}

/// One parsed transaction record, borrowing from the caller's line buffer.
///
/// Exactly two things are extracted: the transaction id and the *number* of
/// output groups. A transaction is a coinbase precisely when its input section
/// is empty.
#[derive(Copy, Clone, Debug)]
pub struct TxRecord<'a> {
    /// The transaction id.
    pub tx_id: i32,
    /// Number of output slots. See [`count_outputs`].
    pub num_outputs: u32,
    /// The raw, unsplit inputs section.
    pub inputs_section: &'a str,
    /// 1-based input line number, used for diagnostics.
    pub line: u64,
    /// The options this record was parsed with.
    pub opts: ParseOpts,
}

/// What a [`TxRecord`] holds, as plain values.
pub ghost struct RecordView {
    pub tx_id: i32,
    pub num_outputs: u32,
    pub inputs_section: Seq<u8>,
    pub line: u64,
    pub mode: Mode,
}

impl<'a> View for TxRecord<'a> {
    type V = RecordView;

    open spec fn view(&self) -> RecordView {
        RecordView {
            tx_id: self.tx_id,
            num_outputs: self.num_outputs,
            inputs_section: self.inputs_section.spec_bytes(),
            line: self.line,
            mode: self.opts.mode,
        }
    }
}

/// A line without one trailing `\n` and then one trailing `\r`.
pub open spec fn stripped(b: Seq<u8>) -> Seq<u8> {
    let c = if b.len() > 0 && b.last() == 10 {
        b.drop_last()
    } else {
        b
    };
    if c.len() > 0 && c.last() == 13 {
        c.drop_last()
    } else {
        c
    }
}

/// The number of groups in an output section; an empty section has none.
pub open spec fn output_count(section: Seq<u8>) -> nat {
    if section.len() == 0 {
        0
    } else {
        text::fields(section, GROUP_SEP).len()
    }
}

/// The groups of an input section; an empty section has none.
pub open spec fn input_groups(section: Seq<u8>) -> Seq<Seq<u8>> {
    if section.len() == 0 {
        Seq::empty()
    } else {
        text::fields(section, GROUP_SEP)
    }
}

/// What one input group says: the referenced `(prevTxId, prevTxOffset)`, or
/// what is wrong with it.
pub open spec fn input_of(group: Seq<u8>, line: u64, index: usize, mode: Mode) -> std::result::Result<
    (i32, i32),
    crate::error::ErrorView,
> {
    let parts = text::fields(group, FIELD_SEP);
    if parts.len() < 4 {
        Err(
            crate::error::ErrorView::BadInputFields { line, index, found: parts.len() as usize },
        )
    } else {
        match (text::i32_value(parts[2]), text::i32_value(parts[3])) {
            (None, _) => Err(
                crate::error::ErrorView::BadInteger {
                    line,
                    field: "prevTxId"@,
                    value: decode_utf8(parts[2]),
                },
            ),
            (Some(_), None) => Err(
                crate::error::ErrorView::BadInteger {
                    line,
                    field: "prevTxOffset"@,
                    value: decode_utf8(parts[3]),
                },
            ),
            (Some(tx), Some(offset)) => if mode is Strict && tx < 0 {
                Err(
                    crate::error::ErrorView::NegativeId { line, field: "prevTxId"@, value: tx },
                )
            } else if mode is Strict && offset < 0 {
                Err(
                    crate::error::ErrorView::NegativeId {
                        line,
                        field: "prevTxOffset"@,
                        value: offset,
                    },
                )
            } else {
                Ok((tx, offset))
            },
        }
    }
}

/// Nothing but white space, as bytes of a text.
pub open spec fn is_blank_line(b: Seq<u8>) -> bool {
    text::is_blank_text(decode_utf8(b))
}

/// The record on a line that is not blank, or what is wrong with the line.
pub open spec fn record_of(b: Seq<u8>, line: u64, mode: Mode) -> std::result::Result<
    RecordView,
    crate::error::ErrorView,
> {
    let sections = text::fields(b, SECTION_SEP);
    let n = sections.len();
    if n < 3 || (n > 3 && mode is Strict) {
        Err(crate::error::ErrorView::BadSectionCount { line, found: n as usize })
    } else {
        let infos = text::fields(sections[0], FIELD_SEP);
        if infos.len() < 3 {
            Err(crate::error::ErrorView::BadInfoFields { line, found: infos.len() as usize })
        } else {
            match text::i32_value(infos[2]) {
                None => Err(
                    crate::error::ErrorView::BadInteger {
                        line,
                        field: "txId"@,
                        value: decode_utf8(infos[2]),
                    },
                ),
                Some(tx) => if tx < 0 && mode is Strict {
                    Err(
                        crate::error::ErrorView::NegativeId { line, field: "txId"@, value: tx },
                    )
                } else {
                    Ok(
                        RecordView {
                            tx_id: tx,
                            num_outputs: (output_count(sections[2]) % 0x1_0000_0000) as u32,
                            inputs_section: sections[1],
                            line,
                            mode,
                        },
                    )
                },
            }
        }
    }
}

/// What a line says: `None` where it carries no transaction (it is blank, or
/// it is malformed and the mode is lenient), a record, or, in strict mode, what
/// is wrong with it.
pub open spec fn line_of(b: Seq<u8>, line: u64, mode: Mode) -> std::result::Result<
    Option<RecordView>,
    crate::error::ErrorView,
> {
    let s = stripped(b);
    if is_blank_line(s) {
        Ok(None)
    } else {
        match record_of(s, line, mode) {
            Ok(rec) => Ok(Some(rec)),
            Err(e) => if mode is Lenient {
                Ok(None)
            } else {
                Err(e)
            },
        }
    }
}

/// A result of [`parse_line`], seen through the views of what it holds.
pub open spec fn line_view(r: Result<Option<TxRecord>>) -> std::result::Result<
    Option<RecordView>,
    crate::error::ErrorView,
> {
    match r {
        Ok(Some(rec)) => Ok(Some(rec@)),
        Ok(None) => Ok(None),
        Err(e) => Err(e@),
    }
}

/// A result of [`InputRefs::next`], seen through the view of its error.
pub open spec fn input_view(r: Result<(i32, i32)>) -> std::result::Result<
    (i32, i32),
    crate::error::ErrorView,
> {
    match r {
        Ok(v) => Ok(v),
        Err(e) => Err(e@),
    }
}

/// Strips one trailing `\n` and then one trailing `\r`.
pub fn strip_eol<'a>(line: &'a str) -> (r: &'a str)
    ensures
        r.spec_bytes() == stripped(line.spec_bytes()),
{
    let line = strip_last(line, 10);
    strip_last(line, 13)
}

/// `s` without its last byte, where that is the ASCII byte `c`.
fn strip_last<'a>(s: &'a str, c: u8) -> (r: &'a str)
    requires
        c < 0x80,
    ensures
        r.spec_bytes() == if s.spec_bytes().len() > 0 && s.spec_bytes().last() == c {
            s.spec_bytes().drop_last()
        } else {
            s.spec_bytes()
        },
{
    let b = s.as_bytes();
    if b.len() > 0 && b[b.len() - 1] == c {
        cut_before(s, b.len() - 1).0
    } else {
        s
    }
}

/// Splits a line on `':'`, returning the first three sections and the number
/// of sections. Missing sections come back empty.
pub fn split_sections<'a>(line: &'a str) -> (r: ([&'a str; 3], usize))
    ensures
        r.1 == text::fields(line.spec_bytes(), SECTION_SEP).len(),
        forall|i: int|
            0 <= i < 3 ==> (#[trigger] r.0@[i]).spec_bytes() == text::field_or_empty(
                line.spec_bytes(),
                SECTION_SEP,
                i,
            ),
{
    let n: usize = count_fields(line.as_bytes(), SECTION_SEP);
    let a: &'a str = if n > 0 {
        field(line, SECTION_SEP, 0)
    } else {
        empty_text()
    };
    let b: &'a str = if n > 1 {
        field(line, SECTION_SEP, 1)
    } else {
        empty_text()
    };
    let c: &'a str = if n > 2 {
        field(line, SECTION_SEP, 2)
    } else {
        empty_text()
    };
    ([a, b, c], n)
}

/// The empty text.
fn empty_text<'a>() -> (r: &'a str)
    ensures
        r.spec_bytes() == Seq::<u8>::empty(),
{
    let s = "";
    proof {
        reveal_strlit("");
        assert(s@ =~= Seq::empty());
        assert(encode_utf8(s@) =~= Seq::empty());
    }
    s
}

/// Counts the output slots of a record's third section: the number of
/// `';'`-separated groups, with an empty section counting as zero rather than
/// one.
pub fn count_outputs(section: &str) -> (r: u32)
    ensures
        r == output_count(section.spec_bytes()) % 0x1_0000_0000,
{
    let b = section.as_bytes();
    if b.len() == 0 {
        return 0;
    }
    let n: usize = count_fields(b, GROUP_SEP);
    let wide: u64 = n as u64;
    let r: u32 = wide as u32;
    assert(r == wide % 0x1_0000_0000) by (bit_vector)
        requires
            r == wide as u32,
    ;
    r
}

/// The bytes of a text determine it.
proof fn lemma_text_of_bytes(s: &str)
    ensures
        s@ == decode_utf8(s.spec_bytes()),
{
    encode_utf8_decode_utf8(s@);
}

/// Parses one line into a [`TxRecord`], or `Ok(None)` when the line carries no
/// transaction (blank, or malformed and skipped under [`Mode::Lenient`]).
pub fn parse_line<'a>(line: &'a str, line_no: u64, opts: ParseOpts) -> (r: Result<
    Option<TxRecord<'a>>,
>)
    ensures
        line_view(r) == line_of(line.spec_bytes(), line_no, opts.mode),
{
    let line = strip_eol(line);
    proof {
        lemma_text_of_bytes(line);
    }
    if is_blank(line) {
        return Ok(None);
    }
    let (parts, n) = split_sections(line);
    let ghost b = line.spec_bytes();
    let ghost sections = text::fields(b, SECTION_SEP);
    if n < 3 {
        return match opts.mode {
            Mode::Strict => Err(Error::BadSectionCount { line: line_no, found: n }),
            Mode::Lenient => Ok(None),
        };
    }
    if n > 3 {
        if opts.mode == Mode::Strict {
            return Err(Error::BadSectionCount { line: line_no, found: n });
        }
    }
    assert(parts@[0].spec_bytes() == sections[0]);
    assert(parts@[1].spec_bytes() == sections[1]);
    assert(parts@[2].spec_bytes() == sections[2]);
    let info = parts[0];
    let num_infos: usize = count_fields(info.as_bytes(), FIELD_SEP);
    if num_infos < 3 {
        if opts.mode == Mode::Lenient {
            return Ok(None);
        }
        return Err(Error::BadInfoFields { line: line_no, found: num_infos });
    }
    let tx_field = field(info, FIELD_SEP, 2);
    let tx_id: i32 = match parse_i32(tx_field) {
        Some(v) => v,
        None => {
            if opts.mode == Mode::Lenient {
                return Ok(None);
            }
            proof {
                lemma_text_of_bytes(tx_field);
            }
            return Err(
                Error::BadInteger { line: line_no, field: "txId", value: tx_field.to_owned() },
            );
        },
    };
    if tx_id < 0 && opts.mode == Mode::Strict {
        return Err(Error::NegativeId { line: line_no, field: "txId", value: tx_id });
    }
    Ok(
        Some(
            TxRecord {
                tx_id,
                num_outputs: count_outputs(parts[2]),
                inputs_section: parts[1],
                line: line_no,
                opts,
            },
        ),
    )
}


impl<'a> TxRecord<'a> {
    /// True when the transaction has no inputs (a coinbase).
    pub fn is_coinbase(&self) -> (r: bool)
        ensures
            r == (self@.inputs_section.len() == 0),
    {
        self.inputs_section.as_bytes().len() == 0
    }

    /// Walks the `(prevTxId, prevTxOffset)` pairs of this transaction, in file
    /// order.
    pub fn inputs(&self) -> (r: InputRefs<'a>)
        ensures
            r.valid(),
            r.remaining() == input_groups(self@.inputs_section),
            r.index() == 0,
            r.line() == self@.line,
            r.mode() == self@.mode,
    {
        InputRefs::new(self.inputs_section, self.line, self.opts)
    }
}

/// A walk over a record's inputs, yielding `(prevTxId, prevTxOffset)`.
pub struct InputRefs<'a> {
    /// What is left of the section, without trailing separators; `None` once
    /// no group is left.
    rest: Option<&'a str>,
    index: usize,
    line: u64,
    opts: ParseOpts,
}

impl<'a> InputRefs<'a> {
    /// The groups that are still to come.
    pub closed spec fn remaining(&self) -> Seq<Seq<u8>> {
        match self.rest {
            Some(rest) => text::pieces(rest.spec_bytes(), GROUP_SEP),
            None => Seq::empty(),
        }
    }

    /// The index of the group that comes next.
    pub closed spec fn index(&self) -> nat {
        self.index as nat
    }

    /// The line that errors name.
    pub closed spec fn line(&self) -> u64 {
        self.line
    }

    /// The mode the groups are read in.
    pub closed spec fn mode(&self) -> Mode {
        self.opts.mode
    }

    /// What is left neither is empty nor ends in a separator.
    pub closed spec fn valid(&self) -> bool {
        match self.rest {
            Some(rest) => {
                let b = rest.spec_bytes();
                &&& b.len() > 0
                &&& b.last() != GROUP_SEP
                &&& self.index + b.len() <= usize::MAX
            },
            None => true,
        }
    }

    fn new(section: &'a str, line: u64, opts: ParseOpts) -> (r: Self)
        ensures
            r.valid(),
            r.remaining() == input_groups(section.spec_bytes()),
            r.index() == 0,
            r.line() == line,
            r.mode() == opts.mode,
    {
        let b = section.as_bytes();
        let end: usize = trimmed_len(b, GROUP_SEP);
        proof {
            if b@.len() > 0 {
                text::lemma_fields_are_pieces_of_trimmed(b@, GROUP_SEP);
            }
        }
        let rest: Option<&'a str> = if end == 0 {
            None
        } else if end == b.len() {
            assert(b@.take(end as int) =~= b@);
            Some(section)
        } else {
            Some(cut_before(section, end).0)
        };
        InputRefs { rest, index: 0, line, opts }
    }

    /// The next input, or `None` when there is no more.
    ///
    /// Fields 2 and 3 of a group are read; fields 0 and 1 need only be there.
    pub fn next(&mut self) -> (r: Option<Result<(i32, i32)>>)
        requires
            old(self).valid(),
        ensures
            final(self).valid(),
            final(self).line() == old(self).line(),
            final(self).mode() == old(self).mode(),
            old(self).remaining().len() == 0 ==> r is None && final(self).remaining()
                == old(self).remaining() && final(self).index() == old(self).index(),
            old(self).remaining().len() > 0 ==> {
                &&& old(self).index() <= usize::MAX
                &&& r matches Some(item)
                &&& input_view(item) == input_of(
                    old(self).remaining()[0],
                    old(self).line(),
                    old(self).index() as usize,
                    old(self).mode(),
                )
                &&& final(self).remaining() == old(self).remaining().drop_first()
                &&& final(self).index() == old(self).index() + 1
            },
    {
        let rest: &'a str = match self.rest {
            Some(rest) => rest,
            None => {
                return None;
            },
        };
        let b = rest.as_bytes();
        let p: usize = find_byte(b, GROUP_SEP, 0);
        let index: usize = self.index;
        proof {
            text::lemma_pieces_len(b@, GROUP_SEP);
        }
        let group: &'a str;
        if p == b.len() {
            proof {
                assert(!b@.contains(GROUP_SEP));
                text::lemma_pieces_single(b@, GROUP_SEP);
                assert(text::pieces(b@, GROUP_SEP).drop_first() =~= Seq::<Seq<u8>>::empty());
            }
            group = rest;
            self.rest = None;
        } else {
            proof {
                text::lemma_pieces_front(b@, GROUP_SEP, p as int);
            }
            let (head, tail) = text::cut_at(rest, p);
            proof {
                assert(text::pieces(b@, GROUP_SEP).drop_first() =~= text::pieces(
                    tail.spec_bytes(),
                    GROUP_SEP,
                ));
                assert(b@[b@.len() - 1] != GROUP_SEP);
                assert(p + 1 < b@.len());
            }
            group = head;
            self.rest = Some(tail);
        }
        self.index = index + 1;
        Some(input_ref(group, self.line, index, self.opts))
    }
}

/// Reads one input group.
fn input_ref(group: &str, line: u64, index: usize, opts: ParseOpts) -> (r: Result<(i32, i32)>)
    ensures
        input_view(r) == input_of(group.spec_bytes(), line, index, opts.mode),
{
    let found: usize = count_fields(group.as_bytes(), FIELD_SEP);
    if found < 4 {
        return Err(Error::BadInputFields { line, index, found });
    }
    let prev_tx = field(group, FIELD_SEP, 2);
    let prev_off = field(group, FIELD_SEP, 3);
    proof {
        lemma_text_of_bytes(prev_tx);
        lemma_text_of_bytes(prev_off);
    }
    let prev_tx_id: i32 = match parse_i32(prev_tx) {
        Some(v) => v,
        None => {
            return Err(Error::BadInteger { line, field: "prevTxId", value: prev_tx.to_owned() });
        },
    };
    let prev_tx_offset: i32 = match parse_i32(prev_off) {
        Some(v) => v,
        None => {
            return Err(
                Error::BadInteger { line, field: "prevTxOffset", value: prev_off.to_owned() },
            );
        },
    };
    if opts.mode == Mode::Strict {
        if prev_tx_id < 0 {
            return Err(Error::NegativeId { line, field: "prevTxId", value: prev_tx_id });
        }
        if prev_tx_offset < 0 {
            return Err(Error::NegativeId { line, field: "prevTxOffset", value: prev_tx_offset });
        }
    }
    Ok((prev_tx_id, prev_tx_offset))
}


// ---------------------------------------------------------------------------
// Laws
// ---------------------------------------------------------------------------
/// A trailing separator is not significant: with one more of them at its end, a
/// text that is not empty has the same fields.
pub proof fn trailing_separators_are_not_significant(s: Seq<u8>, sep: u8)
    requires
        s.len() > 0,
    ensures
        text::fields(s.push(sep), sep) == text::fields(s, sep),
{
    let t = s.push(sep);
    assert(t.drop_last() =~= s);
    assert(t.last() == sep);
    assert(t.contains(sep)) by {
        assert(t[s.len() as int] == sep);
    }
    assert(text::pieces(t, sep) == text::pieces(s, sep).push(Seq::empty()));
    assert(text::pieces(t, sep).drop_last() =~= text::pieces(s, sep));
    if !s.contains(sep) {
        text::lemma_pieces_single(s, sep);
        assert(text::without_trailing_empty(seq![s]) == seq![s]);
    }
}

/// So it is with the number of outputs, and with the groups of the inputs.
pub proof fn trailing_groups_are_not_significant(section: Seq<u8>)
    requires
        section.len() > 0,
    ensures
        output_count(section.push(GROUP_SEP)) == output_count(section),
        input_groups(section.push(GROUP_SEP)) == input_groups(section),
{
    trailing_separators_are_not_significant(section, GROUP_SEP);
}

/// How a line ends is not significant: with a line feed, with a carriage return
/// and a line feed, or with neither, it says the same.
pub proof fn line_ends_are_not_significant(b: Seq<u8>, line: u64, mode: Mode)
    requires
        b.len() > 0 ==> b.last() != 10 && b.last() != 13,
    ensures
        line_of(b.push(10), line, mode) == line_of(b, line, mode),
        line_of(b.push(13).push(10), line, mode) == line_of(b, line, mode),
{
    assert(b.push(10).drop_last() =~= b);
    assert(b.push(13).push(10).drop_last() =~= b.push(13));
    assert(b.push(13).drop_last() =~= b);
}

/// A blank line carries no transaction, in either mode, and is no error.
pub proof fn blank_lines_carry_nothing(b: Seq<u8>, line: u64, mode: Mode)
    requires
        is_blank_line(stripped(b)),
    ensures
        line_of(b, line, mode) == Ok::<Option<RecordView>, crate::error::ErrorView>(None),
{
}

/// Lenient mode reports no line as an error, and reads every line that strict
/// mode reads, to the same transaction.
pub proof fn lenient_mode_reads_what_strict_mode_reads(b: Seq<u8>, line: u64)
    ensures
        line_of(b, line, Mode::Lenient) is Ok,
        line_of(b, line, Mode::Strict) matches Ok(Some(rec)) ==> line_of(b, line, Mode::Lenient)
            == Ok::<Option<RecordView>, crate::error::ErrorView>(
            Some(RecordView { mode: Mode::Lenient, ..rec }),
        ),
        line_of(b, line, Mode::Strict) == Ok::<Option<RecordView>, crate::error::ErrorView>(None)
            ==> line_of(b, line, Mode::Lenient) == Ok::<
            Option<RecordView>,
            crate::error::ErrorView,
        >(None),
{
}

proof fn lemma_leading_fields(parts: Seq<Seq<u8>>, sep: u8, k: int)
    requires
        0 <= k < parts.len(),
        text::free_of(parts, sep),
        parts[k].len() > 0,
    ensures
        text::fields(text::joined_by(parts, sep), sep).len() > k,
        text::fields(text::joined_by(parts, sep), sep).len() <= parts.len(),
        forall|i: int|
            0 <= i <= k ==> #[trigger] text::fields(text::joined_by(parts, sep), sep)[i]
                == parts[i],
{
    let s = text::joined_by(parts, sep);
    text::cutting_undoes_joining(parts, sep);
    text::lemma_fields_prefix(s, sep);
    if text::fields(s, sep).len() <= k {
        assert(text::pieces(s, sep)[k].len() == 0);
    }
}

/// An input says which output it spends in its third and fourth field, whatever
/// the others hold, wherever it stands and on whatever line. A negative number
/// there is refused in strict mode.
pub proof fn inputs_are_read_as_written(
    parts: Seq<Seq<u8>>,
    tx: i32,
    offset: i32,
    line: u64,
    index: usize,
    mode: Mode,
)
    requires
        parts.len() >= 4,
        text::free_of(parts, 44),
        text::i32_value(parts[2]) == Some(tx),
        text::i32_value(parts[3]) == Some(offset),
    ensures
        mode is Lenient || (tx >= 0 && offset >= 0) ==> input_of(
            text::joined_by(parts, 44),
            line,
            index,
            mode,
        ) == Ok::<(i32, i32), crate::error::ErrorView>((tx, offset)),
        mode is Strict && tx < 0 ==> input_of(text::joined_by(parts, 44), line, index, mode) == Err::<
            (i32, i32),
            crate::error::ErrorView,
        >(crate::error::ErrorView::NegativeId { line, field: "prevTxId"@, value: tx }),
        mode is Strict && tx >= 0 && offset < 0 ==> input_of(
            text::joined_by(parts, 44),
            line,
            index,
            mode,
        ) == Err::<(i32, i32), crate::error::ErrorView>(
            crate::error::ErrorView::NegativeId { line, field: "prevTxOffset"@, value: offset },
        ),
{
    assert(parts[3].len() > 0);
    lemma_leading_fields(parts, 44, 3);
    let found = text::fields(text::joined_by(parts, 44), 44);
    assert(found[2] == parts[2] && found[3] == parts[3]);
}

/// An input with fewer than four fields, or with no number in its third or
/// fourth, is refused, and it is said why.
pub proof fn unreadable_inputs_are_refused(
    parts: Seq<Seq<u8>>,
    line: u64,
    index: usize,
    mode: Mode,
)
    requires
        parts.len() > 0,
        parts.last().len() > 0,
        parts.len() <= usize::MAX,
        text::free_of(parts, 44),
    ensures
        ({
            let r = input_of(text::joined_by(parts, 44), line, index, mode);
            if parts.len() < 4 {
                r == Err::<(i32, i32), crate::error::ErrorView>(
                    crate::error::ErrorView::BadInputFields {
                        line,
                        index,
                        found: parts.len() as usize,
                    },
                )
            } else if text::i32_value(parts[2]) is None {
                r == Err::<(i32, i32), crate::error::ErrorView>(
                    crate::error::ErrorView::BadInteger {
                        line,
                        field: "prevTxId"@,
                        value: decode_utf8(parts[2]),
                    },
                )
            } else if text::i32_value(parts[3]) is None {
                r == Err::<(i32, i32), crate::error::ErrorView>(
                    crate::error::ErrorView::BadInteger {
                        line,
                        field: "prevTxOffset"@,
                        value: decode_utf8(parts[3]),
                    },
                )
            } else {
                true
            }
        }),
{
    text::cutting_undoes_joining(parts, 44);
}

/// Every output is counted: as many groups as there are, without a separator in
/// them and joined by it, so many outputs there are; no group, no output.
pub proof fn every_output_is_counted(groups: Seq<Seq<u8>>)
    requires
        groups.len() > 0 ==> groups.last().len() > 0,
        text::free_of(groups, 59),
    ensures
        output_count(text::joined_by(groups, 59)) == groups.len(),
{
    if groups.len() > 0 {
        text::cutting_undoes_joining(groups, 59);
        lemma_joined_not_empty(groups, 59);
    }
}

proof fn lemma_joined_not_empty(parts: Seq<Seq<u8>>, sep: u8)
    requires
        parts.len() > 0,
        parts.last().len() > 0,
    ensures
        text::joined_by(parts, sep).len() > 0,
        text::joined_by(parts, sep).last() == parts.last().last(),
{
}

/// One more output is counted as one more.
pub proof fn one_more_output_counts_one_more(section: Seq<u8>, group: Seq<u8>)
    requires
        section.len() > 0,
        section.last() != 59,
        group.len() > 0,
        forall|i: int| 0 <= i < group.len() ==> #[trigger] group[i] != 59,
    ensures
        output_count(section.push(59) + group) == output_count(section) + 1,
{
    let parts = text::pieces(section, 59);
    text::joining_undoes_cutting(section, 59);
    text::lemma_last_piece_empty(section, 59);
    every_output_is_counted(parts);
    let more = parts.push(group);
    assert(more.drop_last() =~= parts);
    assert forall|i: int, j: int| 0 <= i < more.len() && 0 <= j < more[i].len() implies #[trigger] more[i][j]
        != 59 by {
        if i < parts.len() {
            assert(parts[i][j] != 59);
        } else {
            assert(group[j] != 59);
        }
    }
    every_output_is_counted(more);
}

/// Every input is walked: the groups of a section are those that were joined,
/// in their order, and there are none in an empty section.
pub proof fn every_input_is_walked(groups: Seq<Seq<u8>>)
    requires
        groups.len() > 0 ==> groups.last().len() > 0,
        text::free_of(groups, 59),
    ensures
        input_groups(text::joined_by(groups, 59)) == groups,
{
    if groups.len() > 0 {
        text::cutting_undoes_joining(groups, 59);
        lemma_joined_not_empty(groups, 59);
    } else {
        assert(groups =~= Seq::empty());
    }
}

/// A record says its transaction in the third field of its first section, its
/// inputs in the second section and its outputs in the third. Further sections
/// are refused in strict mode, and not read in lenient mode; so it is with a
/// negative transaction id.
pub proof fn records_are_read_as_written(
    info: Seq<Seq<u8>>,
    tx: i32,
    inputs: Seq<u8>,
    outputs: Seq<u8>,
    more: Seq<Seq<u8>>,
    line: u64,
    mode: Mode,
)
    requires
        info.len() >= 3,
        text::free_of(info, 44),
        text::i32_value(info[2]) == Some(tx),
        text::free_of(seq![text::joined_by(info, 44), inputs, outputs] + more, 58),
        (seq![text::joined_by(info, 44), inputs, outputs] + more).last().len() > 0,
        more.len() + 3 <= usize::MAX,
    ensures
        ({
            let b = text::joined_by(seq![text::joined_by(info, 44), inputs, outputs] + more, 58);
            let r = record_of(b, line, mode);
            if mode is Strict && more.len() > 0 {
                r == Err::<RecordView, crate::error::ErrorView>(
                    crate::error::ErrorView::BadSectionCount {
                        line,
                        found: (3 + more.len()) as usize,
                    },
                )
            } else if mode is Strict && tx < 0 {
                r == Err::<RecordView, crate::error::ErrorView>(
                    crate::error::ErrorView::NegativeId { line, field: "txId"@, value: tx },
                )
            } else {
                r matches Ok(rec) && {
                    &&& rec.tx_id == tx
                    &&& rec.inputs_section == inputs
                    &&& output_count(outputs) <= u32::MAX ==> rec.num_outputs == output_count(
                        outputs,
                    )
                    &&& rec.line == line
                    &&& rec.mode == mode
                }
            }
        }),
{
    let sections = seq![text::joined_by(info, 44), inputs, outputs] + more;
    text::cutting_undoes_joining(sections, 58);
    assert(sections[0] == text::joined_by(info, 44));
    assert(sections[1] == inputs && sections[2] == outputs);
    assert(info[2].len() > 0);
    lemma_leading_fields(info, 44, 2);
    assert(text::fields(sections[0], 44)[2] == info[2]);
}

/// A line with fewer than three sections, with fewer than three fields in the
/// first of them, or with no number in the third of those, is no record.
pub proof fn other_lines_are_no_records(
    info: Seq<Seq<u8>>,
    rest: Seq<Seq<u8>>,
    line: u64,
    mode: Mode,
)
    requires
        info.len() > 0,
        info.last().len() > 0,
        text::free_of(info, 44),
        text::free_of(seq![text::joined_by(info, 44)] + rest, 58),
        rest.len() > 0 ==> rest.last().len() > 0,
        info.len() <= usize::MAX,
        rest.len() < usize::MAX,
    ensures
        ({
            let b = text::joined_by(seq![text::joined_by(info, 44)] + rest, 58);
            let r = record_of(b, line, mode);
            if rest.len() < 2 {
                r == Err::<RecordView, crate::error::ErrorView>(
                    crate::error::ErrorView::BadSectionCount {
                        line,
                        found: (1 + rest.len()) as usize,
                    },
                )
            } else if rest.len() == 2 && info.len() < 3 {
                r == Err::<RecordView, crate::error::ErrorView>(
                    crate::error::ErrorView::BadInfoFields { line, found: info.len() as usize },
                )
            } else if rest.len() == 2 && text::i32_value(info[2]) is None {
                r == Err::<RecordView, crate::error::ErrorView>(
                    crate::error::ErrorView::BadInteger {
                        line,
                        field: "txId"@,
                        value: decode_utf8(info[2]),
                    },
                )
            } else {
                true
            }
        }),
{
    let sections = seq![text::joined_by(info, 44)] + rest;
    lemma_joined_not_empty(info, 44);
    text::cutting_undoes_joining(sections, 58);
    text::cutting_undoes_joining(info, 44);
    assert(sections[0] == text::joined_by(info, 44));
}

/// A line that is not blank says what its record says. Where it holds no record,
/// it is refused in strict mode and skipped in lenient mode.
pub proof fn lines_hold_records(b: Seq<u8>, line: u64, mode: Mode)
    requires
        b.len() > 0,
        b.last() != 10,
        b.last() != 13,
        !is_blank_line(b),
    ensures
        record_of(b, line, mode) matches Ok(rec) ==> line_of(b, line, mode) == Ok::<
            Option<RecordView>,
            crate::error::ErrorView,
        >(Some(rec)),
        record_of(b, line, mode) matches Err(e) ==> line_of(b, line, mode) == if mode is Strict {
            Err::<Option<RecordView>, crate::error::ErrorView>(e)
        } else {
            Ok(None)
        },
{
}

/// A line of ASCII is blank exactly when it holds nothing but spaces, tabs and
/// ends of lines, however long it is.
pub proof fn only_white_space_is_blank(b: Seq<u8>)
    requires
        forall|i: int| 0 <= i < b.len() ==> #[trigger] b[i] < 128,
    ensures
        is_blank_line(b) <==> (forall|i: int|
            0 <= i < b.len() ==> #[trigger] b[i] == 32 || 9 <= b[i] <= 13),
{
    text::ascii_bytes_are_characters(b);
    let s = decode_utf8(b);
    if is_blank_line(b) {
        assert forall|i: int| 0 <= i < b.len() implies #[trigger] b[i] == 32 || 9 <= b[i] <= 13 by {
            assert(s[i] as int == b[i]);
            assert(text::is_white_space(s[i]));
        }
    }
    if forall|i: int| 0 <= i < b.len() ==> #[trigger] b[i] == 32 || 9 <= b[i] <= 13 {
        assert forall|i: int| 0 <= i < s.len() implies text::is_white_space(#[trigger] s[i]) by {
            assert(s[i] as int == b[i]);
        }
    }
}

} // verus!
