//! Every failure this library can report.
use crate::nodemap::MAX_TX_GAP;
use crate::text;
use crate::text::{append_decimal, append_signed};
use crate::NodeId;
use vstd::prelude::*;
use vstd::string::*;

verus! {

/// `std::io::Error`, carried through untouched.
#[verifier::external_type_specification]
#[verifier::external_body]
pub struct ExIoError(std::io::Error);

/// Every failure this library can report. Deliberately line-numbered, so a
/// failure names the input that caused it.
#[allow(inconsistent_fields)]
#[derive(Debug)]
pub enum Error {
    /// An I/O error, with the path that caused it.
    Io {
        /// The file or directory being operated on.
        path: String,
        /// The underlying operating-system error.
        source: std::io::Error,
    },
    /// An I/O error with no path context available.
    PlainIo(std::io::Error),
    /// A record did not have exactly three `':'`-separated sections.
    BadSectionCount {
        /// 1-based line number in the concatenated input.
        line: u64,
        /// The number of sections actually found.
        found: usize,
    },
    /// The info section had fewer than three `','`-separated fields.
    BadInfoFields {
        /// 1-based line number in the concatenated input.
        line: u64,
        /// The number of fields actually found.
        found: usize,
    },
    /// An input descriptor had fewer than four `','`-separated fields.
    BadInputFields {
        /// 1-based line number in the concatenated input.
        line: u64,
        /// Zero-based index of the input within its transaction.
        index: usize,
        /// The number of fields actually found.
        found: usize,
    },
    /// A transaction id or offset field is not an `i32`.
    BadInteger {
        /// 1-based line number in the concatenated input.
        line: u64,
        /// Which field failed: `"txId"`, `"prevTxId"` or `"prevTxOffset"`.
        field: &'static str,
        /// The offending text, verbatim.
        value: String,
    },
    /// A negative txId or offset was seen in strict mode.
    NegativeId {
        /// 1-based line number in the concatenated input.
        line: u64,
        /// Which field was negative.
        field: &'static str,
        /// The offending value.
        value: i32,
    },
    /// An input referenced an output that was never registered.
    DanglingSource {
        /// 1-based line number in the concatenated input.
        line: u64,
        /// The transaction being processed when the reference failed.
        tx_id: i32,
        /// Zero-based index of the offending input within its transaction.
        index: usize,
        /// The referenced previous transaction id.
        prev_tx_id: i32,
        /// The referenced output offset within that transaction.
        prev_offset: i32,
    },
    /// A txId jumped *forward*, breaking the dense node map's "+1" invariant.
    NonDenseTxId {
        /// 1-based line number in the concatenated input.
        line: u64,
        /// The txId the dense map expected next.
        expected: i64,
        /// The txId actually found.
        found: i64,
    },
    /// A txId jumped forward by more than [`MAX_TX_GAP`], so even lenient mode
    /// refuses to bridge it.
    TxIdGapTooLarge {
        /// 1-based line number in the concatenated input.
        line: u64,
        /// The txId the dense map expected next.
        expected: i64,
        /// The txId actually found.
        found: i64,
    },
    /// A node was to be minted for an output whose transaction the run has not
    /// read yet.
    ForwardForcedNode {
        /// 1-based line number in the concatenated input.
        line: u64,
        /// The referenced transaction id, at or ahead of the dense cursor.
        tx_id: i32,
        /// The referenced output offset within that transaction.
        offset: i32,
        /// The highest transaction id that already has a dense slot, or one
        /// below the first when nothing has been registered at all.
        reached: i64,
    },
    /// A transaction line was not valid UTF-8.
    InvalidUtf8 {
        /// 1-based line number in the concatenated input.
        line: u64,
        /// Byte offset of the first invalid byte, relative to the line start.
        offset: usize,
    },
    /// The edge list contained no arcs at all.
    EmptyEdgeList,
    /// A binary run file's length is not a whole number of arc records.
    TruncatedRun {
        /// The run file.
        path: String,
        /// Its length in bytes.
        len: u64,
        /// The expected record size.
        record_size: usize,
    },
    /// A graph basename contains a `.`, which would be taken for an extension.
    BadBasename(String),
    /// A line of a text edge list was not two tab-separated integers.
    BadArcLine {
        /// The edge-list file.
        path: String,
        /// 1-based line number within it.
        line: u64,
        /// The offending line, verbatim.
        text: String,
    },
    /// Arcs reached the compressor out of `(src, dst)` ascending order.
    UnsortedArcs {
        /// Source of the previous arc.
        p_src: NodeId,
        /// Destination of the previous arc.
        p_dst: NodeId,
        /// Source of the offending arc.
        c_src: NodeId,
        /// Destination of the offending arc.
        c_dst: NodeId,
    },
    /// An arc endpoint is outside `0..num_nodes`.
    ArcOutOfBounds {
        /// The arc's source.
        src: NodeId,
        /// The arc's destination.
        dst: NodeId,
        /// The declared node count.
        num_nodes: usize,
    },
    /// The graph compressor panicked and the panic was caught.
    CompressorPanic(String),
    /// The computed chunk boundaries do not end exactly at the end date.
    BoundaryMismatch {
        /// The last computed boundary.
        last: i64,
        /// The timestamp the end date resolves to.
        end: i64,
    },
    /// A timezone name that names no IANA timezone.
    BadTimezone(String),
    /// A date that is not of the form `YYYY-MM-DD`.
    BadDate(String),
    /// Anything that does not deserve its own variant.
    Other(String),
}

/// What an [`Error`] says: its variant and the plain values in it.
#[allow(inconsistent_fields)]
pub ghost enum ErrorView {
    Io { path: Seq<char> },
    PlainIo,
    BadSectionCount { line: u64, found: usize },
    BadInfoFields { line: u64, found: usize },
    BadInputFields { line: u64, index: usize, found: usize },
    BadInteger { line: u64, field: Seq<char>, value: Seq<char> },
    NegativeId { line: u64, field: Seq<char>, value: i32 },
    DanglingSource { line: u64, tx_id: i32, index: usize, prev_tx_id: i32, prev_offset: i32 },
    NonDenseTxId { line: u64, expected: i64, found: i64 },
    TxIdGapTooLarge { line: u64, expected: i64, found: i64 },
    ForwardForcedNode { line: u64, tx_id: i32, offset: i32, reached: i64 },
    InvalidUtf8 { line: u64, offset: usize },
    EmptyEdgeList,
    TruncatedRun { path: Seq<char>, len: u64, record_size: usize },
    BadBasename(Seq<char>),
    BadArcLine { path: Seq<char>, line: u64, text: Seq<char> },
    UnsortedArcs { p_src: NodeId, p_dst: NodeId, c_src: NodeId, c_dst: NodeId },
    ArcOutOfBounds { src: NodeId, dst: NodeId, num_nodes: usize },
    CompressorPanic(Seq<char>),
    BoundaryMismatch { last: i64, end: i64 },
    BadTimezone(Seq<char>),
    BadDate(Seq<char>),
    Other(Seq<char>),
}

impl View for Error {
    type V = ErrorView;

    open spec fn view(&self) -> ErrorView {
        match *self {
            Error::Io { path, .. } => ErrorView::Io { path: path@ },
            Error::PlainIo(_) => ErrorView::PlainIo,
            Error::BadSectionCount { line, found } => ErrorView::BadSectionCount { line, found },
            Error::BadInfoFields { line, found } => ErrorView::BadInfoFields { line, found },
            Error::BadInputFields { line, index, found } => ErrorView::BadInputFields {
                line,
                index,
                found,
            },
            Error::BadInteger { line, field, value } => ErrorView::BadInteger {
                line,
                field: field@,
                value: value@,
            },
            Error::NegativeId { line, field, value } => ErrorView::NegativeId {
                line,
                field: field@,
                value,
            },
            Error::DanglingSource { line, tx_id, index, prev_tx_id, prev_offset } =>
                ErrorView::DanglingSource { line, tx_id, index, prev_tx_id, prev_offset },
            Error::NonDenseTxId { line, expected, found } => ErrorView::NonDenseTxId {
                line,
                expected,
                found,
            },
            Error::TxIdGapTooLarge { line, expected, found } => ErrorView::TxIdGapTooLarge {
                line,
                expected,
                found,
            },
            Error::ForwardForcedNode { line, tx_id, offset, reached } =>
                ErrorView::ForwardForcedNode { line, tx_id, offset, reached },
            Error::InvalidUtf8 { line, offset } => ErrorView::InvalidUtf8 { line, offset },
            Error::EmptyEdgeList => ErrorView::EmptyEdgeList,
            Error::TruncatedRun { path, len, record_size } => ErrorView::TruncatedRun {
                path: path@,
                len,
                record_size,
            },
            Error::BadBasename(name) => ErrorView::BadBasename(name@),
            Error::BadArcLine { path, line, text } => ErrorView::BadArcLine {
                path: path@,
                line,
                text: text@,
            },
            Error::UnsortedArcs { p_src, p_dst, c_src, c_dst } => ErrorView::UnsortedArcs {
                p_src,
                p_dst,
                c_src,
                c_dst,
            },
            Error::ArcOutOfBounds { src, dst, num_nodes } => ErrorView::ArcOutOfBounds {
                src,
                dst,
                num_nodes,
            },
            Error::CompressorPanic(msg) => ErrorView::CompressorPanic(msg@),
            Error::BoundaryMismatch { last, end } => ErrorView::BoundaryMismatch { last, end },
            Error::BadTimezone(name) => ErrorView::BadTimezone(name@),
            Error::BadDate(text) => ErrorView::BadDate(text@),
            Error::Other(msg) => ErrorView::Other(msg@),
        }
    }
}

/// The text that `str`'s `Debug` writes: the text in double quotes, with
/// quotes, backslashes and unprintable characters escaped.
pub uninterp spec fn debug_quoted(s: Seq<char>) -> Seq<char>;

/// `<str as Debug>::fmt` through `format!`, the quoted and escaped form of a
/// text. The result is named, not spelled out.
#[verifier::external_body]
pub(crate) fn quoted(s: &str) -> (r: String)
    ensures
        r@ == debug_quoted(s@),
{
    format!("{s:?}")
}

/// `<std::io::Error as Display>::fmt` through `format!`. The text comes from
/// the operating system, so nothing is claimed of it.
#[verifier::external_body]
fn io_error_text(e: &std::io::Error) -> (r: String) {
    format!("{e}")
}

impl ErrorView {
    /// The one-line message of an error. Of [`ErrorView::PlainIo`] it is the
    /// fixed part, in front of what the operating system says.
    pub open spec fn message(self) -> Seq<char> {
        match self {
            ErrorView::Io { path } => "I/O error on "@ + path,
            ErrorView::PlainIo => "I/O error: "@,
            ErrorView::BadSectionCount { line, found } => "line "@ + text::decimal(line as nat)
                + ": expected 3 ':'-separated sections, found "@ + text::decimal(found as nat),
            ErrorView::BadInfoFields { line, found } => "line "@ + text::decimal(line as nat)
                + ": info section has "@ + text::decimal(found as nat)
                + " ','-separated fields, expected at least 3"@,
            ErrorView::BadInputFields { line, index, found } => "line "@ + text::decimal(line as nat)
                + ": input #"@ + text::decimal(index as nat) + " has "@ + text::decimal(found as nat)
                + " ','-separated fields, expected at least 4"@,
            ErrorView::BadInteger { line, field, value } => "line "@ + text::decimal(line as nat)
                + ", field "@ + field + ": cannot parse "@ + debug_quoted(value) + " as i32"@,
            ErrorView::NegativeId { line, field, value } => "line "@ + text::decimal(line as nat)
                + ", field "@ + field + ": negative value "@ + text::signed_decimal(value as int)
                + " rejected in strict mode"@,
            ErrorView::DanglingSource { line, tx_id, index, prev_tx_id, prev_offset } => "line "@
                + text::decimal(line as nat) + ", tx "@ + text::signed_decimal(tx_id as int) + ": input #"@
                + text::decimal(index as nat) + " references unknown output ("@ + text::signed_decimal(
                prev_tx_id as int,
            ) + ", "@ + text::signed_decimal(prev_offset as int)
                + "); the input must be a prefix of the transaction list starting at genesis, or pass --on-missing-source skip|create"@,
            ErrorView::NonDenseTxId { line, expected, found } => "line "@ + text::decimal(line as nat)
                + ": transaction id "@ + text::signed_decimal(found as int) + " skips ahead of "@
                + text::signed_decimal(expected as int)
                + ", breaking the node-map invariant that transaction ids are consecutive; re-run with --lenient to bridge gaps of up to "@
                + text::signed_decimal(MAX_TX_GAP as int)
                + " ids with zero-output placeholders, or repair the input"@,
            ErrorView::TxIdGapTooLarge { line, expected, found } => "line "@ + text::decimal(
                line as nat,
            ) + ": transaction id "@ + text::signed_decimal(found as int) + " skips ahead of "@
                + text::signed_decimal(expected as int) + " by "@ + text::signed_decimal(
                found.wrapping_sub(expected) as int,
            ) + " ids, more than the "@ + text::signed_decimal(MAX_TX_GAP as int)
                + " --lenient will bridge; filling it would allocate "@ + text::decimal(
                (found.wrapping_sub(expected) as u64).wrapping_mul(8) as nat,
            )
                + " bytes of zero-output placeholders for one line. Repair the input, or split it so each run starts at a transaction it actually contains"@,
            ErrorView::ForwardForcedNode { line, tx_id, offset, reached } => "line "@ + text::decimal(
                line as nat,
            ) + ": --on-missing-source create cannot mint a node for output ("@ + text::signed_decimal(
                tx_id as int,
            ) + ", "@ + text::signed_decimal(offset as int) + "), because transaction "@
                + text::signed_decimal(tx_id as int)
                + " has not been read yet (the node map has only reached transaction "@
                + text::signed_decimal(reached as int)
                + "); minting it now would hand that output a second id once the transaction is read. Use --on-missing-source skip or fail, or feed the input in transaction order starting at genesis"@,
            ErrorView::InvalidUtf8 { line, offset } => "line "@ + text::decimal(line as nat)
                + ": invalid UTF-8 at byte offset "@ + text::decimal(offset as nat)
                + " within the line; re-run with --lenient to replace it with U+FFFD and continue"@,
            ErrorView::EmptyEdgeList =>
                "the edge list is empty; refusing to build a graph with no arcs (pass --allow-empty)"@,
            ErrorView::TruncatedRun { path, len, record_size } => "run file "@ + path
                + ": length "@ + text::decimal(len as nat) + " is not a multiple of "@ + text::decimal(
                record_size as nat,
            ) + " bytes (truncated write?)"@,
            ErrorView::BadBasename(name) => "invalid BVGraph basename "@ + name
                + ": it contains a '.', which webgraph-rs would strip from the extension"@,
            ErrorView::BadArcLine { path, line, text } => "edge list "@ + path + " line "@
                + text::decimal(line as nat) + ": expected two tab-separated integers, found "@
                + debug_quoted(text),
            ErrorView::UnsortedArcs { p_src, p_dst, c_src, c_dst } => "arcs are not sorted: ("@
                + text::decimal(c_src as nat) + ", "@ + text::decimal(c_dst as nat) + ") follows ("@ + text::decimal(
                p_src as nat,
            ) + ", "@ + text::decimal(p_dst as nat) + ")"@,
            ErrorView::ArcOutOfBounds { src, dst, num_nodes } => "arc ("@ + text::decimal(src as nat)
                + ", "@ + text::decimal(dst as nat) + ") is out of bounds for a "@ + text::decimal(
                num_nodes as nat,
            ) + "-node graph"@,
            ErrorView::CompressorPanic(msg) => "the webgraph compressor panicked: "@ + msg,
            ErrorView::BoundaryMismatch { last, end } => "boundary table ends at "@
                + text::signed_decimal(last as int) + " but --end resolves to "@ + text::signed_decimal(
                end as int,
            ) + "; the last chunk would become a silent catch-all"@,
            ErrorView::BadTimezone(name) => "unknown timezone "@ + debug_quoted(name),
            ErrorView::BadDate(text) => "invalid date "@ + debug_quoted(text)
                + ": expected YYYY-MM-DD"@,
            ErrorView::Other(msg) => msg,
        }
    }
}

impl Error {
    /// Convenience constructor for [`Error::Other`].
    pub fn other(msg: String) -> (r: Error)
        ensures
            r@ == ErrorView::Other(msg@),
    {
        Error::Other(msg)
    }

    /// Attaches a path to an `std::io::Error`.
    pub fn io(path: String, source: std::io::Error) -> (r: Error)
        ensures
            r == (Error::Io { path, source }),
            r@ == (ErrorView::Io { path: path@ }),
    {
        Error::Io { path, source }
    }

    /// The one-line message of the error.
    pub fn to_string(&self) -> (r: String)
        ensures
            !(self is PlainIo) ==> r@ == self@.message(),
            self is PlainIo ==> self@.message().is_prefix_of(r@),
    {
        match self {
            Error::Io { path, .. } => {
                let mut out: String = "I/O error on ".to_owned();
                out.append(path.as_str());
                out
            },
            Error::PlainIo(source) => {
                let mut out: String = "I/O error: ".to_owned();
                let said = io_error_text(source);
                out.append(said.as_str());
                assert(self@.message().is_prefix_of(out@)) by {
                    let m = self@.message();
                    assert(out@.take(m.len() as int) =~= m);
                }
                out
            },
            Error::BadSectionCount { line, found } => {
                let mut out: String = "line ".to_owned();
                append_decimal(&mut out, *line);
                out.append(": expected 3 ':'-separated sections, found ");
                append_decimal(&mut out, *found as u64);
                out
            },
            Error::BadInfoFields { line, found } => {
                let mut out: String = "line ".to_owned();
                append_decimal(&mut out, *line);
                out.append(": info section has ");
                append_decimal(&mut out, *found as u64);
                out.append(" ','-separated fields, expected at least 3");
                out
            },
            Error::BadInputFields { line, index, found } => {
                let mut out: String = "line ".to_owned();
                append_decimal(&mut out, *line);
                out.append(": input #");
                append_decimal(&mut out, *index as u64);
                out.append(" has ");
                append_decimal(&mut out, *found as u64);
                out.append(" ','-separated fields, expected at least 4");
                out
            },
            Error::BadInteger { line, field, value } => {
                let mut out: String = "line ".to_owned();
                append_decimal(&mut out, *line);
                out.append(", field ");
                out.append(field);
                out.append(": cannot parse ");
                let shown = quoted(value.as_str());
                out.append(shown.as_str());
                out.append(" as i32");
                out
            },
            Error::NegativeId { line, field, value } => {
                let mut out: String = "line ".to_owned();
                append_decimal(&mut out, *line);
                out.append(", field ");
                out.append(field);
                out.append(": negative value ");
                append_signed(&mut out, *value as i64);
                out.append(" rejected in strict mode");
                out
            },
            Error::DanglingSource { line, tx_id, index, prev_tx_id, prev_offset } => {
                let mut out: String = "line ".to_owned();
                append_decimal(&mut out, *line);
                out.append(", tx ");
                append_signed(&mut out, *tx_id as i64);
                out.append(": input #");
                append_decimal(&mut out, *index as u64);
                out.append(" references unknown output (");
                append_signed(&mut out, *prev_tx_id as i64);
                out.append(", ");
                append_signed(&mut out, *prev_offset as i64);
                out.append(
                    "); the input must be a prefix of the transaction list starting at genesis, or pass --on-missing-source skip|create",
                );
                out
            },
            Error::NonDenseTxId { line, expected, found } => {
                let mut out: String = "line ".to_owned();
                append_decimal(&mut out, *line);
                out.append(": transaction id ");
                append_signed(&mut out, *found);
                out.append(" skips ahead of ");
                append_signed(&mut out, *expected);
                out.append(
                    ", breaking the node-map invariant that transaction ids are consecutive; re-run with --lenient to bridge gaps of up to ",
                );
                append_signed(&mut out, MAX_TX_GAP);
                out.append(" ids with zero-output placeholders, or repair the input");
                out
            },
            Error::TxIdGapTooLarge { line, expected, found } => {
                let gap: i64 = found.wrapping_sub(*expected);
                let mut out: String = "line ".to_owned();
                append_decimal(&mut out, *line);
                out.append(": transaction id ");
                append_signed(&mut out, *found);
                out.append(" skips ahead of ");
                append_signed(&mut out, *expected);
                out.append(" by ");
                append_signed(&mut out, gap);
                out.append(" ids, more than the ");
                append_signed(&mut out, MAX_TX_GAP);
                out.append(" --lenient will bridge; filling it would allocate ");
                append_decimal(&mut out, (gap as u64).wrapping_mul(8));
                out.append(
                    " bytes of zero-output placeholders for one line. Repair the input, or split it so each run starts at a transaction it actually contains",
                );
                out
            },
            Error::ForwardForcedNode { line, tx_id, offset, reached } => {
                let mut out: String = "line ".to_owned();
                append_decimal(&mut out, *line);
                out.append(": --on-missing-source create cannot mint a node for output (");
                append_signed(&mut out, *tx_id as i64);
                out.append(", ");
                append_signed(&mut out, *offset as i64);
                out.append("), because transaction ");
                append_signed(&mut out, *tx_id as i64);
                out.append(" has not been read yet (the node map has only reached transaction ");
                append_signed(&mut out, *reached);
                out.append(
                    "); minting it now would hand that output a second id once the transaction is read. Use --on-missing-source skip or fail, or feed the input in transaction order starting at genesis",
                );
                out
            },
            Error::InvalidUtf8 { line, offset } => {
                let mut out: String = "line ".to_owned();
                append_decimal(&mut out, *line);
                out.append(": invalid UTF-8 at byte offset ");
                append_decimal(&mut out, *offset as u64);
                out.append(
                    " within the line; re-run with --lenient to replace it with U+FFFD and continue",
                );
                out
            },
            Error::EmptyEdgeList => {
                "the edge list is empty; refusing to build a graph with no arcs (pass --allow-empty)".to_owned()
            },
            Error::TruncatedRun { path, len, record_size } => {
                let mut out: String = "run file ".to_owned();
                out.append(path.as_str());
                out.append(": length ");
                append_decimal(&mut out, *len);
                out.append(" is not a multiple of ");
                append_decimal(&mut out, *record_size as u64);
                out.append(" bytes (truncated write?)");
                out
            },
            Error::BadBasename(name) => {
                let mut out: String = "invalid BVGraph basename ".to_owned();
                out.append(name.as_str());
                out.append(
                    ": it contains a '.', which webgraph-rs would strip from the extension",
                );
                out
            },
            Error::BadArcLine { path, line, text } => {
                let mut out: String = "edge list ".to_owned();
                out.append(path.as_str());
                out.append(" line ");
                append_decimal(&mut out, *line);
                out.append(": expected two tab-separated integers, found ");
                let shown = quoted(text.as_str());
                out.append(shown.as_str());
                out
            },
            Error::UnsortedArcs { p_src, p_dst, c_src, c_dst } => {
                let mut out: String = "arcs are not sorted: (".to_owned();
                append_decimal(&mut out, *c_src as u64);
                out.append(", ");
                append_decimal(&mut out, *c_dst as u64);
                out.append(") follows (");
                append_decimal(&mut out, *p_src as u64);
                out.append(", ");
                append_decimal(&mut out, *p_dst as u64);
                out.append(")");
                out
            },
            Error::ArcOutOfBounds { src, dst, num_nodes } => {
                let mut out: String = "arc (".to_owned();
                append_decimal(&mut out, *src as u64);
                out.append(", ");
                append_decimal(&mut out, *dst as u64);
                out.append(") is out of bounds for a ");
                append_decimal(&mut out, *num_nodes as u64);
                out.append("-node graph");
                out
            },
            Error::CompressorPanic(msg) => {
                let mut out: String = "the webgraph compressor panicked: ".to_owned();
                out.append(msg.as_str());
                out
            },
            Error::BoundaryMismatch { last, end } => {
                let mut out: String = "boundary table ends at ".to_owned();
                append_signed(&mut out, *last);
                out.append(" but --end resolves to ");
                append_signed(&mut out, *end);
                out.append("; the last chunk would become a silent catch-all");
                out
            },
            Error::BadTimezone(name) => {
                let mut out: String = "unknown timezone ".to_owned();
                let shown = quoted(name.as_str());
                out.append(shown.as_str());
                out
            },
            Error::BadDate(text) => {
                let mut out: String = "invalid date ".to_owned();
                let shown = quoted(text.as_str());
                out.append(shown.as_str());
                out.append(": expected YYYY-MM-DD");
                out
            },
            Error::Other(msg) => msg.clone(),
        }
    }
}

// ---------------------------------------------------------------------------
// Laws
// ---------------------------------------------------------------------------

/// The message of an error in a line begins with the number of the line.
#[verifier::spinoff_prover]
#[verifier::rlimit(50)]
pub proof fn messages_begin_with_their_line(
    line: u64,
    found: usize,
    index: usize,
    field: Seq<char>,
    value: Seq<char>,
    a: i32,
    b: i32,
    c: i32,
    e: i64,
    f: i64,
)
    ensures
        ({
            let start = "line "@ + text::decimal(line as nat);
            &&& start.is_prefix_of(ErrorView::BadSectionCount { line, found }.message())
            &&& start.is_prefix_of(ErrorView::BadInfoFields { line, found }.message())
            &&& start.is_prefix_of(ErrorView::BadInputFields { line, index, found }.message())
            &&& start.is_prefix_of(ErrorView::BadInteger { line, field, value }.message())
            &&& start.is_prefix_of(ErrorView::NegativeId { line, field, value: a }.message())
            &&& start.is_prefix_of(
                (ErrorView::DanglingSource {
                    line,
                    tx_id: a,
                    index,
                    prev_tx_id: b,
                    prev_offset: c,
                }).message(),
            )
            &&& start.is_prefix_of(
                ErrorView::NonDenseTxId { line, expected: e, found: f }.message(),
            )
            &&& start.is_prefix_of(
                ErrorView::TxIdGapTooLarge { line, expected: e, found: f }.message(),
            )
            &&& start.is_prefix_of(
                ErrorView::ForwardForcedNode { line, tx_id: a, offset: b, reached: e }.message(),
            )
            &&& start.is_prefix_of(ErrorView::InvalidUtf8 { line, offset: found }.message())
        }),
{
    let start = "line "@ + text::decimal(line as nat);
    let all = seq![
        ErrorView::BadSectionCount { line, found },
        ErrorView::BadInfoFields { line, found },
        ErrorView::BadInputFields { line, index, found },
        ErrorView::BadInteger { line, field, value },
        ErrorView::NegativeId { line, field, value: a },
        ErrorView::DanglingSource { line, tx_id: a, index, prev_tx_id: b, prev_offset: c },
        ErrorView::NonDenseTxId { line, expected: e, found: f },
        ErrorView::TxIdGapTooLarge { line, expected: e, found: f },
        ErrorView::ForwardForcedNode { line, tx_id: a, offset: b, reached: e },
        ErrorView::InvalidUtf8 { line, offset: found },
    ];
    assert forall|i: int| 0 <= i < 10 implies start.is_prefix_of(#[trigger] all[i].message()) by {
        let m = all[i].message();
        assert(m.take(start.len() as int) =~= start);
    }
    assert(start.is_prefix_of(all[0].message()) && start.is_prefix_of(all[1].message()));
    assert(start.is_prefix_of(all[2].message()) && start.is_prefix_of(all[3].message()));
    assert(start.is_prefix_of(all[4].message()) && start.is_prefix_of(all[5].message()));
    assert(start.is_prefix_of(all[6].message()) && start.is_prefix_of(all[7].message()));
    assert(start.is_prefix_of(all[8].message()) && start.is_prefix_of(all[9].message()));
}

/// The message of a reference to an unknown output tells the transaction, the
/// input and the output that it names.
#[verifier::spinoff_prover]
#[verifier::rlimit(50)]
pub proof fn messages_tell_what_is_missing(
    line: u64,
    tx_id: i32,
    index: usize,
    prev_tx_id: i32,
    prev_offset: i32,
)
    ensures
        ({
            let m = (ErrorView::DanglingSource { line, tx_id, index, prev_tx_id, prev_offset }).message();
            &&& text::tells(
                m,
                ", tx "@ + text::signed_decimal(tx_id as int) + ": input #"@ + text::decimal(
                    index as nat,
                ) + " references unknown output ("@ + text::signed_decimal(prev_tx_id as int)
                    + ", "@ + text::signed_decimal(prev_offset as int),
            )
        }),
{
    let m = (ErrorView::DanglingSource { line, tx_id, index, prev_tx_id, prev_offset }).message();
    let part = ", tx "@ + text::signed_decimal(tx_id as int) + ": input #"@ + text::decimal(
        index as nat,
    ) + " references unknown output ("@ + text::signed_decimal(prev_tx_id as int) + ", "@
        + text::signed_decimal(prev_offset as int);
    text::lemma_tells(
        m,
        "line "@ + text::decimal(line as nat),
        part,
        "); the input must be a prefix of the transaction list starting at genesis, or pass --on-missing-source skip|create"@,
    );
}

/// The message of a gap tells the transaction that was found and the one that
/// was expected.
#[verifier::spinoff_prover]
#[verifier::rlimit(50)]
pub proof fn messages_tell_the_gap(line: u64, expected: i64, found: i64)
    ensures
        ({
            let part = ": transaction id "@ + text::signed_decimal(found as int)
                + " skips ahead of "@ + text::signed_decimal(expected as int);
            &&& text::tells(ErrorView::NonDenseTxId { line, expected, found }.message(), part)
            &&& text::tells(ErrorView::TxIdGapTooLarge { line, expected, found }.message(), part)
        }),
{
    let part = ": transaction id "@ + text::signed_decimal(found as int) + " skips ahead of "@
        + text::signed_decimal(expected as int);
    let start = "line "@ + text::decimal(line as nat);
    let m = ErrorView::NonDenseTxId { line, expected, found }.message();
    let n = ErrorView::TxIdGapTooLarge { line, expected, found }.message();
    let head = start + part;
    assert(m.take(head.len() as int) =~= head);
    assert(n.take(head.len() as int) =~= head);
    text::lemma_tells(m, start, part, m.skip(head.len() as int));
    text::lemma_tells(n, start, part, n.skip(head.len() as int));
}

/// The message of arcs that cannot be compressed tells the arcs: the one that is
/// out of order and the one before it, or the one that is out of bounds and the
/// number of nodes.
pub proof fn messages_tell_the_arcs(
    p_src: NodeId,
    p_dst: NodeId,
    c_src: NodeId,
    c_dst: NodeId,
    num_nodes: usize,
)
    ensures
        text::tells(
            ErrorView::UnsortedArcs { p_src, p_dst, c_src, c_dst }.message(),
            text::decimal(c_src as nat) + ", "@ + text::decimal(c_dst as nat) + ") follows ("@
                + text::decimal(p_src as nat) + ", "@ + text::decimal(p_dst as nat),
        ),
        text::tells(
            ErrorView::ArcOutOfBounds { src: c_src, dst: c_dst, num_nodes }.message(),
            text::decimal(c_src as nat) + ", "@ + text::decimal(c_dst as nat)
                + ") is out of bounds for a "@ + text::decimal(num_nodes as nat),
        ),
{
    text::lemma_tells(
        ErrorView::UnsortedArcs { p_src, p_dst, c_src, c_dst }.message(),
        "arcs are not sorted: ("@,
        text::decimal(c_src as nat) + ", "@ + text::decimal(c_dst as nat) + ") follows ("@
            + text::decimal(p_src as nat) + ", "@ + text::decimal(p_dst as nat),
        ")"@,
    );
    text::lemma_tells(
        ErrorView::ArcOutOfBounds { src: c_src, dst: c_dst, num_nodes }.message(),
        "arc ("@,
        text::decimal(c_src as nat) + ", "@ + text::decimal(c_dst as nat)
            + ") is out of bounds for a "@ + text::decimal(num_nodes as nat),
        "-node graph"@,
    );
}

/// The message of an error in a field or a file tells what was found there.
#[verifier::spinoff_prover]
#[verifier::rlimit(50)]
pub proof fn messages_tell_what_was_found(
    line: u64,
    found: usize,
    index: usize,
    field: Seq<char>,
    value: Seq<char>,
    number: i32,
    path: Seq<char>,
    len: u64,
    last: i64,
    end: i64,
)
    ensures
        text::tells(
            ErrorView::BadSectionCount { line, found }.message(),
            ": expected 3 ':'-separated sections, found "@ + text::decimal(found as nat),
        ),
        text::tells(
            ErrorView::BadInputFields { line, index, found }.message(),
            ": input #"@ + text::decimal(index as nat) + " has "@ + text::decimal(found as nat),
        ),
        text::tells(
            ErrorView::BadInteger { line, field, value }.message(),
            ", field "@ + field + ": cannot parse "@ + debug_quoted(value),
        ),
        text::tells(
            ErrorView::NegativeId { line, field, value: number }.message(),
            ", field "@ + field + ": negative value "@ + text::signed_decimal(number as int),
        ),
        text::tells(
            ErrorView::BadArcLine { path, line, text: value }.message(),
            path + " line "@ + text::decimal(line as nat)
                + ": expected two tab-separated integers, found "@ + debug_quoted(value),
        ),
        text::tells(
            ErrorView::TruncatedRun { path, len, record_size: found }.message(),
            path + ": length "@ + text::decimal(len as nat) + " is not a multiple of "@
                + text::decimal(found as nat),
        ),
        text::tells(
            ErrorView::BoundaryMismatch { last, end }.message(),
            text::signed_decimal(last as int) + " but --end resolves to "@ + text::signed_decimal(
                end as int,
            ),
        ),
        text::tells(ErrorView::BadTimezone(value).message(), debug_quoted(value)),
        text::tells(ErrorView::BadDate(value).message(), debug_quoted(value)),
        text::tells(ErrorView::CompressorPanic(value).message(), value),
        text::tells(ErrorView::BadBasename(value).message(), value),
        text::tells(ErrorView::Io { path }.message(), path),
        ErrorView::Other(value).message() == value,
{
    let none = Seq::<char>::empty();
    let start = "line "@ + text::decimal(line as nat);
    text::lemma_tells(
        ErrorView::BadSectionCount { line, found }.message(),
        start,
        ": expected 3 ':'-separated sections, found "@ + text::decimal(found as nat),
        none,
    );
    text::lemma_tells(
        ErrorView::BadInputFields { line, index, found }.message(),
        start,
        ": input #"@ + text::decimal(index as nat) + " has "@ + text::decimal(found as nat),
        " ','-separated fields, expected at least 4"@,
    );
    text::lemma_tells(
        ErrorView::BadInteger { line, field, value }.message(),
        start,
        ", field "@ + field + ": cannot parse "@ + debug_quoted(value),
        " as i32"@,
    );
    text::lemma_tells(
        ErrorView::NegativeId { line, field, value: number }.message(),
        start,
        ", field "@ + field + ": negative value "@ + text::signed_decimal(number as int),
        " rejected in strict mode"@,
    );
    text::lemma_tells(
        ErrorView::BadArcLine { path, line, text: value }.message(),
        "edge list "@,
        path + " line "@ + text::decimal(line as nat)
            + ": expected two tab-separated integers, found "@ + debug_quoted(value),
        none,
    );
    text::lemma_tells(
        ErrorView::TruncatedRun { path, len, record_size: found }.message(),
        "run file "@,
        path + ": length "@ + text::decimal(len as nat) + " is not a multiple of "@ + text::decimal(
            found as nat,
        ),
        " bytes (truncated write?)"@,
    );
    text::lemma_tells(
        ErrorView::BoundaryMismatch { last, end }.message(),
        "boundary table ends at "@,
        text::signed_decimal(last as int) + " but --end resolves to "@ + text::signed_decimal(
            end as int,
        ),
        "; the last chunk would become a silent catch-all"@,
    );
    text::lemma_tells(
        ErrorView::BadTimezone(value).message(),
        "unknown timezone "@,
        debug_quoted(value),
        none,
    );
    text::lemma_tells(
        ErrorView::BadDate(value).message(),
        "invalid date "@,
        debug_quoted(value),
        ": expected YYYY-MM-DD"@,
    );
    text::lemma_tells(
        ErrorView::CompressorPanic(value).message(),
        "the webgraph compressor panicked: "@,
        value,
        none,
    );
    text::lemma_tells(
        ErrorView::BadBasename(value).message(),
        "invalid BVGraph basename "@,
        value,
        ": it contains a '.', which webgraph-rs would strip from the extension"@,
    );
    text::lemma_tells(ErrorView::Io { path }.message(), "I/O error on "@, path, none);
}

} // verus!
