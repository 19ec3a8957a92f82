//! Arc sinks and arc files.
//!
//! Arcs are stored in one of two formats: text, `{src}\t{dst}\n`, decimal with
//! no padding, no sign and no leading zeros; or binary, one
//! [`ARC_RECORD_SIZE`]-byte little-endian record an arc, with no header. A
//! binary file has exactly one reading, because there is exactly one record
//! width.
use crate::error::Error;
use crate::merge;
use crate::text;
use crate::text::{
    append_decimal, append_padded, cut_before, find_byte, parse_digits, parse_unsigned, push_decimal,
    trimmed_len, utf8_text,
};
use crate::{
    new_error_slot, pack_arc, take_iter_error, unpack_arc, ArcSink, ErrorSlot, NodeId, Result, ARC_RECORD_SIZE,
};
use vstd::prelude::*;
use vstd::string::*;
use vstd::utf8::*;

pub use crate::sorter::{ArcSorter, SortOpts, SortStats, SortedArcIter, SortedArcs};

verus! {

// ---------------------------------------------------------------------------
// Formats
// ---------------------------------------------------------------------------
/// One arc as text.
pub open spec fn arc_line(arc: (NodeId, NodeId)) -> Seq<u8> {
    text::decimal_bytes(arc.0 as nat).push(9) + text::decimal_bytes(arc.1 as nat).push(10)
}

/// Some arcs as text, one after another.
pub open spec fn arcs_text(arcs: Seq<(NodeId, NodeId)>) -> Seq<u8>
    decreases arcs.len(),
{
    if arcs.len() == 0 {
        Seq::empty()
    } else {
        arcs_text(arcs.drop_last()) + arc_line(arcs.last())
    }
}

/// The `n` lowest bytes of `v`, the lowest first.
pub open spec fn le_bytes(v: nat, n: nat) -> Seq<u8>
    decreases n,
{
    if n == 0 {
        Seq::empty()
    } else {
        seq![(v % 256) as u8] + le_bytes(v / 256, (n - 1) as nat)
    }
}

/// The number that some bytes write, the lowest first.
pub open spec fn le_value(b: Seq<u8>) -> nat
    decreases b.len(),
{
    if b.len() == 0 {
        0
    } else {
        b[0] as nat + 256 * le_value(b.drop_first())
    }
}

/// How many numbers `n` bytes can write.
pub open spec fn byte_range(n: nat) -> nat
    decreases n,
{
    if n == 0 {
        1
    } else {
        256 * byte_range((n - 1) as nat)
    }
}

/// Sixteen bytes write what a `u128` holds.
proof fn lemma_record_range()
    ensures
        byte_range(16) == u128::MAX + 1,
{
    reveal_with_fuel(byte_range, 17);
}

proof fn lemma_byte_range_grows(m: nat, n: nat)
    requires
        m <= n,
    ensures
        1 <= byte_range(m) <= byte_range(n),
    decreases n,
{
    if n > 0 {
        if m < n {
            lemma_byte_range_grows(m, (n - 1) as nat);
        } else {
            lemma_byte_range_grows((m - 1) as nat, (n - 1) as nat);
        }
    }
}

proof fn lemma_le_bytes_len(v: nat, n: nat)
    ensures
        le_bytes(v, n).len() == n,
    decreases n,
{
    if n > 0 {
        lemma_le_bytes_len(v / 256, (n - 1) as nat);
    }
}

/// Bytes write no more than there is room for.
proof fn lemma_le_value_bounded(b: Seq<u8>)
    ensures
        le_value(b) < byte_range(b.len()),
    decreases b.len(),
{
    if b.len() > 0 {
        lemma_le_value_bounded(b.drop_first());
    }
}

/// A number that fits is read back from its bytes.
proof fn lemma_le_round_trip(v: nat, n: nat)
    requires
        v < byte_range(n),
    ensures
        le_value(le_bytes(v, n)) == v,
    decreases n,
{
    if n > 0 {
        lemma_le_round_trip(v / 256, (n - 1) as nat);
        let b = le_bytes(v, n);
        assert(b.drop_first() =~= le_bytes(v / 256, (n - 1) as nat));
    }
}

/// The highest byte of a small number is small.
proof fn lemma_le_last_byte(v: nat, n: nat, c: nat)
    requires
        n > 0,
        c <= 256,
        v < c * byte_range((n - 1) as nat),
    ensures
        le_bytes(v, n).len() == n,
        le_bytes(v, n).last() < c,
    decreases n,
{
    lemma_le_bytes_len(v, n);
    if n > 1 {
        let r = byte_range((n - 2) as nat);
        assert(v / 256 < c * r) by (nonlinear_arith)
            requires
                v < c * (256 * r),
        ;
        lemma_le_last_byte(v / 256, (n - 1) as nat, c);
    } else {
        let one = byte_range(0);
        assert(c * one == c) by (nonlinear_arith)
            requires
                one == 1,
        ;
        assert(le_bytes(v / 256, 0) =~= Seq::empty());
        assert(le_bytes(v, 1) =~= seq![(v % 256) as u8]);
    }
}

/// One packed arc as a binary record: little-endian.
pub open spec fn arc_record(key: u128) -> Seq<u8> {
    le_bytes(key as nat, 16)
}

/// Some packed arcs as binary records, one after another.
pub open spec fn arc_records(keys: Seq<u128>) -> Seq<u8>
    decreases keys.len(),
{
    if keys.len() == 0 {
        Seq::empty()
    } else {
        arc_records(keys.drop_last()) + arc_record(keys.last())
    }
}

/// Appends one arc as text.
pub fn push_arc_line(buf: &mut Vec<u8>, src: NodeId, dst: NodeId)
    ensures
        final(buf)@ == old(buf)@ + arc_line((src, dst)),
{
    push_decimal(buf, src as u64);
    buf.push(9);
    push_decimal(buf, dst as u64);
    buf.push(10);
    assert(buf@ =~= old(buf)@ + arc_line((src, dst)));
}

/// Appends one packed arc as a binary record.
pub fn push_arc_record(buf: &mut Vec<u8>, key: u128)
    ensures
        final(buf)@ == old(buf)@ + arc_record(key),
{
    let mut v: u128 = key;
    let mut i: usize = 0;
    while i < 16
        invariant
            i <= 16,
            buf@ + le_bytes(v as nat, (16 - i) as nat) == old(buf)@ + arc_record(key),
        decreases 16 - i,
    {
        let ghost before = buf@;
        let ghost rest = le_bytes((v / 256) as nat, (15 - i) as nat);
        buf.push((v % 256) as u8);
        assert(buf@ + rest =~= before + le_bytes(v as nat, (16 - i) as nat));
        v = v / 256;
        i = i + 1;
    }
    assert(buf@ =~= buf@ + le_bytes(v as nat, 0));
}

/// Reads one binary record.
pub fn read_record(raw: &[u8]) -> (r: u128)
    requires
        raw@.len() == ARC_RECORD_SIZE,
    ensures
        r == le_value(raw@),
{
    let mut acc: u128 = 0;
    let mut i: usize = 16;
    proof {
        lemma_record_range();
    }
    while i > 0
        invariant
            i <= 16,
            raw@.len() == 16,
            acc == le_value(raw@.skip(i as int)),
            byte_range(16) == u128::MAX + 1,
        decreases i,
    {
        let ghost tail = raw@.skip(i - 1);
        proof {
            assert(tail.drop_first() =~= raw@.skip(i as int));
            lemma_le_value_bounded(tail);
            lemma_byte_range_grows(tail.len(), 16);
        }
        i = i - 1;
        acc = acc * 256 + raw[i] as u128;
    }
    assert(raw@.skip(0) =~= raw@);
    acc
}

/// Writes every packed arc of a run as binary records.
pub fn write_arcs(keys: &Vec<u128>, w: &mut Vec<u8>)
    ensures
        final(w)@ == old(w)@ + arc_records(keys@),
{
    let ghost start = w@;
    let mut i: usize = 0;
    assert(w@ =~= start + arc_records(keys@.take(0)));
    while i < keys.len()
        invariant
            i <= keys@.len(),
            w@ == start + arc_records(keys@.take(i as int)),
        decreases keys@.len() - i,
    {
        push_arc_record(w, keys[i]);
        proof {
            assert(keys@.take(i + 1).drop_last() =~= keys@.take(i as int));
            assert(w@ =~= start + arc_records(keys@.take(i + 1)));
        }
        i = i + 1;
    }
    assert(keys@.take(i as int) =~= keys@);
}

// ---------------------------------------------------------------------------
// Sinks
// ---------------------------------------------------------------------------
/// An [`ArcSink`] that counts arcs and writes nothing.
pub struct NullArcSink {
    /// Arcs seen so far.
    pub count: u64,
    finished: Ghost<bool>,
    arcs: Ghost<Seq<(NodeId, NodeId)>>,
}

impl NullArcSink {
    /// Creates an empty counter.
    pub fn new() -> (r: Self)
        ensures
            r.valid(),
            !r.finished(),
            r.arcs() == Seq::<(NodeId, NodeId)>::empty(),
    {
        NullArcSink { count: 0, finished: Ghost(false), arcs: Ghost(Seq::empty()) }
    }

    /// Number of arcs seen so far.
    pub fn count(&self) -> (r: u64)
        requires
            self.valid(),
        ensures
            r == self.arcs().len(),
    {
        self.count
    }
}

impl ArcSink for NullArcSink {
    type Setting = ();

    open spec fn setting(&self) {
        ()
    }

    closed spec fn arcs(&self) -> Seq<(NodeId, NodeId)> {
        self.arcs@
    }

    closed spec fn valid(&self) -> bool {
        self.count == self.arcs@.len()
    }

    closed spec fn finished(&self) -> bool {
        self.finished@
    }

    open spec fn failure(&self) -> Option<crate::error::ErrorView> {
        None
    }

    fn push(&mut self, src: NodeId, dst: NodeId) -> (r: Result<()>) {
        self.count = self.count + 1;
        self.arcs = Ghost(self.arcs@.push((src, dst)));
        Ok(())
    }

    fn finish(&mut self) -> (r: Result<()>) {
        self.finished = Ghost(true);
        Ok(())
    }
}

/// Writes arcs as text.
///
/// The bytes are collected here; [`TsvArcSink::take_bytes`] hands out what has
/// been collected, to be written to a file.
pub struct TsvArcSink {
    buf: Vec<u8>,
    count: u64,
    finished: Ghost<bool>,
    arcs: Ghost<Seq<(NodeId, NodeId)>>,
    /// The bytes handed out.
    out: Ghost<Seq<u8>>,
}

impl TsvArcSink {
    /// Everything written: the bytes handed out, then those still here.
    pub closed spec fn written(&self) -> Seq<u8> {
        self.out@ + self.buf@
    }

    /// The bytes handed out.
    pub closed spec fn taken(&self) -> Seq<u8> {
        self.out@
    }

    /// Creates an empty sink.
    pub fn new() -> (r: Self)
        ensures
            r.valid(),
            !r.finished(),
            r.arcs() == Seq::<(NodeId, NodeId)>::empty(),
            r.taken() == Seq::<u8>::empty(),
    {
        let r = TsvArcSink {
            buf: Vec::new(),
            count: 0,
            finished: Ghost(false),
            arcs: Ghost(Seq::empty()),
            out: Ghost(Seq::empty()),
        };
        assert(r.out@ + r.buf@ =~= arcs_text(r.arcs@));
        r
    }

    /// Number of arcs written so far.
    pub fn count(&self) -> (r: u64)
        requires
            self.valid(),
        ensures
            r == self.arcs().len(),
    {
        self.count
    }

    /// Number of bytes that have not been handed out.
    pub fn pending(&self) -> (r: usize)
        ensures
            r == self.written().len() - self.taken().len(),
    {
        self.buf.len()
    }

    /// Hands out the bytes that have not been handed out before.
    pub fn take_bytes(&mut self) -> (r: Vec<u8>)
        requires
            old(self).valid(),
        ensures
            final(self).valid(),
            final(self).arcs() == old(self).arcs(),
            final(self).finished() == old(self).finished(),
            final(self).written() == old(self).written(),
            final(self).taken() == old(self).written(),
            old(self).written() == old(self).taken() + r@,
            final(self).taken() == arcs_text(final(self).arcs()),
    {
        let mut bytes: Vec<u8> = Vec::new();
        std::mem::swap(&mut bytes, &mut self.buf);
        self.out = Ghost(self.out@ + bytes@);
        assert(self.out@ + self.buf@ =~= self.out@);
        bytes
    }
}

impl ArcSink for TsvArcSink {
    type Setting = Seq<u8>;

    /// The bytes handed out.
    open spec fn setting(&self) -> Seq<u8> {
        self.taken()
    }

    closed spec fn arcs(&self) -> Seq<(NodeId, NodeId)> {
        self.arcs@
    }

    closed spec fn valid(&self) -> bool {
        &&& self.count == self.arcs@.len()
        &&& self.out@ + self.buf@ == arcs_text(self.arcs@)
    }

    closed spec fn finished(&self) -> bool {
        self.finished@
    }

    open spec fn failure(&self) -> Option<crate::error::ErrorView> {
        None
    }

    fn push(&mut self, src: NodeId, dst: NodeId) -> (r: Result<()>) {
        let ghost before = self.buf@;
        push_arc_line(&mut self.buf, src, dst);
        self.count = self.count + 1;
        self.arcs = Ghost(self.arcs@.push((src, dst)));
        assert(self.arcs@.drop_last() =~= old(self).arcs@);
        assert(self.out@ + self.buf@ =~= (self.out@ + before) + arc_line((src, dst)));
        Ok(())
    }

    fn finish(&mut self) -> (r: Result<()>) {
        self.finished = Ghost(true);
        Ok(())
    }
}

/// Writes arcs as binary records, so that `length / 16` is the arc count and a
/// torn write is detectable.
///
/// The bytes are collected here; [`BinaryArcSink::take_bytes`] hands out what
/// has been collected, to be written to a file.
pub struct BinaryArcSink {
    buf: Vec<u8>,
    count: u64,
    finished: Ghost<bool>,
    arcs: Ghost<Seq<(NodeId, NodeId)>>,
    /// The bytes handed out.
    out: Ghost<Seq<u8>>,
}

impl BinaryArcSink {
    /// Everything written: the bytes handed out, then those still here.
    pub closed spec fn written(&self) -> Seq<u8> {
        self.out@ + self.buf@
    }

    /// The bytes handed out.
    pub closed spec fn taken(&self) -> Seq<u8> {
        self.out@
    }

    /// Creates an empty sink.
    pub fn new() -> (r: Self)
        ensures
            r.valid(),
            !r.finished(),
            r.arcs() == Seq::<(NodeId, NodeId)>::empty(),
            r.taken() == Seq::<u8>::empty(),
    {
        let r = BinaryArcSink {
            buf: Vec::new(),
            count: 0,
            finished: Ghost(false),
            arcs: Ghost(Seq::empty()),
            out: Ghost(Seq::empty()),
        };
        assert(crate::sorter::packed_arcs(r.arcs@) =~= Seq::empty());
        assert(r.out@ + r.buf@ =~= arc_records(crate::sorter::packed_arcs(r.arcs@)));
        r
    }

    /// Number of arcs written so far.
    pub fn count(&self) -> (r: u64)
        requires
            self.valid(),
        ensures
            r == self.arcs().len(),
    {
        self.count
    }

    /// Number of bytes that have not been handed out.
    pub fn pending(&self) -> (r: usize)
        ensures
            r == self.written().len() - self.taken().len(),
    {
        self.buf.len()
    }

    /// Hands out the bytes that have not been handed out before.
    pub fn take_bytes(&mut self) -> (r: Vec<u8>)
        requires
            old(self).valid(),
        ensures
            final(self).valid(),
            final(self).arcs() == old(self).arcs(),
            final(self).finished() == old(self).finished(),
            final(self).written() == old(self).written(),
            final(self).taken() == old(self).written(),
            old(self).written() == old(self).taken() + r@,
            final(self).taken() == arc_records(crate::sorter::packed_arcs(final(self).arcs())),
    {
        let mut bytes: Vec<u8> = Vec::new();
        std::mem::swap(&mut bytes, &mut self.buf);
        self.out = Ghost(self.out@ + bytes@);
        assert(self.out@ + self.buf@ =~= self.out@);
        bytes
    }
}

impl ArcSink for BinaryArcSink {
    type Setting = Seq<u8>;

    /// The bytes handed out.
    open spec fn setting(&self) -> Seq<u8> {
        self.taken()
    }

    closed spec fn arcs(&self) -> Seq<(NodeId, NodeId)> {
        self.arcs@
    }

    closed spec fn valid(&self) -> bool {
        &&& self.count == self.arcs@.len()
        &&& self.out@ + self.buf@ == arc_records(crate::sorter::packed_arcs(self.arcs@))
    }

    closed spec fn finished(&self) -> bool {
        self.finished@
    }

    open spec fn failure(&self) -> Option<crate::error::ErrorView> {
        None
    }

    fn push(&mut self, src: NodeId, dst: NodeId) -> (r: Result<()>) {
        let ghost before = self.buf@;
        let key: u128 = pack_arc(src, dst);
        push_arc_record(&mut self.buf, key);
        self.count = self.count + 1;
        self.arcs = Ghost(self.arcs@.push((src, dst)));
        proof {
            let keys = crate::sorter::packed_arcs(self.arcs@);
            assert(keys.drop_last() =~= crate::sorter::packed_arcs(old(self).arcs@));
            assert(self.out@ + self.buf@ =~= (self.out@ + before) + arc_record(key));
        }
        Ok(())
    }

    fn finish(&mut self) -> (r: Result<()>) {
        self.finished = Ghost(true);
        Ok(())
    }
}

// ---------------------------------------------------------------------------
// Telling the formats apart
// ---------------------------------------------------------------------------
/// How an arc file is encoded.
#[derive(Copy, Clone, Debug, PartialEq, Eq, Structural)]
pub enum ArcFileFormat {
    /// `{src}\t{dst}\n` text, as [`TsvArcSink`] writes it.
    Tsv,
    /// Little-endian [`ARC_RECORD_SIZE`]-byte records, as [`BinaryArcSink`]
    /// writes them.
    Binary,
}

/// How many bytes of a file are looked at to tell its format.
pub const SNIFF_LEN: usize = 4096;

/// Every byte that is looked at is a decimal digit, a TAB or an LF.
pub open spec fn is_textual(head: Seq<u8>) -> bool {
    forall|i: int|
        0 <= i < head.len() && i < SNIFF_LEN ==> text::is_digit(#[trigger] head[i]) || head[i] == 9
            || head[i] == 10
}

/// The format of a file of `len` bytes that starts with `head`.
pub open spec fn format_of(path: Seq<char>, len: u64, head: Seq<u8>) -> std::result::Result<
    ArcFileFormat,
    crate::error::ErrorView,
> {
    if len == 0 || is_textual(head) {
        Ok(ArcFileFormat::Tsv)
    } else if len % 16 != 0 {
        Err(
            crate::error::ErrorView::TruncatedRun {
                path,
                len,
                record_size: ARC_RECORD_SIZE,
            },
        )
    } else {
        Ok(ArcFileFormat::Binary)
    }
}

/// Tells *text from binary*, and nothing else: there is one binary record
/// width, so there is nothing else to tell.
///
/// `head` is the start of the file; its first [`SNIFF_LEN`] bytes are looked
/// at. A file that is not text and whose length is not a whole number of
/// records is an error that names it. An empty file counts as text; the caller
/// reports it as [`Error::EmptyEdgeList`].
pub fn detect_format(path: &str, len: u64, head: &[u8]) -> (r: Result<ArcFileFormat>)
    ensures
        match format_of(path@, len, head@) {
            Ok(f) => r == Ok::<ArcFileFormat, Error>(f),
            Err(e) => r is Err && r->Err_0@ == e,
        },
{
    if len == 0 {
        return Ok(ArcFileFormat::Tsv);
    }
    let mut i: usize = 0;
    while i < head.len() && i < SNIFF_LEN
        invariant
            i <= head@.len(),
            len > 0,
            forall|k: int|
                0 <= k < i ==> text::is_digit(#[trigger] head@[k]) || head@[k] == 9 || head@[k]
                    == 10,
        decreases head@.len() - i,
    {
        let b: u8 = head[i];
        if !((48 <= b && b <= 57) || b == 9 || b == 10) {
            assert(!text::is_digit(head@[i as int]));
            assert(!is_textual(head@));
            if len % (ARC_RECORD_SIZE as u64) != 0 {
                return Err(
                    Error::TruncatedRun { path: path.to_owned(), len, record_size: ARC_RECORD_SIZE },
                );
            }
            return Ok(ArcFileFormat::Binary);
        }
        i = i + 1;
    }
    Ok(ArcFileFormat::Tsv)
}

// ---------------------------------------------------------------------------
// Reading text
// ---------------------------------------------------------------------------
/// What a reader gives: some arcs, then possibly an error.
pub ghost struct ArcStream {
    pub arcs: Seq<(NodeId, NodeId)>,
    pub failure: Option<crate::error::ErrorView>,
}

/// A line without its line end.
pub open spec fn arc_text(raw: Seq<u8>) -> Seq<u8> {
    text::trim_end(text::trim_end(raw, 10), 13)
}

/// The node id that a field writes: decimal digits only, no sign. Leading
/// zeros are accepted.
pub open spec fn node_id_value(s: Seq<u8>) -> Option<NodeId> {
    match text::digits(s) {
        Some(v) => if v <= usize::MAX {
            Some(v as usize)
        } else {
            None
        },
        None => None,
    }
}

/// The arc that a text writes: exactly two TAB-separated fields.
pub open spec fn arc_of_text(t: Seq<u8>) -> Option<(NodeId, NodeId)> {
    let p = text::pieces(t, 9);
    if p.len() == 2 && node_id_value(p[0]) is Some && node_id_value(p[1]) is Some {
        Some((node_id_value(p[0])->0, node_id_value(p[1])->0))
    } else {
        None
    }
}

/// What one line of a text edge list holds: an arc, nothing where it is blank,
/// or an error.
pub open spec fn line_arc(raw: Seq<u8>, path: Seq<char>, line: u64) -> std::result::Result<
    Option<(NodeId, NodeId)>,
    crate::error::ErrorView,
> {
    let t = arc_text(raw);
    if !valid_utf8(raw) {
        Err(crate::error::ErrorView::Io { path })
    } else if t.len() == 0 {
        Ok(None)
    } else if arc_of_text(t) is Some {
        Ok(arc_of_text(t))
    } else {
        Err(crate::error::ErrorView::BadArcLine { path, line, text: decode_utf8(t) })
    }
}

/// What a text edge list holds, from a line after the first `line` on.
pub open spec fn text_stream(b: Seq<u8>, path: Seq<char>, line: nat) -> ArcStream
    decreases b.len(),
{
    if b.len() == 0 {
        ArcStream { arcs: Seq::empty(), failure: None }
    } else {
        let n = crate::edge_list::first_line_len(b);
        proof {
            crate::edge_list::lemma_first_line_len(b);
        }
        match line_arc(b.take(n as int), path, (line + 1) as u64) {
            Err(e) => ArcStream { arcs: Seq::empty(), failure: Some(e) },
            Ok(None) => text_stream(b.skip(n as int), path, line + 1),
            Ok(Some(arc)) => {
                let rest = text_stream(b.skip(n as int), path, line + 1);
                ArcStream { arcs: seq![arc] + rest.arcs, failure: rest.failure }
            },
        }
    }
}

/// `std::io::Error::new`, with the kind and the text of an input that is not
/// valid UTF-8. Nothing is claimed of the error.
#[verifier::external_body]
pub(crate) fn not_utf8() -> (r: std::io::Error) {
    std::io::Error::new(
        std::io::ErrorKind::InvalidData,
        "stream did not contain valid UTF-8",
    )
}

/// Reads one field: decimal digits only.
fn parse_field(b: &[u8]) -> (r: Option<NodeId>)
    ensures
        r == node_id_value(b@),
{
    assert(b@.skip(0) =~= b@);
    match parse_digits(b, 0, usize::MAX as u64) {
        Some(v) => Some(v as usize),
        None => None,
    }
}

/// Reads the arc that a text writes.
fn parse_arc(t: &[u8]) -> (r: Option<(NodeId, NodeId)>)
    ensures
        r == arc_of_text(t@),
{
    let tab: usize = find_byte(t, 9, 0);
    if tab == t.len() {
        proof {
            assert(!t@.contains(9));
            text::lemma_pieces_single(t@, 9);
        }
        return None;
    }
    let head: &[u8] = vstd::slice::slice_subrange(t, 0, tab);
    let tail: &[u8] = vstd::slice::slice_subrange(t, tab + 1, t.len());
    proof {
        text::lemma_pieces_front(t@, 9, tab as int);
        assert(head@ =~= t@.take(tab as int));
        assert(tail@ =~= t@.skip(tab + 1));
        if tail@.contains(9) {
            let k = choose|k: int| 0 <= k < tail@.len() && tail@[k] == 9;
            assert(!text::is_digit(tail@[k]));
            assert(node_id_value(tail@) is None);
            text::lemma_occurrences_contains(tail@, 9);
            text::lemma_pieces_len(tail@, 9);
            assert(text::pieces(t@, 9).len() > 2);
        } else {
            text::lemma_pieces_single(tail@, 9);
            assert(text::pieces(t@, 9) =~= seq![head@, tail@]);
        }
    }
    match (parse_field(head), parse_field(tail)) {
        (Some(src), Some(dst)) => Some((src, dst)),
        _ => None,
    }
}

/// A text is what its bytes decode to.
proof fn lemma_text_bytes(s: &str)
    ensures
        s@ == decode_utf8(s.spec_bytes()),
{
    encode_utf8_decode_utf8(s@);
}

/// A text without the run of `sep` at its end.
pub fn trimmed<'a>(s: &'a str, sep: u8) -> (r: &'a str)
    requires
        sep < 0x80,
    ensures
        r.spec_bytes() == text::trim_end(s.spec_bytes(), sep),
{
    let b = s.as_bytes();
    let n: usize = trimmed_len(b, sep);
    if n == b.len() {
        assert(b@.take(n as int) =~= b@);
        s
    } else {
        cut_before(s, n).0
    }
}

/// Reads line `line` of a text edge list, line end and all.
///
/// Deliberately strict: exactly two TAB-separated decimal fields, so a third
/// column is an error that names the line. A blank line holds nothing.
pub fn read_arc_line(raw: &[u8], path: &str, line: u64) -> (r: Result<Option<(NodeId, NodeId)>>)
    ensures
        match line_arc(raw@, path@, line) {
            Ok(v) => r == Ok::<Option<(NodeId, NodeId)>, Error>(v),
            Err(e) => r is Err && r->Err_0@ == e,
        },
{
    let whole: &str = match utf8_text(raw) {
        Ok(s) => s,
        Err(_) => {
            return Err(Error::io(path.to_owned(), not_utf8()));
        },
    };
    proof {
        text::lemma_text_is_utf8(whole);
    }
    let t: &str = trimmed(trimmed(whole, 10), 13);
    let b = t.as_bytes();
    if b.len() == 0 {
        return Ok(None);
    }
    match parse_arc(b) {
        Some(arc) => Ok(Some(arc)),
        None => {
            proof {
                lemma_text_bytes(t);
            }
            Err(Error::BadArcLine { path: path.to_owned(), line, text: t.to_owned() })
        },
    }
}

/// A walk over a text edge list, made by [`read_tsv_arcs`].
pub struct TsvArcIter<'a> {
    input: &'a [u8],
    path: &'a str,
    pos: usize,
    line: u64,
    done: bool,
}

/// Reads a text edge list, yielding `(src, dst)`. A malformed line leaves
/// [`Error::BadArcLine`] in the slot that is handed to the walk and ends the
/// walk; callers check the slot with [`crate::take_iter_error`].
pub fn read_tsv_arcs<'a>(path: &'a str, input: &'a [u8]) -> (r: (TsvArcIter<'a>, ErrorSlot))
    ensures
        r.0.valid(),
        r.0.rest() == text_stream(input@, path@, 0),
        r.0.left() == input@.len(),
        r.1.error is None,
{
    assert(input@.skip(0) =~= input@);
    (TsvArcIter { input, path, pos: 0, line: 0, done: false }, new_error_slot())
}

impl<'a> TsvArcIter<'a> {
    /// What the walk still has to give.
    pub closed spec fn rest(&self) -> ArcStream {
        if self.done {
            ArcStream { arcs: Seq::empty(), failure: None }
        } else {
            text_stream(self.input@.skip(self.pos as int), self.path@, self.line as nat)
        }
    }

    /// How many bytes are still to be read.
    pub closed spec fn left(&self) -> nat {
        (self.input@.len() - self.pos) as nat
    }

    /// The walk's invariant.
    pub closed spec fn valid(&self) -> bool {
        self.line <= self.pos <= self.input@.len()
    }

    /// The next arc, or `None` at the end of the list or at an error, which is
    /// then in the slot.
    pub fn next(&mut self, slot: &mut ErrorSlot) -> (r: Option<(NodeId, NodeId)>)
        requires
            old(self).valid(),
        ensures
            final(self).valid(),
            match r {
                Some(arc) => {
                    &&& old(self).rest().arcs.len() > 0
                    &&& arc == old(self).rest().arcs[0]
                    &&& final(self).rest().arcs == old(self).rest().arcs.drop_first()
                    &&& final(self).rest().failure == old(self).rest().failure
                    &&& *final(slot) == *old(slot)
                    &&& final(self).left() < old(self).left()
                },
                None => {
                    &&& old(self).rest().arcs.len() == 0
                    &&& final(self).rest() == (ArcStream { arcs: Seq::empty(), failure: None })
                    &&& match old(self).rest().failure {
                        None => *final(slot) == *old(slot),
                        Some(e) => if old(slot).error is Some {
                            *final(slot) == *old(slot)
                        } else {
                            final(slot).error matches Some(f) && f@ == e
                        },
                    }
                },
            },
    {
        while !self.done && self.pos < self.input.len()
            invariant
                self.valid(),
                self.rest() == old(self).rest(),
                self.left() <= old(self).left(),
                *slot == *old(slot),
            decreases self.input@.len() - self.pos,
        {
            let ghost b = self.input@.skip(self.pos as int);
            let feed: usize = find_byte(self.input, 10, self.pos);
            let end: usize = if feed < self.input.len() {
                feed + 1
            } else {
                feed
            };
            let raw: &[u8] = vstd::slice::slice_subrange(self.input, self.pos, end);
            proof {
                assert forall|i: int| 0 <= i < feed - self.pos implies b[i] != 10 by {
                    assert(b[i] == self.input@[self.pos + i]);
                }
                crate::edge_list::lemma_first_line_end(b, feed - self.pos);
                assert(raw@ =~= b.take(end - self.pos));
                assert(b.skip(end - self.pos) =~= self.input@.skip(end as int));
            }
            self.line = self.line + 1;
            match read_arc_line(raw, self.path, self.line) {
                Ok(None) => {
                    self.pos = end;
                },
                Ok(Some(arc)) => {
                    self.pos = end;
                    assert(old(self).rest().arcs =~= seq![arc] + self.rest().arcs);
                    assert(self.rest().arcs =~= old(self).rest().arcs.drop_first());
                    return Some(arc);
                },
                Err(e) => {
                    self.pos = end;
                    self.done = true;
                    slot.record(e);
                    return None;
                },
            }
        }
        self.done = true;
        None
    }
}

// ---------------------------------------------------------------------------
// Reading binary records
// ---------------------------------------------------------------------------
/// The packed arcs that some binary records hold.
pub open spec fn record_values(b: Seq<u8>) -> Seq<u128> {
    Seq::new(
        b.len() / 16,
        |i: int| le_value(b.subrange(16 * i, 16 * i + 16)) as u128,
    )
}

/// The arcs of some packed arcs.
pub open spec fn unpacked_arcs(keys: Seq<u128>) -> Seq<(NodeId, NodeId)> {
    keys.map_values(|k: u128| crate::unpacked_arc(k))
}

/// A walk over binary records, made by [`read_binary_arcs`].
pub struct BinaryArcIter<'a> {
    input: &'a [u8],
    pos: usize,
}

/// Reads binary arc records.
///
/// A length that is no whole number of records means a torn write, and is an
/// error before any arc is produced.
pub fn read_binary_arcs<'a>(path: &str, input: &'a [u8]) -> (r: Result<BinaryArcIter<'a>>)
    ensures
        match r {
            Ok(it) => {
                &&& input@.len() % 16 == 0
                &&& it.valid()
                &&& it.rest() == unpacked_arcs(record_values(input@))
            },
            Err(e) => {
                &&& input@.len() % 16 != 0
                &&& e@ == crate::error::ErrorView::TruncatedRun {
                    path: path@,
                    len: input@.len() as u64,
                    record_size: ARC_RECORD_SIZE,
                }
            },
        },
{
    if input.len() % ARC_RECORD_SIZE != 0 {
        return Err(
            Error::TruncatedRun {
                path: path.to_owned(),
                len: input.len() as u64,
                record_size: ARC_RECORD_SIZE,
            },
        );
    }
    assert(input@.skip(0) =~= input@);
    Ok(BinaryArcIter { input, pos: 0 })
}

impl<'a> BinaryArcIter<'a> {
    /// What the walk still has to give.
    pub closed spec fn rest(&self) -> Seq<(NodeId, NodeId)> {
        unpacked_arcs(record_values(self.input@.skip(self.pos as int)))
    }

    /// The walk's invariant.
    pub closed spec fn valid(&self) -> bool {
        &&& self.pos <= self.input@.len()
        &&& (self.input@.len() - self.pos) % 16 == 0
    }

    /// The next arc, or `None` at the end.
    pub fn next(&mut self) -> (r: Option<(NodeId, NodeId)>)
        requires
            old(self).valid(),
        ensures
            final(self).valid(),
            match r {
                Some(arc) => {
                    &&& old(self).rest().len() > 0
                    &&& arc == old(self).rest()[0]
                    &&& final(self).rest() == old(self).rest().drop_first()
                },
                None => old(self).rest().len() == 0 && final(self).rest().len() == 0,
            },
    {
        if self.pos == self.input.len() {
            return None;
        }
        let ghost b = self.input@.skip(self.pos as int);
        let end: usize = self.pos + ARC_RECORD_SIZE;
        let raw: &[u8] = vstd::slice::slice_subrange(self.input, self.pos, end);
        proof {
            let keys = record_values(b);
            let tail = b.skip(16);
            assert(raw@ =~= b.subrange(0, 16));
            assert(tail =~= self.input@.skip(end as int));
            lemma_le_value_bounded(raw@);
            lemma_record_range();
            assert(keys.drop_first() =~= record_values(tail)) by {
                assert forall|i: int| 0 <= i < tail.len() / 16 implies #[trigger] record_values(
                    tail,
                )[i] == keys[i + 1] by {
                    assert(tail.subrange(16 * i, 16 * i + 16) =~= b.subrange(
                        16 * (i + 1),
                        16 * (i + 1) + 16,
                    ));
                }
            }
            assert(unpacked_arcs(keys).drop_first() =~= unpacked_arcs(record_values(tail)));
        }
        self.pos = end;
        Some(unpack_arc(read_record(raw)))
    }
}

// ---------------------------------------------------------------------------
// Sorting a file
// ---------------------------------------------------------------------------
/// What an arc file of a known format holds.
pub open spec fn file_stream(format: ArcFileFormat, path: Seq<char>, input: Seq<u8>) -> ArcStream {
    match format {
        ArcFileFormat::Tsv => text_stream(input, path, 0),
        ArcFileFormat::Binary => if input.len() % 16 != 0 {
            ArcStream {
                arcs: Seq::empty(),
                failure: Some(
                    crate::error::ErrorView::TruncatedRun {
                        path,
                        len: input.len() as u64,
                        record_size: ARC_RECORD_SIZE,
                    },
                ),
            }
        } else {
            ArcStream { arcs: unpacked_arcs(record_values(input)), failure: None }
        },
    }
}

/// Pushes every arc of an arc file into a sorter, in the order of the file.
fn push_file(format: ArcFileFormat, path: &str, input: &[u8], sorter: &mut ArcSorter) -> (r:
    Result<()>)
    requires
        old(sorter).valid(),
        !old(sorter).finished(),
        old(sorter).arcs() == Seq::<(NodeId, NodeId)>::empty(),
        old(sorter).held() == old(sorter).all_runs().len(),
    ensures
        final(sorter).valid(),
        !final(sorter).finished(),
        final(sorter).arcs() == file_stream(format, path@, input@).arcs,
        final(sorter).held() == final(sorter).all_runs().len(),
        final(sorter).dedup() == old(sorter).dedup(),
        match r {
            Ok(_) => file_stream(format, path@, input@).failure is None,
            Err(e) => file_stream(format, path@, input@).failure == Some(e@),
        },
{
    let ghost stream = file_stream(format, path@, input@);
    let mut n: u64 = 0;
    let total: usize = input.len();
    match format {
        ArcFileFormat::Tsv => {
            let (mut it, mut slot) = read_tsv_arcs(path, input);
            assert(stream.arcs.skip(0) =~= stream.arcs);
            assert(stream.arcs.take(0) =~= sorter.arcs());
            loop
                invariant_except_break
                    it.rest() == (ArcStream {
                        arcs: stream.arcs.skip(n as int),
                        failure: stream.failure,
                    }),
                    slot.error is None,
                    n + it.left() <= total,
                invariant
                    sorter.held() == sorter.all_runs().len(),
                    sorter.dedup() == old(sorter).dedup(),
                    stream == text_stream(input@, path@, 0),
                    it.valid(),
                    sorter.valid(),
                    !sorter.finished(),
                    n <= stream.arcs.len(),
                    sorter.arcs() == stream.arcs.take(n as int),
                    total == input@.len(),
                    format is Tsv,
                ensures
                    n == stream.arcs.len(),
                    match stream.failure {
                        None => slot.error is None,
                        Some(e) => slot.error matches Some(f) && f@ == e,
                    },
                decreases it.left(),
            {
                match it.next(&mut slot) {
                    None => {
                        break;
                    },
                    Some((src, dst)) => {
                        match sorter.push(src, dst) {
                            Ok(_) => {},
                            Err(e) => {
                                return Err(e);
                            },
                        }
                        proof {
                            assert(stream.arcs.skip(n as int)[0] == stream.arcs[n as int]);
                            assert(stream.arcs.take(n + 1) =~= stream.arcs.take(n as int).push(
                                (src, dst),
                            ));
                            assert(sorter.arcs() =~= stream.arcs.take(n + 1));
                            assert(stream.arcs.skip(n as int).drop_first() =~= stream.arcs.skip(
                                n + 1,
                            ));
                        }
                        n = n + 1;
                    },
                }
            }
            assert(stream.arcs.take(n as int) =~= stream.arcs);
            match take_iter_error(&mut slot) {
                Ok(_) => Ok(()),
                Err(e) => Err(e),
            }
        },
        ArcFileFormat::Binary => {
            let mut it = match read_binary_arcs(path, input) {
                Ok(it) => it,
                Err(e) => {
                    assert(stream.arcs =~= sorter.arcs());
                    return Err(e);
                },
            };
            assert(stream.arcs.skip(0) =~= stream.arcs);
            assert(stream.arcs.take(0) =~= sorter.arcs());
            loop
                invariant
                    sorter.held() == sorter.all_runs().len(),
                    sorter.dedup() == old(sorter).dedup(),
                    stream == file_stream(format, path@, input@),
                    stream.failure is None,
                    it.valid(),
                    it.rest() == stream.arcs.skip(n as int),
                    sorter.valid(),
                    !sorter.finished(),
                    n <= stream.arcs.len(),
                    stream.arcs.len() <= input@.len(),
                    sorter.arcs() == stream.arcs.take(n as int),
                    total == input@.len(),
                ensures
                    n == stream.arcs.len(),
                decreases stream.arcs.len() - n,
            {
                match it.next() {
                    None => {
                        break;
                    },
                    Some((src, dst)) => {
                        match sorter.push(src, dst) {
                            Ok(_) => {},
                            Err(e) => {
                                return Err(e);
                            },
                        }
                        proof {
                            assert(stream.arcs.take(n + 1) =~= stream.arcs.take(n as int).push(
                                (src, dst),
                            ));
                            assert(sorter.arcs() =~= stream.arcs.take(n + 1));
                            assert(stream.arcs.skip(n as int).drop_first() =~= stream.arcs.skip(
                                n + 1,
                            ));
                        }
                        n = n + 1;
                    },
                }
            }
            assert(stream.arcs.take(n as int) =~= stream.arcs);
            Ok(())
        },
    }
}

/// What comes of sorting an arc file: the arcs of the file, and their counters.
pub open spec fn is_sorted_file(
    stream: ArcStream,
    dedup: bool,
    sorted: SortedArcs,
    stats: SortStats,
) -> bool {
    &&& stream.failure is None
    &&& sorted.valid()
    &&& sorted.of() == stream.arcs
    &&& sorted.dedup() == dedup
    &&& stats.raw_arcs == sorted.of().len()
    &&& stats.max_node_id == crate::sorter::max_id(sorted.of())
    &&& forall|s: Seq<u128>| #[trigger]
        sorted.lists(s) ==> stats.distinct_arcs == s.len() && stats.duplicates_removed
            == stats.raw_arcs - s.len()
}

/// Sorts an arc file, telling its format from its contents.
///
/// A sorter is made on the way, which may need a thread pool of its own; what
/// is done with it is said by [`sort_file_with`].
pub fn sort_file(path: &str, input: &[u8], opts: SortOpts) -> (r: Result<(SortedArcs, SortStats)>)
    ensures
        match format_of(path@, input@.len() as u64, input@) {
            Err(f) => r is Err && r->Err_0@ == f,
            Ok(format) => {
                let stream = file_stream(format, path@, input@);
                let small = crate::sorter::run_capacity(opts.memory_bytes)
                    < crate::sorter::MIN_ARCS_PER_RUN;
                match r {
                    Ok((sorted, stats)) => !small && is_sorted_file(
                        stream,
                        opts.dedup,
                        sorted,
                        stats,
                    ),
                    Err(e) => if small {
                        e@ == crate::sorter::budget_error(opts.memory_bytes)
                    } else {
                        ||| stream.failure == Some(e@)
                        ||| crate::sorter::threads_wanted(opts) > 0 && e@
                            == crate::error::ErrorView::PlainIo
                    },
                }
            },
        },
{
    let format: ArcFileFormat = match detect_format(path, input.len() as u64, input) {
        Ok(f) => f,
        Err(e) => {
            return Err(e);
        },
    };
    match ArcSorter::new(opts) {
        Ok(sorter) => sort_file_with(path, input, format, sorter),
        Err(e) => Err(e),
    }
}

/// Sorts an arc file of a known format in a sorter that holds nothing yet.
pub fn sort_file_with(path: &str, input: &[u8], format: ArcFileFormat, sorter: ArcSorter) -> (r:
    Result<(SortedArcs, SortStats)>)
    requires
        sorter.valid(),
        !sorter.finished(),
        sorter.arcs() == Seq::<(NodeId, NodeId)>::empty(),
        sorter.held() == sorter.all_runs().len(),
    ensures
        match r {
            Ok((sorted, stats)) => is_sorted_file(
                file_stream(format, path@, input@),
                sorter.dedup(),
                sorted,
                stats,
            ),
            Err(e) => file_stream(format, path@, input@).failure == Some(e@),
        },
{
    let mut sorter: ArcSorter = sorter;
    match push_file(format, path, input, &mut sorter) {
        Ok(_) => {},
        Err(e) => {
            return Err(e);
        },
    }
    match sorter.finish() {
        Ok(_) => {},
        Err(e) => {
            return Err(e);
        },
    }
    sorter.into_sorted()
}

impl SortedArcs {
    /// Appends the arcs as text, in order. Returns how many there are.
    pub fn write_tsv(&self, w: &mut Vec<u8>) -> (r: u64)
        requires
            self.valid(),
        ensures
            exists|s: Seq<u128>| #[trigger]
                self.lists(s) && r == s.len() && final(w)@ == old(w)@ + arcs_text(unpacked_arcs(s)),
    {
        let ghost start = w@;
        let mut it = self.iter();
        assert(start + arcs_text(unpacked_arcs(it.given())) =~= start);
        loop
            invariant
                self.valid(),
                it.valid(),
                it.of() == self.of(),
                it.dedup() == self.dedup(),
                w@ == start + arcs_text(unpacked_arcs(it.given())),
                start == old(w)@,
            ensures
                self.lists(it.given()),
            decreases it.remaining(),
        {
            let ghost given = it.given();
            match it.next() {
                None => {
                    break;
                },
                Some((src, dst)) => {
                    let ghost before = w@;
                    push_arc_line(w, src, dst);
                    proof {
                        let arcs = unpacked_arcs(it.given());
                        assert(arcs.drop_last() =~= unpacked_arcs(given));
                        assert(arcs.last() == (src, dst));
                        assert(w@ =~= start + arcs_text(arcs));
                    }
                },
            }
        }
        self.num_arcs()
    }

    /// Appends the arcs as binary records, in order. Returns how many there
    /// are.
    pub fn write_binary(&self, w: &mut Vec<u8>) -> (r: u64)
        requires
            self.valid(),
        ensures
            exists|s: Seq<u128>| #[trigger]
                self.lists(s) && r == s.len() && final(w)@ == old(w)@ + arc_records(s),
    {
        let ghost start = w@;
        let mut it = self.iter();
        assert(start + arc_records(it.given()) =~= start);
        loop
            invariant
                self.valid(),
                it.valid(),
                it.of() == self.of(),
                it.dedup() == self.dedup(),
                w@ == start + arc_records(it.given()),
                start == old(w)@,
            ensures
                self.lists(it.given()),
            decreases it.remaining(),
        {
            let ghost given = it.given();
            match it.next_key() {
                None => {
                    break;
                },
                Some(key) => {
                    push_arc_record(w, key);
                    proof {
                        let keys = it.given();
                        assert(keys.drop_last() =~= given);
                        assert(w@ =~= start + arc_records(keys));
                    }
                },
            }
        }
        self.num_arcs()
    }
}

// ---------------------------------------------------------------------------
// What is written is read back
// ---------------------------------------------------------------------------
/// The digits of a number hold neither a TAB nor a line end.
proof fn lemma_arc_line(arc: (NodeId, NodeId))
    ensures
        arc_line(arc).len() >= 4,
        arc_line(arc).last() == 10,
        forall|i: int|
            0 <= i < arc_line(arc).len() - 1 ==> text::is_digit(#[trigger] arc_line(arc)[i])
                || arc_line(arc)[i] == 9,
        arc_text(arc_line(arc)) == arc_line(arc).drop_last(),
        arc_of_text(arc_line(arc).drop_last()) == Some(arc),
        valid_utf8(arc_line(arc)),
{
    let a = text::decimal_bytes(arc.0 as nat);
    let b = text::decimal_bytes(arc.1 as nat);
    let raw = arc_line(arc);
    let t = raw.drop_last();
    text::lemma_decimal_digits(arc.0 as nat);
    text::lemma_decimal_digits(arc.1 as nat);
    text::lemma_decimal_round_trip(arc.0 as nat);
    text::lemma_decimal_round_trip(arc.1 as nat);
    assert(t =~= a.push(9) + b);
    assert forall|i: int| 0 <= i < t.len() implies text::is_digit(#[trigger] raw[i]) || raw[i]
        == 9 by {
        if i < a.len() {
            assert(text::is_digit(a[i]));
        } else if i > a.len() {
            assert(text::is_digit(b[i - a.len() - 1]));
        }
    }
    assert(raw[t.len() - 1] == b.last());
    assert(text::is_digit(b[b.len() - 1]));
    assert(text::trim_end(t, 10) == t);
    assert(text::trim_end(raw, 10) == t);
    assert(text::trim_end(t, 13) == t);
    assert(text::pieces(t, 9) == seq![a, b]) by {
        assert forall|i: int| 0 <= i < a.len() implies t[i] != 9 by {
            assert(text::is_digit(a[i]));
        }
        assert(t[a.len() as int] == 9);
        text::lemma_pieces_front(t, 9, a.len() as int);
        assert(t.take(a.len() as int) =~= a);
        assert(t.skip(a.len() as int + 1) =~= b);
        assert(!b.contains(9)) by {
            assert forall|i: int| 0 <= i < b.len() implies b[i] != 9 by {
                assert(text::is_digit(b[i]));
            }
        }
        text::lemma_pieces_single(b, 9);
        assert(seq![a] + seq![b] =~= seq![a, b]);
    }
    assert forall|i: int| 0 <= i < raw.len() implies raw[i] < 0x80 by {
        if i < t.len() {
            assert(text::is_digit(raw[i]) || raw[i] == 9);
        }
    }
    lemma_ascii_is_utf8(raw);
}

/// ASCII is valid UTF-8.
pub proof fn lemma_ascii_is_utf8(b: Seq<u8>)
    requires
        forall|i: int| 0 <= i < b.len() ==> #[trigger] b[i] < 0x80,
    ensures
        valid_utf8(b),
    decreases b.len(),
{
    if b.len() > 0 {
        let rest = b.drop_first();
        assert forall|i: int| 0 <= i < rest.len() implies #[trigger] rest[i] < 0x80 by {
            assert(rest[i] == b[i + 1]);
        }
        lemma_ascii_is_utf8(rest);
        assert(length_of_first_scalar(b) == 1);
        assert(pop_first_scalar(b) =~= rest);
        assert(b[0] < 0x80);
    }
}

/// The text of some arcs begins with the line of the first.
proof fn lemma_arcs_text_front(arcs: Seq<(NodeId, NodeId)>)
    requires
        arcs.len() > 0,
    ensures
        arcs_text(arcs) == arc_line(arcs[0]) + arcs_text(arcs.drop_first()),
    decreases arcs.len(),
{
    let init = arcs.drop_last();
    if arcs.len() == 1 {
        assert(arcs_text(init) =~= Seq::empty());
        assert(arcs_text(arcs.drop_first()) =~= Seq::empty());
        assert(arcs_text(arcs) =~= arc_line(arcs[0]) + arcs_text(arcs.drop_first()));
    } else {
        lemma_arcs_text_front(init);
        let rest = arcs.drop_first();
        assert(rest.drop_last() =~= init.drop_first());
        assert(rest.last() == arcs.last());
        assert(arcs_text(arcs) =~= arc_line(arcs[0]) + arcs_text(rest));
    }
}

proof fn lemma_text_stream(arcs: Seq<(NodeId, NodeId)>, path: Seq<char>, line: nat)
    ensures
        text_stream(arcs_text(arcs), path, line) == (ArcStream { arcs, failure: None }),
    decreases arcs.len(),
{
    if arcs.len() == 0 {
        assert(arcs =~= Seq::empty());
    } else {
        let first = arc_line(arcs[0]);
        let rest = arcs.drop_first();
        let b = arcs_text(arcs);
        lemma_arcs_text_front(arcs);
        lemma_arc_line(arcs[0]);
        assert forall|i: int| 0 <= i < first.len() - 1 implies b[i] != 10 by {
            assert(b[i] == first[i]);
            assert(text::is_digit(first[i]) || first[i] == 9);
        }
        crate::edge_list::lemma_first_line_end(b, first.len() - 1);
        assert(b.take(first.len() as int) =~= first);
        assert(b.skip(first.len() as int) =~= arcs_text(rest));
        lemma_text_stream(rest, path, line + 1);
        assert(seq![arcs[0]] + rest =~= arcs);
    }
}

/// Text round trip: reading what was written as text gives the arcs back, in
/// order, with no error; and the text is recognised as text.
pub proof fn text_round_trips(arcs: Seq<(NodeId, NodeId)>, path: Seq<char>, len: u64)
    ensures
        file_stream(ArcFileFormat::Tsv, path, arcs_text(arcs)) == (ArcStream {
            arcs,
            failure: None,
        }),
        format_of(path, len, arcs_text(arcs)) == Ok::<ArcFileFormat, crate::error::ErrorView>(
            ArcFileFormat::Tsv,
        ),
{
    lemma_text_stream(arcs, path, 0);
    lemma_text_is_textual(arcs);
}

proof fn lemma_text_is_textual(arcs: Seq<(NodeId, NodeId)>)
    ensures
        forall|i: int|
            0 <= i < arcs_text(arcs).len() ==> text::is_digit(#[trigger] arcs_text(arcs)[i])
                || arcs_text(arcs)[i] == 9 || arcs_text(arcs)[i] == 10,
    decreases arcs.len(),
{
    if arcs.len() > 0 {
        let init = arcs_text(arcs.drop_last());
        let line = arc_line(arcs.last());
        lemma_text_is_textual(arcs.drop_last());
        lemma_arc_line(arcs.last());
        assert forall|i: int| 0 <= i < arcs_text(arcs).len() implies text::is_digit(
            #[trigger] arcs_text(arcs)[i],
        ) || arcs_text(arcs)[i] == 9 || arcs_text(arcs)[i] == 10 by {
            if i < init.len() {
                assert(arcs_text(arcs)[i] == init[i]);
            } else {
                assert(arcs_text(arcs)[i] == line[i - init.len()]);
            }
        }
    }
}

/// Binary round trip: the records of some packed arcs are sixteen bytes each,
/// and reading them gives the packed arcs back, in order.
pub proof fn records_round_trip(keys: Seq<u128>)
    ensures
        arc_records(keys).len() == 16 * keys.len(),
        record_values(arc_records(keys)) == keys,
    decreases keys.len(),
{
    let b = arc_records(keys);
    if keys.len() > 0 {
        let init = arc_records(keys.drop_last());
        let last = arc_record(keys.last());
        records_round_trip(keys.drop_last());
        lemma_le_bytes_len(keys.last() as nat, 16);
        lemma_record_range();
        lemma_le_round_trip(keys.last() as nat, 16);
        assert forall|i: int| 0 <= i < keys.len() implies #[trigger] record_values(b)[i]
            == keys[i] by {
            let piece = b.subrange(16 * i, 16 * i + 16);
            if i < keys.len() - 1 {
                assert(piece =~= init.subrange(16 * i, 16 * i + 16));
                assert(record_values(init)[i] == keys.drop_last()[i]);
            } else {
                assert(piece =~= last);
            }
        }
    }
    assert(record_values(b) =~= keys);
}

/// Binary round trip over arcs: reading what was written as binary gives the
/// arcs back, in order, with no error.
pub proof fn binary_round_trips(arcs: Seq<(NodeId, NodeId)>, path: Seq<char>)
    ensures
        file_stream(
            ArcFileFormat::Binary,
            path,
            arc_records(crate::sorter::packed_arcs(arcs)),
        ) == (ArcStream { arcs, failure: None }),
{
    let keys = crate::sorter::packed_arcs(arcs);
    records_round_trip(keys);
    assert forall|i: int| 0 <= i < arcs.len() implies #[trigger] unpacked_arcs(keys)[i]
        == arcs[i] by {
        crate::pack_arc_round_trips(arcs[i].0, arcs[i].1);
    }
    assert(unpacked_arcs(keys) =~= arcs);
}

/// A binary file has one reading: two runs of packed arcs with the same bytes
/// are the same.
pub proof fn records_have_one_reading(a: Seq<u128>, b: Seq<u128>)
    requires
        arc_records(a) == arc_records(b),
    ensures
        a == b,
{
    records_round_trip(a);
    records_round_trip(b);
}

/// A file of binary records is recognised as one, where the source of its
/// first arc is below `9 << 56`: the highest byte of the first record is then
/// none that a text can hold.
pub proof fn binary_is_recognised(keys: Seq<u128>, path: Seq<char>, len: u64)
    requires
        keys.len() > 0,
        keys[0] < 0x0900_0000_0000_0000_0000_0000_0000_0000,
        len == 16 * keys.len(),
    ensures
        format_of(path, len, arc_records(keys)) == Ok::<ArcFileFormat, crate::error::ErrorView>(
            ArcFileFormat::Binary,
        ),
{
    let b = arc_records(keys);
    let first = arc_record(keys[0]);
    records_round_trip(keys);
    lemma_first_record(keys);
    assert(byte_range(15) * 9 == 0x0900_0000_0000_0000_0000_0000_0000_0000) by {
        reveal_with_fuel(byte_range, 16);
    }
    lemma_le_last_byte(keys[0] as nat, 16, 9);
    assert(b[15] == first[15]);
    assert(!text::is_digit(b[15]) && b[15] != 9 && b[15] != 10);
    assert(!is_textual(b));
}

proof fn lemma_first_record(keys: Seq<u128>)
    requires
        keys.len() > 0,
    ensures
        arc_record(keys[0]).len() == 16,
        arc_record(keys[0]).is_prefix_of(arc_records(keys)),
    decreases keys.len(),
{
    let first = arc_record(keys[0]);
    lemma_le_bytes_len(keys[0] as nat, 16);
    let init = keys.drop_last();
    if keys.len() == 1 {
        assert(arc_records(init) =~= Seq::empty());
        assert(arc_records(keys) =~= first);
        assert(first.take(16) =~= first);
    } else {
        lemma_first_record(init);
        assert(arc_records(keys).take(16) =~= arc_records(init).take(16));
    }
}

// ---------------------------------------------------------------------------
// What comes out of a sort
// ---------------------------------------------------------------------------
/// Ascending by source, then by destination; equal arcs only where duplicates
/// are kept.
pub open spec fn arc_before(a: (NodeId, NodeId), b: (NodeId, NodeId), dedup: bool) -> bool {
    ||| a.0 < b.0
    ||| a.0 == b.0 && a.1 < b.1
    ||| !dedup && a == b
}

/// What comes out of a sort is ascending by `(src, dst)`, without equal
/// neighbours where duplicates are dropped; it holds every arc that went in,
/// and no other.
pub proof fn sorting_keeps_the_arcs(arcs: Seq<(NodeId, NodeId)>, s: Seq<u128>, dedup: bool)
    requires
        merge::lists(s, crate::sorter::arc_multiset(arcs), dedup),
    ensures
        forall|i: int, j: int|
            0 <= i < j < s.len() ==> arc_before(
                #[trigger] unpacked_arcs(s)[i],
                #[trigger] unpacked_arcs(s)[j],
                dedup,
            ),
        forall|arc: (NodeId, NodeId)| #[trigger]
            unpacked_arcs(s).contains(arc) <==> arcs.contains(arc),
        s == crate::sorter::packed_arcs(unpacked_arcs(s)),
{
    let keys = crate::sorter::packed_arcs(arcs);
    let m = crate::sorter::arc_multiset(arcs);
    let out = unpacked_arcs(s);
    keys.to_multiset_ensures();
    s.to_multiset_ensures();
    assert forall|k: u128| s.contains(k) <==> keys.contains(k) by {
        vstd::seq_lib::to_multiset_contains(s, k);
        vstd::seq_lib::to_multiset_contains(keys, k);
    }
    assert forall|i: int| 0 <= i < s.len() implies {
        &&& crate::packed_arc(#[trigger] out[i].0, out[i].1) == s[i]
        &&& arcs.contains(out[i])
    } by {
        assert(s.contains(s[i]));
        let k = choose|k: int| 0 <= k < keys.len() && keys[k] == s[i];
        crate::pack_arc_round_trips(arcs[k].0, arcs[k].1);
        assert(out[i] == arcs[k]);
    }
    assert forall|i: int, j: int| 0 <= i < j < s.len() implies arc_before(
        #[trigger] out[i],
        #[trigger] out[j],
        dedup,
    ) by {
        crate::pack_arc_preserves_order(out[i], out[j]);
        assert(s[i] <= s[j]);
    }
    assert forall|arc: (NodeId, NodeId)| #[trigger] out.contains(arc) <==> arcs.contains(arc) by {
        if arcs.contains(arc) {
            let k = choose|k: int| 0 <= k < arcs.len() && arcs[k] == arc;
            crate::pack_arc_round_trips(arc.0, arc.1);
            assert(keys[k] == crate::packed_arc(arc.0, arc.1));
            assert(keys.contains(keys[k]));
            let i = choose|i: int| 0 <= i < s.len() && s[i] == keys[k];
            assert(out[i] == arc);
        }
        if out.contains(arc) {
            let i = choose|i: int| 0 <= i < out.len() && out[i] == arc;
            assert(arcs.contains(out[i]));
        }
    }
    assert(s =~= crate::sorter::packed_arcs(out));
}

/// Two sorts of the same arcs, in whatever order they came, in however many
/// runs and by whichever backend, give the same.
pub proof fn sorting_has_one_result(a: &SortedArcs, b: &SortedArcs, s: Seq<u128>, t: Seq<u128>)
    requires
        crate::sorter::arc_multiset(a.of()) == crate::sorter::arc_multiset(b.of()),
        a.dedup() == b.dedup(),
        a.lists(s),
        b.lists(t),
    ensures
        s == t,
{
    merge::listing_is_unique(s, t, crate::sorter::arc_multiset(a.of()), a.dedup());
}

/// Sorting what came out of a sort gives the same again.
pub proof fn sorting_is_idempotent(arcs: Seq<(NodeId, NodeId)>, s: Seq<u128>, dedup: bool)
    requires
        merge::lists(s, crate::sorter::arc_multiset(arcs), dedup),
    ensures
        merge::lists(s, crate::sorter::arc_multiset(unpacked_arcs(s)), dedup),
{
    sorting_keeps_the_arcs(arcs, s, dedup);
    s.to_multiset_ensures();
    assert forall|k: u128| #[trigger] s.contains(k) <==> s.to_multiset().count(k) > 0 by {
        vstd::seq_lib::to_multiset_contains(s, k);
    }
}

// ---------------------------------------------------------------------------
// Names of run files and their directories
// ---------------------------------------------------------------------------
/// The name of the file that holds run `n`.
pub fn run_file_name(n: usize) -> (r: String)
    ensures
        r@ == "run-"@ + text::padded(n as nat, 5) + ".arcs"@,
{
    let mut name: String = "run-".to_owned();
    append_padded(&mut name, n as u64, 5);
    name.append(".arcs");
    name
}

/// What the name of a directory of runs starts with: the process that made it.
pub open spec fn run_dir_prefix_text(pid: u32) -> Seq<char> {
    "utxo2webgraph-sort-"@ + text::decimal(pid as nat) + "-"@
}

/// What the name of a directory of runs starts with. The process id is in it so
/// that a directory left behind by a process that was killed can be told from
/// one that a process is still using.
pub fn run_dir_prefix(pid: u32) -> (r: String)
    ensures
        r@ == run_dir_prefix_text(pid),
{
    let mut name: String = "utxo2webgraph-sort-".to_owned();
    append_decimal(&mut name, pid as u64);
    name.append("-");
    name
}

/// The process that made the directory of runs of this name, where it is the
/// name of one.
pub open spec fn run_dir_owner(name: Seq<u8>) -> Option<u32> {
    let prefix = encode_utf8("utxo2webgraph-sort-"@);
    let p = text::pieces(name.skip(prefix.len() as int), 45);
    if !prefix.is_prefix_of(name) || p.len() < 2 {
        None
    } else {
        text::u32_value(p[0])
    }
}

/// The process on whose absence the removal of a directory named `name` hangs:
/// `None` where it is no directory of runs, or one of the process `me`, and is
/// left alone.
pub fn stale_run_dir_owner(name: &str, me: u32) -> (r: Option<u32>)
    ensures
        r == match run_dir_owner(name.spec_bytes()) {
            Some(pid) => if pid != me {
                Some(pid)
            } else {
                None
            },
            None => None,
        },
{
    let b = name.as_bytes();
    let prefix = "utxo2webgraph-sort-".as_bytes();
    let n: usize = prefix.len();
    let mut i: usize = 0;
    while i < n
        invariant
            i <= n,
            n == prefix@.len(),
            prefix@ == encode_utf8("utxo2webgraph-sort-"@),
            b@ == name.spec_bytes(),
            i <= b@.len(),
            forall|k: int| 0 <= k < i ==> b@[k] == prefix@[k],
        decreases n - i,
    {
        if i >= b.len() || b[i] != prefix[i] {
            proof {
                if prefix@.is_prefix_of(b@) {
                    assert(b@.take(n as int)[i as int] == prefix@[i as int]);
                }
            }
            return None;
        }
        i = i + 1;
    }
    assert(b@.take(n as int) =~= prefix@);
    let rest: &[u8] = vstd::slice::slice_subrange(b, n, b.len());
    assert(rest@ =~= b@.skip(n as int));
    let dash: usize = find_byte(rest, 45, 0);
    if dash == rest.len() {
        proof {
            assert(!rest@.contains(45));
            text::lemma_pieces_single(rest@, 45);
        }
        return None;
    }
    let id: &[u8] = vstd::slice::slice_subrange(rest, 0, dash);
    proof {
        text::lemma_pieces_front(rest@, 45, dash as int);
        text::lemma_pieces_len(rest@.skip(dash + 1), 45);
        assert(id@ =~= rest@.take(dash as int));
    }
    match parse_unsigned(id, u32::MAX as u64) {
        Some(v) => if v as u32 != me {
            Some(v as u32)
        } else {
            None
        },
        None => None,
    }
}

/// A directory of runs is traced to the process that made it, whatever follows
/// the prefix in its name.
pub proof fn run_dirs_name_their_owner(pid: u32, rest: Seq<u8>)
    ensures
        run_dir_owner(encode_utf8(run_dir_prefix_text(pid)) + rest) == Some(pid),
{
    let prefix = encode_utf8("utxo2webgraph-sort-"@);
    let d = text::decimal_bytes(pid as nat);
    let dash = encode_utf8("-"@);
    let name = encode_utf8(run_dir_prefix_text(pid)) + rest;
    text::lemma_encode_concat("utxo2webgraph-sort-"@ + text::decimal(pid as nat), "-"@);
    text::lemma_encode_concat("utxo2webgraph-sort-"@, text::decimal(pid as nat));
    text::lemma_decimal_encoding(pid as nat);
    text::lemma_decimal_digits(pid as nat);
    text::lemma_decimal_round_trip(pid as nat);
    reveal_strlit("-");
    assert(dash =~= seq![45u8]) by {
        assert("-"@ =~= seq!['-']);
        is_ascii_chars_encode_utf8("-"@);
    }
    assert(name.take(prefix.len() as int) =~= prefix);
    let t = name.skip(prefix.len() as int);
    assert(t =~= d + dash + rest);
    assert forall|i: int| 0 <= i < d.len() implies t[i] != 45 by {
        assert(text::is_digit(d[i]));
    }
    assert(t[d.len() as int] == 45);
    text::lemma_pieces_front(t, 45, d.len() as int);
    text::lemma_pieces_len(t.skip(d.len() as int + 1), 45);
    assert(t.take(d.len() as int) =~= d);
    assert(text::is_digit(d[0]));
}

/// The name under which an output is written until it is complete.
pub fn temp_file_name(name: &str, pid: u32) -> (r: String)
    ensures
        r@ == "."@ + name@ + ".utxo2webgraph-tmp-"@ + text::decimal(pid as nat),
{
    let mut temp: String = ".".to_owned();
    temp.append(name);
    temp.append(".utxo2webgraph-tmp-");
    append_decimal(&mut temp, pid as u64);
    temp
}

/// A sort neither loses nor repeats an arc: where duplicates are kept, each
/// comes out as often as it went in; where they are dropped, each comes out
/// once. What comes out ascends by source, and by destination within a source.
pub proof fn a_sort_lists_its_arcs(arcs: Seq<(NodeId, NodeId)>, s: Seq<u128>, dedup: bool)
    requires
        merge::lists(s, crate::sorter::arc_multiset(arcs), dedup),
    ensures
        forall|i: int, j: int|
            0 <= i < j < s.len() ==> {
                let (a, b) = (#[trigger] unpacked_arcs(s)[i], #[trigger] unpacked_arcs(s)[j]);
                ||| a.0 < b.0
                ||| a.0 == b.0 && a.1 < b.1
                ||| !dedup && a == b
            },
        forall|arc: (NodeId, NodeId)| #[trigger]
            unpacked_arcs(s).contains(arc) <==> arcs.contains(arc),
        !dedup ==> unpacked_arcs(s).to_multiset() == arcs.to_multiset(),
        !dedup ==> s.len() == arcs.len(),
        dedup ==> unpacked_arcs(s).no_duplicates(),
{
    let out = unpacked_arcs(s);
    sorting_keeps_the_arcs(arcs, s, dedup);
    assert forall|i: int, j: int| 0 <= i < j < s.len() implies {
        let (a, b) = (#[trigger] out[i], #[trigger] out[j]);
        ||| a.0 < b.0
        ||| a.0 == b.0 && a.1 < b.1
        ||| !dedup && a == b
    } by {
        assert(arc_before(out[i], out[j], dedup));
    }
    if !dedup {
        lemma_same_arcs(out, arcs);
        s.to_multiset_ensures();
        crate::sorter::packed_arcs(arcs).to_multiset_ensures();
    }
}

/// Arcs whose packed forms are the same, each as often, are the same, each as
/// often.
proof fn lemma_same_arcs(a: Seq<(NodeId, NodeId)>, b: Seq<(NodeId, NodeId)>)
    requires
        crate::sorter::packed_arcs(a).to_multiset() == crate::sorter::packed_arcs(b).to_multiset(),
    ensures
        a.to_multiset() == b.to_multiset(),
{
    assert forall|arc: (NodeId, NodeId)| #[trigger]
        a.to_multiset().count(arc) == b.to_multiset().count(arc) by {
        lemma_packed_count(a, arc);
        lemma_packed_count(b, arc);
    }
    assert(a.to_multiset() =~= b.to_multiset());
}

/// An arc occurs as often as its packed form.
proof fn lemma_packed_count(arcs: Seq<(NodeId, NodeId)>, arc: (NodeId, NodeId))
    ensures
        arcs.to_multiset().count(arc) == crate::sorter::packed_arcs(arcs).to_multiset().count(
            crate::packed_arc(arc.0, arc.1),
        ),
    decreases arcs.len(),
{
    let keys = crate::sorter::packed_arcs(arcs);
    if arcs.len() == 0 {
        vstd::seq_lib::to_multiset_contains(arcs, arc);
        vstd::seq_lib::to_multiset_contains(keys, crate::packed_arc(arc.0, arc.1));
    } else {
        let init = arcs.drop_last();
        lemma_packed_count(init, arc);
        init.to_multiset_ensures();
        crate::sorter::packed_arcs(init).to_multiset_ensures();
        assert(arcs =~= init.push(arcs.last()));
        assert(keys =~= crate::sorter::packed_arcs(init).push(
            crate::packed_arc(arcs.last().0, arcs.last().1),
        ));
        crate::pack_arc_preserves_order(arcs.last(), arc);
    }
}

// ---------------------------------------------------------------------------
// What the files hold
// ---------------------------------------------------------------------------
/// The number that eight bytes write from a place on, the lowest first.
pub open spec fn eight_bytes(b: Seq<u8>, at: int) -> int {
    b[at] + 0x100 * b[at + 1] + 0x1_0000 * b[at + 2] + 0x100_0000 * b[at + 3] + 0x1_0000_0000 * b[at
        + 4] + 0x100_0000_0000 * b[at + 5] + 0x1_0000_0000_0000 * b[at + 6] + 0x100_0000_0000_0000
        * b[at + 7]
}

proof fn lemma_le_value_step(b: Seq<u8>, at: int, end: int)
    requires
        0 <= at < end <= b.len(),
    ensures
        le_value(b.subrange(at, end)) == b[at] + 256 * le_value(b.subrange(at + 1, end)),
{
    assert(b.subrange(at, end).drop_first() =~= b.subrange(at + 1, end));
}

/// Sixteen bytes write the second eight above the first.
proof fn lemma_sixteen_bytes(b: Seq<u8>, at: int)
    requires
        0 <= at,
        at + 16 <= b.len(),
    ensures
        le_value(b.subrange(at, at + 16)) == eight_bytes(b, at) + 0x1_0000_0000_0000_0000
            * eight_bytes(b, at + 8),
{
    let end = at + 16;
    lemma_le_value_step(b, at, end);
    lemma_le_value_step(b, at + 1, end);
    lemma_le_value_step(b, at + 2, end);
    lemma_le_value_step(b, at + 3, end);
    lemma_le_value_step(b, at + 4, end);
    lemma_le_value_step(b, at + 5, end);
    lemma_le_value_step(b, at + 6, end);
    lemma_le_value_step(b, at + 7, end);
    lemma_le_value_step(b, at + 8, end);
    lemma_le_value_step(b, at + 9, end);
    lemma_le_value_step(b, at + 10, end);
    lemma_le_value_step(b, at + 11, end);
    lemma_le_value_step(b, at + 12, end);
    lemma_le_value_step(b, at + 13, end);
    lemma_le_value_step(b, at + 14, end);
    lemma_le_value_step(b, at + 15, end);
    assert(b.subrange(end, end).len() == 0);
    assert(le_value(b.subrange(end, end)) == 0);
}

/// A binary file is read sixteen bytes at a time: the first eight write the
/// destination of an arc, the second eight its source, each the lowest byte
/// first.
pub proof fn binary_files_are_read(b: Seq<u8>, i: int)
    requires
        0 <= i,
        16 * i + 16 <= b.len(),
        eight_bytes(b, 16 * i) <= usize::MAX,
        eight_bytes(b, 16 * i + 8) <= usize::MAX,
    ensures
        unpacked_arcs(record_values(b)).len() == b.len() / 16,
        unpacked_arcs(record_values(b))[i] == (
            eight_bytes(b, 16 * i + 8) as usize,
            eight_bytes(b, 16 * i) as usize,
        ),
{
    let (dst, src) = (eight_bytes(b, 16 * i) as usize, eight_bytes(b, 16 * i + 8) as usize);
    lemma_sixteen_bytes(b, 16 * i);
    assert(0 <= eight_bytes(b, 16 * i) && 0 <= eight_bytes(b, 16 * i + 8));
    assert(record_values(b)[i] == le_value(b.subrange(16 * i, 16 * i + 16)) as u128);
    assert(record_values(b)[i] == crate::packed_arc(src, dst));
    crate::pack_arc_round_trips(src, dst);
}

/// A binary file holds sixteen bytes for each arc, in their order: eight for the
/// destination, then eight for the source, each the lowest byte first.
pub proof fn binary_files_hold_their_arcs(arcs: Seq<(NodeId, NodeId)>, i: int)
    requires
        0 <= i < arcs.len(),
    ensures
        ({
            let b = arc_records(crate::sorter::packed_arcs(arcs));
            &&& b.len() == 16 * arcs.len()
            &&& eight_bytes(b, 16 * i) == arcs[i].1
            &&& eight_bytes(b, 16 * i + 8) == arcs[i].0
        }),
{
    let keys = crate::sorter::packed_arcs(arcs);
    let b = arc_records(keys);
    records_round_trip(keys);
    let v = le_value(b.subrange(16 * i, 16 * i + 16));
    assert(v == keys[i]) by {
        lemma_record_range();
        lemma_le_value_bounded(b.subrange(16 * i, 16 * i + 16));
        assert(record_values(b)[i] == keys[i]);
    }
    lemma_sixteen_bytes(b, 16 * i);
    lemma_eight_bytes(b, 16 * i);
    lemma_eight_bytes(b, 16 * i + 8);
    lemma_halves(
        eight_bytes(b, 16 * i),
        eight_bytes(b, 16 * i + 8),
        arcs[i].1 as int,
        arcs[i].0 as int,
    );
}

proof fn lemma_eight_bytes(b: Seq<u8>, at: int)
    ensures
        0 <= eight_bytes(b, at) < 0x1_0000_0000_0000_0000,
{
}

/// A number has one lower and one upper half.
proof fn lemma_halves(lo: int, hi: int, dst: int, src: int)
    requires
        0 <= lo < 0x1_0000_0000_0000_0000,
        0 <= dst < 0x1_0000_0000_0000_0000,
        lo + 0x1_0000_0000_0000_0000 * hi == src * 0x1_0000_0000_0000_0000 + dst,
    ensures
        lo == dst,
        hi == src,
{
}

/// An arc is a line of text: two numbers, the source and the destination, with a
/// TAB between them and a line feed behind them. Texts are written one behind
/// the other.
pub proof fn text_files_hold_their_arcs(
    arc: (NodeId, NodeId),
    a: Seq<(NodeId, NodeId)>,
    b: Seq<(NodeId, NodeId)>,
)
    ensures
        text::pieces(arc_line(arc).drop_last(), 9) == seq![
            text::decimal_bytes(arc.0 as nat),
            text::decimal_bytes(arc.1 as nat),
        ],
        arc_line(arc).last() == 10,
        forall|i: int|
            0 <= i < arc_line(arc).len() - 1 ==> #[trigger] arc_line(arc)[i] != 10,
        arcs_text(seq![arc]) == arc_line(arc),
        arcs_text(Seq::empty()) == Seq::<u8>::empty(),
        arcs_text(a + b) == arcs_text(a) + arcs_text(b),
    decreases b.len(),
{
    lemma_arc_line(arc);
    assert(arc_line(arc).last() == 10);
    assert(seq![arc].drop_last() =~= Seq::empty());
    assert(arcs_text(Seq::<(NodeId, NodeId)>::empty()) =~= Seq::empty());
    assert(arcs_text(seq![arc]) =~= arcs_text(seq![arc].drop_last()) + arc_line(arc));
    assert(arcs_text(seq![arc]) =~= arc_line(arc));
    let (x, y) = (text::decimal_bytes(arc.0 as nat), text::decimal_bytes(arc.1 as nat));
    lemma_two_fields(x, y);
    assert(arc_line(arc).drop_last() =~= x.push(9) + y);
    text::numbers_are_written_in_digits(arc.0 as nat);
    text::numbers_are_written_in_digits(arc.1 as nat);
    text::cutting_undoes_joining(seq![x, y], 9);
    if b.len() == 0 {
        assert(a + b =~= a);
        assert(arcs_text(a) + arcs_text(b) =~= arcs_text(a));
    } else {
        text_files_hold_their_arcs(arc, a, b.drop_last());
        assert((a + b).drop_last() =~= a + b.drop_last());
        assert((a + b).last() == b.last());
        assert(arcs_text(a + b) =~= arcs_text(a) + arcs_text(b));
    }
}

/// A line of text is read as the two numbers that it holds, with a TAB between
/// them, zeros before them or not, and however it ends.
pub proof fn text_lines_are_read(x: Seq<u8>, y: Seq<u8>, path: Seq<char>, line: u64)
    requires
        x.len() > 0,
        y.len() > 0,
        forall|i: int| 0 <= i < x.len() ==> 48 <= #[trigger] x[i] <= 57,
        forall|i: int| 0 <= i < y.len() ==> 48 <= #[trigger] y[i] <= 57,
        text::digits_value(x) <= usize::MAX,
        text::digits_value(y) <= usize::MAX,
    ensures
        ({
            let t = x.push(9) + y;
            let arc = (text::digits_value(x) as usize, text::digits_value(y) as usize);
            let read = Ok::<Option<(NodeId, NodeId)>, crate::error::ErrorView>(Some(arc));
            &&& line_arc(t, path, line) == read
            &&& line_arc(t.push(10), path, line) == read
            &&& line_arc(t.push(13).push(10), path, line) == read
        }),
{
    let t = x.push(9) + y;
    lemma_two_fields(x, y);
    text::cutting_undoes_joining(seq![x, y], 9);
    assert(text::all_digits(x) && text::all_digits(y));
    assert forall|i: int| 0 <= i < t.len() implies 9 <= #[trigger] t[i] <= 57 && t[i] != 10 && t[i]
        != 13 by {
        if i < x.len() {
            assert(t[i] == x[i]);
        } else if i > x.len() {
            assert(t[i] == y[i - x.len() - 1]);
        }
    }
    lemma_line_end(t);
    lemma_ascii_is_utf8(t);
    lemma_ascii_is_utf8(t.push(10));
    lemma_ascii_is_utf8(t.push(13).push(10));
}

proof fn lemma_two_fields(x: Seq<u8>, y: Seq<u8>)
    ensures
        text::joined_by(seq![x, y], 9) == x.push(9) + y,
{
    assert(seq![x, y].drop_last() =~= seq![x]);
    assert(text::joined_by(seq![x], 9) == x);
    assert(seq![x, y].last() == y);
}

pub proof fn lemma_line_end(t: Seq<u8>)
    requires
        t.len() > 0 ==> t.last() != 10 && t.last() != 13,
    ensures
        arc_text(t) == t,
        arc_text(t.push(10)) == t,
        arc_text(t.push(13).push(10)) == t,
{
    reveal_with_fuel(text::trim_end, 3);
    assert(t.push(10).drop_last() =~= t);
    assert(t.push(13).push(10).drop_last() =~= t.push(13));
    assert(t.push(13).drop_last() =~= t);
    assert(t.push(13).last() == 13);
}

/// An empty line holds no arc, and is no error. A line with fewer or more than
/// two fields, or with something in them that is not a digit, is refused.
pub proof fn other_lines_hold_no_arc(
    parts: Seq<Seq<u8>>,
    path: Seq<char>,
    line: u64,
)
    requires
        parts.len() > 0,
        text::free_of(parts, 9),
        text::free_of(parts, 10),
        text::free_of(parts, 13),
        valid_utf8(text::joined_by(parts, 9)),
    ensures
        ({
            let t = text::joined_by(parts, 9);
            &&& t.len() == 0 ==> line_arc(t, path, line) == Ok::<
                Option<(NodeId, NodeId)>,
                crate::error::ErrorView,
            >(None)
            &&& t.len() > 0 && (parts.len() != 2 || text::digits(parts[0]) is None || text::digits(
                parts[1],
            ) is None) ==> line_arc(t, path, line) == Err::<
                Option<(NodeId, NodeId)>,
                crate::error::ErrorView,
            >(
                crate::error::ErrorView::BadArcLine { path, line, text: decode_utf8(t) },
            )
        }),
{
    let t = text::joined_by(parts, 9);
    text::cutting_undoes_joining(parts, 9);
    if t.len() > 0 {
        assert(t.last() != 10 && t.last() != 13) by {
            if parts.last().len() > 0 {
                let p = parts[parts.len() - 1];
                assert(t.last() == p[p.len() - 1]);
            } else {
                assert(parts.len() > 1);
                assert(t.last() == 9);
            }
        }
    }
    lemma_line_end(t);
}

/// Lines of text are read one after another, each with its number; an error ends
/// the reading.
pub proof fn text_lines_are_read_in_order(
    b: Seq<u8>,
    rest: Seq<u8>,
    path: Seq<char>,
    line: nat,
)
    requires
        forall|i: int| 0 <= i < b.len() ==> #[trigger] b[i] != 10,
        line < u64::MAX,
    ensures
        ({
            let whole = text_stream(b.push(10) + rest, path, line);
            let tail = text_stream(rest, path, line + 1);
            match line_arc(b.push(10), path, (line + 1) as u64) {
                Ok(Some(arc)) => whole == (ArcStream {
                    arcs: seq![arc] + tail.arcs,
                    failure: tail.failure,
                }),
                Ok(None) => whole == tail,
                Err(e) => whole.arcs.len() == 0 && whole.failure == Some(e),
            }
        }),
        text_stream(Seq::empty(), path, line).arcs.len() == 0,
        text_stream(Seq::empty(), path, line).failure is None,
{
    let input = b.push(10) + rest;
    crate::edge_list::lines_end_with_line_feeds(b, rest);
    assert(input.take(b.len() as int + 1) =~= b.push(10));
    assert(input.skip(b.len() as int + 1) =~= rest);
}

/// A file is text where it is empty, or where nothing but digits, TABs and line
/// feeds stand in its first 4096 bytes; else it is binary, and its length has to
/// be a number of whole records.
pub proof fn formats_are_told_apart(path: Seq<char>, len: u64, head: Seq<u8>)
    ensures
        format_of(path, len, head) == Ok::<ArcFileFormat, crate::error::ErrorView>(
            ArcFileFormat::Tsv,
        ) <==> len == 0 || (forall|i: int|
            0 <= i < head.len() && i < 4096 ==> 48 <= #[trigger] head[i] <= 57 || head[i] == 9
                || head[i] == 10),
        format_of(path, len, head) is Err ==> len % 16 != 0,
        format_of(path, len, head) == Ok::<ArcFileFormat, crate::error::ErrorView>(
            ArcFileFormat::Binary,
        ) ==> len % 16 == 0,
{
    if is_textual(head) {
        assert forall|i: int| 0 <= i < head.len() && i < 4096 implies 48 <= #[trigger] head[i]
            <= 57 || head[i] == 9 || head[i] == 10 by {
            assert(text::is_digit(head[i]) || head[i] == 9 || head[i] == 10);
        }
    }
}

/// The name of a directory of runs says whose it is: behind the words that it
/// starts with, up to the next hyphen. Other names say nothing.
pub proof fn run_dirs_are_told_by_their_names(id: Seq<u8>, rest: Seq<u8>, other: Seq<u8>)
    requires
        forall|i: int| 0 <= i < id.len() ==> #[trigger] id[i] != 45,
        !encode_utf8("utxo2webgraph-sort-"@).is_prefix_of(other),
    ensures
        run_dir_owner(encode_utf8("utxo2webgraph-sort-"@) + id.push(45) + rest) == text::u32_value(
            id,
        ),
        run_dir_owner(encode_utf8("utxo2webgraph-sort-"@) + id) is None,
        run_dir_owner(other) is None,
{
    let prefix = encode_utf8("utxo2webgraph-sort-"@);
    let name = prefix + id.push(45) + rest;
    assert(name.take(prefix.len() as int) =~= prefix);
    let t = name.skip(prefix.len() as int);
    assert(t =~= id.push(45) + rest);
    assert forall|i: int| 0 <= i < id.len() implies t[i] != 45 by {
        assert(t[i] == id[i]);
    }
    assert(t[id.len() as int] == 45);
    text::lemma_pieces_front(t, 45, id.len() as int);
    text::lemma_pieces_len(t.skip(id.len() as int + 1), 45);
    assert(t.take(id.len() as int) =~= id);
    let short = prefix + id;
    assert(short.take(prefix.len() as int) =~= prefix);
    assert(short.skip(prefix.len() as int) =~= id);
    assert(!id.contains(45));
    text::lemma_pieces_single(id, 45);
}

/// The directories of a process are named by its number.
pub proof fn run_dirs_are_named_by_their_process(pid: u32)
    ensures
        run_dir_prefix_text(pid) == "utxo2webgraph-sort-"@ + text::decimal(pid as nat) + "-"@,
{
}

/// Sorting a text file of arcs gives those arcs, in order: each as often as it
/// is in the file, or once where duplicates are dropped. What was dropped is
/// counted.
pub proof fn a_sorted_file_lists_its_arcs(
    path: &str,
    input: &[u8],
    opts: SortOpts,
    arcs: Seq<(NodeId, NodeId)>,
    sorted: SortedArcs,
    stats: SortStats,
    s: Seq<u128>,
)
    requires
        input@ == arcs_text(arcs),
        call_ensures(sort_file, (path, input, opts), Ok((sorted, stats))),
        sorted.lists(s),
    ensures
        ({
            let out = unpacked_arcs(s);
            &&& forall|i: int, j: int|
                0 <= i < j < out.len() ==> {
                    let (a, b) = (#[trigger] out[i], #[trigger] out[j]);
                    ||| a.0 < b.0
                    ||| a.0 == b.0 && a.1 < b.1
                    ||| !opts.dedup && a == b
                }
            &&& forall|arc: (NodeId, NodeId)| #[trigger] out.contains(arc) <==> arcs.contains(arc)
            &&& !opts.dedup ==> out.to_multiset() == arcs.to_multiset()
            &&& stats.raw_arcs == arcs.len()
            &&& stats.distinct_arcs == out.len()
            &&& stats.duplicates_removed == arcs.len() - out.len()
        }),
{
    text_round_trips(arcs, path@, input@.len() as u64);
    a_sort_lists_its_arcs(arcs, s, opts.dedup);
}

/// The files of runs are named by their numbers, and an output that is not
/// complete by its own name and the process that writes it.
pub proof fn file_names_tell_their_numbers(
    n: usize,
    name: &str,
    pid: u32,
    run: String,
    temp: String,
)
    requires
        call_ensures(run_file_name, (n,), run),
        call_ensures(temp_file_name, (name, pid), temp),
    ensures
        text::tells(run@, text::padded(n as nat, 5) + ".arcs"@),
        "run-"@.is_prefix_of(run@),
        text::tells(temp@, name@ + ".utxo2webgraph-tmp-"@ + text::decimal(pid as nat)),
        "."@.is_prefix_of(temp@),
{
    let none = Seq::<char>::empty();
    text::lemma_tells(run@, "run-"@, text::padded(n as nat, 5) + ".arcs"@, none);
    assert(run@.take("run-"@.len() as int) =~= "run-"@);
    text::lemma_tells(
        temp@,
        "."@,
        name@ + ".utxo2webgraph-tmp-"@ + text::decimal(pid as nat),
        none,
    );
    assert(temp@.take("."@.len() as int) =~= "."@);
}

} // verus!
