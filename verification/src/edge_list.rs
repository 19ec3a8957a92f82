//! Edge-list builder: the streaming pass that turns a transaction list into
//! node ids and a raw arc stream.
//!
//! The pass registers a transaction's output nodes, resolves its inputs against
//! the node map, and emits the complete bipartite join of `inputs x outputs`:
//! line by line, then by input index, then by output offset. Duplicate arcs and
//! self-loops are emitted, never filtered.
use crate::error::Error;
use crate::nodemap::{DenseNodeMap, MAX_OUTPUTS};
use crate::record;
use crate::record::{parse_line, ParseOpts};
use crate::text;
use crate::text::{append_decimal, count_fields, find_byte, is_blank, utf8_text, utf8_text_lossy};
use crate::{ArcSink, Mode, NodeId, OnMissingSource, Result, StatsStyle, DEFAULT_PROGRESS_EVERY};
use vstd::prelude::*;
use vstd::string::*;
use vstd::utf8::*;

verus! {

/// Options for [`build_edge_list`].
#[derive(Copy, Clone, Debug)]
pub struct EdgeListOpts {
    /// Strict or lenient handling of malformed records.
    pub mode: Mode,
    /// What to do with an input that references an unregistered output.
    pub on_missing_source: OnMissingSource,
    /// Transactions between progress lines; `0` disables them.
    pub progress_every: u64,
    /// Which statistics are reported.
    pub stats: StatsStyle,
    /// Suppress all progress and statistics lines.
    pub quiet_stats: bool,
}

impl Default for EdgeListOpts {
    fn default() -> (r: EdgeListOpts)
        ensures
            r == (EdgeListOpts {
                mode: Mode::Strict,
                on_missing_source: OnMissingSource::Fail,
                progress_every: DEFAULT_PROGRESS_EVERY,
                stats: StatsStyle::Brief,
                quiet_stats: false,
            }),
    {
        EdgeListOpts {
            mode: Mode::Strict,
            on_missing_source: OnMissingSource::Fail,
            progress_every: DEFAULT_PROGRESS_EVERY,
            stats: StatsStyle::Brief,
            quiet_stats: false,
        }
    }
}

/// Counters collected by [`build_edge_list`].
#[derive(Copy, Clone, Debug, PartialEq, Eq, Structural)]
pub struct EdgeListStats {
    /// Transactions processed: every line that parsed.
    pub tx_count: u64,
    /// Output **slots**: one per declared output, whether or not that output
    /// created a node.
    pub node_slots: u64,
    /// Distinct `(txId, offset)` nodes the node map actually holds.
    pub distinct_nodes: u64,
    /// Emitted arcs, including duplicates and self-loops.
    pub edge_count: u64,
    /// Non-blank lines skipped because they were malformed (lenient mode).
    pub skipped_lines: u64,
    /// Blank or whitespace-only lines skipped (both modes).
    pub blank_lines: u64,
    /// Inputs whose source node was unknown, under `skip` or `create`.
    pub dangling_refs: u64,
    /// Transactions with an empty output section.
    pub zero_output_txs: u64,
    /// Lines that were not valid UTF-8 and were decoded with U+FFFD
    /// substitution (lenient mode only).
    pub non_utf8_lines: u64,
    /// Wall-clock seconds. Left at zero here: the caller owns the clock.
    pub elapsed_secs: u64,
}

impl Default for EdgeListStats {
    fn default() -> (r: EdgeListStats)
        ensures
            r == no_stats(),
    {
        EdgeListStats {
            tx_count: 0,
            node_slots: 0,
            distinct_nodes: 0,
            edge_count: 0,
            skipped_lines: 0,
            blank_lines: 0,
            dangling_refs: 0,
            zero_output_txs: 0,
            non_utf8_lines: 0,
            elapsed_secs: 0,
        }
    }
}

/// Counters at zero.
pub open spec fn no_stats() -> EdgeListStats {
    EdgeListStats {
        tx_count: 0,
        node_slots: 0,
        distinct_nodes: 0,
        edge_count: 0,
        skipped_lines: 0,
        blank_lines: 0,
        dangling_refs: 0,
        zero_output_txs: 0,
        non_utf8_lines: 0,
        elapsed_secs: 0,
    }
}

// ---------------------------------------------------------------------------
// Model
// ---------------------------------------------------------------------------
/// Where a pass stands: the node map, the arcs emitted, the counters.
pub ghost struct Pass {
    pub map: crate::nodemap::NodeMapView,
    pub arcs: Seq<(NodeId, NodeId)>,
    pub stats: EdgeListStats,
}

/// The arcs from one source to every output of a transaction, in ascending
/// offset order.
pub open spec fn join(src: NodeId, ids: Seq<NodeId>) -> Seq<(NodeId, NodeId)> {
    Seq::new(ids.len(), |j: int| (src, ids[j]))
}

/// A record's place in the input, and what its arcs lead to.
pub ghost struct Target {
    pub line: u64,
    pub tx_id: i32,
    pub ids: Seq<NodeId>,
}

impl Pass {
    /// The pass after emitting the arcs of one resolved input.
    pub open spec fn joined(self, src: NodeId, ids: Seq<NodeId>) -> Pass {
        Pass {
            arcs: self.arcs + join(src, ids),
            stats: EdgeListStats {
                edge_count: (self.stats.edge_count + ids.len()) as u64,
                ..self.stats
            },
            ..self
        }
    }

    /// The pass with one more dangling reference.
    pub open spec fn dangling(self) -> Pass {
        Pass {
            stats: EdgeListStats {
                dangling_refs: (self.stats.dangling_refs + 1) as u64,
                ..self.stats
            },
            ..self
        }
    }

    /// The pass after one input, and the error that ends it there, if any.
    pub open spec fn after_input(
        self,
        group: Seq<u8>,
        index: usize,
        t: Target,
        opts: EdgeListOpts,
    ) -> (Pass, Option<crate::error::ErrorView>) {
        match record::input_of(group, t.line, index, opts.mode) {
            Err(e) => (self, Some(e)),
            Ok(key) => match self.map.id_of(key) {
                Some(src) => (self.joined(src, t.ids), None),
                None => match opts.on_missing_source {
                    OnMissingSource::Fail => (
                        self,
                        Some(
                            crate::error::ErrorView::DanglingSource {
                                line: t.line,
                                tx_id: t.tx_id,
                                index,
                                prev_tx_id: key.0,
                                prev_offset: key.1,
                            },
                        ),
                    ),
                    OnMissingSource::Skip => (self.dangling(), None),
                    OnMissingSource::Create => match self.map.forced(key, t.line) {
                        Err(e) => (self.dangling(), Some(e)),
                        Ok(map) => (
                            (Pass { map, ..self.dangling() }).joined(
                                map.id_of(key).unwrap(),
                                t.ids,
                            ),
                            None,
                        ),
                    },
                },
            },
        }
    }

    /// The pass after the inputs from `index` on, and the error that ends it
    /// there, if any.
    pub open spec fn after_inputs(
        self,
        groups: Seq<Seq<u8>>,
        index: nat,
        t: Target,
        opts: EdgeListOpts,
    ) -> (Pass, Option<crate::error::ErrorView>)
        decreases groups.len() - index,
    {
        if index >= groups.len() {
            (self, None)
        } else {
            let (next, e) = self.after_input(groups[index as int], index as usize, t, opts);
            if e is Some {
                (next, e)
            } else {
                next.after_inputs(groups, index + 1, t, opts)
            }
        }
    }

    /// The pass once the outputs of `rec` have been registered as `map`.
    pub open spec fn after_outputs(
        self,
        rec: record::RecordView,
        map: crate::nodemap::NodeMapView,
    ) -> Pass {
        Pass {
            map,
            stats: EdgeListStats {
                node_slots: (self.stats.node_slots + rec.num_outputs) as u64,
                zero_output_txs: (self.stats.zero_output_txs + if rec.num_outputs == 0 {
                    1int
                } else {
                    0
                }) as u64,
                ..self.stats
            },
            ..self
        }
    }

    /// The pass after one record, and the error that ends it there, if any.
    /// Outputs are registered before inputs are resolved.
    pub open spec fn after_record(
        self,
        rec: record::RecordView,
        line: u64,
        opts: EdgeListOpts,
    ) -> (Pass, Option<crate::error::ErrorView>) {
        match self.map.registered(rec.tx_id, rec.num_outputs as nat, line) {
            Err(e) => (self, Some(e)),
            Ok(map) => {
                let t = Target {
                    line,
                    tx_id: rec.tx_id,
                    ids: map.ids_of(rec.tx_id, rec.num_outputs as nat),
                };
                let (next, e) = self.after_outputs(rec, map).after_inputs(
                    record::input_groups(rec.inputs_section),
                    0,
                    t,
                    opts,
                );
                if e is Some {
                    (next, e)
                } else {
                    (next.counted(), None)
                }
            },
        }
    }

    /// The pass with one more transaction.
    pub open spec fn counted(self) -> Pass {
        Pass {
            stats: EdgeListStats { tx_count: (self.stats.tx_count + 1) as u64, ..self.stats },
            ..self
        }
    }

    /// The pass after a line whose text is known, and the error that ends it
    /// there, if any.
    pub open spec fn after_text(self, b: Seq<u8>, line: u64, opts: EdgeListOpts) -> (
        Pass,
        Option<crate::error::ErrorView>,
    ) {
        match record::line_of(b, line, opts.mode) {
            Err(e) => (self, Some(e)),
            Ok(None) => if record::is_blank_line(b) {
                (self.blank(), None)
            } else {
                (self.skipped(), None)
            },
            Ok(Some(rec)) => if opts.mode is Lenient && !inputs_readable(rec) {
                (self.skipped(), None)
            } else {
                self.after_record(rec, line, opts)
            },
        }
    }

    /// The pass with one more blank line.
    pub open spec fn blank(self) -> Pass {
        Pass {
            stats: EdgeListStats { blank_lines: (self.stats.blank_lines + 1) as u64, ..self.stats },
            ..self
        }
    }

    /// The pass with one more malformed line skipped.
    pub open spec fn skipped(self) -> Pass {
        Pass {
            stats: EdgeListStats {
                skipped_lines: (self.stats.skipped_lines + 1) as u64,
                ..self.stats
            },
            ..self
        }
    }

    /// The pass with one more line that was not valid UTF-8.
    pub open spec fn lossy(self) -> Pass {
        Pass {
            stats: EdgeListStats {
                non_utf8_lines: (self.stats.non_utf8_lines + 1) as u64,
                ..self.stats
            },
            ..self
        }
    }

    /// The pass after one line of bytes, and the error that ends it there, if
    /// any.
    pub open spec fn after_line(self, b: Seq<u8>, line: u64, opts: EdgeListOpts) -> (
        Pass,
        Option<crate::error::ErrorView>,
    ) {
        if valid_utf8(b) {
            self.after_text(b, line, opts)
        } else if opts.mode is Strict {
            (
                self,
                Some(
                    crate::error::ErrorView::InvalidUtf8 {
                        line,
                        offset: text::valid_prefix_len(b) as usize,
                    },
                ),
            )
        } else {
            self.lossy().after_text(encode_utf8(text::utf8_lossy(b)), line, opts)
        }
    }

    /// The pass after every line of `input`, the first of them numbered
    /// `line`, and the error that ends it there, if any.
    pub open spec fn after_all(self, input: Seq<u8>, line: nat, opts: EdgeListOpts) -> (
        Pass,
        Option<crate::error::ErrorView>,
    )
        decreases input.len(),
    {
        if input.len() == 0 {
            (self, None)
        } else {
            let n = first_line_len(input);
            proof {
                lemma_first_line_len(input);
            }
            let (next, e) = self.after_line(input.take(n as int), line as u64, opts);
            if e is Some {
                (next, e)
            } else {
                next.after_all(input.skip(n as int), line + 1, opts)
            }
        }
    }
}

/// Every input of a record can be read.
pub open spec fn inputs_readable(rec: record::RecordView) -> bool {
    let groups = record::input_groups(rec.inputs_section);
    forall|i: int|
        0 <= i < groups.len() ==> record::input_of(
            #[trigger] groups[i],
            rec.line,
            i as usize,
            rec.mode,
        ) is Ok
}

/// The length of the first line, its line feed included.
pub open spec fn first_line_len(input: Seq<u8>) -> nat
    decreases input.len(),
{
    if input.len() == 0 {
        0
    } else if input[0] == 10 {
        1
    } else {
        1 + first_line_len(input.drop_first())
    }
}

// ---------------------------------------------------------------------------
// Room
// ---------------------------------------------------------------------------
/// How many inputs and how many outputs the record has that is on a line whose
/// text is known; none where there is no record.
pub open spec fn text_groups(b: Seq<u8>, line: u64, mode: Mode) -> (nat, nat) {
    match record::line_of(b, line, mode) {
        Ok(Some(rec)) => (
            record::input_groups(rec.inputs_section).len(),
            rec.num_outputs as nat,
        ),
        _ => (0, 0),
    }
}

/// How many inputs and how many outputs the record on a line has at most. That
/// is how many it has, except where the line has to be decoded with
/// substitutions: its text may then be three times as long as its bytes, and has
/// no more of either than bytes.
pub open spec fn line_groups(b: Seq<u8>, line: u64, mode: Mode) -> (nat, nat) {
    if valid_utf8(b) {
        text_groups(b, line, mode)
    } else if mode is Strict {
        (0, 0)
    } else {
        (3 * b.len(), 3 * b.len())
    }
}

/// A line with so many inputs and outputs cannot overflow anything: not the
/// output offsets, the node ids or the counters.
pub open spec fn has_room(p: Pass, groups: (nat, nat)) -> bool {
    &&& has_text_room(p, groups)
    &&& p.stats.non_utf8_lines < u64::MAX
}

/// The same of the text of a line.
pub open spec fn has_text_room(p: Pass, groups: (nat, nat)) -> bool {
    counters_fit(p.map.next_id(), p.arcs.len(), p.stats, groups)
}

/// The same by the next node id, the number of arcs and the counters.
pub open spec fn counters_fit(
    next_id: nat,
    arcs: nat,
    stats: EdgeListStats,
    groups: (nat, nat),
) -> bool {
    let (m, n) = groups;
    &&& n <= MAX_OUTPUTS
    &&& next_id + m + n <= usize::MAX
    &&& arcs + m * n <= u64::MAX
    &&& stats.edge_count + m * n <= u64::MAX
    &&& stats.node_slots + n <= u64::MAX
    &&& stats.dangling_refs + m <= u64::MAX
    &&& stats.tx_count < u64::MAX
    &&& stats.skipped_lines < u64::MAX
    &&& stats.blank_lines < u64::MAX
    &&& stats.zero_output_txs < u64::MAX
}

/// `q` is at most one line with so many inputs and outputs ahead of `p`.
pub open spec fn grown(p: Pass, q: Pass, groups: (nat, nat)) -> bool {
    let (m, n) = groups;
    &&& q.map.mode == p.map.mode
    &&& q.map.next_id() <= p.map.next_id() + m + n
    &&& q.arcs.len() <= p.arcs.len() + m * n
    &&& q.stats.edge_count <= p.stats.edge_count + m * n
    &&& q.stats.node_slots <= p.stats.node_slots + n
    &&& q.stats.dangling_refs <= p.stats.dangling_refs + m
    &&& q.stats.tx_count <= p.stats.tx_count + 1
    &&& q.stats.skipped_lines <= p.stats.skipped_lines + 1
    &&& q.stats.blank_lines <= p.stats.blank_lines + 1
    &&& q.stats.zero_output_txs <= p.stats.zero_output_txs + 1
    &&& q.stats.non_utf8_lines <= p.stats.non_utf8_lines + 1
}

/// Where there is room for more groups, there is room for fewer.
proof fn lemma_room_for_fewer(p: Pass, q: Pass, few: (nat, nat), many: (nat, nat))
    requires
        few.0 <= many.0,
        few.1 <= many.1,
    ensures
        has_text_room(p, many) ==> has_text_room(p, few),
        grown(p, q, few) ==> grown(p, q, many),
{
    assert(few.0 * few.1 <= many.0 * many.1) by (nonlinear_arith)
        requires
            few.0 <= many.0,
            few.1 <= many.1,
    ;
}

/// A line is not empty, and not longer than the input.
pub proof fn lemma_first_line_len(input: Seq<u8>)
    requires
        input.len() > 0,
    ensures
        1 <= first_line_len(input) <= input.len(),
    decreases input.len(),
{
    reveal_with_fuel(first_line_len, 2);
    if input[0] != 10 && input.len() > 1 {
        lemma_first_line_len(input.drop_first());
    }
}

/// The first line ends after the first line feed, or with the input.
pub proof fn lemma_first_line_end(input: Seq<u8>, p: int)
    requires
        input.len() > 0,
        0 <= p <= input.len(),
        forall|i: int| 0 <= i < p ==> input[i] != 10,
        p < input.len() ==> input[p] == 10,
    ensures
        first_line_len(input) == if p < input.len() {
            p + 1
        } else {
            p
        },
    decreases input.len(),
{
    reveal_with_fuel(first_line_len, 2);
    if p > 0 {
        assert(input[0] != 10);
        let rest = input.drop_first();
        if rest.len() > 0 {
            assert forall|i: int| 0 <= i < p - 1 implies rest[i] != 10 by {
                assert(rest[i] == input[i + 1]);
            }
            lemma_first_line_end(rest, p - 1);
        }
    }
}

/// A text has no more inputs and no more outputs than bytes.
proof fn lemma_text_groups(b: Seq<u8>, line: u64, mode: Mode)
    ensures
        text_groups(b, line, mode).0 <= b.len(),
        text_groups(b, line, mode).1 <= b.len(),
{
    if let Ok(Some(rec)) = record::line_of(b, line, mode) {
        lemma_record_size(b, line, mode, rec);
    }
}

/// The outputs and the inputs of a record are no more than the bytes of its
/// line.
proof fn lemma_record_size(b: Seq<u8>, line: u64, mode: Mode, rec: record::RecordView)
    requires
        record::line_of(b, line, mode) == Ok::<
            Option<record::RecordView>,
            crate::error::ErrorView,
        >(Some(rec)),
    ensures
        rec.num_outputs <= b.len(),
        record::input_groups(rec.inputs_section).len() <= b.len(),
{
    let s = record::stripped(b);
    assert(s.len() <= b.len());
    text::lemma_field_len(s, record::SECTION_SEP);
    let sections = text::fields(s, record::SECTION_SEP);
    text::lemma_field_len(sections[1], record::GROUP_SEP);
    text::lemma_field_len(sections[2], record::GROUP_SEP);
    assert(sections[1].len() <= s.len());
    assert(sections[2].len() <= s.len());
    let n = record::output_count(sections[2]);
    assert(n <= b.len());
    assert(n % 0x1_0000_0000 <= n) by (nonlinear_arith);
}

/// What is said where the memory cannot be had for the gap in the transaction
/// ids before a record, if there is one that is to be filled.
pub open spec fn record_gap(map: crate::nodemap::NodeMapView, rec: record::RecordView) -> Option<
    Seq<char>,
> {
    if map.filled_before(rec.tx_id) > 0 {
        Some(crate::nodemap::bridge_failure(rec.line, map.next_tx(), rec.tx_id as int))
    } else {
        None
    }
}

/// The same of a line whose text is known.
pub open spec fn text_gap(
    map: crate::nodemap::NodeMapView,
    b: Seq<u8>,
    line: u64,
    opts: EdgeListOpts,
) -> Option<Seq<char>> {
    match record::line_of(b, line, opts.mode) {
        Ok(Some(rec)) => if opts.mode is Lenient && !inputs_readable(rec) {
            None
        } else {
            record_gap(map, rec)
        },
        _ => None,
    }
}

/// The same of a line of bytes.
pub open spec fn line_gap(
    map: crate::nodemap::NodeMapView,
    b: Seq<u8>,
    line: u64,
    opts: EdgeListOpts,
) -> Option<Seq<char>> {
    if valid_utf8(b) {
        text_gap(map, b, line, opts)
    } else if opts.mode is Strict {
        None
    } else {
        text_gap(map, encode_utf8(text::utf8_lossy(b)), line, opts)
    }
}

/// `msg` is what is said where the memory cannot be had for one of the gaps
/// that a pass comes to.
pub open spec fn gap_on_the_way(
    p: Pass,
    input: Seq<u8>,
    line: nat,
    opts: EdgeListOpts,
    msg: Seq<char>,
) -> bool
    decreases input.len(),
{
    if input.len() == 0 {
        false
    } else {
        let n = first_line_len(input);
        proof {
            lemma_first_line_len(input);
        }
        let b = input.take(n as int);
        let (next, e) = p.after_line(b, line as u64, opts);
        ||| line_gap(p.map, b, line as u64, opts) == Some(msg)
        ||| e is None && gap_on_the_way(next, input.skip(n as int), line + 1, opts, msg)
    }
}

/// How an attempt to take a pass to `expected` came out: as expected, unless
/// the sink reported a `failure`, which is handed on, or there is a gap in the
/// transaction ids to be filled and the node map was `starved` of the memory for
/// it. Either way no arc was pushed that is not expected, and none out of order.
pub open spec fn outcome(
    r: Result<()>,
    gap: Option<Seq<char>>,
    expected: (Pass, Option<crate::error::ErrorView>),
    after: Pass,
    failure: Option<crate::error::ErrorView>,
    starved: bool,
) -> bool {
    &&& after.arcs.is_prefix_of(expected.0.arcs)
    &&& match r {
        Ok(_) => failure is None && expected.1 is None && after == expected.0,
        Err(e) => match failure {
            Some(f) => e@ == f,
            None => {
                ||| expected.1 == Some(e@) && after == expected.0
                ||| starved && (gap matches Some(msg) && e@ == crate::error::ErrorView::Other(msg))
            },
        },
    }
}

proof fn lemma_prefix_trans(
    a: Seq<(NodeId, NodeId)>,
    b: Seq<(NodeId, NodeId)>,
    c: Seq<(NodeId, NodeId)>,
)
    requires
        a.is_prefix_of(b),
        b.is_prefix_of(c),
    ensures
        a.is_prefix_of(c),
{
    assert(c.take(a.len() as int) =~= b.take(a.len() as int));
}

/// Whatever the inputs hold, arcs are only added.
proof fn lemma_inputs_grow(
    p: Pass,
    groups: Seq<Seq<u8>>,
    index: nat,
    t: Target,
    opts: EdgeListOpts,
)
    ensures
        p.arcs.is_prefix_of(p.after_inputs(groups, index, t, opts).0.arcs),
    decreases groups.len() - index,
{
    assert(p.arcs.take(p.arcs.len() as int) =~= p.arcs);
    if index < groups.len() {
        let (next, e) = p.after_input(groups[index as int], index as usize, t, opts);
        assert(next.arcs.take(p.arcs.len() as int) =~= p.arcs);
        if e is None {
            lemma_inputs_grow(next, groups, index + 1, t, opts);
            lemma_prefix_trans(
                p.arcs,
                next.arcs,
                next.after_inputs(groups, index + 1, t, opts).0.arcs,
            );
        }
    }
}

/// Whatever a record holds, arcs are only added.
proof fn lemma_record_grows(p: Pass, rec: record::RecordView, line: u64, opts: EdgeListOpts)
    ensures
        p.arcs.is_prefix_of(p.after_record(rec, line, opts).0.arcs),
{
    assert(p.arcs.take(p.arcs.len() as int) =~= p.arcs);
    let n = rec.num_outputs as nat;
    if let Ok(map) = p.map.registered(rec.tx_id, n, line) {
        let t = Target { line, tx_id: rec.tx_id, ids: map.ids_of(rec.tx_id, n) };
        let groups = record::input_groups(rec.inputs_section);
        lemma_inputs_grow(p.after_outputs(rec, map), groups, 0, t, opts);
    }
}

/// Whatever the input holds, arcs are only added.
proof fn lemma_all_grow(p: Pass, input: Seq<u8>, line: nat, opts: EdgeListOpts)
    ensures
        p.arcs.is_prefix_of(p.after_all(input, line, opts).0.arcs),
    decreases input.len(),
{
    assert(p.arcs.take(p.arcs.len() as int) =~= p.arcs);
    if input.len() > 0 {
        lemma_first_line_len(input);
        let n = first_line_len(input) as int;
        let b = input.take(n);
        let (next, e) = p.after_line(b, line as u64, opts);
        let t = if valid_utf8(b) {
            b
        } else {
            encode_utf8(text::utf8_lossy(b))
        };
        if let Ok(Some(rec)) = record::line_of(t, line as u64, opts.mode) {
            lemma_record_grows(p, rec, line as u64, opts);
            lemma_record_grows(p.lossy(), rec, line as u64, opts);
        }
        assert(p.arcs.is_prefix_of(next.arcs));
        if e is None {
            lemma_all_grow(next, input.skip(n), line + 1, opts);
            lemma_prefix_trans(
                p.arcs,
                next.arcs,
                next.after_all(input.skip(n), line + 1, opts).0.arcs,
            );
        }
    }
}

/// Pushes the arcs of one resolved input.
fn emit_join<S: ArcSink>(
    src: NodeId,
    ids: &Vec<NodeId>,
    sink: &mut S,
    stats: &mut EdgeListStats,
) -> (r: Result<()>)
    requires
        old(sink).valid(),
        !old(sink).finished(),
        old(sink).failure() is None,
        old(sink).arcs().len() + ids@.len() <= u64::MAX,
        old(stats).edge_count + ids@.len() <= u64::MAX,
    ensures
        final(sink).valid(),
        final(sink).setting() == old(sink).setting(),
        !final(sink).finished(),
        r is Ok ==> final(sink).failure() is None && final(sink).arcs() == old(sink).arcs() + join(
            src,
            ids@,
        ) && *final(stats) == (EdgeListStats {
            edge_count: (old(stats).edge_count + ids@.len()) as u64,
            ..*old(stats)
        }),
        r matches Err(e) ==> final(sink).failure() == Some(e@),
        old(sink).arcs().is_prefix_of(final(sink).arcs()),
        final(sink).arcs().is_prefix_of(old(sink).arcs() + join(src, ids@)),
{
    let ghost arcs0 = sink.arcs();
    let ghost stats0 = *stats;
    let mut j: usize = 0;
    assert(sink.arcs() =~= arcs0 + join(src, ids@).take(0));
    while j < ids.len()
        invariant
            arcs0 == old(sink).arcs(),
            stats0 == *old(stats),
            j <= ids@.len(),
            sink.valid(),
            sink.setting() == old(sink).setting(),
            !sink.finished(),
            sink.failure() is None,
            arcs0.len() + ids@.len() <= u64::MAX,
            stats0.edge_count + ids@.len() <= u64::MAX,
            sink.arcs() == arcs0 + join(src, ids@).take(j as int),
            *stats == (EdgeListStats { edge_count: (stats0.edge_count + j) as u64, ..stats0 }),
        decreases ids@.len() - j,
    {
        match sink.push(src, ids[j]) {
            Ok(_) => {},
            Err(e) => {
                let ghost whole = arcs0 + join(src, ids@);
                assert(sink.arcs().take(arcs0.len() as int) =~= arcs0);
                assert(whole.take(sink.arcs().len() as int) =~= sink.arcs());
                return Err(e);
            },
        }
        assert(join(src, ids@).take(j + 1) =~= join(src, ids@).take(j as int).push(
            (src, ids@[j as int]),
        ));
        assert(sink.arcs() =~= arcs0 + join(src, ids@).take(j + 1));
        stats.edge_count = stats.edge_count + 1;
        j = j + 1;
    }
    assert(join(src, ids@).take(j as int) =~= join(src, ids@));
    assert(sink.arcs().take(arcs0.len() as int) =~= arcs0);
    assert(sink.arcs().take(sink.arcs().len() as int) =~= sink.arcs());
    Ok(())
}

/// Resolves the inputs of a record and emits their arcs.
fn process_inputs<S: ArcSink>(
    rec: &record::TxRecord,
    node_map: &mut DenseNodeMap,
    sink: &mut S,
    opts: EdgeListOpts,
    stats: &mut EdgeListStats,
    ids: &Vec<NodeId>,
) -> (r: Result<()>)
    requires
        old(node_map).valid(),
        old(sink).valid(),
        !old(sink).finished(),
        old(sink).failure() is None,
        rec@.mode == opts.mode,
        ({
            let m = record::input_groups(rec@.inputs_section).len();
            &&& old(node_map)@.next_id() + m <= usize::MAX
            &&& old(sink).arcs().len() + m * ids@.len() <= u64::MAX
            &&& old(stats).edge_count + m * ids@.len() <= u64::MAX
            &&& old(stats).dangling_refs + m <= u64::MAX
        }),
    ensures
        final(node_map).valid(),
        final(sink).valid(),
        final(sink).setting() == old(sink).setting(),
        !final(sink).finished(),
        ({
            let before = Pass { map: old(node_map)@, arcs: old(sink).arcs(), stats: *old(stats) };
            let after = Pass {
                map: final(node_map)@,
                arcs: final(sink).arcs(),
                stats: *final(stats),
            };
            let groups = record::input_groups(rec@.inputs_section);
            let expected = before.after_inputs(
                groups,
                0,
                Target { line: rec@.line, tx_id: rec@.tx_id, ids: ids@ },
                opts,
            );
            &&& outcome(r, None, expected, after, final(sink).failure(), false)
            &&& before.arcs.is_prefix_of(after.arcs)
            &&& r is Ok ==> {
                &&& after.map.mode == before.map.mode
                &&& after.map.next_id() <= before.map.next_id() + groups.len()
                &&& after.arcs.len() <= before.arcs.len() + groups.len() * ids@.len()
                &&& after.stats.edge_count <= before.stats.edge_count + groups.len() * ids@.len()
                &&& after.stats.dangling_refs <= before.stats.dangling_refs + groups.len()
                &&& after.stats == (EdgeListStats {
                    edge_count: after.stats.edge_count,
                    dangling_refs: after.stats.dangling_refs,
                    ..before.stats
                })
            }
        }),
{
    let ghost before = Pass { map: node_map@, arcs: sink.arcs(), stats: *stats };
    let ghost groups = record::input_groups(rec@.inputs_section);
    let ghost t = Target { line: rec@.line, tx_id: rec@.tx_id, ids: ids@ };
    let ghost n = ids@.len();
    let mut inputs = rec.inputs();
    let mut index: usize = 0;
    assert(groups.skip(0) =~= groups);
    assert(before.arcs.take(before.arcs.len() as int) =~= before.arcs);
    loop
        invariant
            before == (Pass {
                map: old(node_map)@,
                arcs: old(sink).arcs(),
                stats: *old(stats),
            }),
            groups == record::input_groups(rec@.inputs_section),
            node_map.valid(),
            sink.valid(),
            sink.setting() == old(sink).setting(),
            !sink.finished(),
            sink.failure() is None,
            rec@.mode == opts.mode,
            t == (Target { line: rec@.line, tx_id: rec@.tx_id, ids: ids@ }),
            n == ids@.len(),
            inputs.valid(),
            index <= groups.len(),
            inputs.remaining() == groups.skip(index as int),
            inputs.index() == index,
            inputs.line() == rec@.line,
            inputs.mode() == rec@.mode,
            before.map.next_id() + groups.len() <= usize::MAX,
            before.arcs.len() + groups.len() * n <= u64::MAX,
            before.stats.edge_count + groups.len() * n <= u64::MAX,
            before.stats.dangling_refs + groups.len() <= u64::MAX,
            before.arcs.is_prefix_of(sink.arcs()),
            node_map@.mode == before.map.mode,
            node_map@.next_id() <= before.map.next_id() + index,
            sink.arcs().len() <= before.arcs.len() + index * n,
            stats.edge_count <= before.stats.edge_count + index * n,
            stats.dangling_refs <= before.stats.dangling_refs + index,
            *stats == (EdgeListStats {
                edge_count: stats.edge_count,
                dangling_refs: stats.dangling_refs,
                ..before.stats
            }),
            before.after_inputs(groups, 0, t, opts) == (Pass {
                map: node_map@,
                arcs: sink.arcs(),
                stats: *stats,
            }).after_inputs(groups, index as nat, t, opts),
        ensures
            index == groups.len(),
        decreases groups.len() - index,
    {
        let ghost here = Pass { map: node_map@, arcs: sink.arcs(), stats: *stats };
        assert(here.arcs.take(here.arcs.len() as int) =~= here.arcs);
        proof {
            if index < groups.len() {
                assert(groups.skip(index as int)[0] == groups[index as int]);
                assert(groups.skip(index as int).drop_first() =~= groups.skip(index + 1));
                assert((index + 1) * n == index * n + n) by (nonlinear_arith);
                assert((index + 1) * n <= groups.len() * n) by (nonlinear_arith)
                    requires
                        index + 1 <= groups.len(),
                ;
                node_map.lemma_coherent();
            }
        }
        match inputs.next() {
            None => {
                break;
            },
            Some(item) => {
                let (prev_tx, prev_off): (i32, i32) = match item {
                    Ok(pair) => pair,
                    Err(e) => {
                        return Err(e);
                    },
                };
                let src: NodeId = match node_map.lookup(prev_tx, prev_off) {
                    Some(id) => id,
                    None => match opts.on_missing_source {
                        OnMissingSource::Fail => {
                            return Err(
                                Error::DanglingSource {
                                    line: rec.line,
                                    tx_id: rec.tx_id,
                                    index,
                                    prev_tx_id: prev_tx,
                                    prev_offset: prev_off,
                                },
                            );
                        },
                        OnMissingSource::Skip => {
                            stats.dangling_refs = stats.dangling_refs + 1;
                            index = index + 1;
                            continue;
                        },
                        OnMissingSource::Create => {
                            stats.dangling_refs = stats.dangling_refs + 1;
                            proof {
                                crate::nodemap::lemma_minted(here.map, (prev_tx, prev_off));
                            }
                            match node_map.force_create(prev_tx, prev_off, rec.line) {
                                Ok(id) => id,
                                Err(e) => {
                                    return Err(e);
                                },
                            }
                        },
                    },
                };
                let ghost arcs1 = sink.arcs();
                match emit_join(src, ids, sink, stats) {
                    Ok(_) => {},
                    Err(e) => {
                        proof {
                            assert(sink.arcs().take(before.arcs.len() as int) =~= arcs1.take(
                                before.arcs.len() as int,
                            ));
                            let next = here.after_input(
                                groups[index as int],
                                index,
                                t,
                                opts,
                            ).0;
                            assert(next.arcs == arcs1 + join(src, ids@));
                            lemma_inputs_grow(next, groups, index as nat + 1, t, opts);
                            lemma_prefix_trans(
                                sink.arcs(),
                                next.arcs,
                                before.after_inputs(groups, 0, t, opts).0.arcs,
                            );
                        }
                        return Err(e);
                    },
                }
                proof {
                    assert(sink.arcs().take(before.arcs.len() as int) =~= arcs1.take(
                        before.arcs.len() as int,
                    ));
                }
                index = index + 1;
            },
        }
    }
    assert(sink.arcs().take(sink.arcs().len() as int) =~= sink.arcs());
    Ok(())
}


/// Takes one parsed record through the pass.
fn process_record<S: ArcSink>(
    rec: &record::TxRecord,
    node_map: &mut DenseNodeMap,
    sink: &mut S,
    opts: EdgeListOpts,
    stats: &mut EdgeListStats,
    out_ids: &mut Vec<NodeId>,
) -> (r: Result<()>)
    requires
        old(node_map).valid(),
        old(sink).valid(),
        !old(sink).finished(),
        old(sink).failure() is None,
        rec@.mode == opts.mode,
        has_text_room(
            Pass { map: old(node_map)@, arcs: old(sink).arcs(), stats: *old(stats) },
            (record::input_groups(rec@.inputs_section).len(), rec@.num_outputs as nat),
        ),
    ensures
        final(node_map).valid(),
        final(sink).valid(),
        final(sink).setting() == old(sink).setting(),
        !final(sink).finished(),
        ({
            let before = Pass { map: old(node_map)@, arcs: old(sink).arcs(), stats: *old(stats) };
            let after = Pass {
                map: final(node_map)@,
                arcs: final(sink).arcs(),
                stats: *final(stats),
            };
            &&& outcome(
                r,
                record_gap(before.map, rec@),
                before.after_record(rec@, rec@.line, opts),
                after,
                final(sink).failure(),
                final(node_map).starved(),
            )
            &&& before.arcs.is_prefix_of(after.arcs)
            &&& r is Ok ==> grown(
                before,
                after,
                (record::input_groups(rec@.inputs_section).len(), rec@.num_outputs as nat),
            )
            &&& r is Ok ==> after.stats.non_utf8_lines == before.stats.non_utf8_lines
        }),
{
    let ghost before = Pass { map: node_map@, arcs: sink.arcs(), stats: *stats };
    let ghost groups = record::input_groups(rec@.inputs_section);
    assert(before.arcs.take(before.arcs.len() as int) =~= before.arcs);
    proof {
        node_map.lemma_coherent();
        crate::nodemap::lemma_minted_all(node_map@, rec@.tx_id, rec@.num_outputs as nat);
        lemma_record_grows(before, rec@, rec@.line, opts);
    }
    // The outputs are registered before the inputs are resolved, so a
    // transaction that spends one of its own outputs yields a self-loop.
    match node_map.register_tx(rec.tx_id, rec.num_outputs, rec.line, out_ids) {
        Ok(_) => {},
        Err(e) => {
            return Err(e);
        },
    }
    stats.node_slots = stats.node_slots + rec.num_outputs as u64;
    if rec.num_outputs == 0 {
        stats.zero_output_txs = stats.zero_output_txs + 1;
    }
    assert(Pass { map: node_map@, arcs: sink.arcs(), stats: *stats } == before.after_outputs(
        rec@,
        node_map@,
    ));
    if !rec.is_coinbase() {
        match process_inputs(rec, node_map, sink, opts, stats, out_ids) {
            Ok(_) => {},
            Err(e) => {
                return Err(e);
            },
        }
    }
    stats.tx_count = stats.tx_count + 1;
    Ok(())
}

/// Whether every input of a record can be read.
fn check_inputs(rec: &record::TxRecord) -> (r: bool)
    ensures
        r == inputs_readable(rec@),
{
    let ghost groups = record::input_groups(rec@.inputs_section);
    let mut inputs = rec.inputs();
    let ghost mut index: int = 0;
    assert(groups.skip(0) =~= groups);
    loop
        invariant
            groups == record::input_groups(rec@.inputs_section),
            inputs.valid(),
            0 <= index <= groups.len(),
            inputs.remaining() == groups.skip(index),
            inputs.index() == index,
            inputs.line() == rec@.line,
            inputs.mode() == rec@.mode,
            forall|i: int|
                0 <= i < index ==> record::input_of(
                    #[trigger] groups[i],
                    rec@.line,
                    i as usize,
                    rec@.mode,
                ) is Ok,
        ensures
            index == groups.len(),
        decreases groups.len() - index,
    {
        proof {
            if index < groups.len() {
                assert(groups.skip(index)[0] == groups[index]);
                assert(groups.skip(index).drop_first() =~= groups.skip(index + 1));
            }
        }
        match inputs.next() {
            None => {
                break;
            },
            Some(item) => {
                if item.is_err() {
                    return false;
                }
                proof {
                    index = index + 1;
                }
            },
        }
    }
    true
}

/// Takes one line of text through the pass.
fn process_text<S: ArcSink>(
    line: &str,
    line_no: u64,
    node_map: &mut DenseNodeMap,
    sink: &mut S,
    opts: EdgeListOpts,
    stats: &mut EdgeListStats,
    out_ids: &mut Vec<NodeId>,
) -> (r: Result<()>)
    requires
        old(node_map).valid(),
        old(sink).valid(),
        !old(sink).finished(),
        old(sink).failure() is None,
        has_text_room(
            Pass { map: old(node_map)@, arcs: old(sink).arcs(), stats: *old(stats) },
            text_groups(line.spec_bytes(), line_no, opts.mode),
        ),
    ensures
        final(node_map).valid(),
        final(sink).valid(),
        final(sink).setting() == old(sink).setting(),
        !final(sink).finished(),
        ({
            let before = Pass { map: old(node_map)@, arcs: old(sink).arcs(), stats: *old(stats) };
            let after = Pass {
                map: final(node_map)@,
                arcs: final(sink).arcs(),
                stats: *final(stats),
            };
            &&& outcome(
                r,
                text_gap(before.map, line.spec_bytes(), line_no, opts),
                before.after_text(line.spec_bytes(), line_no, opts),
                after,
                final(sink).failure(),
                final(node_map).starved(),
            )
            &&& before.arcs.is_prefix_of(after.arcs)
            &&& r is Ok ==> grown(
                before,
                after,
                text_groups(line.spec_bytes(), line_no, opts.mode),
            )
            &&& r is Ok ==> after.stats.non_utf8_lines == before.stats.non_utf8_lines
        }),
{
    assert(sink.arcs().take(sink.arcs().len() as int) =~= sink.arcs());
    let parsed = parse_line(line, line_no, ParseOpts { mode: opts.mode });
    match parsed {
        Err(e) => Err(e),
        Ok(None) => {
            proof {
                encode_utf8_decode_utf8(line@);
            }
            if is_blank(line) {
                stats.blank_lines = stats.blank_lines + 1;
            } else {
                stats.skipped_lines = stats.skipped_lines + 1;
            }
            Ok(())
        },
        Ok(Some(rec)) => {
            if opts.mode == Mode::Lenient && !check_inputs(&rec) {
                stats.skipped_lines = stats.skipped_lines + 1;
                return Ok(());
            }
            process_record(&rec, node_map, sink, opts, stats, out_ids)
        },
    }
}

/// Takes one line of the input, its line feed included, through the pass.
///
/// Node ids are assigned through `node_map` and arcs are pushed into `sink` in
/// emission order; `out_ids` is scratch space that serves the whole run.
pub fn process_line<S: ArcSink>(
    line: &[u8],
    line_no: u64,
    node_map: &mut DenseNodeMap,
    sink: &mut S,
    opts: EdgeListOpts,
    stats: &mut EdgeListStats,
    out_ids: &mut Vec<NodeId>,
) -> (r: Result<()>)
    requires
        old(node_map).valid(),
        old(sink).valid(),
        !old(sink).finished(),
        old(sink).failure() is None,
        has_room(
            Pass { map: old(node_map)@, arcs: old(sink).arcs(), stats: *old(stats) },
            line_groups(line@, line_no, opts.mode),
        ),
    ensures
        final(node_map).valid(),
        final(sink).valid(),
        final(sink).setting() == old(sink).setting(),
        !final(sink).finished(),
        ({
            let before = Pass { map: old(node_map)@, arcs: old(sink).arcs(), stats: *old(stats) };
            let after = Pass {
                map: final(node_map)@,
                arcs: final(sink).arcs(),
                stats: *final(stats),
            };
            &&& outcome(
                r,
                line_gap(before.map, line@, line_no, opts),
                before.after_line(line@, line_no, opts),
                after,
                final(sink).failure(),
                final(node_map).starved(),
            )
            &&& before.arcs.is_prefix_of(after.arcs)
            &&& r is Ok ==> grown(before, after, line_groups(line@, line_no, opts.mode))
        }),
{
    assert(sink.arcs().take(sink.arcs().len() as int) =~= sink.arcs());
    match utf8_text(line) {
        Ok(text) => {
            proof {
                text::lemma_text_is_utf8(text);
            }
            process_text(text, line_no, node_map, sink, opts, stats, out_ids)
        },
        Err(valid_up_to) => {
            if opts.mode == Mode::Strict {
                proof {
                    text::lemma_valid_prefix_len(line@, valid_up_to as int);
                }
                return Err(Error::InvalidUtf8 { line: line_no, offset: valid_up_to });
            }
            // Substitute and keep going: the offending bytes are almost always
            // in a field that nobody reads.
            stats.non_utf8_lines = stats.non_utf8_lines + 1;
            let lossy = utf8_text_lossy(line);
            let ghost here = Pass { map: node_map@, arcs: sink.arcs(), stats: *stats };
            let ghost few = text_groups(encode_utf8(lossy@), line_no, opts.mode);
            let ghost many = line_groups(line@, line_no, opts.mode);
            proof {
                lemma_text_groups(encode_utf8(lossy@), line_no, opts.mode);
                lemma_room_for_fewer(here, here, few, many);
            }
            let r = process_text(lossy.as_str(), line_no, node_map, sink, opts, stats, out_ids);
            proof {
                let there = Pass { map: node_map@, arcs: sink.arcs(), stats: *stats };
                lemma_room_for_fewer(here, there, few, many);
            }
            r
        },
    }
}


/// Whether the counters fit a line with so many inputs and outputs.
fn check_counters(next_id: usize, arcs: u64, stats: &EdgeListStats, m: u128, n: u128) -> (r: bool)
    requires
        m <= 3 * usize::MAX,
        n <= 3 * usize::MAX,
    ensures
        r == counters_fit(next_id as nat, arcs as nat, *stats, (m as nat, n as nat)),
{
    if n > MAX_OUTPUTS as u128 || m > usize::MAX as u128 {
        return false;
    }
    assert(m * n <= usize::MAX * MAX_OUTPUTS) by (nonlinear_arith)
        requires
            0 <= m <= usize::MAX,
            0 <= n <= MAX_OUTPUTS,
    ;
    assert(usize::MAX * MAX_OUTPUTS <= 0xffff_ffff_ffff_ffff * 0x8000_0000) by (nonlinear_arith)
        requires
            usize::MAX <= 0xffff_ffff_ffff_ffff,
            MAX_OUTPUTS == 0x8000_0000,
    ;
    let most: u128 = u64::MAX as u128;
    next_id as u128 + m + n <= usize::MAX as u128 && arcs as u128 + m * n <= most
        && stats.edge_count as u128 + m * n <= most && stats.node_slots as u128 + n <= most
        && stats.dangling_refs as u128 + m <= most && stats.tx_count < u64::MAX
        && stats.skipped_lines < u64::MAX && stats.blank_lines < u64::MAX && stats.zero_output_txs
        < u64::MAX
}

/// How many inputs and how many outputs the record on a line has at most.
fn count_groups(line: &[u8], line_no: u64, mode: Mode) -> (r: (u128, u128))
    ensures
        (r.0 as nat, r.1 as nat) == line_groups(line@, line_no, mode),
        r.0 <= 3 * usize::MAX,
        r.1 <= 3 * usize::MAX,
{
    match utf8_text(line) {
        Ok(text) => {
            proof {
                text::lemma_text_is_utf8(text);
            }
            match parse_line(text, line_no, ParseOpts { mode }) {
                Ok(Some(rec)) => {
                    let section = rec.inputs_section.as_bytes();
                    let inputs: usize = if section.len() == 0 {
                        0
                    } else {
                        count_fields(section, record::GROUP_SEP)
                    };
                    (inputs as u128, rec.num_outputs as u128)
                },
                _ => (0, 0),
            }
        },
        Err(_) => match mode {
            Mode::Strict => (0, 0),
            Mode::Lenient => (3 * line.len() as u128, 3 * line.len() as u128),
        },
    }
}

/// Whether [`process_line`] has room for a line, where `arcs` arcs have been
/// pushed. A line that is short enough need not be looked at.
pub fn line_fits(
    line: &[u8],
    line_no: u64,
    node_map: &DenseNodeMap,
    arcs: u64,
    opts: EdgeListOpts,
    stats: &EdgeListStats,
) -> (r: bool)
    requires
        node_map.valid(),
    ensures
        r == (counters_fit(
            node_map@.next_id(),
            arcs as nat,
            *stats,
            line_groups(line@, line_no, opts.mode),
        ) && stats.non_utf8_lines < u64::MAX),
{
    if stats.non_utf8_lines == u64::MAX {
        return false;
    }
    let next_id: usize = node_map.next_id();
    let most: u128 = 3 * line.len() as u128;
    if check_counters(next_id, arcs, stats, most, most) {
        proof {
            let few = line_groups(line@, line_no, opts.mode);
            lemma_text_groups(line@, line_no, opts.mode);
            assert(few.0 * few.1 <= most * most) by (nonlinear_arith)
                requires
                    few.0 <= most,
                    few.1 <= most,
            ;
        }
        return true;
    }
    let (m, n) = count_groups(line, line_no, opts.mode);
    check_counters(next_id, arcs, stats, m, n)
}

/// The most outputs that a record of the input has; `line` is the number of its
/// first line.
pub open spec fn most_outputs(input: Seq<u8>, line: nat, mode: Mode) -> nat
    decreases input.len(),
{
    if input.len() == 0 {
        0
    } else {
        let n = first_line_len(input);
        proof {
            lemma_first_line_len(input);
        }
        let here = line_groups(input.take(n as int), line as u64, mode).1;
        let rest = most_outputs(input.skip(n as int), line + 1, mode);
        if rest < here {
            here
        } else {
            rest
        }
    }
}

/// How many inputs and outputs the records of the input have, together.
pub open spec fn total_groups(input: Seq<u8>, line: nat, mode: Mode) -> nat
    decreases input.len(),
{
    if input.len() == 0 {
        0
    } else {
        let n = first_line_len(input);
        proof {
            lemma_first_line_len(input);
        }
        let here = line_groups(input.take(n as int), line as u64, mode);
        here.0 + here.1 + total_groups(input.skip(n as int), line + 1, mode)
    }
}

/// How many arcs the records of the input make where every input is resolved:
/// for each record as many as there are pairs of one of its inputs and one of
/// its outputs.
pub open spec fn total_pairs(input: Seq<u8>, line: nat, mode: Mode) -> nat
    decreases input.len(),
{
    if input.len() == 0 {
        0
    } else {
        let n = first_line_len(input);
        proof {
            lemma_first_line_len(input);
        }
        let here = line_groups(input.take(n as int), line as u64, mode);
        here.0 * here.1 + total_pairs(input.skip(n as int), line + 1, mode)
    }
}

/// A whole input cannot overflow anything, starting from a node map and from a
/// number of arcs: not the output offsets, the node ids or the counters.
pub open spec fn input_has_room(
    input: Seq<u8>,
    mode: Mode,
    map: crate::nodemap::NodeMapView,
    arcs: nat,
) -> bool {
    &&& most_outputs(input, 1, mode) <= MAX_OUTPUTS
    &&& map.next_id() + total_groups(input, 1, mode) <= usize::MAX
    &&& arcs + total_pairs(input, 1, mode) <= u64::MAX
}

/// An input has no more inputs, outputs and arcs than its length allows, so that
/// a short one always has room.
pub proof fn short_inputs_have_room(
    input: Seq<u8>,
    mode: Mode,
    map: crate::nodemap::NodeMapView,
    arcs: nat,
)
    requires
        3 * input.len() <= MAX_OUTPUTS,
        map.next_id() + 6 * input.len() <= usize::MAX,
        arcs + 9 * input.len() * input.len() <= u64::MAX,
    ensures
        input_has_room(input, mode, map, arcs),
{
    lemma_input_groups_bounded(input, 1, mode);
    let n = input.len();
    assert(9 * n * n == 9 * (n * n)) by (nonlinear_arith);
}

proof fn lemma_input_groups_bounded(input: Seq<u8>, line: nat, mode: Mode)
    ensures
        most_outputs(input, line, mode) <= 3 * input.len(),
        total_groups(input, line, mode) <= 6 * input.len(),
        total_pairs(input, line, mode) <= 9 * (input.len() * input.len()),
    decreases input.len(),
{
    if input.len() > 0 {
        lemma_first_line_len(input);
        let n = first_line_len(input);
        let b = input.take(n as int);
        lemma_text_groups(b, line as u64, mode);
        let here = line_groups(b, line as u64, mode);
        let rest = input.skip(n as int);
        lemma_input_groups_bounded(rest, line + 1, mode);
        let k = rest.len();
        let all = input.len();
        assert(here.0 * here.1 <= 9 * (n * n)) by (nonlinear_arith)
            requires
                here.0 <= 3 * n,
                here.1 <= 3 * n,
        ;
        assert(n * n + k * k <= all * all) by (nonlinear_arith)
            requires
                all == n + k,
        ;
    }
}

/// Runs the edge-list pass over `input`.
///
/// Node ids are assigned through `node_map` and arcs are pushed into `sink` in
/// emission order; `sink.finish()` is called exactly once, on success: where a
/// line fails it is not called at all. An error of the sink is handed on.
#[verifier::spinoff_prover]
#[verifier::rlimit(60)]
pub fn build_edge_list<S: ArcSink>(
    input: &[u8],
    node_map: &mut DenseNodeMap,
    sink: &mut S,
    opts: EdgeListOpts,
) -> (r: Result<EdgeListStats>)
    requires
        old(node_map).valid(),
        old(sink).valid(),
        !old(sink).finished(),
        old(sink).failure() is None,
        input_has_room(input@, opts.mode, old(node_map)@, old(sink).arcs().len()),
    ensures
        final(node_map).valid(),
        final(sink).valid(),
        final(sink).setting() == old(sink).setting(),
        old(sink).arcs().is_prefix_of(final(sink).arcs()),
        ({
            let before = Pass { map: old(node_map)@, arcs: old(sink).arcs(), stats: no_stats() };
            let (after, e) = before.after_all(input@, 1, opts);
            let all_done = final(node_map)@ == after.map && final(sink).arcs() == after.arcs;
            match r {
                Ok(stats) => {
                    &&& e is None
                    &&& final(sink).failure() is None
                    &&& all_done
                    &&& final(sink).finished()
                    &&& stats == (EdgeListStats {
                        distinct_nodes: after.map.next_id() as u64,
                        ..after.stats
                    })
                },
                Err(err) => {
                    &&& final(sink).arcs().is_prefix_of(after.arcs)
                    &&& match final(sink).failure() {
                        // An arc was refused, or, once every line was done, the end.
                        Some(f) => err@ == f && (final(sink).finished() ==> e is None && all_done),
                        None => !final(sink).finished() && {
                            ||| e == Some(err@) && all_done
                            ||| final(node_map).starved() && (err@
                                matches crate::error::ErrorView::Other(msg) && gap_on_the_way(
                                before,
                                input@,
                                1,
                                opts,
                                msg,
                            ))
                        },
                    }
                },
            }
        }),
{
    let ghost before = Pass { map: node_map@, arcs: sink.arcs(), stats: no_stats() };
    let ghost groups = total_groups(input@, 1, opts.mode);
    let ghost pairs = total_pairs(input@, 1, opts.mode);
    let ghost total = input@.len();
    let mut out_ids: Vec<NodeId> = Vec::with_capacity(1024);
    let mut stats: EdgeListStats = EdgeListStats::default();
    let mut line_no: u64 = 0;
    let mut pos: usize = 0;
    assert(input@.skip(0) =~= input@);
    assert(sink.arcs().take(sink.arcs().len() as int) =~= sink.arcs());
    while pos < input.len()
        invariant
            before == (Pass { map: old(node_map)@, arcs: old(sink).arcs(), stats: no_stats() }),
            total == input@.len(),
            pos <= total,
            node_map.valid(),
            sink.valid(),
            sink.setting() == old(sink).setting(),
            !sink.finished(),
            sink.failure() is None,
            before.map.next_id() + groups <= usize::MAX,
            before.arcs.len() + pairs <= u64::MAX,
            most_outputs(input@.skip(pos as int), line_no as nat + 1, opts.mode) <= MAX_OUTPUTS,
            before.arcs.is_prefix_of(sink.arcs()),
            node_map@.mode == before.map.mode,
            line_no <= pos,
            ({
                let groups_left = total_groups(
                    input@.skip(pos as int),
                    line_no as nat + 1,
                    opts.mode,
                );
                let pairs_left = total_pairs(
                    input@.skip(pos as int),
                    line_no as nat + 1,
                    opts.mode,
                );
                &&& node_map@.next_id() + groups_left <= before.map.next_id() + groups
                &&& stats.node_slots + groups_left <= groups
                &&& stats.dangling_refs + groups_left <= groups
                &&& sink.arcs().len() + pairs_left <= before.arcs.len() + pairs
                &&& stats.edge_count + pairs_left <= pairs
            }),
            stats.tx_count <= pos,
            stats.skipped_lines <= pos,
            stats.blank_lines <= pos,
            stats.zero_output_txs <= pos,
            stats.non_utf8_lines <= pos,
            before.after_all(input@, 1, opts) == (Pass {
                map: node_map@,
                arcs: sink.arcs(),
                stats,
            }).after_all(input@.skip(pos as int), line_no as nat + 1, opts),
            forall|msg: Seq<char>|
                gap_on_the_way(
                    Pass { map: node_map@, arcs: sink.arcs(), stats },
                    input@.skip(pos as int),
                    line_no as nat + 1,
                    opts,
                    msg,
                ) ==> #[trigger] gap_on_the_way(before, input@, 1, opts, msg),
        decreases total - pos,
    {
        let ghost rest = input@.skip(pos as int);
        let feed: usize = find_byte(input, 10, pos);
        let end: usize = if feed < input.len() {
            feed + 1
        } else {
            feed
        };
        let ghost len = (end - pos) as nat;
        let line: &[u8] = vstd::slice::slice_subrange(input, pos, end);
        proof {
            assert forall|i: int| 0 <= i < feed - pos implies rest[i] != 10 by {
                assert(rest[i] == input@[pos + i]);
            }
            lemma_first_line_end(rest, feed - pos);
            assert(first_line_len(rest) == len);
            assert(line@ =~= rest.take(len as int));
            assert(rest.skip(len as int) =~= input@.skip(end as int));
        }
        line_no = line_no + 1;
        let ghost arcs0 = sink.arcs();
        let ghost here = Pass { map: node_map@, arcs: sink.arcs(), stats };
        proof {
            assert forall|msg: Seq<char>| line_gap(
                here.map,
                line@,
                line_no,
                opts,
            ) == Some(msg) implies #[trigger] gap_on_the_way(before, input@, 1, opts, msg) by {
                assert(gap_on_the_way(here, rest, line_no as nat, opts, msg));
            }
        }
        match process_line(line, line_no, node_map, sink, opts, &mut stats, &mut out_ids) {
            Ok(_) => {},
            Err(e) => {
                proof {
                    assert(sink.arcs().take(before.arcs.len() as int) =~= arcs0.take(
                        before.arcs.len() as int,
                    ));
                    let (next, failed) = here.after_line(line@, line_no, opts);
                    if failed is None {
                        lemma_all_grow(next, rest.skip(len as int), line_no as nat + 1, opts);
                    } else {
                        assert(next.arcs.take(next.arcs.len() as int) =~= next.arcs);
                    }
                    lemma_prefix_trans(
                        sink.arcs(),
                        next.arcs,
                        before.after_all(input@, 1, opts).0.arcs,
                    );
                }
                return Err(e);
            },
        }
        proof {
            assert(sink.arcs().take(before.arcs.len() as int) =~= arcs0.take(
                before.arcs.len() as int,
            ));
            let there = Pass { map: node_map@, arcs: sink.arcs(), stats };
            assert forall|msg: Seq<char>| gap_on_the_way(
                there,
                input@.skip(end as int),
                line_no as nat + 1,
                opts,
                msg,
            ) implies #[trigger] gap_on_the_way(before, input@, 1, opts, msg) by {
                assert(gap_on_the_way(here, rest, line_no as nat, opts, msg));
            }
        }
        pos = end;
    }
    assert(sink.arcs().take(sink.arcs().len() as int) =~= sink.arcs());
    match sink.finish() {
        Ok(_) => {},
        Err(e) => {
            return Err(e);
        },
    }
    stats.distinct_nodes = node_map.distinct_nodes();
    Ok(stats)
}


// ---------------------------------------------------------------------------
// Reporting
// ---------------------------------------------------------------------------
/// The periodic progress line.
pub open spec fn progress_text(tx_count: u64, elapsed_secs: u64) -> Seq<char> {
    "Processed: "@ + text::decimal(tx_count as nat) + " transactions (after "@ + text::decimal(
        elapsed_secs as nat,
    ) + " seconds).\n"@
}

/// The final statistics: the progress line, then the node slots and the arcs;
/// under [`StatsStyle::Extended`] two further lines with the corrected counters.
pub open spec fn stats_text(stats: EdgeListStats, style: StatsStyle) -> Seq<char> {
    let brief = progress_text(stats.tx_count, stats.elapsed_secs) + "Nodes: "@ + text::decimal(
        stats.node_slots as nat,
    ) + "\tEdges: "@ + text::decimal(stats.edge_count as nat) + "\n"@;
    if style is Extended {
        brief + "Distinct nodes: "@ + text::decimal(stats.distinct_nodes as nat)
            + "\tOutput slots: "@ + text::decimal(stats.node_slots as nat) + "\nSkipped lines: "@
            + text::decimal(stats.skipped_lines as nat) + "\tBlank lines: "@ + text::decimal(
            stats.blank_lines as nat,
        ) + "\tDangling refs: "@ + text::decimal(stats.dangling_refs as nat)
            + "\tZero-output txs: "@ + text::decimal(stats.zero_output_txs as nat) + "\n"@
    } else {
        brief
    }
}

/// Renders the periodic progress line.
pub fn progress_line(tx_count: u64, elapsed_secs: u64) -> (r: String)
    ensures
        r@ == progress_text(tx_count, elapsed_secs),
{
    let mut out: String = "Processed: ".to_owned();
    append_decimal(&mut out, tx_count);
    out.append(" transactions (after ");
    append_decimal(&mut out, elapsed_secs);
    out.append(" seconds).\n");
    out
}

/// Renders the final statistics.
pub fn stats_lines(stats: &EdgeListStats, style: StatsStyle) -> (r: String)
    ensures
        r@ == stats_text(*stats, style),
{
    let mut out: String = progress_line(stats.tx_count, stats.elapsed_secs);
    out.append("Nodes: ");
    append_decimal(&mut out, stats.node_slots);
    out.append("\tEdges: ");
    append_decimal(&mut out, stats.edge_count);
    out.append("\n");
    if style == StatsStyle::Extended {
        out.append("Distinct nodes: ");
        append_decimal(&mut out, stats.distinct_nodes);
        out.append("\tOutput slots: ");
        append_decimal(&mut out, stats.node_slots);
        out.append("\nSkipped lines: ");
        append_decimal(&mut out, stats.skipped_lines);
        out.append("\tBlank lines: ");
        append_decimal(&mut out, stats.blank_lines);
        out.append("\tDangling refs: ");
        append_decimal(&mut out, stats.dangling_refs);
        out.append("\tZero-output txs: ");
        append_decimal(&mut out, stats.zero_output_txs);
        out.append("\n");
    }
    out
}

/// Whether a progress line is due once `tx_count` transactions are done.
pub fn progress_due(tx_count: u64, opts: &EdgeListOpts) -> (r: bool)
    ensures
        r == (opts.progress_every != 0 && tx_count % opts.progress_every == 0
            && !opts.quiet_stats),
{
    opts.progress_every != 0 && tx_count % opts.progress_every == 0 && !opts.quiet_stats
}

// ---------------------------------------------------------------------------
// Laws
// ---------------------------------------------------------------------------
/// The complete bipartite join of some sources with some outputs: source by
/// source, and for each source output by output.
pub open spec fn joins(srcs: Seq<NodeId>, ids: Seq<NodeId>) -> Seq<(NodeId, NodeId)>
    decreases srcs.len(),
{
    if srcs.len() == 0 {
        Seq::empty()
    } else {
        join(srcs[0], ids) + joins(srcs.drop_first(), ids)
    }
}

/// `m` sources and `n` outputs make `m * n` arcs, and the arc of input `i` to
/// output `j` stands at `i * n + j`: none is left out and none is invented.
pub proof fn the_join_is_complete(srcs: Seq<NodeId>, ids: Seq<NodeId>)
    ensures
        joins(srcs, ids).len() == srcs.len() * ids.len(),
        forall|i: int, j: int|
            0 <= i < srcs.len() && 0 <= j < ids.len() ==> joins(srcs, ids)[i * ids.len() + j] == (
                #[trigger] srcs[i],
                #[trigger] ids[j],
            ),
    decreases srcs.len(),
{
    let m = srcs.len();
    let n = ids.len();
    if m > 0 {
        let rest = srcs.drop_first();
        the_join_is_complete(rest, ids);
        assert(m * n == n + (m - 1) * n) by (nonlinear_arith);
        assert forall|i: int, j: int| 0 <= i < m && 0 <= j < n implies joins(srcs, ids)[i * n + j]
            == (#[trigger] srcs[i], #[trigger] ids[j]) by {
            if i == 0 {
                assert(i * n == 0) by (nonlinear_arith)
                    requires
                        i == 0,
                ;
            } else {
                let k = (i - 1) * n + j;
                assert(rest[i - 1] == srcs[i]);
                assert(i * n + j == n + k) by (nonlinear_arith)
                    requires
                        k == (i - 1) * n + j,
                ;
                assert(0 <= k < (m - 1) * n) by (nonlinear_arith)
                    requires
                        k == (i - 1) * n + j,
                        1 <= i < m,
                        0 <= j < n,
                ;
                assert(joins(srcs, ids)[n + k] == joins(rest, ids)[k]);
            }
        }
    } else {
        assert(0 * n == 0) by (nonlinear_arith);
    }
}

/// The nodes that the inputs from `index` on refer to under `map`, in input
/// order; an input that refers to no node of `map` contributes none.
pub open spec fn sources(
    map: crate::nodemap::NodeMapView,
    groups: Seq<Seq<u8>>,
    index: nat,
    line: u64,
    mode: Mode,
) -> Seq<NodeId>
    decreases groups.len() - index,
{
    if index >= groups.len() {
        Seq::empty()
    } else {
        let rest = sources(map, groups, index + 1, line, mode);
        match record::input_of(groups[index as int], line, index as usize, mode) {
            Ok(key) => match map.id_of(key) {
                Some(src) => seq![src] + rest,
                None => rest,
            },
            Err(_) => rest,
        }
    }
}

/// The inputs of a transaction emit exactly the complete bipartite join of the
/// nodes they refer to with the transaction's outputs, in input-major order.
/// Unless missing sources are skipped, every input refers to a node. The ids
/// that the map had given before are kept.
pub proof fn inputs_emit_the_join(
    p: Pass,
    groups: Seq<Seq<u8>>,
    index: nat,
    t: Target,
    opts: EdgeListOpts,
    q: Pass,
)
    requires
        p.map.coherent(),
        index <= groups.len(),
        p.after_inputs(groups, index, t, opts) == (q, None::<crate::error::ErrorView>),
    ensures
        q.arcs == p.arcs + joins(sources(q.map, groups, index, t.line, opts.mode), t.ids),
        !(opts.on_missing_source is Skip) ==> sources(
            q.map,
            groups,
            index,
            t.line,
            opts.mode,
        ).len() == groups.len() - index,
        opts.on_missing_source is Skip ==> q.map == p.map,
        q.map.coherent(),
        forall|key: (i32, i32)| #[trigger]
            p.map.id_of(key) is Some ==> q.map.id_of(key) == p.map.id_of(key),
    decreases groups.len() - index,
{
    if index == groups.len() {
        assert(q.arcs =~= p.arcs + joins(Seq::<NodeId>::empty(), t.ids));
    } else {
        let (next, e) = p.after_input(groups[index as int], index as usize, t, opts);
        let key = record::input_of(
            groups[index as int],
            t.line,
            index as usize,
            opts.mode,
        )->Ok_0;
        if p.map.id_of(key) is None && opts.on_missing_source is Create {
            let map = p.map.forced(key, t.line)->Ok_0;
            crate::nodemap::forcing_keeps_ids(p.map, key, t.line, map, t.line);
        }
        inputs_emit_the_join(next, groups, index + 1, t, opts, q);
        let rest = sources(q.map, groups, index + 1, t.line, opts.mode);
        assert forall|k: (i32, i32)| #[trigger] p.map.id_of(k) is Some implies q.map.id_of(k)
            == p.map.id_of(k) by {
            assert(next.map.id_of(k) == p.map.id_of(k));
        }
        match next.map.id_of(key) {
            Some(src) => {
                assert(next.arcs == p.arcs + join(src, t.ids));
                let srcs = seq![src] + rest;
                assert(srcs.drop_first() =~= rest);
                assert(q.arcs =~= p.arcs + joins(srcs, t.ids));
            },
            None => {
                assert(q.map.id_of(key) is None);
            },
        }
    }
}

/// A record that is accepted emits one arc from every spent output it refers
/// to, to every output it declares, and no other arc: the sources and the
/// outputs are what the node map says they are once the record has been read.
pub proof fn records_emit_their_join(
    p: Pass,
    rec: record::RecordView,
    line: u64,
    opts: EdgeListOpts,
    q: Pass,
)
    requires
        p.map.coherent(),
        p.after_record(rec, line, opts) == (q, None::<crate::error::ErrorView>),
    ensures
        q.arcs == p.arcs + joins(
            sources(q.map, record::input_groups(rec.inputs_section), 0, line, opts.mode),
            q.map.ids_of(rec.tx_id, rec.num_outputs as nat),
        ),
        forall|k: int|
            0 <= k < rec.num_outputs ==> #[trigger] q.map.id_of((rec.tx_id, k as i32)) is Some,
        q.map.coherent(),
{
    let n = rec.num_outputs as nat;
    let map = p.map.registered(rec.tx_id, n, line)->Ok_0;
    crate::nodemap::registration_keeps_ids(p.map, rec.tx_id, n, line, map);
    let groups = record::input_groups(rec.inputs_section);
    let t = Target { line, tx_id: rec.tx_id, ids: map.ids_of(rec.tx_id, n) };
    let last = p.after_outputs(rec, map).after_inputs(groups, 0, t, opts).0;
    inputs_emit_the_join(p.after_outputs(rec, map), groups, 0, t, opts, last);
    assert forall|k: int| 0 <= k < n implies #[trigger] q.map.id_of((rec.tx_id, k as i32))
        == map.id_of((rec.tx_id, k as i32)) by {
        assert(map.id_of((rec.tx_id, k as i32)) is Some);
    }
    assert forall|k: int| 0 <= k < n implies #[trigger] q.map.id_of((rec.tx_id, k as i32)) is Some by {
        assert(map.id_of((rec.tx_id, k as i32)) is Some);
    }
    assert(q.map.ids_of(rec.tx_id, n) =~= t.ids);
}

/// A transaction that declares no outputs contributes no arcs at all.
pub proof fn no_outputs_no_arcs(
    p: Pass,
    rec: record::RecordView,
    line: u64,
    opts: EdgeListOpts,
)
    requires
        rec.num_outputs == 0,
    ensures
        p.after_record(rec, line, opts).0.arcs == p.arcs,
{
    if let Ok(map) = p.map.registered(rec.tx_id, rec.num_outputs as nat, line) {
        let t = Target { line, tx_id: rec.tx_id, ids: map.ids_of(rec.tx_id, 0) };
        assert(t.ids.len() == 0);
        lemma_no_ids_no_arcs(
            p.after_outputs(rec, map),
            record::input_groups(rec.inputs_section),
            0,
            t,
            opts,
        );
    }
}

proof fn lemma_no_ids_no_arcs(
    p: Pass,
    groups: Seq<Seq<u8>>,
    index: nat,
    t: Target,
    opts: EdgeListOpts,
)
    requires
        t.ids.len() == 0,
    ensures
        p.after_inputs(groups, index, t, opts).0.arcs == p.arcs,
    decreases groups.len() - index,
{
    if index < groups.len() {
        let (next, e) = p.after_input(groups[index as int], index as usize, t, opts);
        assert forall|src: NodeId| p.arcs + #[trigger] join(src, t.ids) == p.arcs by {
            assert(p.arcs + join(src, t.ids) =~= p.arcs);
        }
        assert(next.arcs == p.arcs);
        lemma_no_ids_no_arcs(next, groups, index + 1, t, opts);
    }
}

/// A coinbase emits no arcs, but its outputs get their nodes.
pub proof fn coinbase_emits_no_arcs(
    p: Pass,
    rec: record::RecordView,
    line: u64,
    opts: EdgeListOpts,
    map: crate::nodemap::NodeMapView,
)
    requires
        rec.inputs_section.len() == 0,
        p.map.registered(rec.tx_id, rec.num_outputs as nat, line) == Ok::<
            crate::nodemap::NodeMapView,
            crate::error::ErrorView,
        >(map),
    ensures
        p.after_record(rec, line, opts) == (
            p.after_outputs(rec, map).counted(),
            None::<crate::error::ErrorView>,
        ),
        p.after_record(rec, line, opts).0.arcs == p.arcs,
{
}

/// An input that spends an output of its own transaction is never dangling:
/// outputs are registered before inputs are resolved.
pub proof fn self_spends_resolve(
    p: Pass,
    rec: record::RecordView,
    line: u64,
    map: crate::nodemap::NodeMapView,
    offset: i32,
)
    requires
        p.map.coherent(),
        0 <= offset < rec.num_outputs,
        p.map.registered(rec.tx_id, rec.num_outputs as nat, line) == Ok::<
            crate::nodemap::NodeMapView,
            crate::error::ErrorView,
        >(map),
    ensures
        p.after_outputs(rec, map).map.id_of((rec.tx_id, offset)) is Some,
{
    crate::nodemap::registration_keeps_ids(p.map, rec.tx_id, rec.num_outputs as nat, line, map);
    assert(map.id_of((rec.tx_id, offset as int as i32)) is Some);
}

/// Taking the line feed off a blank line leaves it blank.
proof fn lemma_stripped_blank(b: Seq<u8>)
    requires
        valid_utf8(b),
        record::is_blank_line(b),
    ensures
        record::is_blank_line(record::stripped(b)),
{
    let c = if b.len() > 0 && b.last() == 10 {
        b.drop_last()
    } else {
        b
    };
    lemma_cut_blank(b, 10);
    lemma_cut_blank(c, 13);
}

proof fn lemma_cut_blank(b: Seq<u8>, c: u8)
    requires
        valid_utf8(b),
        record::is_blank_line(b),
        c < 0x80,
    ensures
        b.len() > 0 && b.last() == c ==> valid_utf8(b.drop_last()) && record::is_blank_line(
            b.drop_last(),
        ),
{
    if b.len() > 0 && b.last() == c {
        let p = b.len() - 1;
        assert(c < 0x80 ==> !(c & 0xC0 == 0x80)) by (bit_vector);
        is_char_boundary_iff_not_is_continuation_byte(b, p);
        assert(b.drop_last() =~= b.subrange(0, p));
        valid_utf8_split(b, p);
        decode_utf8_split(b, p);
        let head = decode_utf8(b.drop_last());
        assert forall|i: int| 0 <= i < head.len() implies text::is_white_space(
            #[trigger] head[i],
        ) by {
            assert(decode_utf8(b)[i] == head[i]);
        }
    }
}

/// A blank line is skipped and tallied, in both modes, and changes nothing
/// else.
pub proof fn blank_lines_are_tallied(p: Pass, b: Seq<u8>, line: u64, opts: EdgeListOpts)
    requires
        valid_utf8(b),
        record::is_blank_line(b),
    ensures
        p.after_line(b, line, opts) == (p.blank(), None::<crate::error::ErrorView>),
{
    lemma_stripped_blank(b);
}

/// Every arc runs between two ids that the node map has handed out.
pub open spec fn arcs_name_nodes(p: Pass) -> bool {
    forall|i: int|
        0 <= i < p.arcs.len() ==> (#[trigger] p.arcs[i]).0 < p.map.next_id() && p.arcs[i].1
            < p.map.next_id()
}

/// What every part of a pass keeps, from `p` to `q`.
pub open spec fn extends(p: Pass, q: Pass) -> bool {
    // What was there stays: no id changes, no arc is taken back.
    &&& q.map.coherent()
    &&& q.map.first_id == p.map.first_id
    &&& q.map.mode == p.map.mode
    &&& p.map.keys.is_prefix_of(q.map.keys)
    &&& p.arcs.is_prefix_of(q.arcs)
    // As long as it does not overflow, the arc counter counts the arcs.
    &&& p.stats.edge_count + (q.arcs.len() - p.arcs.len()) <= u64::MAX ==> q.stats.edge_count
        == p.stats.edge_count + (q.arcs.len() - p.arcs.len())
    // As long as ids do not overflow, arcs run between nodes.
    &&& q.map.next_id() <= usize::MAX && arcs_name_nodes(p) ==> arcs_name_nodes(q)
}

proof fn lemma_extends_self(p: Pass)
    requires
        p.map.coherent(),
    ensures
        extends(p, p),
{
    assert(p.map.keys.take(p.map.keys.len() as int) =~= p.map.keys);
    assert(p.arcs.take(p.arcs.len() as int) =~= p.arcs);
}

proof fn lemma_extends_trans(p: Pass, q: Pass, r: Pass)
    requires
        extends(p, q),
        extends(q, r),
    ensures
        extends(p, r),
{
    assert(r.map.keys.take(p.map.keys.len() as int) =~= q.map.keys.take(
        p.map.keys.len() as int,
    ));
    assert(r.arcs.take(p.arcs.len() as int) =~= q.arcs.take(p.arcs.len() as int));
}

/// Changing counters other than the arcs is no step at all.
proof fn lemma_extends_counters(p: Pass, q: Pass)
    requires
        p.map.coherent(),
        q.map == p.map,
        q.arcs == p.arcs,
        q.stats.edge_count == p.stats.edge_count,
    ensures
        extends(p, q),
{
    lemma_extends_self(p);
}

/// Emitting a join between ids that have been handed out.
proof fn lemma_extends_join(p: Pass, src: NodeId, ids: Seq<NodeId>)
    requires
        p.map.coherent(),
        p.map.next_id() <= usize::MAX ==> src < p.map.next_id(),
        p.map.next_id() <= usize::MAX ==> forall|j: int|
            0 <= j < ids.len() ==> #[trigger] ids[j] < p.map.next_id(),
    ensures
        extends(p, p.joined(src, ids)),
{
    lemma_extends_self(p);
    let q = p.joined(src, ids);
    assert(q.arcs.take(p.arcs.len() as int) =~= p.arcs);
    if q.map.next_id() <= usize::MAX && arcs_name_nodes(p) {
        assert forall|i: int| 0 <= i < q.arcs.len() implies (#[trigger] q.arcs[i]).0
            < q.map.next_id() && q.arcs[i].1 < q.map.next_id() by {
            if i < p.arcs.len() {
                assert(q.arcs[i] == p.arcs[i]);
            } else {
                assert(ids[i - p.arcs.len()] < p.map.next_id());
            }
        }
    }
}

/// The map alone moves on.
proof fn lemma_extends_map(p: Pass, q: Pass)
    requires
        q.map.coherent(),
        q.map.first_id == p.map.first_id,
        q.map.mode == p.map.mode,
        p.map.keys.is_prefix_of(q.map.keys),
        q.arcs == p.arcs,
        q.stats.edge_count == p.stats.edge_count,
    ensures
        extends(p, q),
{
    assert(p.arcs.take(p.arcs.len() as int) =~= p.arcs);
}

proof fn lemma_id_bound(map: crate::nodemap::NodeMapView, key: (i32, i32))
    requires
        map.id_of(key) is Some,
        map.next_id() <= usize::MAX,
    ensures
        map.id_of(key).unwrap() < map.next_id(),
{
}

proof fn lemma_input_extends(p: Pass, group: Seq<u8>, index: usize, t: Target, opts: EdgeListOpts)
    requires
        p.map.coherent(),
        p.map.next_id() <= usize::MAX ==> forall|j: int|
            0 <= j < t.ids.len() ==> #[trigger] t.ids[j] < p.map.next_id(),
    ensures
        extends(p, p.after_input(group, index, t, opts).0),
{
    lemma_extends_self(p);
    lemma_extends_counters(p, p.dangling());
    if let Ok(key) = record::input_of(group, t.line, index, opts.mode) {
        match p.map.id_of(key) {
            Some(src) => {
                lemma_extends_join(p, src, t.ids);
            },
            None => {
                if opts.on_missing_source is Create {
                    if let Ok(map) = p.map.forced(key, t.line) {
                        crate::nodemap::forcing_keeps_ids(p.map, key, t.line, map, t.line);
                        let q = Pass { map, ..p.dangling() };
                        lemma_extends_map(p, q);
                        lemma_extends_join(q, map.id_of(key).unwrap(), t.ids);
                        lemma_extends_trans(p, q, q.joined(map.id_of(key).unwrap(), t.ids));
                    }
                }
            },
        }
    }
}

proof fn lemma_inputs_extend(
    p: Pass,
    groups: Seq<Seq<u8>>,
    index: nat,
    t: Target,
    opts: EdgeListOpts,
)
    requires
        p.map.coherent(),
        p.map.next_id() <= usize::MAX ==> forall|j: int|
            0 <= j < t.ids.len() ==> #[trigger] t.ids[j] < p.map.next_id(),
    ensures
        extends(p, p.after_inputs(groups, index, t, opts).0),
    decreases groups.len() - index,
{
    lemma_extends_self(p);
    if index < groups.len() {
        let (next, e) = p.after_input(groups[index as int], index as usize, t, opts);
        lemma_input_extends(p, groups[index as int], index as usize, t, opts);
        if e is None {
            lemma_inputs_extend(next, groups, index + 1, t, opts);
            lemma_extends_trans(p, next, next.after_inputs(groups, index + 1, t, opts).0);
        }
    }
}

proof fn lemma_text_extends(p: Pass, b: Seq<u8>, line: u64, opts: EdgeListOpts)
    requires
        p.map.coherent(),
    ensures
        extends(p, p.after_text(b, line, opts).0),
{
    lemma_extends_self(p);
    match record::line_of(b, line, opts.mode) {
        Err(e) => {},
        Ok(None) => {
            lemma_extends_counters(p, p.after_text(b, line, opts).0);
        },
        Ok(Some(rec)) => {
            lemma_extends_counters(p, p.skipped());
            let n = rec.num_outputs as nat;
            if let Ok(map) = p.map.registered(rec.tx_id, n, line) {
                crate::nodemap::registration_keeps_ids(p.map, rec.tx_id, n, line, map);
                let q = p.after_outputs(rec, map);
                lemma_extends_map(p, q);
                let t = Target { line, tx_id: rec.tx_id, ids: map.ids_of(rec.tx_id, n) };
                let groups = record::input_groups(rec.inputs_section);
                assert forall|j: int|
                    map.next_id() <= usize::MAX && 0 <= j < t.ids.len() implies #[trigger] t.ids[j]
                    < map.next_id() by {
                    assert(map.id_of((rec.tx_id, j as i32)) is Some);
                    lemma_id_bound(map, (rec.tx_id, j as i32));
                }
                lemma_inputs_extend(q, groups, 0, t, opts);
                let (next, e) = q.after_inputs(groups, 0, t, opts);
                lemma_extends_trans(p, q, next);
                lemma_extends_counters(next, next.counted());
                lemma_extends_trans(p, next, next.counted());
            }
        },
    }
}

proof fn lemma_line_extends(p: Pass, b: Seq<u8>, line: u64, opts: EdgeListOpts)
    requires
        p.map.coherent(),
    ensures
        extends(p, p.after_line(b, line, opts).0),
{
    lemma_extends_self(p);
    lemma_text_extends(p, b, line, opts);
    let lossy = encode_utf8(text::utf8_lossy(b));
    lemma_extends_counters(p, p.lossy());
    lemma_text_extends(p.lossy(), lossy, line, opts);
    lemma_extends_trans(p, p.lossy(), p.lossy().after_text(lossy, line, opts).0);
}

/// A pass only ever extends: whatever the input holds, and whether or not it
/// ends in an error, no node changes its id, no arc is taken back, the arc
/// counter counts the arcs, and every arc runs between two nodes that the node
/// map knows.
pub proof fn a_pass_only_extends(p: Pass, input: Seq<u8>, line: nat, opts: EdgeListOpts)
    requires
        p.map.coherent(),
    ensures
        extends(p, p.after_all(input, line, opts).0),
    decreases input.len(),
{
    lemma_extends_self(p);
    if input.len() > 0 {
        lemma_first_line_len(input);
        let n = first_line_len(input) as int;
        let (next, e) = p.after_line(input.take(n), line as u64, opts);
        lemma_line_extends(p, input.take(n), line as u64, opts);
        if e is None {
            a_pass_only_extends(next, input.skip(n), line + 1, opts);
            lemma_extends_trans(p, next, next.after_all(input.skip(n), line + 1, opts).0);
        }
    }
}

/// Strict mode never drops a line silently: without an error, no line was
/// skipped but blank ones and none was decoded with substitutions.
pub proof fn strict_mode_skips_nothing(p: Pass, input: Seq<u8>, line: nat, opts: EdgeListOpts)
    requires
        opts.mode is Strict,
    ensures
        p.after_all(input, line, opts).0.stats.skipped_lines == p.stats.skipped_lines,
        p.after_all(input, line, opts).0.stats.non_utf8_lines == p.stats.non_utf8_lines,
    decreases input.len(),
{
    if input.len() > 0 {
        lemma_first_line_len(input);
        let n = first_line_len(input) as int;
        let b = input.take(n);
        let (next, e) = p.after_line(b, line as u64, opts);
        if valid_utf8(b) {
            lemma_strict_text(p, b, line as u64, opts);
        }
        if e is None {
            strict_mode_skips_nothing(next, input.skip(n), line + 1, opts);
        }
    }
}

proof fn lemma_strict_text(p: Pass, b: Seq<u8>, line: u64, opts: EdgeListOpts)
    requires
        opts.mode is Strict,
        valid_utf8(b),
    ensures
        p.after_text(b, line, opts).0.stats.skipped_lines == p.stats.skipped_lines,
        p.after_text(b, line, opts).0.stats.non_utf8_lines == p.stats.non_utf8_lines,
{
    match record::line_of(b, line, opts.mode) {
        Err(e) => {},
        Ok(None) => {
            // Only a blank line carries nothing in strict mode, and the line
            // is as blank with its line end as without.
            lemma_unstripped_blank(b);
        },
        Ok(Some(rec)) => {
            let n = rec.num_outputs as nat;
            if let Ok(map) = p.map.registered(rec.tx_id, n, line) {
                let t = Target { line, tx_id: rec.tx_id, ids: map.ids_of(rec.tx_id, n) };
                lemma_inputs_keep_line_counters(
                    p.after_outputs(rec, map),
                    record::input_groups(rec.inputs_section),
                    0,
                    t,
                    opts,
                );
            }
        },
    }
}

proof fn lemma_inputs_keep_line_counters(
    p: Pass,
    groups: Seq<Seq<u8>>,
    index: nat,
    t: Target,
    opts: EdgeListOpts,
)
    ensures
        p.after_inputs(groups, index, t, opts).0.stats.skipped_lines == p.stats.skipped_lines,
        p.after_inputs(groups, index, t, opts).0.stats.non_utf8_lines == p.stats.non_utf8_lines,
        p.after_inputs(groups, index, t, opts).0.stats.blank_lines == p.stats.blank_lines,
        p.after_inputs(groups, index, t, opts).0.stats.tx_count == p.stats.tx_count,
    decreases groups.len() - index,
{
    if index < groups.len() {
        let (next, e) = p.after_input(groups[index as int], index as usize, t, opts);
        lemma_inputs_keep_line_counters(next, groups, index + 1, t, opts);
    }
}

/// Putting the line end back on a blank line leaves it blank.
proof fn lemma_unstripped_blank(b: Seq<u8>)
    requires
        valid_utf8(b),
        record::is_blank_line(record::stripped(b)),
    ensures
        record::is_blank_line(b),
{
    let c = if b.len() > 0 && b.last() == 10 {
        b.drop_last()
    } else {
        b
    };
    lemma_uncut_blank(b, 10);
    lemma_uncut_blank(c, 13);
}

proof fn lemma_uncut_blank(b: Seq<u8>, c: u8)
    requires
        valid_utf8(b),
        c == 10 || c == 13,
    ensures
        b.len() > 0 && b.last() == c ==> valid_utf8(b.drop_last()) && (record::is_blank_line(
            b.drop_last(),
        ) ==> record::is_blank_line(b)),
{
    if b.len() > 0 && b.last() == c {
        let p = b.len() - 1;
        assert(c < 0x80 ==> !(c & 0xC0 == 0x80)) by (bit_vector);
        is_char_boundary_iff_not_is_continuation_byte(b, p);
        assert(b.drop_last() =~= b.subrange(0, p));
        valid_utf8_split(b, p);
        decode_utf8_split(b, p);
        let tail = b.subrange(p, b.len() as int);
        assert(tail =~= seq![c]);
        reveal_with_fuel(decode_utf8, 2);
        reveal_with_fuel(valid_utf8, 2);
        assert(pop_first_scalar(tail) =~= Seq::empty());
        assert(c < 0x80 ==> (c & 0x7F) == c) by (bit_vector);
        assert(decode_utf8(tail) =~= seq![c as char]);
        if record::is_blank_line(b.drop_last()) {
            let head = decode_utf8(b.drop_last());
            let whole = decode_utf8(b);
            assert forall|i: int| 0 <= i < whole.len() implies text::is_white_space(
                #[trigger] whole[i],
            ) by {
                if i < head.len() {
                    assert(whole[i] == head[i]);
                } else {
                    assert(whole[i] == c as char);
                }
            }
        }
    }
}


/// Lenient mode never ends on a malformed line: a line that is not a record,
/// or a record with an unreadable input, is skipped and tallied, and changes
/// nothing else.
pub proof fn lenient_mode_skips_malformed_lines(
    p: Pass,
    b: Seq<u8>,
    line: u64,
    opts: EdgeListOpts,
)
    requires
        opts.mode is Lenient,
        valid_utf8(b),
        !record::is_blank_line(b),
        match record::record_of(record::stripped(b), line, opts.mode) {
            Ok(rec) => !inputs_readable(rec),
            Err(_) => true,
        },
    ensures
        p.after_line(b, line, opts) == (p.skipped(), None::<crate::error::ErrorView>),
{
    if record::is_blank_line(record::stripped(b)) {
        lemma_unstripped_blank(b);
    }
}


/// Strict mode fills no gap in the transaction ids, so that no memory for one
/// can be missing: in it a pass whose sink reports no failure comes out as it is
/// expected to.
pub proof fn strict_mode_fills_no_gap(
    p: Pass,
    input: Seq<u8>,
    line: nat,
    opts: EdgeListOpts,
    msg: Seq<char>,
)
    requires
        p.map.coherent(),
        p.map.mode is Strict,
    ensures
        !gap_on_the_way(p, input, line, opts, msg),
    decreases input.len(),
{
    if input.len() > 0 {
        lemma_first_line_len(input);
        let n = first_line_len(input) as int;
        let (next, e) = p.after_line(input.take(n), line as u64, opts);
        lemma_line_extends(p, input.take(n), line as u64, opts);
        if e is None {
            strict_mode_fills_no_gap(next, input.skip(n), line + 1, opts, msg);
        }
    }
}

/// How many lines the input has; a last line without a line feed counts.
pub open spec fn line_count(input: Seq<u8>) -> nat
    decreases input.len(),
{
    if input.len() == 0 {
        0
    } else {
        let n = first_line_len(input);
        proof {
            lemma_first_line_len(input);
        }
        1 + line_count(input.skip(n as int))
    }
}

/// Every line is counted once: as a transaction, as blank, or as skipped.
pub proof fn every_line_is_counted_once(p: Pass, input: Seq<u8>, line: nat, opts: EdgeListOpts)
    requires
        p.after_all(input, line, opts).1 is None,
        p.stats.tx_count + line_count(input) <= u64::MAX,
        p.stats.blank_lines + line_count(input) <= u64::MAX,
        p.stats.skipped_lines + line_count(input) <= u64::MAX,
    ensures
        ({
            let q = p.after_all(input, line, opts).0;
            q.stats.tx_count + q.stats.blank_lines + q.stats.skipped_lines == p.stats.tx_count
                + p.stats.blank_lines + p.stats.skipped_lines + line_count(input)
        }),
    decreases input.len(),
{
    if input.len() > 0 {
        lemma_first_line_len(input);
        let n = first_line_len(input) as int;
        let b = input.take(n);
        let (next, e) = p.after_line(b, line as u64, opts);
        if valid_utf8(b) {
            lemma_text_counted(p, b, line as u64, opts);
        } else {
            lemma_text_counted(p.lossy(), encode_utf8(text::utf8_lossy(b)), line as u64, opts);
        }
        every_line_is_counted_once(next, input.skip(n), line + 1, opts);
    }
}

proof fn lemma_text_counted(p: Pass, b: Seq<u8>, line: u64, opts: EdgeListOpts)
    requires
        p.stats.tx_count < u64::MAX,
        p.stats.blank_lines < u64::MAX,
        p.stats.skipped_lines < u64::MAX,
    ensures
        ({
            let (q, e) = p.after_text(b, line, opts);
            e is None ==> {
                &&& q.stats.tx_count + q.stats.blank_lines + q.stats.skipped_lines
                    == p.stats.tx_count + p.stats.blank_lines + p.stats.skipped_lines + 1
                &&& q.stats.tx_count <= p.stats.tx_count + 1
                &&& q.stats.blank_lines <= p.stats.blank_lines + 1
                &&& q.stats.skipped_lines <= p.stats.skipped_lines + 1
            }
        }),
{
    if let Ok(Some(rec)) = record::line_of(b, line, opts.mode) {
        let n = rec.num_outputs as nat;
        if let Ok(map) = p.map.registered(rec.tx_id, n, line) {
            let t = Target { line, tx_id: rec.tx_id, ids: map.ids_of(rec.tx_id, n) };
            lemma_inputs_keep_line_counters(
                p.after_outputs(rec, map),
                record::input_groups(rec.inputs_section),
                0,
                t,
                opts,
            );
        }
    }
}

// ---------------------------------------------------------------------------
// What a written transaction list becomes
// ---------------------------------------------------------------------------
/// A transaction as it is written down: the fields of its first section, the
/// fields of each of its inputs, and its outputs.
pub ghost struct Written {
    pub info: Seq<Seq<u8>>,
    pub inputs: Seq<Seq<Seq<u8>>>,
    pub outputs: Seq<Seq<u8>>,
}

/// A text of printing ASCII that can stand between separators.
pub open spec fn is_word(b: Seq<u8>) -> bool {
    forall|i: int| 0 <= i < b.len() ==> 32 <= #[trigger] b[i] <= 126 && b[i] != 58 && b[i] != 59
}

impl Written {
    /// The inputs, each with its fields joined.
    pub open spec fn groups(self) -> Seq<Seq<u8>> {
        Seq::new(self.inputs.len(), |i: int| text::joined_by(self.inputs[i], 44))
    }

    /// The line without its line feed.
    pub open spec fn text(self) -> Seq<u8> {
        text::joined_by(
            seq![
                text::joined_by(self.info, 44),
                text::joined_by(self.groups(), 59),
                text::joined_by(self.outputs, 59),
            ],
            58,
        )
    }

    /// It is the transaction `tx`, every input names an output, and it has an
    /// output itself.
    pub open spec fn is_transaction(self, tx: int) -> bool {
        &&& self.info.len() >= 3
        &&& forall|i: int| 0 <= i < self.info.len() ==> is_word(#[trigger] self.info[i])
        &&& text::free_of(self.info, 44)
        &&& text::i32_value(self.info[2]) matches Some(v) && v == tx
        &&& forall|i: int| 0 <= i < self.inputs.len() ==> is_input(#[trigger] self.inputs[i])
        &&& 0 < self.outputs.len() <= 0x8000_0000
        &&& forall|j: int| 0 <= j < self.outputs.len() ==> is_word(#[trigger] self.outputs[j])
        &&& self.outputs.last().len() > 0
    }

    /// The transaction whose output input `i` spends.
    pub open spec fn spent_tx(self, i: int) -> int {
        text::i32_value(self.inputs[i][2])->0 as int
    }

    /// Which of the outputs of that transaction it is.
    pub open spec fn spent_output(self, i: int) -> int {
        text::i32_value(self.inputs[i][3])->0 as int
    }
}

/// The fields of an input that names an output.
pub open spec fn is_input(fields: Seq<Seq<u8>>) -> bool {
    &&& fields.len() >= 4
    &&& forall|i: int| 0 <= i < fields.len() ==> is_word(#[trigger] fields[i])
    &&& text::free_of(fields, 44)
    &&& text::i32_value(fields[2]) matches Some(v) && v >= 0
    &&& text::i32_value(fields[3]) matches Some(v) && v >= 0
}

/// Some transactions, a line each.
pub open spec fn written(txs: Seq<Written>) -> Seq<u8>
    decreases txs.len(),
{
    if txs.len() == 0 {
        Seq::empty()
    } else {
        txs[0].text().push(10) + written(txs.drop_first())
    }
}

/// How many outputs the first `k` of some transactions have together.
pub open spec fn outputs_before(txs: Seq<Written>, k: int) -> nat
    decreases k,
{
    if k <= 0 {
        0
    } else {
        outputs_before(txs, k - 1) + txs[k - 1].outputs.len()
    }
}

/// How many arcs the first `k` of some transactions make: from each input to
/// each output.
pub open spec fn arcs_before(txs: Seq<Written>, k: int) -> nat
    decreases k,
{
    if k <= 0 {
        0
    } else {
        arcs_before(txs, k - 1) + txs[k - 1].inputs.len() * txs[k - 1].outputs.len()
    }
}

/// Transactions with consecutive ids that spend outputs of themselves or of
/// each other, and only such as came before.
pub open spec fn is_ledger(txs: Seq<Written>, first: int) -> bool {
    &&& 0 <= first
    &&& first + txs.len() <= i32::MAX + 1
    &&& forall|k: int| 0 <= k < txs.len() ==> (#[trigger] txs[k]).is_transaction(first + k)
    &&& forall|k: int, i: int|
        #![trigger txs[k].inputs[i]]
        0 <= k < txs.len() && 0 <= i < txs[k].inputs.len() ==> {
            &&& first <= txs[k].spent_tx(i) <= first + k
            &&& txs[k].spent_output(i) < txs[txs[k].spent_tx(i) - first].outputs.len()
        }
}

proof fn lemma_joined_bytes(parts: Seq<Seq<u8>>, sep: u8, ok: spec_fn(u8) -> bool)
    requires
        ok(sep),
        forall|i: int, j: int|
            0 <= i < parts.len() && 0 <= j < parts[i].len() ==> ok(#[trigger] parts[i][j]),
    ensures
        forall|j: int|
            0 <= j < text::joined_by(parts, sep).len() ==> ok(
                #[trigger] text::joined_by(parts, sep)[j],
            ),
    decreases parts.len(),
{
    let s = text::joined_by(parts, sep);
    if parts.len() == 1 {
        assert forall|j: int| 0 <= j < s.len() implies ok(#[trigger] s[j]) by {
            assert(s[j] == parts[0][j]);
        }
    } else if parts.len() > 1 {
        let init = parts.drop_last();
        assert forall|i: int, j: int| 0 <= i < init.len() && 0 <= j < init[i].len() implies ok(
            #[trigger] init[i][j],
        ) by {
            assert(init[i][j] == parts[i][j]);
        }
        lemma_joined_bytes(init, sep, ok);
        let a = text::joined_by(init, sep);
        assert forall|j: int| 0 <= j < s.len() implies ok(#[trigger] s[j]) by {
            if j < a.len() {
                assert(s[j] == a[j]);
            } else if j > a.len() {
                assert(s[j] == parts[parts.len() - 1][j - a.len() - 1]);
            }
        }
    }
}

proof fn lemma_joined_words(parts: Seq<Seq<u8>>)
    requires
        forall|i: int| 0 <= i < parts.len() ==> is_word(#[trigger] parts[i]),
    ensures
        is_word(text::joined_by(parts, 44)),
{
    let ok = |c: u8| 32 <= c <= 126 && c != 58 && c != 59;
    assert forall|i: int, j: int| 0 <= i < parts.len() && 0 <= j < parts[i].len() implies ok(
        #[trigger] parts[i][j],
    ) by {
        assert(is_word(parts[i]));
    }
    lemma_joined_bytes(parts, 44, ok);
    let s = text::joined_by(parts, 44);
    assert forall|i: int| 0 <= i < s.len() implies 32 <= #[trigger] s[i] <= 126 && s[i] != 58
        && s[i] != 59 by {
        assert(ok(s[i]));
    }
}

proof fn lemma_joined_groups(parts: Seq<Seq<u8>>)
    requires
        forall|i: int| 0 <= i < parts.len() ==> is_word(#[trigger] parts[i]),
    ensures
        text::free_of(parts, 59),
        forall|j: int|
            0 <= j < text::joined_by(parts, 59).len() ==> 32 <= #[trigger] text::joined_by(
                parts,
                59,
            )[j] <= 126 && text::joined_by(parts, 59)[j] != 58,
{
    let ok = |c: u8| 32 <= c <= 126 && c != 58;
    assert forall|i: int, j: int| 0 <= i < parts.len() && 0 <= j < parts[i].len() implies ok(
        #[trigger] parts[i][j],
    ) && parts[i][j] != 59 by {
        assert(is_word(parts[i]));
    }
    lemma_joined_bytes(parts, 59, ok);
    let s = text::joined_by(parts, 59);
    assert forall|j: int| 0 <= j < s.len() implies 32 <= #[trigger] s[j] <= 126 && s[j] != 58 by {
        assert(ok(s[j]));
    }
}

/// Joined texts of which the last is not empty end as that ends.
proof fn lemma_joined_end(parts: Seq<Seq<u8>>, sep: u8)
    requires
        parts.len() > 0,
        parts.last().len() > 0,
    ensures
        text::joined_by(parts, sep).len() > 0,
        text::joined_by(parts, sep).last() == parts.last().last(),
{
}

/// A transaction that is written down is read as it is written.
proof fn lemma_written_line(w: Written, tx: int, line: u64, mode: Mode) -> (rec:
    record::RecordView)
    requires
        w.is_transaction(tx),
        0 <= tx <= i32::MAX,
    ensures
        record::line_of(w.text().push(10), line, mode) == Ok::<
            Option<record::RecordView>,
            crate::error::ErrorView,
        >(Some(rec)),
        rec.tx_id == tx,
        rec.num_outputs == w.outputs.len(),
        rec.line == line,
        rec.mode == mode,
        inputs_readable(rec),
        record::input_groups(rec.inputs_section) == w.groups(),
        valid_utf8(w.text().push(10)),
        w.text().len() > 0,
        forall|i: int| 0 <= i < w.text().len() ==> #[trigger] w.text()[i] != 10,
{
    let head = text::joined_by(w.info, 44);
    let inputs = text::joined_by(w.groups(), 59);
    let outputs = text::joined_by(w.outputs, 59);
    let sections = seq![head, inputs, outputs];
    let groups = w.groups();
    let b = w.text();
    lemma_joined_words(w.info);
    assert forall|i: int| 0 <= i < groups.len() implies is_word(#[trigger] groups[i]) by {
        assert(is_input(w.inputs[i]));
        lemma_joined_words(w.inputs[i]);
    }
    lemma_joined_groups(groups);
    lemma_joined_groups(w.outputs);
    lemma_joined_end(w.outputs, 59);
    if groups.len() > 0 {
        let last = w.inputs[groups.len() - 1];
        assert(is_input(last));
        assert(last[3].len() > 0);
        assert(groups.last() == text::joined_by(last, 44));
        assert(groups.last().len() > 0);
    }
    let ok = |c: u8| 32 <= c <= 126;
    assert forall|i: int, j: int| 0 <= i < sections.len() && 0 <= j < sections[i].len() implies ok(
        #[trigger] sections[i][j],
    ) && sections[i][j] != 58 by {
        if i == 0 {
            assert(sections[i][j] == head[j]);
        } else if i == 1 {
            assert(sections[i][j] == inputs[j]);
        } else {
            assert(sections[i][j] == outputs[j]);
        }
    }
    lemma_joined_bytes(sections, 58, ok);
    assert forall|i: int| 0 <= i < b.len() implies 32 <= #[trigger] b[i] <= 126 by {
        assert(ok(b[i]));
    }
    lemma_joined_end(sections, 58);
    assert(sections + Seq::<Seq<u8>>::empty() =~= sections);
    record::records_are_read_as_written(
        w.info,
        tx as i32,
        inputs,
        outputs,
        Seq::empty(),
        line,
        mode,
    );
    record::every_output_is_counted(w.outputs);
    record::every_input_is_walked(groups);
    crate::arcs::lemma_ascii_is_utf8(b.push(10));
    // The line holds a colon, so that it is not blank.
    assert(b == text::joined_by(seq![head, inputs], 58).push(58) + outputs) by {
        assert(sections.drop_last() =~= seq![head, inputs]);
        assert(sections.last() == outputs);
    }
    let colon = text::joined_by(seq![head, inputs], 58).len() as int;
    assert(b[colon] == 58);
    record::only_white_space_is_blank(b);
    record::lines_hold_records(b, line, mode);
    record::line_ends_are_not_significant(b, line, mode);
    let rec = record::record_of(b, line, mode)->Ok_0;
    assert forall|i: int| 0 <= i < groups.len() implies record::input_of(
        #[trigger] groups[i],
        rec.line,
        i as usize,
        rec.mode,
    ) is Ok by {
        let parts = w.inputs[i];
        assert(is_input(parts));
        record::inputs_are_read_as_written(
            parts,
            text::i32_value(parts[2])->0,
            text::i32_value(parts[3])->0,
            line,
            i as usize,
            mode,
        );
    }
    rec
}

/// The sources of a transaction's arcs.
spec fn spent_ids(txs: Seq<Written>, first: int, k: int) -> Seq<NodeId> {
    Seq::new(
        txs[k].inputs.len(),
        |i: int|
            (outputs_before(txs, txs[k].spent_tx(i) - first) + txs[k].spent_output(i)) as usize,
    )
}

/// The targets of a transaction's arcs.
spec fn own_ids(txs: Seq<Written>, k: int) -> Seq<NodeId> {
    Seq::new(txs[k].outputs.len(), |j: int| (outputs_before(txs, k) + j) as usize)
}

/// The arcs of the first `k` transactions.
spec fn ledger_arcs(txs: Seq<Written>, first: int, k: int) -> Seq<(NodeId, NodeId)>
    decreases k,
{
    if k <= 0 {
        Seq::empty()
    } else {
        ledger_arcs(txs, first, k - 1) + joins(spent_ids(txs, first, k - 1), own_ids(txs, k - 1))
    }
}

/// A pass that has read the first `k` transactions.
spec fn has_read(p: Pass, txs: Seq<Written>, first: int, k: int) -> bool {
    &&& p.map.coherent()
    &&& p.map.first_id == 0
    &&& p.map.counts.len() == k
    &&& k > 0 ==> p.map.first_tx == first
    &&& p.map.keys.len() == outputs_before(txs, k)
    &&& forall|a: int, j: int|
        #![trigger p.map.id_of(((first + a) as i32, j as i32))]
        0 <= a < k && 0 <= j < txs[a].outputs.len() ==> p.map.id_of(
            ((first + a) as i32, j as i32),
        ) == Some((outputs_before(txs, a) + j) as usize)
    &&& p.arcs == ledger_arcs(txs, first, k)
    &&& p.stats == (EdgeListStats {
        tx_count: k as u64,
        node_slots: outputs_before(txs, k) as u64,
        edge_count: arcs_before(txs, k) as u64,
        ..no_stats()
    })
}

proof fn lemma_sums_grow(txs: Seq<Written>, a: int, b: int)
    requires
        0 <= a <= b,
    ensures
        outputs_before(txs, a) <= outputs_before(txs, b),
        arcs_before(txs, a) <= arcs_before(txs, b),
    decreases b,
{
    if a < b {
        lemma_sums_grow(txs, a, b - 1);
        let n = txs[b - 1].inputs.len() * txs[b - 1].outputs.len();
        assert(n >= 0);
    }
}

/// Inputs that all refer to a node join those nodes with the outputs.
proof fn lemma_written_inputs(
    p: Pass,
    w: Written,
    index: nat,
    t: Target,
    opts: EdgeListOpts,
    srcs: Seq<NodeId>,
)
    requires
        index <= w.inputs.len(),
        w.inputs.len() <= usize::MAX,
        srcs.len() == w.inputs.len(),
        forall|i: int| 0 <= i < w.inputs.len() ==> is_input(#[trigger] w.inputs[i]),
        forall|i: int|
            #![trigger w.inputs[i]]
            0 <= i < w.inputs.len() ==> p.map.id_of(
                (w.spent_tx(i) as i32, w.spent_output(i) as i32),
            ) == Some(srcs[i]),
        p.stats.edge_count + (w.inputs.len() - index) * t.ids.len() <= u64::MAX,
    ensures
        p.after_inputs(w.groups(), index, t, opts) == (
            Pass {
                arcs: p.arcs + joins(srcs.skip(index as int), t.ids),
                stats: EdgeListStats {
                    edge_count: (p.stats.edge_count + (w.inputs.len() - index) * t.ids.len()) as u64,
                    ..p.stats
                },
                ..p
            },
            None::<crate::error::ErrorView>,
        ),
    decreases w.inputs.len() - index,
{
    let m = w.inputs.len() as int;
    let n = t.ids.len() as int;
    let rest = srcs.skip(index as int);
    if index == m {
        assert((m - index) * n == 0) by (nonlinear_arith)
            requires
                m == index,
        ;
        assert(p.arcs + joins(rest, t.ids) =~= p.arcs);
    } else {
        let parts = w.inputs[index as int];
        assert(is_input(parts));
        record::inputs_are_read_as_written(
            parts,
            text::i32_value(parts[2])->0,
            text::i32_value(parts[3])->0,
            t.line,
            index as usize,
            opts.mode,
        );
        assert(w.groups()[index as int] == text::joined_by(parts, 44));
        let next = p.joined(srcs[index as int], t.ids);
        assert(p.after_input(w.groups()[index as int], index as usize, t, opts) == (
            next,
            None::<crate::error::ErrorView>,
        ));
        assert((m - index) * n == n + (m - index - 1) * n) by (nonlinear_arith);
        assert((m - index - 1) * n >= 0) by (nonlinear_arith)
            requires
                m - index - 1 >= 0,
                n >= 0,
        ;
        lemma_written_inputs(next, w, index + 1, t, opts, srcs);
        assert(rest.drop_first() =~= srcs.skip(index as int + 1));
        assert(rest[0] == srcs[index as int]);
        assert(p.arcs + joins(rest, t.ids) =~= next.arcs + joins(srcs.skip(index as int + 1), t.ids));
    }
}

/// One more transaction is read.
#[verifier::spinoff_prover]
#[verifier::rlimit(60)]
proof fn lemma_written_step(
    p: Pass,
    txs: Seq<Written>,
    first: int,
    k: int,
    line: u64,
    opts: EdgeListOpts,
) -> (q: Pass)
    requires
        is_ledger(txs, first),
        0 <= k < txs.len(),
        forall|a: int| 0 <= a < txs.len() ==> (#[trigger] txs[a]).inputs.len() <= usize::MAX,
        outputs_before(txs, txs.len() as int) <= usize::MAX,
        arcs_before(txs, txs.len() as int) <= u64::MAX,
        has_read(p, txs, first, k),
    ensures
        p.after_line(txs[k].text().push(10), line, opts) == (q, None::<crate::error::ErrorView>),
        has_read(q, txs, first, k + 1),
{
    let w = txs[k];
    let tx = (first + k) as i32;
    let n = w.outputs.len();
    assert(w.is_transaction(first + k));
    let rec = lemma_written_line(w, first + k, line, opts.mode);
    lemma_sums_grow(txs, k + 1, txs.len() as int);
    assert(arcs_before(txs, k + 1) == arcs_before(txs, k) + w.inputs.len() * w.outputs.len());
    assert(outputs_before(txs, k + 1) == outputs_before(txs, k) + n);
    crate::nodemap::only_gaps_are_refused(p.map, tx, n, line);
    let map = p.map.registered(tx, n, line)->Ok_0;
    crate::nodemap::registration_keeps_ids(p.map, tx, n, line, map);
    crate::nodemap::forward_ids_are_contiguous(p.map, tx, n, line, map);
    crate::nodemap::gaps_are_filled_with_nothing(p.map, tx, n, line, map, tx);
    assert forall|a: int, j: int|
        #![trigger map.id_of(((first + a) as i32, j as i32))]
        0 <= a < k + 1 && 0 <= j < txs[a].outputs.len() implies map.id_of(
        ((first + a) as i32, j as i32),
    ) == Some((outputs_before(txs, a) + j) as usize) by {
        if a < k {
            assert(p.map.id_of(((first + a) as i32, j as i32)) is Some);
        } else {
            assert(map.id_of((tx, j as i32)) == Some((p.map.next_id() + j) as usize));
        }
    }
    let t = Target { line, tx_id: tx, ids: map.ids_of(tx, n) };
    assert(t.ids =~= own_ids(txs, k)) by {
        assert forall|j: int| 0 <= j < n implies t.ids[j] == own_ids(txs, k)[j] by {
            assert(map.id_of(((first + k) as i32, j as i32)) is Some);
        }
    }
    let srcs = spent_ids(txs, first, k);
    let mid = p.after_outputs(rec, map);
    assert forall|i: int|
        #![trigger w.inputs[i]]
        0 <= i < w.inputs.len() implies mid.map.id_of(
        (w.spent_tx(i) as i32, w.spent_output(i) as i32),
    ) == Some(srcs[i]) by {
        assert(txs[k].inputs[i] == w.inputs[i]);
        assert(is_input(w.inputs[i]));
        let a = w.spent_tx(i) - first;
        let j = w.spent_output(i);
        assert(map.id_of(((first + a) as i32, j as i32)) == Some(
            (outputs_before(txs, a) + j) as usize,
        ));
    }
    assert(w.inputs.len() == w.inputs.len() - 0);
    lemma_written_inputs(mid, w, 0, t, opts, srcs);
    assert(srcs.skip(0) =~= srcs);
    let (last, e) = mid.after_inputs(w.groups(), 0, t, opts);
    assert(e is None);
    let q = last.counted();
    assert(p.after_record(rec, line, opts) == (q, None::<crate::error::ErrorView>));
    assert(q.arcs == ledger_arcs(txs, first, k + 1));
    q
}

proof fn lemma_written_rest(
    p: Pass,
    txs: Seq<Written>,
    first: int,
    k: int,
    opts: EdgeListOpts,
)
    requires
        is_ledger(txs, first),
        0 <= k <= txs.len(),
        forall|a: int| 0 <= a < txs.len() ==> (#[trigger] txs[a]).inputs.len() <= usize::MAX,
        outputs_before(txs, txs.len() as int) <= usize::MAX,
        arcs_before(txs, txs.len() as int) <= u64::MAX,
        has_read(p, txs, first, k),
    ensures
        p.after_all(written(txs.skip(k)), (k + 1) as nat, opts).1 is None,
        has_read(
            p.after_all(written(txs.skip(k)), (k + 1) as nat, opts).0,
            txs,
            first,
            txs.len() as int,
        ),
    decreases txs.len() - k,
{
    let rest = txs.skip(k);
    if k < txs.len() {
        let w = txs[k];
        let line = w.text().push(10);
        let input = written(rest);
        let q = lemma_written_step(p, txs, first, k, (k + 1) as u64, opts);
        let rec = lemma_written_line(w, first + k, 0, opts.mode);
        assert(rest[0] == w);
        assert(rest.drop_first() =~= txs.skip(k + 1));
        assert(input == line + written(txs.skip(k + 1)));
        assert forall|i: int| 0 <= i < line.len() - 1 implies input[i] != 10 by {
            assert(input[i] == w.text()[i]);
        }
        assert(input[line.len() - 1] == 10);
        lemma_first_line_end(input, line.len() - 1);
        assert(input.take(line.len() as int) =~= line);
        assert(input.skip(line.len() as int) =~= written(txs.skip(k + 1)));
        lemma_written_rest(q, txs, first, k + 1, opts);
    }
}

/// The arcs of some transactions are as many as their inputs and outputs make.
proof fn lemma_ledger_len(txs: Seq<Written>, first: int, k: int)
    ensures
        ledger_arcs(txs, first, k).len() == arcs_before(txs, k),
    decreases k,
{
    if k > 0 {
        lemma_ledger_len(txs, first, k - 1);
        the_join_is_complete(spent_ids(txs, first, k - 1), own_ids(txs, k - 1));
    }
}

/// Where an arc of a transaction stands among those of all.
proof fn lemma_ledger_arc(txs: Seq<Written>, first: int, k: int, a: int, i: int, j: int)
    requires
        0 <= a < k,
        0 <= i < txs[a].inputs.len(),
        0 <= j < txs[a].outputs.len(),
    ensures
        ({
            let at = arcs_before(txs, a) + i * txs[a].outputs.len() + j;
            &&& 0 <= at < arcs_before(txs, k)
            &&& ledger_arcs(txs, first, k)[at] == (
                spent_ids(txs, first, a)[i],
                own_ids(txs, a)[j],
            )
        }),
    decreases k,
{
    let n = txs[a].outputs.len() as int;
    let m = txs[a].inputs.len() as int;
    let at = arcs_before(txs, a) + i * n + j;
    lemma_ledger_len(txs, first, k - 1);
    lemma_ledger_len(txs, first, k);
    if a == k - 1 {
        let srcs = spent_ids(txs, first, a);
        let ids = own_ids(txs, a);
        the_join_is_complete(srcs, ids);
        assert(0 <= i * n && i * n + j < m * n) by (nonlinear_arith)
            requires
                0 <= i < m,
                0 <= j < n,
        ;
        assert(joins(srcs, ids)[i * ids.len() + j] == (srcs[i], ids[j]));
        assert(ledger_arcs(txs, first, k)[at] == joins(srcs, ids)[i * n + j]);
    } else {
        lemma_ledger_arc(txs, first, k - 1, a, i, j);
        lemma_sums_grow(txs, k - 1, k);
        assert(ledger_arcs(txs, first, k)[at] == ledger_arcs(txs, first, k - 1)[at]);
    }
}

/// A transaction list that is written down as a pass can count it.
pub open spec fn is_countable(txs: Seq<Written>) -> bool {
    &&& forall|a: int| 0 <= a < txs.len() ==> (#[trigger] txs[a]).inputs.len() <= usize::MAX
    &&& outputs_before(txs, txs.len() as int) <= usize::MAX
    &&& arcs_before(txs, txs.len() as int) <= u64::MAX
}

/// The map that a pass over a transaction list starts with.
pub open spec fn is_unused(map: crate::nodemap::NodeMapView) -> bool {
    &&& map.keys.len() == 0
    &&& map.counts.len() == 0
    &&& map.first_id == 0
}

proof fn lemma_written_list(
    txs: Seq<Written>,
    first: int,
    map: crate::nodemap::NodeMapView,
    opts: EdgeListOpts,
)
    requires
        is_ledger(txs, first),
        is_countable(txs),
        is_unused(map),
    ensures
        ({
            let start = Pass { map, arcs: Seq::empty(), stats: no_stats() };
            let (q, e) = start.after_all(written(txs), 1, opts);
            e is None && has_read(q, txs, first, txs.len() as int)
        }),
{
    let start = Pass { map, arcs: Seq::empty(), stats: no_stats() };
    assert(map.coherent());
    assert(has_read(start, txs, first, 0));
    assert(txs.skip(0) =~= txs);
    lemma_written_rest(start, txs, first, 0, opts);
}

/// A transaction list that is written down is read to its end, and counted:
/// every transaction, every output and every pair of an input and an output.
/// Nothing is refused, skipped or counted otherwise.
pub proof fn a_written_list_is_counted(
    txs: Seq<Written>,
    first: int,
    map: crate::nodemap::NodeMapView,
    opts: EdgeListOpts,
)
    requires
        is_ledger(txs, first),
        is_countable(txs),
        is_unused(map),
    ensures
        ({
            let start = Pass { map, arcs: Seq::empty(), stats: no_stats() };
            let (q, e) = start.after_all(written(txs), 1, opts);
            let n = txs.len() as int;
            &&& e is None
            &&& q.map.first_id + q.map.keys.len() == outputs_before(txs, n)
            &&& q.arcs.len() == arcs_before(txs, n)
            &&& q.stats.tx_count == n
            &&& q.stats.node_slots == outputs_before(txs, n)
            &&& q.stats.edge_count == arcs_before(txs, n)
            &&& q.stats.skipped_lines == 0
            &&& q.stats.blank_lines == 0
            &&& q.stats.dangling_refs == 0
            &&& q.stats.zero_output_txs == 0
            &&& q.stats.non_utf8_lines == 0
        }),
{
    lemma_written_list(txs, first, map, opts);
    lemma_ledger_len(txs, first, txs.len() as int);
}

/// The outputs are numbered as they are written: output `j` of transaction `k`
/// is the node whose number is the number of outputs before it.
pub proof fn outputs_are_numbered_as_written(
    txs: Seq<Written>,
    first: int,
    map: crate::nodemap::NodeMapView,
    opts: EdgeListOpts,
    k: int,
    j: int,
)
    requires
        is_ledger(txs, first),
        is_countable(txs),
        is_unused(map),
        0 <= k < txs.len(),
        0 <= j < txs[k].outputs.len(),
    ensures
        ({
            let start = Pass { map, arcs: Seq::empty(), stats: no_stats() };
            let q = start.after_all(written(txs), 1, opts).0;
            q.map.id_of(((first + k) as i32, j as i32)) == Some(
                (outputs_before(txs, k) + j) as usize,
            )
        }),
{
    lemma_written_list(txs, first, map, opts);
}

/// From each output that an input names there is an arc to each output of the
/// transaction that spends it: transaction by transaction, input by input,
/// output by output, duplicates and all.
pub proof fn a_written_list_becomes_its_arcs(
    txs: Seq<Written>,
    first: int,
    map: crate::nodemap::NodeMapView,
    opts: EdgeListOpts,
    k: int,
    i: int,
    j: int,
)
    requires
        is_ledger(txs, first),
        is_countable(txs),
        is_unused(map),
        0 <= k < txs.len(),
        0 <= i < txs[k].inputs.len(),
        0 <= j < txs[k].outputs.len(),
    ensures
        ({
            let start = Pass { map, arcs: Seq::empty(), stats: no_stats() };
            let q = start.after_all(written(txs), 1, opts).0;
            let at = arcs_before(txs, k) + i * txs[k].outputs.len() + j;
            &&& 0 <= at < q.arcs.len()
            &&& q.arcs[at] == (
                (outputs_before(txs, txs[k].spent_tx(i) - first) + txs[k].spent_output(i)) as usize,
                (outputs_before(txs, k) + j) as usize,
            )
        }),
{
    lemma_written_list(txs, first, map, opts);
    lemma_ledger_len(txs, first, txs.len() as int);
    lemma_ledger_arc(txs, first, txs.len() as int, k, i, j);
}

// ---------------------------------------------------------------------------
// What becomes of the other lines and inputs
// ---------------------------------------------------------------------------
/// A line ends behind its line feed, whatever follows; the last line may have
/// none, and then ends with the input.
pub proof fn lines_end_with_line_feeds(line: Seq<u8>, rest: Seq<u8>)
    requires
        forall|i: int| 0 <= i < line.len() ==> #[trigger] line[i] != 10,
    ensures
        first_line_len(line.push(10) + rest) == line.len() + 1,
        first_line_len(line) == line.len(),
        line_count(line.push(10) + rest) == 1 + line_count(rest),
        line.len() > 0 ==> line_count(line) == 1,
{
    let input = line.push(10) + rest;
    assert forall|i: int| 0 <= i < line.len() implies input[i] != 10 by {
        assert(input[i] == line[i]);
    }
    lemma_first_line_end(input, line.len() as int);
    assert(input.skip(line.len() as int + 1) =~= rest);
    if line.len() > 0 {
        lemma_first_line_end(line, line.len() as int);
        assert(line.skip(line.len() as int) =~= Seq::empty());
        assert(line_count(Seq::<u8>::empty()) == 0);
    }
}

/// Lines are read one after another: what a pass makes of a list is what it
/// makes of the lines behind the first, from where the first has left it, with
/// the next number; an error ends it.
pub proof fn lines_are_read_in_order(
    p: Pass,
    line: Seq<u8>,
    rest: Seq<u8>,
    number: nat,
    opts: EdgeListOpts,
)
    requires
        forall|i: int| 0 <= i < line.len() ==> #[trigger] line[i] != 10,
        number <= u64::MAX,
    ensures
        ({
            let (q, e) = p.after_line(line.push(10), number as u64, opts);
            &&& e is None ==> p.after_all(line.push(10) + rest, number, opts) == q.after_all(
                rest,
                number + 1,
                opts,
            )
            &&& e is Some ==> p.after_all(line.push(10) + rest, number, opts) == (q, e)
            &&& p.after_all(Seq::empty(), number, opts) == (p, None::<crate::error::ErrorView>)
        }),
{
    let input = line.push(10) + rest;
    lines_end_with_line_feeds(line, rest);
    assert(input.take(line.len() as int + 1) =~= line.push(10));
    assert(input.skip(line.len() as int + 1) =~= rest);
}

/// An input that names an output without a node is dealt with as was asked.
///
/// It may be refused, with its place in the list. It may be passed over: there
/// is one more dangling reference, and nothing else changes. Or it may be given
/// a node, the next one, with an arc from it to each output of the transaction
/// that spends it; but not where the transaction that it names is still to come.
pub proof fn missing_sources_are_dealt_with_as_asked(
    p: Pass,
    parts: Seq<Seq<u8>>,
    tx: i32,
    offset: i32,
    index: usize,
    t: Target,
    opts: EdgeListOpts,
)
    requires
        p.map.coherent(),
        parts.len() >= 4,
        text::free_of(parts, 44),
        text::i32_value(parts[2]) == Some(tx),
        text::i32_value(parts[3]) == Some(offset),
        opts.mode is Lenient || (tx >= 0 && offset >= 0),
        p.map.id_of((tx, offset)) is None,
        p.map.first_id + p.map.keys.len() < usize::MAX,
        p.stats.dangling_refs < u64::MAX,
        p.stats.edge_count + t.ids.len() <= u64::MAX,
    ensures
        ({
            let (q, e) = p.after_input(text::joined_by(parts, 44), index, t, opts);
            let passed = p.map.counts.len() > 0 && tx < p.map.first_tx + p.map.counts.len();
            match opts.on_missing_source {
                OnMissingSource::Fail => {
                    &&& q == p
                    &&& e == Some(
                        crate::error::ErrorView::DanglingSource {
                            line: t.line,
                            tx_id: t.tx_id,
                            index,
                            prev_tx_id: tx,
                            prev_offset: offset,
                        },
                    )
                },
                OnMissingSource::Skip => {
                    &&& e is None
                    &&& q.map == p.map
                    &&& q.arcs == p.arcs
                    &&& q.stats.dangling_refs == p.stats.dangling_refs + 1
                    &&& q.stats.edge_count == p.stats.edge_count
                    &&& q.stats.tx_count == p.stats.tx_count
                    &&& q.stats.node_slots == p.stats.node_slots
                },
                OnMissingSource::Create => {
                    let id = (p.map.first_id + p.map.keys.len()) as usize;
                    &&& e is None <==> passed
                    &&& q.stats.dangling_refs == p.stats.dangling_refs + 1
                    &&& !passed ==> q.map == p.map && q.arcs == p.arcs
                    &&& passed ==> {
                        &&& q.map.id_of((tx, offset)) == Some(id)
                        &&& q.arcs.len() == p.arcs.len() + t.ids.len()
                        &&& q.stats.edge_count == p.stats.edge_count + t.ids.len()
                        &&& forall|i: int|
                            0 <= i < p.arcs.len() ==> #[trigger] q.arcs[i] == p.arcs[i]
                        &&& forall|j: int|
                            0 <= j < t.ids.len() ==> q.arcs[p.arcs.len() + j] == (
                                id,
                                #[trigger] t.ids[j],
                            )
                    }
                },
            }
        }),
{
    record::inputs_are_read_as_written(parts, tx, offset, t.line, index, opts.mode);
    let key = (tx, offset);
    crate::nodemap::only_passed_outputs_are_forced(p.map, key, t.line);
    if let Ok(map) = p.map.forced(key, t.line) {
        assert(map.keys == p.map.keys.push(key));
        assert(map.keys[p.map.keys.len() as int] == key);
        assert(map.keys.no_duplicates());
        crate::nodemap::lemma_index_of(map.keys, p.map.keys.len() as int);
    }
}

/// A transaction without outputs is read and counted, and counted again among
/// those without outputs; its inputs make no arc.
pub proof fn transactions_without_outputs_are_counted(
    p: Pass,
    rec: record::RecordView,
    line: u64,
    opts: EdgeListOpts,
)
    requires
        p.stats.tx_count < u64::MAX,
        p.stats.zero_output_txs < u64::MAX,
        p.stats.node_slots + rec.num_outputs <= u64::MAX,
    ensures
        ({
            let (q, e) = p.after_record(rec, line, opts);
            e is None ==> {
                &&& q.stats.tx_count == p.stats.tx_count + 1
                &&& q.stats.node_slots == p.stats.node_slots + rec.num_outputs
                &&& rec.num_outputs == 0 ==> q.stats.zero_output_txs == p.stats.zero_output_txs + 1
                &&& rec.num_outputs > 0 ==> q.stats.zero_output_txs == p.stats.zero_output_txs
                &&& rec.num_outputs == 0 ==> q.arcs == p.arcs
            }
        }),
{
    if rec.num_outputs == 0 {
        no_outputs_no_arcs(p, rec, line, opts);
    }
    if let Ok(map) = p.map.registered(rec.tx_id, rec.num_outputs as nat, line) {
        let t = Target {
            line,
            tx_id: rec.tx_id,
            ids: map.ids_of(rec.tx_id, rec.num_outputs as nat),
        };
        let groups = record::input_groups(rec.inputs_section);
        lemma_inputs_keep_line_counters(p.after_outputs(rec, map), groups, 0, t, opts);
        lemma_inputs_keep_output_counters(p.after_outputs(rec, map), groups, 0, t, opts);
    }
}

proof fn lemma_inputs_keep_output_counters(
    p: Pass,
    groups: Seq<Seq<u8>>,
    index: nat,
    t: Target,
    opts: EdgeListOpts,
)
    ensures
        p.after_inputs(groups, index, t, opts).0.stats.node_slots == p.stats.node_slots,
        p.after_inputs(groups, index, t, opts).0.stats.zero_output_txs == p.stats.zero_output_txs,
    decreases groups.len() - index,
{
    if index < groups.len() {
        let (next, e) = p.after_input(groups[index as int], index as usize, t, opts);
        lemma_inputs_keep_output_counters(next, groups, index + 1, t, opts);
    }
}

/// A line that carries nothing is tallied as blank where it is white space, and
/// as skipped where it is no record; no node, arc or other counter changes.
pub proof fn lines_without_records_are_tallied(
    p: Pass,
    b: Seq<u8>,
    line: u64,
    opts: EdgeListOpts,
)
    requires
        valid_utf8(b),
        p.stats.blank_lines < u64::MAX,
        p.stats.skipped_lines < u64::MAX,
    ensures
        record::is_blank_line(b) ==> ({
            let (q, e) = p.after_line(b, line, opts);
            &&& e is None
            &&& q.map == p.map && q.arcs == p.arcs
            &&& q.stats.blank_lines == p.stats.blank_lines + 1
            &&& q.stats.skipped_lines == p.stats.skipped_lines
            &&& q.stats.tx_count == p.stats.tx_count
        }),
        !record::is_blank_line(b) && opts.mode is Lenient && record::record_of(
            record::stripped(b),
            line,
            opts.mode,
        ) is Err ==> ({
            let (q, e) = p.after_line(b, line, opts);
            &&& e is None
            &&& q.map == p.map && q.arcs == p.arcs
            &&& q.stats.skipped_lines == p.stats.skipped_lines + 1
            &&& q.stats.blank_lines == p.stats.blank_lines
            &&& q.stats.tx_count == p.stats.tx_count
        }),
{
    if record::is_blank_line(b) {
        blank_lines_are_tallied(p, b, line, opts);
    } else if opts.mode is Lenient && record::record_of(record::stripped(b), line, opts.mode) is Err {
        lenient_mode_skips_malformed_lines(p, b, line, opts);
    }
}

/// A line that is not valid UTF-8 ends a strict pass, with the place where it
/// goes wrong; a lenient pass reads what can be made of it, and tallies it.
pub proof fn undecodable_lines_are_tallied(p: Pass, b: Seq<u8>, line: u64, opts: EdgeListOpts)
    requires
        !valid_utf8(b),
        p.stats.non_utf8_lines < u64::MAX,
    ensures
        opts.mode is Strict ==> ({
            let (q, e) = p.after_line(b, line, opts);
            &&& q == p
            &&& e matches Some(crate::error::ErrorView::InvalidUtf8 { line: at, offset }) && {
                &&& at == line
                &&& forall|n: int| #[trigger]
                    text::is_valid_prefix_len(b, n) && n <= usize::MAX ==> offset == n
            }
        }),
        opts.mode is Lenient ==> p.after_line(b, line, opts).0.stats.non_utf8_lines
            == p.stats.non_utf8_lines + 1,
{
    if opts.mode is Strict {
        assert forall|n: int| #[trigger] text::is_valid_prefix_len(b, n) implies
            text::valid_prefix_len(b) == n by {
            text::lemma_valid_prefix_len(b, n);
        }
    } else {
        let q = p.lossy();
        let c = encode_utf8(text::utf8_lossy(b));
        if let Ok(Some(rec)) = record::line_of(c, line, opts.mode) {
            let n = rec.num_outputs as nat;
            if let Ok(map) = q.map.registered(rec.tx_id, n, line) {
                let t = Target { line, tx_id: rec.tx_id, ids: map.ids_of(rec.tx_id, n) };
                lemma_inputs_keep_line_counters(
                    q.after_outputs(rec, map),
                    record::input_groups(rec.inputs_section),
                    0,
                    t,
                    opts,
                );
            }
        }
    }
}

/// Progress is due with every so many transactions, and between them it is not;
/// where it is not wanted it is never due.
pub proof fn progress_is_due_with_every_so_many(
    k: u64,
    d: u64,
    opts: EdgeListOpts,
    on_time: bool,
    between: bool,
)
    requires
        opts.progress_every > 0,
        k * opts.progress_every + d <= u64::MAX,
        0 < d < opts.progress_every,
        call_ensures(progress_due, ((k * opts.progress_every) as u64, &opts), on_time),
        call_ensures(progress_due, ((k * opts.progress_every + d) as u64, &opts), between),
    ensures
        on_time == !opts.quiet_stats,
        !between,
{
    let n = opts.progress_every as int;
    vstd::arithmetic::div_mod::lemma_mod_multiples_vanish(k as int, 0, n);
    vstd::arithmetic::div_mod::lemma_mod_multiples_vanish(k as int, d as int, n);
    vstd::arithmetic::div_mod::lemma_small_mod(d as nat, n as nat);
    vstd::arithmetic::div_mod::lemma_small_mod(0, n as nat);
    assert(n * k == k * n) by (nonlinear_arith);
}

/// The statistics tell how many transactions there were and how long they took,
/// and how many nodes and arcs; where more is asked for, every other counter.
#[verifier::spinoff_prover]
#[verifier::rlimit(50)]
pub proof fn statistics_tell_the_counters(stats: EdgeListStats)
    ensures
        ({
            let brief = stats_text(stats, StatsStyle::Brief);
            let long = stats_text(stats, StatsStyle::Extended);
            let progress = progress_text(stats.tx_count, stats.elapsed_secs);
            &&& progress.is_prefix_of(brief)
            &&& brief.is_prefix_of(long)
            &&& text::tells(
                progress,
                "Processed: "@ + text::decimal(stats.tx_count as nat) + " transactions (after "@
                    + text::decimal(stats.elapsed_secs as nat) + " seconds).\n"@,
            )
            &&& text::tells(
                brief,
                "Nodes: "@ + text::decimal(stats.node_slots as nat) + "\tEdges: "@ + text::decimal(
                    stats.edge_count as nat,
                ) + "\n"@,
            )
            &&& text::tells(
                long,
                "Distinct nodes: "@ + text::decimal(stats.distinct_nodes as nat)
                    + "\tOutput slots: "@ + text::decimal(stats.node_slots as nat),
            )
            &&& text::tells(
                long,
                "\nSkipped lines: "@ + text::decimal(stats.skipped_lines as nat)
                    + "\tBlank lines: "@ + text::decimal(stats.blank_lines as nat)
                    + "\tDangling refs: "@ + text::decimal(stats.dangling_refs as nat)
                    + "\tZero-output txs: "@ + text::decimal(stats.zero_output_txs as nat) + "\n"@,
            )
        }),
{
    let brief = stats_text(stats, StatsStyle::Brief);
    let long = stats_text(stats, StatsStyle::Extended);
    let progress = progress_text(stats.tx_count, stats.elapsed_secs);
    let none = Seq::<char>::empty();
    let nodes = "Nodes: "@ + text::decimal(stats.node_slots as nat) + "\tEdges: "@ + text::decimal(
        stats.edge_count as nat,
    ) + "\n"@;
    let distinct = "Distinct nodes: "@ + text::decimal(stats.distinct_nodes as nat)
        + "\tOutput slots: "@ + text::decimal(stats.node_slots as nat);
    let lines = "\nSkipped lines: "@ + text::decimal(stats.skipped_lines as nat)
        + "\tBlank lines: "@ + text::decimal(stats.blank_lines as nat) + "\tDangling refs: "@
        + text::decimal(stats.dangling_refs as nat) + "\tZero-output txs: "@ + text::decimal(
        stats.zero_output_txs as nat,
    ) + "\n"@;
    assert(brief =~= progress + nodes + none);
    assert(long =~= brief + distinct + lines);
    assert(brief.take(progress.len() as int) =~= progress);
    assert(long.take(brief.len() as int) =~= brief);
    text::lemma_tells(progress, none, progress, none);
    text::lemma_tells(brief, progress, nodes, none);
    text::lemma_tells(long, brief, distinct, lines);
    text::lemma_tells(long, brief + distinct, lines, none);
}

/// Inputs are walked in their order, each with its place, and the first that is
/// refused ends the record.
pub proof fn the_first_refused_input_ends_its_record(
    p: Pass,
    groups: Seq<Seq<u8>>,
    index: nat,
    t: Target,
    opts: EdgeListOpts,
)
    requires
        index < groups.len() <= usize::MAX,
    ensures
        ({
            let (q, e) = p.after_input(groups[index as int], index as usize, t, opts);
            &&& e is Some ==> p.after_inputs(groups, index, t, opts) == (q, e)
            &&& e is None ==> p.after_inputs(groups, index, t, opts) == q.after_inputs(
                groups,
                index + 1,
                t,
                opts,
            )
            &&& p.after_inputs(groups, groups.len(), t, opts) == (
                p,
                None::<crate::error::ErrorView>,
            )
        }),
{
}

/// A record that is refused is not counted as a transaction. Where its id is
/// refused, it leaves no node and no arc.
pub proof fn refused_records_are_not_counted(
    p: Pass,
    rec: record::RecordView,
    line: u64,
    opts: EdgeListOpts,
)
    requires
        p.after_record(rec, line, opts).1 is Some,
    ensures
        p.after_record(rec, line, opts).0.stats.tx_count == p.stats.tx_count,
        p.map.registered(rec.tx_id, rec.num_outputs as nat, line) matches Err(e)
            ==> p.after_record(rec, line, opts) == (p, Some(e)),
{
    if let Ok(map) = p.map.registered(rec.tx_id, rec.num_outputs as nat, line) {
        let t = Target {
            line,
            tx_id: rec.tx_id,
            ids: map.ids_of(rec.tx_id, rec.num_outputs as nat),
        };
        let groups = record::input_groups(rec.inputs_section);
        lemma_inputs_keep_line_counters(p.after_outputs(rec, map), groups, 0, t, opts);
    }
}

} // verus!
