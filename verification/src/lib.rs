//! `utxo2webgraph` turns a Bitcoin transaction list into the arc list of a
//! directed graph.
//!
//! A node is one transaction *output*, identified by the pair
//! `(txId, offset)` and given a dense [`NodeId`] by [`nodemap`]. An arc runs
//! from a spent output to each output of the transaction that spent it.
//!
//! The stages, each usable on its own:
//!
//! * [`split`] cuts a whole-chain transaction list into chunks of months;
//! * [`record`] and [`edge_list`] read records and emit node ids and arcs;
//! * [`arcs`] sorts and deduplicates the arcs, in runs that can be stored
//!   outside memory, and merges the runs;
//! * [`compress`] checks what is handed to a graph compressor and what it
//!   reports back.
//!
//! [`pipeline`] runs the last three as one. [`cli`] holds the options of a run,
//! [`plan`] what a run decides by them, and [`report`] the plan in words.
//!
//! Reading and writing files is left to the program around the library: the
//! functions here take bytes and plain values, and give bytes and plain values
//! back.
use vstd::prelude::*;

pub mod arcs;
pub mod calendar;
pub mod cli;
pub mod compress;
pub mod edge_list;
pub mod error;
pub mod memory;
pub mod merge;
pub mod nodemap;
pub mod path;
pub mod pipeline;
pub mod plan;
pub mod record;
pub mod report;
pub mod sorter;
pub mod split;
pub mod text;

pub use crate::error::Error;
pub use crate::memory::{
    free_space_bytes, parse_memory_spec, sync_is_meaningless, total_memory_bytes, MemorySpec,
};

verus! {

/// A dense node identifier.
pub type NodeId = usize;

/// Result alias used by every library function in this crate.
pub type Result<T> = std::result::Result<T, Error>;

/// A 32-bit signed value read as unsigned: itself, or its two's complement.
pub open spec fn half(v: i32) -> int {
    if v < 0 {
        v + 0x1_0000_0000
    } else {
        v as int
    }
}

/// The key of `(tx_id, offset)`: the transaction id in the upper 32 bits, the
/// offset in the lower 32.
pub open spec fn packed(tx_id: i32, offset: i32) -> u64 {
    (half(tx_id) * 0x1_0000_0000 + half(offset)) as u64
}

/// Packs a `(txId, offset)` pair into the `u64` key the node map's side table
/// is addressed by.
///
/// This is a lookup key in the input's own coordinates, not a [`NodeId`].
pub fn pack(tx_id: i32, offset: i32) -> (r: u64)
    ensures
        r == packed(tx_id, offset),
{
    let hi: u32 = tx_id as u32;
    let lo: u32 = offset as u32;
    proof {
        assert(hi == if tx_id < 0 { tx_id + 0x1_0000_0000 } else { tx_id as int }) by (bit_vector)
            requires
                hi == tx_id as u32,
        ;
        assert(lo == if offset < 0 { offset + 0x1_0000_0000 } else { offset as int }) by (bit_vector)
            requires
                lo == offset as u32,
        ;
        assert((((hi as u64) << 32) | (lo as u64)) == hi * 0x1_0000_0000 + lo) by (bit_vector);
    }
    ((hi as u64) << 32) | (lo as u64)
}

/// Inverse of [`pack`].
pub fn unpack(key: u64) -> (r: (i32, i32))
    ensures
        packed(r.0, r.1) == key,
{
    let hi: u32 = (key >> 32) as u32;
    let lo: u32 = key as u32;
    let tx_id: i32 = hi as i32;
    let offset: i32 = lo as i32;
    proof {
        assert(hi == if tx_id < 0 { tx_id + 0x1_0000_0000 } else { tx_id as int }) by (bit_vector)
            requires
                tx_id == hi as i32,
        ;
        assert(lo == if offset < 0 { offset + 0x1_0000_0000 } else { offset as int }) by (bit_vector)
            requires
                offset == lo as i32,
        ;
        assert(key == hi * 0x1_0000_0000 + lo) by (bit_vector)
            requires
                hi == (key >> 32) as u32,
                lo == key as u32,
        ;
    }
    (tx_id, offset)
}

/// The upper 32 bits of a key are the transaction id, the lower 32 bits are the
/// offset; a negative number stands as what it is short of 2^32.
pub proof fn keys_hold_both_numbers(tx_id: i32, offset: i32)
    ensures
        tx_id >= 0 ==> packed(tx_id, offset) as int / 0x1_0000_0000 == tx_id,
        tx_id < 0 ==> packed(tx_id, offset) as int / 0x1_0000_0000 == 0x1_0000_0000 + tx_id,
        offset >= 0 ==> packed(tx_id, offset) as int % 0x1_0000_0000 == offset,
        offset < 0 ==> packed(tx_id, offset) as int % 0x1_0000_0000 == 0x1_0000_0000 + offset,
{
}

/// Two distinct `(txId, offset)` pairs, negative ones included, never share a
/// key.
pub proof fn pack_is_injective(a: (i32, i32), b: (i32, i32))
    requires
        packed(a.0, a.1) == packed(b.0, b.1),
    ensures
        a == b,
{
}

/// One past the largest node id there is.
pub open spec fn id_range() -> int {
    usize::MAX + 1
}

/// The packed form of an arc: the source in the upper 64 bits, the destination
/// in the lower 64.
pub open spec fn packed_arc(src: NodeId, dst: NodeId) -> u128 {
    (src * 0x1_0000_0000_0000_0000 + dst) as u128
}

/// The arc that `a` packs. On a target whose node ids are narrower than 64
/// bits the upper bits of each half are lost.
pub open spec fn unpacked_arc(a: u128) -> (NodeId, NodeId) {
    (
        ((a as int / 0x1_0000_0000_0000_0000) % id_range()) as usize,
        ((a as int % 0x1_0000_0000_0000_0000) % id_range()) as usize,
    )
}

/// Packs an arc into one `u128`, `(src << 64) | dst`. It cannot fail and has no
/// ceiling.
pub fn pack_arc(src: NodeId, dst: NodeId) -> (r: u128)
    ensures
        r == packed_arc(src, dst),
{
    let s: u64 = src as u64;
    let d: u64 = dst as u64;
    assert((((s as u128) << 64) | (d as u128)) == s * 0x1_0000_0000_0000_0000 + d) by (bit_vector);
    ((s as u128) << 64) | (d as u128)
}

proof fn lemma_narrow(wide: u64, id: usize)
    requires
        id == wide as usize,
    ensures
        id == wide as int % id_range(),
{
    if usize::BITS == 64 {
        vstd::arithmetic::div_mod::lemma_small_mod(wide as nat, id_range() as nat);
    } else {
        assert(id_range() == 0x1_0000_0000);
        assert(id == wide % 0x1_0000_0000) by (bit_vector)
            requires
                id == wide as usize,
                usize::BITS == 32,
        ;
    }
}

/// Inverse of [`pack_arc`].
pub fn unpack_arc(a: u128) -> (r: (NodeId, NodeId))
    ensures
        r == unpacked_arc(a),
{
    let hi: u64 = (a >> 64) as u64;
    let lo: u64 = a as u64;
    let src: usize = hi as usize;
    let dst: usize = lo as usize;
    proof {
        assert(a == hi * 0x1_0000_0000_0000_0000 + lo) by (bit_vector)
            requires
                hi == (a >> 64) as u64,
                lo == a as u64,
        ;
        lemma_narrow(hi, src);
        lemma_narrow(lo, dst);
    }
    (src, dst)
}


/// The round trip through [`pack_arc`] and [`unpack_arc`] is exact for every
/// pair of node ids.
pub proof fn pack_arc_round_trips(src: NodeId, dst: NodeId)
    ensures
        unpacked_arc(packed_arc(src, dst)) == (src, dst),
{
    let a = packed_arc(src, dst);
    assert(a as int / 0x1_0000_0000_0000_0000 == src);
    assert(a as int % 0x1_0000_0000_0000_0000 == dst);
    vstd::arithmetic::div_mod::lemma_small_mod(src as nat, id_range() as nat);
    vstd::arithmetic::div_mod::lemma_small_mod(dst as nat, id_range() as nat);
}

/// The upper 64 bits of a packed arc are its source, the lower 64 bits are its
/// destination.
pub proof fn packed_arcs_hold_both_ends(src: NodeId, dst: NodeId)
    ensures
        packed_arc(src, dst) as int / 0x1_0000_0000_0000_0000 == src,
        packed_arc(src, dst) as int % 0x1_0000_0000_0000_0000 == dst,
{
}

/// Ascending packed values are arcs ascending by source and then by
/// destination.
pub proof fn pack_arc_preserves_order(a: (NodeId, NodeId), b: (NodeId, NodeId))
    ensures
        packed_arc(a.0, a.1) < packed_arc(b.0, b.1) <==> (a.0 < b.0 || (a.0 == b.0 && a.1 < b.1)),
        packed_arc(a.0, a.1) == packed_arc(b.0, b.1) <==> a == b,
{
}


/// Bytes one packed arc occupies, in memory and on disk.
///
/// This is an on-disk record width: the binary arc formats carry no header, so
/// every reader goes by this number alone.
pub const ARC_RECORD_SIZE: usize = 16;

/// How often the edge-list builder reports progress, in transactions.
pub const DEFAULT_PROGRESS_EVERY: u64 = 10_000_000;

/// How malformed input is treated.
#[derive(Copy, Clone, Debug, PartialEq, Eq, Structural, Default)]
pub enum Mode {
    /// Any malformed record is a fatal, line-numbered error.
    #[default]
    Strict,
    /// Malformed records are skipped and tallied. Blank lines are skipped in
    /// *both* modes.
    Lenient,
}

/// What to do when an input references an output that was never registered.
#[derive(Copy, Clone, Debug, PartialEq, Eq, Structural, Default)]
pub enum OnMissingSource {
    /// Abort with [`Error::DanglingSource`], naming the line and the pair.
    #[default]
    Fail,
    /// Emit no edges for that input; tally it.
    Skip,
    /// Mint a node for it on the fly. Changes the id space.
    Create,
}

/// Statistics output style.
#[derive(Copy, Clone, Debug, PartialEq, Eq, Structural, Default)]
pub enum StatsStyle {
    /// Two lines: the progress line, then `Nodes:` and `Edges:`.
    #[default]
    Brief,
    /// The [`StatsStyle::Brief`] lines plus corrected and extra counters.
    Extended,
}

/// Run-sorting backend.
#[derive(Copy, Clone, Debug, PartialEq, Eq, Structural, Default)]
pub enum SortAlgo {
    /// `rdst` radix sort.
    #[default]
    Radix,
    /// `rayon` pattern-defeating quicksort, the cross-check for the other.
    Pdq,
}

/// A sink for raw, unsorted arcs produced by the edge-list builder.
///
/// [`ArcSink::push`] is called in emission order: input line order, then input
/// index ascending, then output offset ascending. An implementation keeps that
/// order and drops nothing: duplicates and self-loops are part of the stream.
pub trait ArcSink: Sized {
    /// The type of [`ArcSink::setting`].
    type Setting;

    /// What a sink keeps, whatever is pushed into it.
    spec fn setting(&self) -> Self::Setting;

    /// The arcs accepted so far, in the order in which they came.
    spec fn arcs(&self) -> Seq<(NodeId, NodeId)>;

    /// The sink's own invariant.
    spec fn valid(&self) -> bool;

    /// Whether [`ArcSink::finish`] has been called.
    spec fn finished(&self) -> bool;

    /// The error that the sink has reported, if it has reported one. That of a
    /// sink that never fails is none, always.
    spec fn failure(&self) -> Option<crate::error::ErrorView>;

    /// Accepts one arc, in emission order.
    fn push(&mut self, src: NodeId, dst: NodeId) -> (r: Result<()>)
        requires
            old(self).valid(),
            !old(self).finished(),
            old(self).failure() is None,
            old(self).arcs().len() < u64::MAX,
        ensures
            final(self).valid(),
            final(self).setting() == old(self).setting(),
            !final(self).finished(),
            match r {
                Ok(_) => final(self).failure() is None && final(self).arcs() == old(self).arcs().push((src, dst)),
                Err(e) => final(self).failure() == Some(e@) && final(self).arcs() == old(self).arcs(),
            },
    ;

    /// Flushes and durably commits. Must be called exactly once.
    fn finish(&mut self) -> (r: Result<()>)
        requires
            old(self).valid(),
            !old(self).finished(),
            old(self).failure() is None,
        ensures
            final(self).valid(),
            final(self).setting() == old(self).setting(),
            final(self).arcs() == old(self).arcs(),
            final(self).finished(),
            match r {
                Ok(_) => final(self).failure() is None,
                Err(e) => final(self).failure() == Some(e@),
            },
    ;
}

/// Where a reader that hands out plain arcs leaves the error that ended it.
/// Callers must check it once the reader is exhausted, by [`take_iter_error`].
#[derive(Debug)]
pub struct ErrorSlot {
    /// The error, if there was one.
    pub error: Option<Error>,
}

/// Creates a fresh, empty [`ErrorSlot`].
pub fn new_error_slot() -> (r: ErrorSlot)
    ensures
        r.error is None,
{
    ErrorSlot { error: None }
}

impl ErrorSlot {
    /// Leaves `e` in the slot, unless an earlier error is there.
    pub fn record(&mut self, e: Error)
        ensures
            final(self).error == if old(self).error is None {
                Some(e)
            } else {
                old(self).error
            },
    {
        if self.error.is_none() {
            self.error = Some(e);
        }
    }
}

/// Takes the error out of a slot, if any.
pub fn take_iter_error(slot: &mut ErrorSlot) -> (r: Result<()>)
    ensures
        final(slot).error is None,
        match old(slot).error {
            Some(e) => r == Err::<(), Error>(e),
            None => r is Ok,
        },
{
    match slot.error.take() {
        Some(e) => Err(e),
        None => Ok(()),
    }
}


/// A number, capped at what a `u64` holds.
pub open spec fn capped(n: nat) -> u64 {
    if n <= u64::MAX {
        n as u64
    } else {
        u64::MAX
    }
}

/// What fits is not capped, and what does not is the largest that fits.
pub proof fn only_what_does_not_fit_is_capped(n: nat)
    ensures
        n <= u64::MAX ==> capped(n) == n,
        n > u64::MAX ==> capped(n) == u64::MAX,
{
}

/// A product, capped at what a `u64` holds.
pub fn mul_capped(a: u64, b: u64) -> (r: u64)
    ensures
        r == capped(a as nat * b as nat),
{
    match a.checked_mul(b) {
        Some(v) => v,
        None => u64::MAX,
    }
}

} // verus!
