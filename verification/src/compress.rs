//! What stands around a graph compressor: the checks before it runs, the check
//! of every arc that is handed to it, and the check of what it leaves behind.
//!
//! A graph compressor trusts its input: unsorted arcs make it panic, an arc
//! from a node it does not have is silently dropped, and one to such a node is
//! written. [`Validate`] turns all of these into errors.
use crate::arcs;
use crate::error::{quoted, Error};
use crate::path;
use crate::path::file_name;
use crate::sorter::SortedArcs;
use crate::text;
use crate::text::{
    append_decimal, cut_at, find_byte, parse_u64, same_text, trimmed_text, utf8_text_lossy,
};
use crate::{NodeId, Result};
use vstd::prelude::*;
use vstd::string::*;
use vstd::utf8::*;

verus! {

// ---------------------------------------------------------------------------
// Options and statistics
// ---------------------------------------------------------------------------
/// How much of the finished graph is read back.
#[derive(Copy, Clone, Debug, PartialEq, Eq, Structural, Default)]
pub enum VerifyLevel {
    /// No verification at all.
    Off,
    /// The properties exist, the node count matches and the *declared* arc
    /// count matches.
    #[default]
    Quick,
    /// The same, plus a full decompression that counts every arc.
    Full,
}

/// Configuration of a compression.
#[derive(Debug)]
pub struct CompressOpts {
    /// Number of nodes in the produced graph. Nothing infers it, and nothing
    /// bounds it.
    pub num_nodes: usize,
    /// Directory for intermediate files.
    pub tmp_dir: String,
    /// Threads for the parallel path; zero for the default.
    pub threads: usize,
    /// Memory budget of the parallel external sort.
    pub memory_bytes: u64,
    /// Use the parallel path. Not byte-identical to the sequential one.
    pub parallel: bool,
    /// Also build the index needed for random access.
    pub build_ef: bool,
    /// Permit an edge list with no arcs.
    pub allow_empty: bool,
    /// How thoroughly the graph is read back.
    pub verify: VerifyLevel,
    /// How often progress is reported, in milliseconds.
    pub log_interval: u128,
}

impl Default for CompressOpts {
    fn default() -> (r: Self)
        ensures
            r.num_nodes == 0,
            r.tmp_dir@ == "./tmp"@,
            r.threads == 0,
            r.memory_bytes == 0x1000_0000,
            !r.parallel,
            !r.build_ef,
            !r.allow_empty,
            r.verify == VerifyLevel::Quick,
            r.log_interval == 10_000,
    {
        CompressOpts {
            num_nodes: 0,
            tmp_dir: "./tmp".to_owned(),
            threads: 0,
            memory_bytes: 0x1000_0000,
            parallel: false,
            build_ef: false,
            allow_empty: false,
            verify: VerifyLevel::Quick,
            log_interval: 10_000,
        }
    }
}

/// What a compression produced.
#[derive(Copy, Clone, Debug, PartialEq, Eq, Structural)]
pub struct CompressStats {
    /// Nodes in the graph.
    pub nodes: usize,
    /// Arcs written.
    pub arcs: u64,
    /// Length of the graph bitstream in bits.
    pub bits: u64,
}

impl Default for CompressStats {
    fn default() -> (r: Self)
        ensures
            r == (CompressStats { nodes: 0, arcs: 0, bits: 0 }),
    {
        CompressStats { nodes: 0, arcs: 0, bits: 0 }
    }
}

// ---------------------------------------------------------------------------
// Basenames
// ---------------------------------------------------------------------------
/// A basename that can be given extensions: its file name has no `.` in it.
pub open spec fn is_basename(p: Seq<u8>) -> bool {
    path::file_name_of(p) is Some && !path::file_name_of(p)->0.contains(46)
}

/// Refuses a basename whose file name contains a `.`: what is taken for an
/// extension there would be replaced, and another graph written over.
pub fn sanitize_basename(p: &str) -> (r: Result<()>)
    ensures
        match r {
            Ok(_) => is_basename(p.spec_bytes()),
            Err(e) => !is_basename(p.spec_bytes()) && e@ == crate::error::ErrorView::BadBasename(
                p@,
            ),
        },
{
    match file_name(p) {
        None => Err(Error::BadBasename(p.to_owned())),
        Some(name) => {
            let b = name.as_bytes();
            let dot: usize = find_byte(b, 46, 0);
            if dot < b.len() {
                assert(b@[dot as int] == 46);
                return Err(Error::BadBasename(p.to_owned()));
            }
            Ok(())
        },
    }
}

// ---------------------------------------------------------------------------
// Before a compression
// ---------------------------------------------------------------------------
/// What has to hold before arcs are handed to the compressor: a usable
/// basename, and arcs unless none are permitted.
pub fn check_request(basename: &str, num_arcs: u64, allow_empty: bool) -> (r: Result<()>)
    ensures
        match r {
            Ok(_) => is_basename(basename.spec_bytes()) && (num_arcs > 0 || allow_empty),
            Err(e) => if !is_basename(basename.spec_bytes()) {
                e@ == crate::error::ErrorView::BadBasename(basename@)
            } else {
                num_arcs == 0 && !allow_empty && e@ == crate::error::ErrorView::EmptyEdgeList
            },
        },
{
    match sanitize_basename(basename) {
        Ok(_) => {},
        Err(e) => {
            return Err(e);
        },
    }
    if num_arcs == 0 && !allow_empty {
        return Err(Error::EmptyEdgeList);
    }
    Ok(())
}

/// What is said of arcs that name a node the graph will not have.
pub open spec fn too_few_nodes(max_node_id: nat, num_nodes: nat) -> Seq<char> {
    "the arc set references node "@ + text::decimal(max_node_id)
        + " but the graph was asked for only "@ + text::decimal(num_nodes)
        + " nodes; pass --num-nodes from-arcs (which would give "@ + text::decimal(max_node_id + 1)
        + ") or a larger explicit value"@
}

/// Refuses arcs whose largest endpoint the graph will not have. It is found here
/// rather than in the middle of the stream, so that it is known before a long
/// compression starts. Where there are no arcs there is no endpoint, and any
/// node count will do.
pub fn check_endpoints(num_arcs: u64, max_node_id: NodeId, num_nodes: usize) -> (r: Result<()>)
    requires
        num_arcs > 0 ==> max_node_id < usize::MAX,
    ensures
        match r {
            Ok(_) => num_arcs == 0 || max_node_id < num_nodes,
            Err(e) => num_arcs > 0 && max_node_id >= num_nodes && e@
                == crate::error::ErrorView::Other(
                too_few_nodes(max_node_id as nat, num_nodes as nat),
            ),
        },
{
    if num_arcs > 0 && max_node_id >= num_nodes {
        let mut msg: String = "the arc set references node ".to_owned();
        append_decimal(&mut msg, max_node_id as u64);
        msg.append(" but the graph was asked for only ");
        append_decimal(&mut msg, num_nodes as u64);
        msg.append(" nodes; pass --num-nodes from-arcs (which would give ");
        append_decimal(&mut msg, (max_node_id + 1) as u64);
        msg.append(") or a larger explicit value");
        return Err(Error::other(msg));
    }
    Ok(())
}

/// What has to hold before a sorted arc set is handed to the compressor: also
/// that no endpoint is out of range. An empty arc set that is permitted fits any
/// node count, zero included.
pub fn check_arc_set(arcs: &SortedArcs, basename: &str, num_nodes: usize, allow_empty: bool) -> (r:
    Result<()>)
    requires
        arcs.valid(),
        crate::sorter::max_id(arcs.of()) < usize::MAX,
    ensures
        ({
            let good = is_basename(basename.spec_bytes());
            let empty = arcs.of().len() == 0;
            let max = crate::sorter::max_id(arcs.of());
            &&& r is Ok <==> good && if empty {
                allow_empty
            } else {
                max < num_nodes
            }
            &&& r matches Err(e) ==> e@ == if !good {
                crate::error::ErrorView::BadBasename(basename@)
            } else if empty {
                crate::error::ErrorView::EmptyEdgeList
            } else {
                crate::error::ErrorView::Other(too_few_nodes(max as nat, num_nodes as nat))
            }
        }),
{
    proof {
        arcs.lemma_empty();
    }
    let num_arcs: u64 = arcs.num_arcs();
    match check_request(basename, num_arcs, allow_empty) {
        Ok(_) => {},
        Err(e) => {
            return Err(e);
        },
    }
    check_endpoints(num_arcs, arcs.max_node_id(), num_nodes)
}

// ---------------------------------------------------------------------------
// Every arc on its way to the compressor
// ---------------------------------------------------------------------------
/// Ascending by source, then by destination, without repeats.
pub open spec fn arcs_ascend(arcs: Seq<(NodeId, NodeId)>) -> bool {
    forall|i: int, j: int|
        0 <= i < j < arcs.len() ==> arcs::arc_before(#[trigger] arcs[i], #[trigger] arcs[j], true)
}

/// Every endpoint is a node of the graph.
pub open spec fn arcs_in_bounds(arcs: Seq<(NodeId, NodeId)>, num_nodes: usize) -> bool {
    forall|i: int|
        0 <= i < arcs.len() ==> (#[trigger] arcs[i]).0 < num_nodes && arcs[i].1 < num_nodes
}

/// Checks, as the arcs stream past, that they are in bounds, ascending and
/// without repeats.
pub struct Validate {
    num_nodes: usize,
    prev: Option<(NodeId, NodeId)>,
    count: u64,
    passed: Ghost<Seq<(NodeId, NodeId)>>,
}

impl Validate {
    /// The declared node count.
    pub closed spec fn nodes(&self) -> usize {
        self.num_nodes
    }

    /// The arcs that were let past.
    pub closed spec fn passed(&self) -> Seq<(NodeId, NodeId)> {
        self.passed@
    }

    /// The check's invariant: what was let past is what a compressor can take.
    pub closed spec fn valid(&self) -> bool {
        &&& arcs_ascend(self.passed@)
        &&& arcs_in_bounds(self.passed@, self.num_nodes)
        &&& self.count == self.passed@.len() as int % 0x1_0000_0000_0000_0000
        &&& self.prev == if self.passed@.len() == 0 {
            None::<(NodeId, NodeId)>
        } else {
            Some(self.passed@.last())
        }
    }

    /// What is let past can be compressed: it is in bounds, ascending and without
    /// repeats.
    pub proof fn what_is_let_past_can_be_compressed(&self)
        requires
            self.valid(),
        ensures
            arcs_ascend(self.passed()),
            arcs_in_bounds(self.passed(), self.nodes()),
    {
    }

    /// Starts a check.
    pub fn new(num_nodes: usize) -> (r: Self)
        ensures
            r.valid(),
            r.nodes() == num_nodes,
            r.passed() == Seq::<(NodeId, NodeId)>::empty(),
    {
        Validate { num_nodes, prev: None, count: 0, passed: Ghost(Seq::empty()) }
    }

    /// Lets an arc past, or says what is wrong with it: first whether an
    /// endpoint is out of bounds, then whether it comes after the arc before
    /// it.
    pub fn check(&mut self, src: NodeId, dst: NodeId) -> (r: Result<()>)
        requires
            old(self).valid(),
        ensures
            final(self).valid(),
            final(self).nodes() == old(self).nodes(),
            ({
                let n = old(self).nodes();
                let inside = src < n && dst < n;
                let after = old(self).passed().len() == 0 || arcs::arc_before(
                    old(self).passed().last(),
                    (src, dst),
                    true,
                );
                match r {
                    Ok(_) => inside && after && final(self).passed() == old(self).passed().push(
                        (src, dst),
                    ),
                    Err(e) => {
                        &&& final(self).passed() == old(self).passed()
                        &&& !inside || !after
                        &&& e@ == if !inside {
                            crate::error::ErrorView::ArcOutOfBounds { src, dst, num_nodes: n }
                        } else {
                            crate::error::ErrorView::UnsortedArcs {
                                p_src: old(self).passed().last().0,
                                p_dst: old(self).passed().last().1,
                                c_src: src,
                                c_dst: dst,
                            }
                        }
                    },
                }
            }),
    {
        if src >= self.num_nodes || dst >= self.num_nodes {
            return Err(Error::ArcOutOfBounds { src, dst, num_nodes: self.num_nodes });
        }
        match self.prev {
            Some((p_src, p_dst)) => {
                if src < p_src || (src == p_src && dst <= p_dst) {
                    return Err(Error::UnsortedArcs { p_src, p_dst, c_src: src, c_dst: dst });
                }
            },
            None => {},
        }
        let ghost before = self.passed@;
        self.prev = Some((src, dst));
        self.count = self.count.wrapping_add(1);
        self.passed = Ghost(before.push((src, dst)));
        proof {
            let now = self.passed@;
            assert forall|i: int, j: int| 0 <= i < j < now.len() implies arcs::arc_before(
                #[trigger] now[i],
                #[trigger] now[j],
                true,
            ) by {
                if j < before.len() {
                    assert(now[i] == before[i] && now[j] == before[j]);
                } else if i < before.len() - 1 {
                    assert(arcs::arc_before(before[i], before[before.len() - 1], true));
                }
            }
            assert forall|i: int| 0 <= i < now.len() implies (#[trigger] now[i]).0
                < self.num_nodes && now[i].1 < self.num_nodes by {
                if i < before.len() {
                    assert(now[i] == before[i]);
                }
            }
            vstd::arithmetic::div_mod::lemma_add_mod_noop(
                before.len() as int,
                1,
                0x1_0000_0000_0000_0000,
            );
        }
        Ok(())
    }

    /// How many arcs were let past.
    pub fn count(&self) -> (r: u64)
        requires
            self.valid(),
        ensures
            r == self.passed().len() as int % 0x1_0000_0000_0000_0000,
    {
        self.count
    }
}

/// What comes out of a sort that drops duplicates is let past whole, where the
/// node count is above every endpoint.
pub proof fn sorted_arcs_are_let_past(arcs: Seq<(NodeId, NodeId)>, s: Seq<u128>, num_nodes: usize)
    requires
        crate::merge::lists(s, crate::sorter::arc_multiset(arcs), true),
        crate::sorter::max_id(arcs) < num_nodes,
    ensures
        arcs_ascend(arcs::unpacked_arcs(s)),
        arcs_in_bounds(arcs::unpacked_arcs(s), num_nodes),
{
    let out = arcs::unpacked_arcs(s);
    arcs::sorting_keeps_the_arcs(arcs, s, true);
    assert forall|i: int| 0 <= i < out.len() implies (#[trigger] out[i]).0 < num_nodes && out[i].1
        < num_nodes by {
        assert(out.contains(out[i]));
        let k = choose|k: int| 0 <= k < arcs.len() && arcs[k] == out[i];
        lemma_max_id(arcs, k);
    }
}

/// No endpoint is above the largest.
pub proof fn lemma_max_id(arcs: Seq<(NodeId, NodeId)>, k: int)
    requires
        0 <= k < arcs.len(),
    ensures
        arcs[k].0 <= crate::sorter::max_id(arcs),
        arcs[k].1 <= crate::sorter::max_id(arcs),
    decreases arcs.len(),
{
    if k < arcs.len() - 1 {
        assert(arcs.drop_last()[k] == arcs[k]);
        lemma_max_id(arcs.drop_last(), k);
    }
}

// ---------------------------------------------------------------------------
// What a compressor answers
// ---------------------------------------------------------------------------
/// How a compressor ended.
#[derive(Debug)]
pub enum CompressorReply {
    /// It panicked, with this message.
    Panicked(String),
    /// It could not sort the arcs, and reported this error.
    NotSorted(String),
    /// It could not compress the graph, and reported this error.
    Failed(String),
    /// It wrote this many bits.
    Wrote(u64),
}

/// What is made of a compressor's answer: the bits that it wrote, or an error.
pub open spec fn reply_result(reply: CompressorReply) -> std::result::Result<
    u64,
    crate::error::ErrorView,
> {
    match reply {
        CompressorReply::Panicked(msg) => Err(crate::error::ErrorView::CompressorPanic(msg@)),
        CompressorReply::NotSorted(msg) => Err(
            crate::error::ErrorView::Other("could not sort the arcs: "@ + msg@),
        ),
        CompressorReply::Failed(msg) => Err(
            crate::error::ErrorView::Other("could not compress the graph: "@ + msg@),
        ),
        CompressorReply::Wrote(bits) => Ok(bits),
    }
}

/// What is made of the end of a sequential compression. An arc that was not let
/// past is the root cause, whatever the compressor says: on a shorter arc
/// stream it succeeds, with a shorter graph.
pub fn sequential_outcome(bad_arc: Option<Error>, reply: CompressorReply) -> (r: Result<u64>)
    ensures
        match bad_arc {
            Some(e) => r == Err::<u64, Error>(e),
            None => match reply_result(reply) {
                Ok(bits) => r == Ok::<u64, Error>(bits),
                Err(e) => r is Err && r->Err_0@ == e,
            },
        },
{
    match bad_arc {
        Some(e) => Err(e),
        None => compressor_outcome(reply),
    }
}

/// What is made of a compressor's answer.
pub fn compressor_outcome(reply: CompressorReply) -> (r: Result<u64>)
    ensures
        match reply_result(reply) {
            Ok(bits) => r == Ok::<u64, Error>(bits),
            Err(e) => r is Err && r->Err_0@ == e,
        },
{
    match reply {
        CompressorReply::Panicked(msg) => Err(Error::CompressorPanic(msg)),
        CompressorReply::NotSorted(msg) => {
            let mut text: String = "could not sort the arcs: ".to_owned();
            text.append(msg.as_str());
            Err(Error::other(text))
        },
        CompressorReply::Failed(msg) => {
            let mut text: String = "could not compress the graph: ".to_owned();
            text.append(msg.as_str());
            Err(Error::other(text))
        },
        CompressorReply::Wrote(bits) => Ok(bits),
    }
}

/// A compression is complete only where its properties were written, as they
/// are written last.
pub fn check_complete(properties: &str, exists: bool) -> (r: Result<()>)
    ensures
        match r {
            Ok(_) => exists,
            Err(e) => !exists && e@ == incomplete(properties@),
        },
{
    if !exists {
        let mut msg: String = properties.to_owned();
        msg.append(" was not written: the compression did not run to completion");
        return Err(Error::other(msg));
    }
    Ok(())
}

// ---------------------------------------------------------------------------
// Properties
// ---------------------------------------------------------------------------
/// What a line of a properties file gives for a key: lines that begin with `#`
/// or `!` are comments; a name and a value have `=` between them and white
/// space around them.
pub open spec fn line_property(line: Seq<u8>, key: Seq<char>) -> Option<Seq<char>> {
    let t = encode_utf8(text::trim_white(decode_utf8(line)));
    let p = text::pieces(t, 61);
    if t.len() == 0 || t[0] == 35 || t[0] == 33 || p.len() < 2 || text::trim_white(
        decode_utf8(p[0]),
    ) != key {
        None
    } else {
        Some(text::trim_white(decode_utf8(t.skip(p[0].len() + 1 as int))))
    }
}

/// What some lines give for a key: what the first of them does that gives
/// anything.
pub open spec fn lines_property(lines: Seq<Seq<u8>>, key: Seq<char>) -> Option<Seq<char>>
    decreases lines.len(),
{
    if lines.len() == 0 {
        None
    } else if line_property(lines[0], key) is Some {
        line_property(lines[0], key)
    } else {
        lines_property(lines.drop_first(), key)
    }
}

/// What a properties text gives for a key.
pub open spec fn text_property(t: Seq<u8>, key: Seq<char>) -> Option<Seq<char>> {
    lines_property(text::pieces(t, 10), key)
}

/// Reads what a line of a properties file gives for a key.
fn parse_property(line: &str, key: &str) -> (r: Option<String>)
    ensures
        match r {
            Some(v) => line_property(line.spec_bytes(), key@) == Some(v@),
            None => line_property(line.spec_bytes(), key@) is None,
        },
{
    proof {
        encode_utf8_decode_utf8(line@);
    }
    let t: &str = trimmed_text(line);
    let b = t.as_bytes();
    if b.len() == 0 || b[0] == 35 || b[0] == 33 {
        return None;
    }
    let eq: usize = find_byte(b, 61, 0);
    if eq == b.len() {
        proof {
            assert(!b@.contains(61));
            text::lemma_pieces_single(b@, 61);
        }
        return None;
    }
    let (name, value) = cut_at(t, eq);
    proof {
        text::lemma_pieces_front(b@, 61, eq as int);
        text::lemma_pieces_len(b@.skip(eq + 1), 61);
        encode_utf8_decode_utf8(name@);
        encode_utf8_decode_utf8(value@);
    }
    if same_text(trimmed_text(name), key) {
        return Some(trimmed_text(value).to_owned());
    }
    None
}

/// Reads one property out of the text of a properties file.
pub fn find_property(properties: &str, key: &str) -> (r: Option<String>)
    ensures
        match r {
            Some(v) => text_property(properties.spec_bytes(), key@) == Some(v@),
            None => text_property(properties.spec_bytes(), key@) is None,
        },
{
    let mut rest: &str = properties;
    loop
        invariant
            text_property(rest.spec_bytes(), key@) == text_property(
                properties.spec_bytes(),
                key@,
            ),
        decreases rest.spec_bytes().len(),
    {
        let b = rest.as_bytes();
        let feed: usize = find_byte(b, 10, 0);
        if feed == b.len() {
            proof {
                assert(!b@.contains(10));
                text::lemma_pieces_single(b@, 10);
                assert(seq![b@].drop_first() =~= Seq::empty());
                reveal_with_fuel(lines_property, 2);
            }
            return parse_property(rest, key);
        }
        let (line, tail) = cut_at(rest, feed);
        proof {
            text::lemma_pieces_front(b@, 10, feed as int);
            let lines = text::pieces(b@, 10);
            assert(lines.drop_first() =~= text::pieces(b@.skip(feed + 1), 10));
        }
        match parse_property(line, key) {
            Some(v) => {
                return Some(v);
            },
            None => {},
        }
        rest = tail;
    }
}

/// The text of a properties file: its bytes, with what is not UTF-8 in them
/// replaced.
pub open spec fn properties_text(b: Seq<u8>) -> Seq<u8> {
    if valid_utf8(b) {
        b
    } else {
        encode_utf8(text::utf8_lossy(b))
    }
}

/// Reads one property out of the bytes of a properties file. Bytes that are not
/// UTF-8 do no harm: no key read here has any.
pub fn read_property(properties: &[u8], key: &str) -> (r: Option<String>)
    ensures
        match r {
            Some(v) => text_property(properties_text(properties@), key@) == Some(v@),
            None => text_property(properties_text(properties@), key@) is None,
        },
{
    let t: String = utf8_text_lossy(properties);
    find_property(t.as_str(), key)
}

/// The length in bits that a `length` property gives, or what is wrong with it.
pub open spec fn length_of(path: Seq<char>, value: Option<Seq<char>>) -> std::result::Result<
    u64,
    crate::error::ErrorView,
> {
    match value {
        Some(v) => match text::u64_value(encode_utf8(v)) {
            Some(n) => Ok(n),
            None => Err(
                crate::error::ErrorView::Other(
                    path + ": 'length' is not an integer ("@ + crate::error::debug_quoted(v) + ")"@,
                ),
            ),
        },
        None => Err(crate::error::ErrorView::Other(path + ": no 'length' property"@)),
    }
}

/// Reads the length in bits out of the value of a `length` property.
pub fn parse_length(path: &str, value: Option<String>) -> (r: Result<u64>)
    ensures
        match length_of(
            path@,
            match value {
                Some(v) => Some(v@),
                None => None,
            },
        ) {
            Ok(n) => r == Ok::<u64, Error>(n),
            Err(e) => r is Err && r->Err_0@ == e,
        },
{
    match value {
        Some(v) => match parse_u64(v.as_str()) {
            Some(n) => Ok(n),
            None => {
                let shown: String = quoted(v.as_str());
                let mut msg: String = path.to_owned();
                msg.append(": 'length' is not an integer (");
                msg.append(shown.as_str());
                msg.append(")");
                Err(Error::other(msg))
            },
        },
        None => {
            let mut msg: String = path.to_owned();
            msg.append(": no 'length' property");
            Err(Error::other(msg))
        },
    }
}

/// The number of meaningful bits of a graph, out of the bytes of its properties
/// file, which is named `path`.
pub fn graph_length_bits(path: &str, properties: &[u8]) -> (r: Result<u64>)
    ensures
        match length_of(
            path@,
            text_property(properties_text(properties@), "length"@),
        ) {
            Ok(n) => r == Ok::<u64, Error>(n),
            Err(e) => r is Err && r->Err_0@ == e,
        },
{
    parse_length(path, read_property(properties, "length"))
}

/// The arcs that an `arcs` property declares; zero where it declares none.
pub open spec fn declared_arcs(value: Option<Seq<char>>) -> u64 {
    match value {
        Some(v) => match text::u64_value(encode_utf8(v)) {
            Some(n) => n,
            None => 0,
        },
        None => 0,
    }
}

/// The arcs that a parallel compression wrote, as its properties declare them:
/// it never sees the arcs itself. None is an error unless it is permitted.
pub fn parallel_arcs(value: Option<String>, allow_empty: bool) -> (r: Result<u64>)
    ensures
        ({
            let n = declared_arcs(
                match value {
                    Some(v) => Some(v@),
                    None => None,
                },
            );
            match r {
                Ok(m) => m == n && (n > 0 || allow_empty),
                Err(e) => n == 0 && !allow_empty && e@ == crate::error::ErrorView::EmptyEdgeList,
            }
        }),
{
    let n: u64 = match value {
        Some(v) => match parse_u64(v.as_str()) {
            Some(n) => n,
            None => 0,
        },
        None => 0,
    };
    if n == 0 && !allow_empty {
        return Err(Error::EmptyEdgeList);
    }
    Ok(n)
}

/// What is said of a compression that left no properties.
pub open spec fn incomplete(properties: Seq<char>) -> crate::error::ErrorView {
    crate::error::ErrorView::Other(
        properties + " was not written: the compression did not run to completion"@,
    )
}

/// The result of a sequential compression of `arcs` arcs: an arc that was not
/// let past, else what the compressor reported, else that it left no
/// properties; where there is none of these, what it wrote.
pub fn sequential_result(
    bad_arc: Option<Error>,
    reply: CompressorReply,
    properties: &str,
    present: bool,
    nodes: usize,
    arcs: u64,
) -> (r: Result<CompressStats>)
    ensures
        match bad_arc {
            Some(e) => r == Err::<CompressStats, Error>(e),
            None => match reply_result(reply) {
                Err(e) => r is Err && r->Err_0@ == e,
                Ok(bits) => if present {
                    r == Ok::<CompressStats, Error>(CompressStats { nodes, arcs, bits })
                } else {
                    r is Err && r->Err_0@ == incomplete(properties@)
                },
            },
        },
{
    let bits: u64 = match sequential_outcome(bad_arc, reply) {
        Ok(n) => n,
        Err(e) => {
            return Err(e);
        },
    };
    match check_complete(properties, present) {
        Ok(_) => Ok(CompressStats { nodes, arcs, bits }),
        Err(e) => Err(e),
    }
}

/// The result of a parallel compression that wrote `bits` bits: that it wrote
/// no arcs, or left no properties; else what it wrote, by the arcs that its
/// properties declare.
pub fn parallel_result(
    bits: u64,
    declared: Option<String>,
    allow_empty: bool,
    properties: &str,
    present: bool,
    nodes: usize,
) -> (r: Result<CompressStats>)
    ensures
        ({
            let arcs = declared_arcs(
                match declared {
                    Some(v) => Some(v@),
                    None => None,
                },
            );
            if arcs == 0 && !allow_empty {
                r is Err && r->Err_0@ == crate::error::ErrorView::EmptyEdgeList
            } else if !present {
                r is Err && r->Err_0@ == incomplete(properties@)
            } else {
                r == Ok::<CompressStats, Error>(CompressStats { nodes, arcs, bits })
            }
        }),
{
    let arcs: u64 = match parallel_arcs(declared, allow_empty) {
        Ok(n) => n,
        Err(e) => {
            return Err(e);
        },
    };
    match check_complete(properties, present) {
        Ok(_) => Ok(CompressStats { nodes, arcs, bits }),
        Err(e) => Err(e),
    }
}

// ---------------------------------------------------------------------------
// Reading a graph back
// ---------------------------------------------------------------------------
/// What to do next in the verification of a graph.
#[derive(Copy, Clone, Debug, PartialEq, Eq, Structural)]
pub enum VerifyStep {
    /// Nothing: it is done.
    Done,
    /// Load the graph.
    Load,
    /// Decompress the graph and count its arcs.
    Count,
}

/// Begins a verification: nothing is to be done where none is asked for; else
/// the properties have to exist, as they are written last.
pub fn verify_begin(level: VerifyLevel, properties: &str, exists: bool) -> (r: Result<VerifyStep>)
    ensures
        match r {
            Ok(step) => if level is Off {
                step == VerifyStep::Done
            } else {
                exists && step == VerifyStep::Load
            },
            Err(e) => {
                &&& !(level is Off)
                &&& !exists
                &&& e@ == crate::error::ErrorView::Other(
                    properties@
                        + " is missing; it is written last, so the compression did not finish"@,
                )
            },
        },
{
    if level == VerifyLevel::Off {
        return Ok(VerifyStep::Done);
    }
    if !exists {
        let mut msg: String = properties.to_owned();
        msg.append(" is missing; it is written last, so the compression did not finish");
        return Err(Error::other(msg));
    }
    Ok(VerifyStep::Load)
}

/// What is said of a number that is not the expected one.
pub open spec fn unexpected(
    basename: Seq<char>,
    verb: Seq<char>,
    found: nat,
    what: Seq<char>,
    expected: nat,
) -> crate::error::ErrorView {
    crate::error::ErrorView::Other(
        basename + ": the graph "@ + verb + " "@ + text::decimal(found) + " "@ + what
            + ", expected "@ + text::decimal(expected),
    )
}

fn unexpected_number(basename: &str, verb: &str, found: u64, what: &str, expected: u64) -> (r: Error)
    ensures
        r@ == unexpected(basename@, verb@, found as nat, what@, expected as nat),
{
    let mut msg: String = basename.to_owned();
    msg.append(": the graph ");
    msg.append(verb);
    msg.append(" ");
    append_decimal(&mut msg, found);
    msg.append(" ");
    msg.append(what);
    msg.append(", expected ");
    append_decimal(&mut msg, expected);
    proof {
        let said = basename@ + ": the graph "@ + verb@ + " "@ + text::decimal(found as nat) + " "@
            + what@ + ", expected "@ + text::decimal(expected as nat);
        assert(msg@ =~= said);
    }
    Error::other(msg)
}

/// Checks what a loaded graph declares: the number of its nodes, and that of
/// its arcs where it declares one.
pub fn verify_header(
    basename: &str,
    level: VerifyLevel,
    nodes: usize,
    declared: Option<u64>,
    expected_nodes: usize,
    expected_arcs: u64,
) -> (r: Result<VerifyStep>)
    ensures
        ({
            let bad_nodes = nodes != expected_nodes;
            let bad_arcs = declared is Some && declared->0 != expected_arcs;
            match r {
                Ok(step) => !bad_nodes && !bad_arcs && step == if level is Full {
                    VerifyStep::Count
                } else {
                    VerifyStep::Done
                },
                Err(e) => (bad_nodes || bad_arcs) && e@ == if bad_nodes {
                    unexpected(basename@, "has"@, nodes as nat, "nodes"@, expected_nodes as nat)
                } else {
                    unexpected(
                        basename@,
                        "declares"@,
                        declared->0 as nat,
                        "arcs"@,
                        expected_arcs as nat,
                    )
                },
            }
        }),
{
    if nodes != expected_nodes {
        return Err(
            unexpected_number(basename, "has", nodes as u64, "nodes", expected_nodes as u64),
        );
    }
    match declared {
        Some(n) => {
            if n != expected_arcs {
                return Err(unexpected_number(basename, "declares", n, "arcs", expected_arcs));
            }
        },
        None => {},
    }
    if level == VerifyLevel::Full {
        return Ok(VerifyStep::Count);
    }
    Ok(VerifyStep::Done)
}

/// Checks the number of arcs that were counted.
pub fn verify_count(basename: &str, counted: u64, expected_arcs: u64) -> (r: Result<()>)
    ensures
        match r {
            Ok(_) => counted == expected_arcs,
            Err(e) => counted != expected_arcs && e@ == unexpected(
                basename@,
                "contains"@,
                counted as nat,
                "arcs"@,
                expected_arcs as nat,
            ),
        },
{
    if counted != expected_arcs {
        return Err(unexpected_number(basename, "contains", counted, "arcs", expected_arcs));
    }
    Ok(())
}

// ---------------------------------------------------------------------------
// What basenames, properties and answers mean
// ---------------------------------------------------------------------------
/// A basename is usable exactly where its last component has no point in it,
/// whatever the directories before it are called.
pub proof fn basenames_have_no_point(dir: Seq<u8>, name: Seq<u8>)
    requires
        path::is_name(name),
    ensures
        is_basename(dir.push(47) + name) <==> (forall|i: int|
            0 <= i < name.len() ==> #[trigger] name[i] != 46),
        is_basename(name) <==> (forall|i: int| 0 <= i < name.len() ==> #[trigger] name[i] != 46),
        !is_basename(Seq::empty()),
        !is_basename(dir.push(47).push(46).push(46)),
{
    path::files_are_named_by_their_last_component(dir, name);
}

/// All of it is white space.
pub open spec fn is_white(s: Seq<char>) -> bool {
    forall|i: int| 0 <= i < s.len() ==> text::is_white_space(#[trigger] s[i])
}

/// A property is read as it is written: a name, `=` and a value, with white
/// space before, between and behind them or not. Another name is not given a
/// value by it.
pub proof fn properties_are_read_as_written(
    before: Seq<char>,
    name: Seq<char>,
    left: Seq<char>,
    right: Seq<char>,
    value: Seq<char>,
    after: Seq<char>,
    other: Seq<char>,
)
    requires
        is_white(before) && is_white(left) && is_white(right) && is_white(after),
        name.len() > 0,
        value.len() > 0,
        is_ascii_chars(name) && is_ascii_chars(left),
        forall|i: int| 0 <= i < name.len() ==> #[trigger] name[i] != '=',
        !text::is_white_space(name[0]) && !text::is_white_space(name.last()),
        !text::is_white_space(value[0]) && !text::is_white_space(value.last()),
        name[0] != '#' && name[0] != '!',
        other != name,
    ensures
        ({
            let line = encode_utf8(
                before + (name + left + seq!['='] + right + value) + after,
            );
            &&& line_property(line, name) == Some(value)
            &&& line_property(line, other) is None
        }),
{
    let head = name + left;
    let tail = right + value;
    let s = name + left + seq!['='] + right + value;
    let t = encode_utf8(s);
    assert(s =~= head + seq!['='] + tail);
    assert(s[0] == name[0]);
    assert(s.last() == value.last());
    encode_utf8_decode_utf8(before + s + after);
    text::trimming_takes_white_space_off(before, s, after);
    text::lemma_encode_concat(head + seq!['='], tail);
    text::lemma_encode_concat(head, seq!['=']);
    assert(encode_utf8(seq!['=']) =~= seq![61u8]) by {
        is_ascii_chars_encode_utf8(seq!['=']);
    }
    assert forall|i: int| 0 <= i < head.len() implies '\0' <= #[trigger] head[i] <= '\u{7f}'
        && head[i] != '=' by {
        if i < name.len() {
            assert(head[i] == name[i]);
        } else {
            assert(head[i] == left[i - name.len()]);
            assert(text::is_white_space(left[i - name.len()]));
        }
    }
    is_ascii_chars_encode_utf8(head);
    let h = encode_utf8(head);
    assert(t =~= h + seq![61u8] + encode_utf8(tail));
    assert forall|i: int| 0 <= i < h.len() implies t[i] != 61 by {
        assert(t[i] == h[i]);
        assert(head[i] as u8 == h[i]);
    }
    assert(t[h.len() as int] == 61);
    text::lemma_pieces_front(t, 61, h.len() as int);
    text::lemma_pieces_len(t.skip(h.len() as int + 1), 61);
    assert(t.take(h.len() as int) =~= h);
    assert(t.skip(h.len() as int + 1) =~= encode_utf8(tail));
    assert(t[0] == h[0] && head[0] as u8 == h[0]);
    encode_utf8_decode_utf8(head);
    encode_utf8_decode_utf8(tail);
    text::trimming_takes_white_space_off(Seq::empty(), name, left);
    assert(Seq::<char>::empty() + name + left =~= head);
    text::trimming_takes_white_space_off(right, value, Seq::empty());
    assert(right + value + Seq::<char>::empty() =~= tail);
}

/// A comment gives nothing a value, whatever it holds.
pub proof fn comments_give_no_property(before: Seq<char>, rest: Seq<char>, key: Seq<char>)
    requires
        is_white(before),
        rest.len() > 0,
        rest[0] == '#' || rest[0] == '!',
        is_ascii_chars(rest),
        !text::is_white_space(rest.last()),
    ensures
        line_property(encode_utf8(before + rest), key) is None,
        line_property(encode_utf8(before), key) is None,
{
    encode_utf8_decode_utf8(before + rest);
    encode_utf8_decode_utf8(before);
    text::trimming_takes_white_space_off(before, rest, Seq::empty());
    text::trimming_takes_white_space_off(before, Seq::empty(), Seq::empty());
    assert(before + rest + Seq::<char>::empty() =~= before + rest);
    assert(before + Seq::<char>::empty() + Seq::<char>::empty() =~= before);
    is_ascii_chars_encode_utf8(rest);
    assert(rest[0] as u8 == encode_utf8(rest)[0]);
    is_ascii_chars_encode_utf8(Seq::<char>::empty());
}

/// The first line that gives a key a value is the one that counts; where none
/// does, it has none.
pub proof fn the_first_property_counts(lines: Seq<Seq<u8>>, key: Seq<char>, i: int)
    requires
        text::free_of(lines, 10),
        lines.len() > 0,
        0 <= i <= lines.len(),
        forall|k: int| 0 <= k < i ==> line_property(#[trigger] lines[k], key) is None,
        i < lines.len() ==> line_property(lines[i], key) is Some,
    ensures
        i < lines.len() ==> text_property(text::joined_by(lines, 10), key) == line_property(
            lines[i],
            key,
        ),
        i == lines.len() ==> text_property(text::joined_by(lines, 10), key) is None,
{
    text::cutting_undoes_joining(lines, 10);
    lemma_first_property(lines, key, i);
}

proof fn lemma_first_property(lines: Seq<Seq<u8>>, key: Seq<char>, i: int)
    requires
        0 <= i <= lines.len(),
        forall|k: int| 0 <= k < i ==> line_property(#[trigger] lines[k], key) is None,
        i < lines.len() ==> line_property(lines[i], key) is Some,
    ensures
        i < lines.len() ==> lines_property(lines, key) == line_property(lines[i], key),
        i == lines.len() ==> lines_property(lines, key) is None,
    decreases i,
{
    if i > 0 {
        assert(line_property(lines[0], key) is None);
        let rest = lines.drop_first();
        assert forall|k: int| 0 <= k < i - 1 implies line_property(#[trigger] rest[k], key) is None by {
            assert(rest[k] == lines[k + 1]);
        }
        lemma_first_property(rest, key, i - 1);
    }
}

/// A length, and a number of arcs, is the number that the property writes; a
/// length has to be there and to be one, and arcs that are not declared are
/// none.
pub proof fn numbers_of_a_graph_are_read(path: Seq<char>, n: u64, other: Seq<char>)
    requires
        text::u64_value(encode_utf8(other)) is None,
    ensures
        length_of(path, Some(text::decimal(n as nat))) == Ok::<u64, crate::error::ErrorView>(n),
        length_of(path, Some(other)) is Err,
        length_of(path, None) is Err,
        declared_arcs(Some(text::decimal(n as nat))) == n,
        declared_arcs(Some(other)) == 0,
        declared_arcs(None) == 0,
{
    text::lemma_decimal_encoding(n as nat);
    text::written_numbers_are_read(n as int);
}

/// A compressor that wrote a graph is believed; one that did anything else is
/// quoted.
pub proof fn compressors_are_quoted(bits: u64, msg: String)
    ensures
        reply_result(CompressorReply::Wrote(bits)) == Ok::<u64, crate::error::ErrorView>(bits),
        reply_result(CompressorReply::Panicked(msg)) == Err::<u64, crate::error::ErrorView>(
            crate::error::ErrorView::CompressorPanic(msg@),
        ),
        reply_result(CompressorReply::NotSorted(msg)) == Err::<u64, crate::error::ErrorView>(
            crate::error::ErrorView::Other("could not sort the arcs: "@ + msg@),
        ),
        reply_result(CompressorReply::Failed(msg)) == Err::<u64, crate::error::ErrorView>(
            crate::error::ErrorView::Other("could not compress the graph: "@ + msg@),
        ),
{
}

/// Arcs ascend where each is above the one before it, by source and then by
/// destination, so that none comes twice; they are in bounds where no endpoint
/// reaches the number of nodes.
pub proof fn compressible_arcs_ascend_within_bounds(
    arcs: Seq<(NodeId, NodeId)>,
    num_nodes: usize,
)
    ensures
        arcs_ascend(arcs) <==> (forall|i: int, j: int|
            0 <= i < j < arcs.len() ==> (#[trigger] arcs[i]).0 < (#[trigger] arcs[j]).0 || (
            arcs[i].0 == arcs[j].0 && arcs[i].1 < arcs[j].1)),
        arcs_in_bounds(arcs, num_nodes) <==> (forall|i: int|
            0 <= i < arcs.len() ==> (#[trigger] arcs[i]).0 < num_nodes && arcs[i].1 < num_nodes),
{
}

/// A graph that is read back passes exactly where it has the nodes and the arcs
/// that were expected; arcs that it does not declare are counted where all is to
/// be verified.
pub proof fn graphs_pass_where_they_are_as_expected(
    basename: &str,
    level: VerifyLevel,
    nodes: usize,
    declared: Option<u64>,
    expected_nodes: usize,
    expected_arcs: u64,
    counted: u64,
    header: Result<VerifyStep>,
    count: Result<()>,
)
    requires
        call_ensures(
            verify_header,
            (basename, level, nodes, declared, expected_nodes, expected_arcs),
            header,
        ),
        call_ensures(verify_count, (basename, counted, expected_arcs), count),
    ensures
        header is Ok <==> nodes == expected_nodes && (declared is None || declared->0
            == expected_arcs),
        header is Ok && level is Full ==> header->Ok_0 is Count,
        header is Ok && !(level is Full) ==> header->Ok_0 is Done,
        count is Ok <==> counted == expected_arcs,
{
}

/// Endpoints are refused exactly where the largest of them is no node of the
/// graph.
pub proof fn endpoints_have_to_be_nodes(
    num_arcs: u64,
    max_node_id: NodeId,
    num_nodes: usize,
    r: Result<()>,
)
    requires
        call_ensures(check_endpoints, (num_arcs, max_node_id, num_nodes), r),
    ensures
        r is Err <==> num_arcs > 0 && max_node_id >= num_nodes,
{
}

/// A compression gives what it wrote, unless an arc was not let past, the
/// compressor reported an error, or it left no properties. The nodes and arcs
/// are those that it was given.
pub proof fn compressions_give_what_they_wrote(
    bits: u64,
    properties: &str,
    present: bool,
    nodes: usize,
    arcs: u64,
    declared: String,
    allow_empty: bool,
    r: Result<CompressStats>,
    p: Result<CompressStats>,
)
    requires
        call_ensures(
            sequential_result,
            (None::<Error>, CompressorReply::Wrote(bits), properties, present, nodes, arcs),
            r,
        ),
        declared@ == text::decimal(arcs as nat),
        call_ensures(
            parallel_result,
            (bits, Some(declared), allow_empty, properties, present, nodes),
            p,
        ),
    ensures
        r is Ok <==> present,
        r is Ok ==> r->Ok_0 == (CompressStats { nodes, arcs, bits }),
        p is Ok <==> present && (arcs > 0 || allow_empty),
        p is Ok ==> p->Ok_0 == (CompressStats { nodes, arcs, bits }),
{
    text::lemma_decimal_encoding(arcs as nat);
    text::written_numbers_are_read(arcs as int);
}

/// What is said of a graph that cannot be, or is not as expected, tells the
/// numbers.
pub proof fn unexpected_numbers_are_told(
    basename: Seq<char>,
    verb: Seq<char>,
    found: nat,
    what: Seq<char>,
    expected: nat,
)
    ensures
        unexpected(basename, verb, found, what, expected) matches crate::error::ErrorView::Other(msg)
            && basename.is_prefix_of(msg) && text::tells(
            msg,
            verb + " "@ + text::decimal(found) + " "@ + what + ", expected "@ + text::decimal(
                expected,
            ),
        ),
        text::tells(
            too_few_nodes(found, expected),
            text::decimal(found) + " but the graph was asked for only "@ + text::decimal(expected)
                + " nodes; pass --num-nodes from-arcs (which would give "@ + text::decimal(
                found + 1,
            ),
        ),
        incomplete(basename) matches crate::error::ErrorView::Other(msg) && basename.is_prefix_of(
            msg,
        ),
{
    if let crate::error::ErrorView::Other(msg) = unexpected(
        basename,
        verb,
        found,
        what,
        expected,
    ) {
        assert(msg.take(basename.len() as int) =~= basename);
        text::lemma_tells(
            msg,
            basename + ": the graph "@,
            verb + " "@ + text::decimal(found) + " "@ + what + ", expected "@ + text::decimal(
                expected,
            ),
            Seq::empty(),
        );
    }
    text::lemma_tells(
        too_few_nodes(found, expected),
        "the arc set references node "@,
        text::decimal(found) + " but the graph was asked for only "@ + text::decimal(expected)
            + " nodes; pass --num-nodes from-arcs (which would give "@ + text::decimal(found + 1),
        ") or a larger explicit value"@,
    );
    if let crate::error::ErrorView::Other(msg) = incomplete(basename) {
        assert(msg.take(basename.len() as int) =~= basename);
    }
}

} // verus!
