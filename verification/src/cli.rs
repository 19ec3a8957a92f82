//! The command line: one command per pipeline stage, plus the two that run the
//! whole of it.
//!
//! These are the plain values that a command line resolves to, and the parsers
//! of those values that have a syntax of their own.
use crate::compress::VerifyLevel;
use crate::error::quoted;
use crate::text;
use crate::text::{append_char, parse_usize, same_text, trimmed_text, white_space};
use crate::{Mode, OnMissingSource, SortAlgo, StatsStyle};
use vstd::prelude::*;
use vstd::string::*;
use vstd::utf8::*;

verus! {

/// The command line.
#[derive(Debug)]
pub struct Cli {
    /// Options shared by every stage.
    pub common: CommonOpts,
    /// The stage to run.
    pub command: Command,
}

/// Options that apply to every stage.
#[derive(Debug)]
pub struct CommonOpts {
    /// Worker threads for sorting and compression. Default: all cores.
    pub threads: Option<usize>,
    /// Memory budget for in-memory sort runs, in bytes. It is the total budget,
    /// the sort's scratch buffer included.
    pub memory: Option<u64>,
    /// Directory for spilled runs and other intermediates.
    pub tmp_dir: String,
    /// Directory for run logs.
    pub log_dir: String,
    /// Keep intermediates after a successful run.
    pub keep_intermediate: bool,
    /// Abort on the first malformed record (the default).
    pub strict: bool,
    /// Skip malformed records and tally them instead of aborting.
    pub lenient: bool,
    /// Log verbosity.
    pub verbose: u8,
    /// How often the long loops log their progress, in milliseconds.
    pub log_interval: u128,
    /// Report the resolved plan and touch nothing.
    pub dry_run: bool,
    /// Statistics style on standard output.
    pub stats: StatsArg,
}

impl CommonOpts {
    /// The parsing mode these flags select: strict unless lenient is asked for.
    pub fn mode(&self) -> (r: Mode)
        ensures
            r == if self.lenient {
                Mode::Lenient
            } else {
                Mode::Strict
            },
    {
        if self.lenient {
            Mode::Lenient
        } else {
            Mode::Strict
        }
    }

    /// The statistics style these flags select.
    pub fn stats_style(&self) -> (r: StatsStyle)
        ensures
            r is Extended <==> self.stats is Extended,
    {
        StatsStyle::from(self.stats)
    }
}

/// The pipeline stage to run.
#[derive(Debug)]
pub enum Command {
    /// Split a transaction list into chunks.
    Split(SplitArgs),
    /// Build the node map and the raw arc list.
    EdgeList(EdgeListArgs),
    /// Sort arcs by `(src, dst)` and remove duplicates.
    SortEdges(SortEdgesArgs),
    /// Compress a sorted edge list.
    Compress(CompressArgs),
    /// The last three over one input.
    BuildPg(BuildPgArgs),
    /// The same over the first chunks.
    Build(BuildArgs),
}

impl Command {
    /// The name of the stage, for the log file.
    pub open spec fn name(self) -> Seq<char> {
        match self {
            Command::Split(_) => "split"@,
            Command::EdgeList(_) => "edge-list"@,
            Command::SortEdges(_) => "sort-edges"@,
            Command::Compress(_) => "compress"@,
            Command::BuildPg(_) => "build-pg"@,
            Command::Build(_) => "build"@,
        }
    }

    /// The name of the stage, for the log file.
    pub fn stage_name(&self) -> (r: &'static str)
        ensures
            r@ == self.name(),
    {
        match self {
            Command::Split(_) => "split",
            Command::EdgeList(_) => "edge-list",
            Command::SortEdges(_) => "sort-edges",
            Command::Compress(_) => "compress",
            Command::BuildPg(_) => "build-pg",
            Command::Build(_) => "build",
        }
    }
}

/// Arguments of `split`.
#[derive(Debug)]
pub struct SplitArgs {
    /// The transaction list.
    pub input: String,
    /// Directory to write the chunks into.
    pub output_dir: String,
    /// First date, inclusive (YYYY-MM-DD).
    pub start: String,
    /// Last date, exclusive (YYYY-MM-DD).
    pub end: String,
    /// Months per chunk.
    pub months: u32,
    /// Time zone the boundaries are computed in.
    pub tz: String,
    /// Append to existing chunk files instead of truncating them.
    pub append: bool,
    /// Do not create empty chunk files for intervals with no transactions.
    pub no_create_empty: bool,
    /// Keep scanning past the first record at or after the end.
    pub skip_out_of_range: bool,
    /// Print the boundary table and exit.
    pub show_boundaries: bool,
}

/// Either some files, or a directory of chunks.
#[derive(Debug)]
pub struct InputSelector {
    /// Transaction-list files, concatenated in the order given.
    pub input: Vec<String>,
    /// Use the first chunks of this directory.
    pub chunk_dir: Option<String>,
}

/// Arguments of `edge-list`.
#[derive(Debug)]
pub struct EdgeListArgs {
    /// Where the transactions come from.
    pub inputs: InputSelector,
    /// Number of leading chunks to read.
    pub chunks: Option<usize>,
    /// Node map output.
    pub node_map: Option<String>,
    /// Raw arc output.
    pub arcs: String,
    /// Format of the raw arcs.
    pub arc_format: ArcFormatArg,
    /// Pre-size the dense node map.
    pub max_tx_id: Option<usize>,
    /// What to do when an input references an output that was never seen.
    pub on_missing_source: OnMissingSourceArg,
    /// Emit a `Processed:` line every so many transactions.
    pub progress_every: u64,
}

/// Arguments of `sort-edges`.
#[derive(Debug)]
pub struct SortEdgesArgs {
    /// Raw arc file.
    pub input: String,
    /// Input format.
    pub input_format: InputFormatArg,
    /// Sorted, deduplicated text edge list.
    pub edge_list: Option<String>,
    /// Sorted, deduplicated binary arcs.
    pub sorted_arcs: Option<String>,
    /// Run-sorting backend.
    pub sort_algo: SortAlgoArg,
    /// Keep duplicate arcs.
    pub no_dedup: bool,
}

/// Arguments of `compress`.
#[derive(Debug)]
pub struct CompressArgs {
    /// Sorted edge list, text or binary.
    pub input: String,
    /// Basename of the graph; without a `.` in its file name.
    pub output_prefix: String,
    /// Input format.
    pub input_format: InputFormatArg,
    /// How to determine the node count.
    pub num_nodes: NumNodesSpec,
    /// Node map, for a node count by node map.
    pub node_map: Option<String>,
    /// Compress in parallel.
    pub parallel: bool,
    /// Also build the index for random access.
    pub build_ef: bool,
    /// Emit a graph with no arcs instead of failing on an empty edge list.
    pub allow_empty: bool,
    /// How thoroughly the finished graph is read back.
    pub verify: VerifyArg,
}

/// Arguments of `build-pg`.
#[derive(Debug)]
pub struct BuildPgArgs {
    /// Where the transactions come from.
    pub inputs: InputSelector,
    /// Number of leading chunks to read.
    pub chunks: Option<usize>,
    /// Node map output.
    pub node_map: String,
    /// Sorted edge list output.
    pub edge_list: String,
    /// Basename of the graph.
    pub output_prefix: String,
    /// Skip the text edge list.
    pub no_text_edge_list: bool,
    /// Skip the node map file.
    pub no_node_map: bool,
    /// Run-sorting backend.
    pub sort_algo: SortAlgoArg,
    /// Pre-size the dense node map.
    pub max_tx_id: Option<usize>,
    /// What to do when an input references an output that was never seen.
    pub on_missing_source: OnMissingSourceArg,
    /// How to determine the node count.
    pub num_nodes: NumNodesSpec,
    /// Emit a `Processed:` line every so many transactions.
    pub progress_every: u64,
    /// Compress in parallel.
    pub parallel: bool,
    /// Emit a graph with no arcs instead of failing on an empty edge list.
    pub allow_empty: bool,
    /// How thoroughly the finished graph is read back.
    pub verify: VerifyArg,
}

/// Arguments of `build`.
#[derive(Debug)]
pub struct BuildArgs {
    /// Number of leading chunks.
    pub chunks: usize,
    /// Directory of the chunks.
    pub chunk_dir: String,
    /// Output directory.
    pub graph_dir: String,
    /// Skip the text edge list.
    pub no_text_edge_list: bool,
    /// Skip the node map file.
    pub no_node_map: bool,
    /// Run-sorting backend.
    pub sort_algo: SortAlgoArg,
    /// Pre-size the dense node map.
    pub max_tx_id: Option<usize>,
    /// What to do when an input references an output that was never seen.
    pub on_missing_source: OnMissingSourceArg,
    /// How to determine the node count.
    pub num_nodes: NumNodesSpec,
    /// Emit a `Processed:` line every so many transactions.
    pub progress_every: u64,
    /// Compress in parallel.
    pub parallel: bool,
    /// Emit a graph with no arcs instead of failing on an empty edge list.
    pub allow_empty: bool,
    /// How thoroughly the finished graph is read back.
    pub verify: VerifyArg,
    /// Resume from a stage, reusing kept intermediates.
    pub from_stage: Option<StageArg>,
}

/// The command line's [`Mode`].
#[derive(Copy, Clone, Debug, PartialEq, Eq, Structural)]
pub enum ModeArg {
    /// Any malformed record is a fatal, line-numbered error (the default).
    Strict,
    /// Malformed records are skipped and tallied.
    Lenient,
}

impl From<ModeArg> for Mode {
    fn from(a: ModeArg) -> (r: Mode) {
        match a {
            ModeArg::Strict => Mode::Strict,
            ModeArg::Lenient => Mode::Lenient,
        }
    }
}

impl vstd::std_specs::convert::FromSpecImpl<ModeArg> for Mode {
    open spec fn obeys_from_spec() -> bool {
        true
    }

    open spec fn from_spec(a: ModeArg) -> Mode {
        match a {
            ModeArg::Strict => Mode::Strict,
            ModeArg::Lenient => Mode::Lenient,
        }
    }
}

/// The command line's [`OnMissingSource`].
#[derive(Copy, Clone, Debug, PartialEq, Eq, Structural)]
pub enum OnMissingSourceArg {
    /// Abort, naming the line, the transaction, the input and the missing pair.
    Fail,
    /// Emit no edges for that input and tally it.
    Skip,
    /// Mint a node on the fly. Changes every id in both output files.
    Create,
}

impl From<OnMissingSourceArg> for OnMissingSource {
    fn from(a: OnMissingSourceArg) -> (r: OnMissingSource) {
        match a {
            OnMissingSourceArg::Fail => OnMissingSource::Fail,
            OnMissingSourceArg::Skip => OnMissingSource::Skip,
            OnMissingSourceArg::Create => OnMissingSource::Create,
        }
    }
}

impl vstd::std_specs::convert::FromSpecImpl<OnMissingSourceArg> for OnMissingSource {
    open spec fn obeys_from_spec() -> bool {
        true
    }

    open spec fn from_spec(a: OnMissingSourceArg) -> OnMissingSource {
        match a {
            OnMissingSourceArg::Fail => OnMissingSource::Fail,
            OnMissingSourceArg::Skip => OnMissingSource::Skip,
            OnMissingSourceArg::Create => OnMissingSource::Create,
        }
    }
}

/// The command line's [`StatsStyle`].
#[derive(Copy, Clone, Debug, PartialEq, Eq, Structural)]
pub enum StatsArg {
    /// A `Processed:` line, then the node slots and the edges, and nothing else.
    Brief,
    /// The same, plus two lines with the corrected and the extra counters.
    Extended,
}

impl From<StatsArg> for StatsStyle {
    fn from(a: StatsArg) -> (r: StatsStyle) {
        match a {
            StatsArg::Brief => StatsStyle::Brief,
            StatsArg::Extended => StatsStyle::Extended,
        }
    }
}

impl vstd::std_specs::convert::FromSpecImpl<StatsArg> for StatsStyle {
    open spec fn obeys_from_spec() -> bool {
        true
    }

    open spec fn from_spec(a: StatsArg) -> StatsStyle {
        match a {
            StatsArg::Brief => StatsStyle::Brief,
            StatsArg::Extended => StatsStyle::Extended,
        }
    }
}

/// The command line's [`VerifyLevel`].
#[derive(Copy, Clone, Debug, PartialEq, Eq, Structural)]
pub enum VerifyArg {
    /// Do not read the finished graph back at all.
    Off,
    /// Check the properties, the node count and the declared arc count.
    Quick,
    /// Also decompress the whole graph and recount every arc.
    Full,
}

impl From<VerifyArg> for VerifyLevel {
    fn from(a: VerifyArg) -> (r: VerifyLevel) {
        match a {
            VerifyArg::Off => VerifyLevel::Off,
            VerifyArg::Quick => VerifyLevel::Quick,
            VerifyArg::Full => VerifyLevel::Full,
        }
    }
}

impl vstd::std_specs::convert::FromSpecImpl<VerifyArg> for VerifyLevel {
    open spec fn obeys_from_spec() -> bool {
        true
    }

    open spec fn from_spec(a: VerifyArg) -> VerifyLevel {
        match a {
            VerifyArg::Off => VerifyLevel::Off,
            VerifyArg::Quick => VerifyLevel::Quick,
            VerifyArg::Full => VerifyLevel::Full,
        }
    }
}

/// The command line's [`SortAlgo`].
#[derive(Copy, Clone, Debug, PartialEq, Eq, Structural)]
pub enum SortAlgoArg {
    /// Radix sort over packed arcs.
    Radix,
    /// Pattern-defeating quicksort.
    Pdq,
}

impl From<SortAlgoArg> for SortAlgo {
    fn from(a: SortAlgoArg) -> (r: SortAlgo) {
        match a {
            SortAlgoArg::Radix => SortAlgo::Radix,
            SortAlgoArg::Pdq => SortAlgo::Pdq,
        }
    }
}

impl vstd::std_specs::convert::FromSpecImpl<SortAlgoArg> for SortAlgo {
    open spec fn obeys_from_spec() -> bool {
        true
    }

    open spec fn from_spec(a: SortAlgoArg) -> SortAlgo {
        match a {
            SortAlgoArg::Radix => SortAlgo::Radix,
            SortAlgoArg::Pdq => SortAlgo::Pdq,
        }
    }
}

/// How `edge-list` writes its raw arcs.
#[derive(Copy, Clone, Debug, PartialEq, Eq, Structural)]
pub enum ArcFormatArg {
    /// Fixed-width binary records.
    Binary,
    /// Decimal text.
    Tsv,
}

/// How `sort-edges` and `compress` read an arc file.
#[derive(Copy, Clone, Debug, PartialEq, Eq, Structural)]
pub enum InputFormatArg {
    /// Tell it from the file.
    Auto,
    /// Fixed-width binary records.
    Binary,
    /// Decimal text.
    Tsv,
}

/// The stage `build` resumes at.
#[derive(Copy, Clone, Debug, PartialEq, Eq, Structural)]
pub enum StageArg {
    /// Parse the transactions from scratch (the default).
    EdgeList,
    /// Reuse the kept binary arc file and sort it.
    SortEdges,
    /// Reuse the kept text edge list and compress it.
    Compress,
}

// ---------------------------------------------------------------------------
// Node counts
// ---------------------------------------------------------------------------
/// How the node count of a graph is determined.
#[derive(Copy, Clone, Debug, PartialEq, Eq, Structural)]
pub enum NumNodesSpec {
    /// The node map's next id: every output is a node.
    NodeMap,
    /// The largest endpoint plus one: the smallest count the arcs require.
    FromArcs,
    /// A literal node count.
    Explicit(usize),
}

/// What a node count text says: `node-map`, `from-arcs` or a number, with white
/// space around it or not.
pub open spec fn num_nodes_of(s: Seq<char>) -> Option<NumNodesSpec> {
    let t = text::trim_white(s);
    if t == "node-map"@ || t == "node_map"@ || t == "nodemap"@ {
        Some(NumNodesSpec::NodeMap)
    } else if t == "from-arcs"@ || t == "from_arcs"@ || t == "fromarcs"@ {
        Some(NumNodesSpec::FromArcs)
    } else {
        match text::usize_value(encode_utf8(t)) {
            Some(n) => Some(NumNodesSpec::Explicit(n)),
            None => None,
        }
    }
}

/// Reads a node count: `node-map`, `from-arcs`, or a literal integer.
pub fn parse_num_nodes(s: &str) -> (r: std::result::Result<NumNodesSpec, String>)
    ensures
        match num_nodes_of(s@) {
            Some(n) => r == Ok::<NumNodesSpec, String>(n),
            None => r is Err && r->Err_0@ == "invalid node count "@ + crate::error::debug_quoted(
                s@,
            ) + ": expected `node-map`, `from-arcs`, or a non-negative integer"@,
        },
{
    let t: &str = trimmed_text(s);
    if same_text(t, "node-map") || same_text(t, "node_map") || same_text(t, "nodemap") {
        return Ok(NumNodesSpec::NodeMap);
    }
    if same_text(t, "from-arcs") || same_text(t, "from_arcs") || same_text(t, "fromarcs") {
        return Ok(NumNodesSpec::FromArcs);
    }
    match parse_usize(t) {
        Some(n) => Ok(NumNodesSpec::Explicit(n)),
        None => {
            let shown: String = quoted(s);
            let mut msg: String = "invalid node count ".to_owned();
            msg.append(shown.as_str());
            msg.append(": expected `node-map`, `from-arcs`, or a non-negative integer");
            Err(msg)
        },
    }
}

// ---------------------------------------------------------------------------
// Durations
// ---------------------------------------------------------------------------
/// The longest duration that can be written, in milliseconds.
pub const MAX_MILLIS: u128 = 0xffff_ffff_ffff_ffff * 1000 + 999;

/// How many milliseconds a suffix stands for.
pub open spec fn suffix_millis(c: char) -> Option<nat> {
    if c == 's' {
        Some(1_000)
    } else if c == 'm' {
        Some(60_000)
    } else if c == 'h' {
        Some(3_600_000)
    } else if c == 'd' {
        Some(86_400_000)
    } else {
        None
    }
}

/// A decimal digit.
pub open spec fn is_digit_char(c: char) -> bool {
    '0' <= c && c <= '9'
}

/// What is wrong with a number in a duration, if anything: there is none, or it
/// is too large.
pub open spec fn number_fault(acc: Option<nat>) -> Option<Seq<char>> {
    match acc {
        None => Some("cannot parse integer from empty string"@),
        Some(v) => if v > u64::MAX {
            Some("number too large to fit in target type"@)
        } else {
            None
        },
    }
}

/// What is said of a bad duration.
pub open spec fn bad_duration(value: Seq<char>, why: Seq<char>) -> Seq<char> {
    "invalid duration "@ + crate::error::debug_quoted(value) + ": "@ + why
}

/// One more term of a duration.
pub open spec fn with_term(value: Seq<char>, total: nat, n: nat, unit: nat) -> std::result::Result<
    nat,
    Seq<char>,
> {
    if total + n * unit > MAX_MILLIS {
        Err(bad_duration(value, "duration too long"@))
    } else {
        Ok(total + n * unit)
    }
}

/// What the rest of a duration text adds to `total` milliseconds, behind a
/// number whose digits so far are `acc`.
pub open spec fn duration_from(
    value: Seq<char>,
    rest: Seq<char>,
    total: nat,
    acc: Option<nat>,
) -> std::result::Result<nat, Seq<char>>
    decreases rest.len(),
{
    if rest.len() == 0 {
        match acc {
            None => Ok(total),
            Some(v) => if number_fault(acc) is Some {
                Err(bad_duration(value, number_fault(acc)->0))
            } else {
                with_term(value, total, v, 1)
            },
        }
    } else {
        let c = rest[0];
        let tail = rest.drop_first();
        if is_digit_char(c) {
            let before = match acc {
                Some(v) => v,
                None => 0,
            };
            duration_from(value, tail, total, Some((before * 10 + (c as int - 48)) as nat))
        } else if text::is_white_space(c) {
            duration_from(value, tail, total, acc)
        } else if number_fault(acc) is Some {
            Err(bad_duration(value, number_fault(acc)->0))
        } else {
            match suffix_millis(c) {
                None => Err("invalid duration suffix: "@ + seq![c]),
                Some(unit) => match with_term(value, total, acc->0, unit) {
                    Ok(more) => duration_from(value, tail, more, None),
                    Err(e) => Err(e),
                },
            }
        }
    }
}

/// The milliseconds that a duration text says: numbers with the suffixes `s`,
/// `m`, `h` and `d`, which accumulate; one without a suffix is milliseconds.
pub open spec fn duration_of(value: Seq<char>) -> std::result::Result<nat, Seq<char>> {
    if value.len() == 0 {
        Err("empty duration string; for every 0 milliseconds use `0`"@)
    } else {
        duration_from(value, value, 0, None)
    }
}

fn bad_duration_text(value: &str, why: &str) -> (r: String)
    ensures
        r@ == bad_duration(value@, why@),
{
    let shown: String = quoted(value);
    let mut msg: String = "invalid duration ".to_owned();
    msg.append(shown.as_str());
    msg.append(": ");
    msg.append(why);
    msg
}

/// The digits of a number that is being read: none yet, a value, or one that is
/// too large.
#[derive(Copy, Clone, Debug, PartialEq, Eq, Structural)]
enum Digits {
    Empty,
    Value(u64),
    TooLarge,
}

spec fn digits_are(d: Digits, acc: Option<nat>) -> bool {
    match d {
        Digits::Empty => acc is None,
        Digits::Value(v) => acc == Some(v as nat),
        Digits::TooLarge => acc is Some && acc->0 > u64::MAX,
    }
}

/// Reads a duration, in milliseconds.
pub fn parse_duration(value: &str) -> (r: std::result::Result<u128, String>)
    ensures
        match duration_of(value@) {
            Ok(n) => r is Ok && r->Ok_0 == n,
            Err(e) => r is Err && r->Err_0@ == e,
        },
{
    if value.is_empty() {
        return Err("empty duration string; for every 0 milliseconds use `0`".to_owned());
    }
    let mut total: u128 = 0;
    let mut acc: Digits = Digits::Empty;
    let ghost mut read: Option<nat> = None;
    assert(value@.skip(0) =~= value@);
    for c in it: value.chars()
        invariant
            it.seq() == value@,
            total <= MAX_MILLIS,
            digits_are(acc, read),
            value@.len() > 0,
            duration_of(value@) == duration_from(
                value@,
                value@.skip(it.index() as int),
                total as nat,
                read,
            ),
    {
        proof {
            let rest = value@.skip(it.index() as int);
            assert(rest[0] == c);
            assert(rest.drop_first() =~= value@.skip(it.index() as int + 1));
        }
        if '0' <= c && c <= '9' {
            let d: u64 = (c as u32 - 48) as u64;
            let ghost before = match read {
                Some(v) => v,
                None => 0,
            };
            acc = match acc {
                Digits::Empty => Digits::Value(d),
                Digits::Value(v) => match v.checked_mul(10) {
                    Some(w) => match w.checked_add(d) {
                        Some(x) => Digits::Value(x),
                        None => Digits::TooLarge,
                    },
                    None => Digits::TooLarge,
                },
                Digits::TooLarge => Digits::TooLarge,
            };
            proof {
                read = Some((before * 10 + (c as int - 48)) as nat);
            }
        } else if white_space(c) {
        } else {
            let n: u64 = match acc {
                Digits::Empty => {
                    return Err(bad_duration_text(value, "cannot parse integer from empty string"));
                },
                Digits::TooLarge => {
                    return Err(bad_duration_text(value, "number too large to fit in target type"));
                },
                Digits::Value(v) => v,
            };
            let unit: u64 = if c == 's' {
                1_000
            } else if c == 'm' {
                60_000
            } else if c == 'h' {
                3_600_000
            } else if c == 'd' {
                86_400_000
            } else {
                let mut msg: String = "invalid duration suffix: ".to_owned();
                append_char(&mut msg, c);
                assert(msg@ =~= "invalid duration suffix: "@ + seq![c]);
                return Err(msg);
            };
            assert(n * unit <= 0xffff_ffff_ffff_ffff * 86_400_000) by (nonlinear_arith)
                requires
                    0 <= n <= 0xffff_ffff_ffff_ffff,
                    0 <= unit <= 86_400_000,
            ;
            let more: u128 = total + n as u128 * unit as u128;
            if more > MAX_MILLIS {
                return Err(bad_duration_text(value, "duration too long"));
            }
            total = more;
            acc = Digits::Empty;
            proof {
                read = None;
            }
        }
    }
    assert(value@.skip(value@.len() as int) =~= Seq::empty());
    match acc {
        Digits::Empty => Ok(total),
        Digits::TooLarge => Err(bad_duration_text(value, "number too large to fit in target type")),
        Digits::Value(v) => {
            let more: u128 = total + v as u128;
            if more > MAX_MILLIS {
                return Err(bad_duration_text(value, "duration too long"));
            }
            Ok(more)
        },
    }
}

// ---------------------------------------------------------------------------
// Laws
// ---------------------------------------------------------------------------
/// A node count that is written as a number is that number, with white space
/// around it or not; the two words stand for the two ways to count.
pub proof fn node_counts_are_read_as_written(before: Seq<char>, n: usize, after: Seq<char>)
    requires
        forall|i: int| 0 <= i < before.len() ==> text::is_white_space(#[trigger] before[i]),
        forall|i: int| 0 <= i < after.len() ==> text::is_white_space(#[trigger] after[i]),
    ensures
        num_nodes_of(before + text::decimal(n as nat) + after) == Some(NumNodesSpec::Explicit(n)),
        num_nodes_of(before + "node-map"@ + after) == Some(NumNodesSpec::NodeMap),
        num_nodes_of(before + "from-arcs"@ + after) == Some(NumNodesSpec::FromArcs),
        num_nodes_of(before + after) is None,
{
    let d = text::decimal(n as nat);
    text::numbers_are_written_in_digits(n as nat);
    text::lemma_decimal_encoding(n as nat);
    text::written_numbers_are_read(n as int);
    assert forall|i: int| 0 <= i < d.len() implies 48 <= (#[trigger] d[i]) as int <= 57 by {
        assert(d[i] as int == text::decimal_bytes(n as nat)[i]);
    }
    text::printing_characters_are_no_white_space(d[0]);
    text::printing_characters_are_no_white_space(d.last());
    assert(48 <= d[d.len() - 1] as int <= 57);
    text::trimming_takes_white_space_off(before, d, after);
    reveal_strlit("node-map");
    reveal_strlit("node_map");
    reveal_strlit("nodemap");
    reveal_strlit("from-arcs");
    reveal_strlit("from_arcs");
    reveal_strlit("fromarcs");
    assert(48 <= d[0] as int <= 57);
    assert(d != "node-map"@ && d != "node_map"@ && d != "nodemap"@) by {
        assert("node-map"@[0] == 'n' && "node_map"@[0] == 'n' && "nodemap"@[0] == 'n');
    }
    assert(d != "from-arcs"@ && d != "from_arcs"@ && d != "fromarcs"@) by {
        assert("from-arcs"@[0] == 'f' && "from_arcs"@[0] == 'f' && "fromarcs"@[0] == 'f');
    }
    text::trimming_takes_white_space_off(before, "node-map"@, after);
    text::trimming_takes_white_space_off(before, "from-arcs"@, after);
    assert("from-arcs"@ != "node-map"@ && "from-arcs"@ != "node_map"@ && "from-arcs"@ != "nodemap"@) by {
        assert("from-arcs"@[0] == 'f');
        assert("node-map"@[0] == 'n' && "node_map"@[0] == 'n' && "nodemap"@[0] == 'n');
    }
    text::trimming_takes_white_space_off(before, Seq::empty(), after);
    assert(before + Seq::<char>::empty() + after =~= before + after);
    let none = Seq::<char>::empty();
    assert("node-map"@.len() > 0 && "node_map"@.len() > 0 && "nodemap"@.len() > 0);
    assert("from-arcs"@.len() > 0 && "from_arcs"@.len() > 0 && "fromarcs"@.len() > 0);
    is_ascii_chars_encode_utf8(none);
    text::only_digits_are_read(encode_utf8(none), 0);
}

proof fn lemma_duration_digits(
    value: Seq<char>,
    digits: Seq<char>,
    rest: Seq<char>,
    total: nat,
    before: Option<nat>,
)
    requires
        forall|i: int| 0 <= i < digits.len() ==> '0' <= #[trigger] digits[i] <= '9',
        digits.len() > 0,
    ensures
        duration_from(value, digits + rest, total, before) == duration_from(
            value,
            rest,
            total,
            Some(number_of(digits, match before {
                Some(v) => v,
                None => 0,
            })),
        ),
    decreases digits.len(),
{
    let s = digits + rest;
    let b = match before {
        Some(v) => v,
        None => 0,
    };
    let next = (b * 10 + (digits[0] as int - 48)) as nat;
    assert(s[0] == digits[0]);
    assert('0' <= digits[0] <= '9');
    assert(s.drop_first() =~= digits.drop_first() + rest);
    if digits.len() == 1 {
        assert(digits.drop_first() + rest =~= rest);
        assert(digits.drop_first().len() == 0);
        assert(number_of(digits.drop_first(), next) == next);
    } else {
        let tail = digits.drop_first();
        assert forall|i: int| 0 <= i < tail.len() implies '0' <= #[trigger] tail[i] <= '9' by {
            assert(tail[i] == digits[i + 1]);
        }
        lemma_duration_digits(value, tail, rest, total, Some(next));
    }
}

/// The number that some digits write, behind the digits of another.
pub open spec fn number_of(digits: Seq<char>, before: nat) -> nat
    decreases digits.len(),
{
    if digits.len() == 0 {
        before
    } else {
        number_of(digits.drop_first(), (before * 10 + (digits[0] as int - 48)) as nat)
    }
}

/// A term of a duration counts as many milliseconds as its suffix says: a
/// thousand for `s`, sixty times as many for `m`, sixty times as many again for
/// `h`, and 24 times as many again for `d`. Terms add up, and a last number
/// without a suffix counts as itself.
pub proof fn terms_of_a_duration_add_up(
    value: Seq<char>,
    digits: Seq<char>,
    rest: Seq<char>,
    total: nat,
)
    requires
        digits.len() > 0,
        forall|i: int| 0 <= i < digits.len() ==> '0' <= #[trigger] digits[i] <= '9',
        number_of(digits, 0) <= u64::MAX,
        total + number_of(digits, 0) * 86_400_000 <= 18_446_744_073_709_551_615_999,
    ensures
        ({
            let n = number_of(digits, 0);
            &&& duration_from(value, digits, total, None) == Ok::<nat, Seq<char>>(total + n)
            &&& duration_from(value, digits + seq!['s'] + rest, total, None) == duration_from(
                value,
                rest,
                total + n * 1_000,
                None,
            )
            &&& duration_from(value, digits + seq!['m'] + rest, total, None) == duration_from(
                value,
                rest,
                total + n * 60_000,
                None,
            )
            &&& duration_from(value, digits + seq!['h'] + rest, total, None) == duration_from(
                value,
                rest,
                total + n * 3_600_000,
                None,
            )
            &&& duration_from(value, digits + seq!['d'] + rest, total, None) == duration_from(
                value,
                rest,
                total + n * 86_400_000,
                None,
            )
            &&& duration_from(value, Seq::empty(), total, None) == Ok::<nat, Seq<char>>(total)
        }),
{
    lemma_duration_digits(value, digits, Seq::empty(), total, None);
    assert(digits + Seq::<char>::empty() =~= digits);
    lemma_duration_suffix(value, digits, 's', rest, total);
    lemma_duration_suffix(value, digits, 'm', rest, total);
    lemma_duration_suffix(value, digits, 'h', rest, total);
    lemma_duration_suffix(value, digits, 'd', rest, total);
}

proof fn lemma_duration_suffix(
    value: Seq<char>,
    digits: Seq<char>,
    c: char,
    rest: Seq<char>,
    total: nat,
)
    requires
        digits.len() > 0,
        forall|i: int| 0 <= i < digits.len() ==> '0' <= #[trigger] digits[i] <= '9',
        number_of(digits, 0) <= u64::MAX,
        suffix_millis(c) is Some,
        total + number_of(digits, 0) * suffix_millis(c)->0 <= MAX_MILLIS,
        !text::is_white_space(c),
    ensures
        duration_from(value, digits + seq![c] + rest, total, None) == duration_from(
            value,
            rest,
            total + number_of(digits, 0) * suffix_millis(c)->0,
            None,
        ),
{
    let s = seq![c] + rest;
    assert(digits + seq![c] + rest =~= digits + s);
    lemma_duration_digits(value, digits, s, total, None);
    assert(s[0] == c);
    assert(s.drop_first() =~= rest);
    assert(!is_digit_char(c));
}

/// A duration that is written in terms is read from its start; the empty one is
/// refused, and so is a suffix without a number, a suffix that is none, and a
/// number that is too large.
pub proof fn other_durations_are_refused(
    value: Seq<char>,
    digits: Seq<char>,
    c: char,
    rest: Seq<char>,
    total: nat,
)
    requires
        digits.len() > 0,
        forall|i: int| 0 <= i < digits.len() ==> '0' <= #[trigger] digits[i] <= '9',
        33 <= c as int <= 126,
        !('0' <= c <= '9'),
    ensures
        duration_of(Seq::empty()) is Err,
        value.len() > 0 ==> duration_of(value) == duration_from(value, value, 0, None),
        duration_from(value, seq![c] + rest, total, None) is Err,
        c != 's' && c != 'm' && c != 'h' && c != 'd' ==> duration_from(
            value,
            digits + seq![c] + rest,
            total,
            None,
        ) is Err,
        number_of(digits, 0) > u64::MAX ==> duration_from(value, digits, total, None) is Err
            && duration_from(value, digits + seq![c] + rest, total, None) is Err,
{
    let s = seq![c] + rest;
    text::printing_characters_are_no_white_space(c);
    assert(digits + seq![c] + rest =~= digits + s);
    lemma_duration_digits(value, digits, s, total, None);
    lemma_duration_digits(value, digits, Seq::empty(), total, None);
    assert(digits + Seq::<char>::empty() =~= digits);
    assert(s[0] == c);
    assert(!is_digit_char(c));
}

/// The choices of the command line stand for the choices of the same name.
pub proof fn choices_stand_for_their_names(
    mode: ModeArg,
    missing: OnMissingSourceArg,
    stats: StatsArg,
    verify: VerifyArg,
    algo: SortAlgoArg,
    m: Mode,
    o: OnMissingSource,
    s: StatsStyle,
    v: VerifyLevel,
    a: SortAlgo,
)
    requires
        call_ensures(<Mode as From<ModeArg>>::from, (mode,), m),
        call_ensures(<OnMissingSource as From<OnMissingSourceArg>>::from, (missing,), o),
        call_ensures(<StatsStyle as From<StatsArg>>::from, (stats,), s),
        call_ensures(<VerifyLevel as From<VerifyArg>>::from, (verify,), v),
        call_ensures(<SortAlgo as From<SortAlgoArg>>::from, (algo,), a),
    ensures
        m is Strict <==> mode is Strict,
        m is Lenient <==> mode is Lenient,
        o is Fail <==> missing is Fail,
        o is Skip <==> missing is Skip,
        o is Create <==> missing is Create,
        s is Brief <==> stats is Brief,
        s is Extended <==> stats is Extended,
        v is Off <==> verify is Off,
        v is Full <==> verify is Full,
        a is Radix <==> algo is Radix,
        a is Pdq <==> algo is Pdq,
{
}

/// The stages are named by their names.
pub proof fn stages_are_named(c: Command)
    ensures
        c is Split ==> c.name() == "split"@,
        c is EdgeList ==> c.name() == "edge-list"@,
        c is SortEdges ==> c.name() == "sort-edges"@,
        c is Compress ==> c.name() == "compress"@,
        c is BuildPg ==> c.name() == "build-pg"@,
        c is Build ==> c.name() == "build"@,
{
}

} // verus!
