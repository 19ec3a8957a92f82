//! What a run decides before, between and after its stages: budgets, inputs,
//! names, node counts, and which stages a resumed build still has to run.
use crate::arcs;
use crate::arcs::{detect_format, read_binary_arcs, read_tsv_arcs, ArcFileFormat};
use crate::cli::{
    BuildArgs, BuildPgArgs, CommonOpts, CompressArgs, InputFormatArg, InputSelector, NumNodesSpec,
    SortEdgesArgs, SplitArgs, StageArg,
};
use crate::error::{quoted, Error};
use crate::path;
use crate::path::{file_name, path_join};
use crate::sorter::SortOpts;
use crate::split::{chunk_paths, SplitOpts};
use crate::text;
use crate::text::{
    append_decimal, find_byte, parse_u64, parse_usize, trimmed_text, utf8_text,
};
use crate::{take_iter_error, NodeId, Result, SortAlgo};
use vstd::prelude::*;
use vstd::string::*;
use vstd::utf8::*;

verus! {

// ---------------------------------------------------------------------------
// Budgets
// ---------------------------------------------------------------------------
/// The largest default memory budget, however much memory there is: 192 GiB.
pub const MEMORY_CAP: u64 = 0x30_0000_0000;

/// The number of worker threads: as many as asked for, or as there are cores,
/// and at least one.
pub fn resolve_threads(asked: Option<usize>, available: usize) -> (r: usize)
    ensures
        r >= 1,
        r == match asked {
            Some(n) if n > 0 => n,
            _ => if available > 0 {
                available
            } else {
                1
            },
        },
{
    match asked {
        Some(n) => {
            if n > 0 {
                return n;
            }
        },
        None => {},
    }
    if available > 0 {
        available
    } else {
        1
    }
}

/// The memory budget: as asked for, or the given share of all memory, capped.
pub fn resolve_memory(asked: Option<u64>, share: u64) -> (r: u64)
    ensures
        r == match asked {
            Some(n) => n,
            None => if share > MEMORY_CAP {
                MEMORY_CAP
            } else {
                share
            },
        },
{
    match asked {
        Some(n) => n,
        None => if share > MEMORY_CAP {
            MEMORY_CAP
        } else {
            share
        },
    }
}

/// How many arcs one sort run holds: half the budget, as the other half is the
/// sort's scratch buffer.
pub fn arcs_per_run(memory: u64) -> (r: u64)
    ensures
        r == if memory < 32 {
            1
        } else {
            memory / 32
        },
{
    let n: u64 = memory / 32;
    if n == 0 {
        1
    } else {
        n
    }
}

/// How a disk compares to what is needed on it.
#[derive(Copy, Clone, Debug, PartialEq, Eq, Structural)]
pub enum SpaceCheck {
    /// There is enough.
    Enough,
    /// There is not enough: the run is refused.
    Short,
    /// It could not be found out: the check is skipped.
    Unknown,
}

/// Compares the free bytes of a disk, where they are known, to what is needed.
pub fn check_space(free: Option<u64>, needed: u64) -> (r: SpaceCheck)
    ensures
        r == match free {
            None => SpaceCheck::Unknown,
            Some(n) => if n < needed {
                SpaceCheck::Short
            } else {
                SpaceCheck::Enough
            },
        },
{
    match free {
        None => SpaceCheck::Unknown,
        Some(n) => if n < needed {
            SpaceCheck::Short
        } else {
            SpaceCheck::Enough
        },
    }
}

/// The bytes that a sort needs on disk for its runs: none where all arcs fit in
/// one run.
pub fn spill_bytes(memory: u64, arcs: u64, arc_bytes: u64) -> (r: u64)
    ensures
        r == if arcs <= (if memory < 32 {
            1
        } else {
            memory / 32
        }) {
            0
        } else {
            arc_bytes
        },
{
    if arcs_per_run(memory) >= arcs {
        0
    } else {
        arc_bytes
    }
}

/// The number of memory mappings that a parallel compression may need.
pub open spec fn mappings_needed(threads: usize) -> nat {
    if threads as nat * threads as nat > usize::MAX {
        usize::MAX as nat
    } else if threads as nat * threads as nat > 1024 {
        threads as nat * threads as nat
    } else {
        1024
    }
}

/// What is known of the limit on memory mappings.
#[derive(Copy, Clone, Debug, PartialEq, Eq, Structural)]
pub enum MappingLimit {
    /// The limit could not be read.
    Unreadable,
    /// It is high enough.
    Enough {
        /// The limit.
        limit: usize,
        /// What may be needed.
        needed: usize,
    },
    /// It is too low.
    TooLow {
        /// The limit.
        limit: usize,
        /// What may be needed.
        needed: usize,
    },
}

/// Compares the limit on memory mappings, as the system reports it, to what a
/// parallel compression may need.
pub fn check_mapping_limit(report: &str, threads: usize) -> (r: MappingLimit)
    ensures
        ({
            let needed = mappings_needed(threads) as usize;
            r == match text::usize_value(encode_utf8(text::trim_white(report@))) {
                None => MappingLimit::Unreadable,
                Some(limit) => if limit < needed {
                    MappingLimit::TooLow { limit, needed }
                } else {
                    MappingLimit::Enough { limit, needed }
                },
            }
        }),
{
    let squared: usize = match threads.checked_mul(threads) {
        Some(n) => n,
        None => usize::MAX,
    };
    let needed: usize = if squared > 1024 {
        squared
    } else {
        1024
    };
    match parse_usize(trimmed_text(report)) {
        None => MappingLimit::Unreadable,
        Some(limit) => if limit < needed {
            MappingLimit::TooLow { limit, needed }
        } else {
            MappingLimit::Enough { limit, needed }
        },
    }
}

// ---------------------------------------------------------------------------
// Inputs
// ---------------------------------------------------------------------------
/// The sum of some numbers.
pub open spec fn sum(s: Seq<u64>) -> nat
    decreases s.len(),
{
    if s.len() == 0 {
        0
    } else {
        sum(s.drop_last()) + s.last() as nat
    }
}

/// The total size of some files, capped at what a `u64` holds.
pub fn total_size(sizes: &Vec<u64>) -> (r: u64)
    ensures
        r == crate::capped(sum(sizes@)),
{
    let mut total: u64 = 0;
    let mut i: usize = 0;
    while i < sizes.len()
        invariant
            i <= sizes@.len(),
            total == crate::capped(sum(sizes@.take(i as int))),
        decreases sizes@.len() - i,
    {
        assert(sizes@.take(i + 1).drop_last() =~= sizes@.take(i as int));
        total = total.saturating_add(sizes[i]);
        i = i + 1;
    }
    assert(sizes@.take(i as int) =~= sizes@);
    total
}

/// The texts of some strings.
pub open spec fn texts(v: Seq<String>) -> Seq<Seq<char>> {
    Seq::new(v.len(), |i: int| v[i]@)
}

/// The first `n` chunk files of a directory.
pub open spec fn chunk_files(dir: Seq<char>, n: nat) -> Seq<Seq<char>> {
    Seq::new(n, |i: int| path::path_in(dir, crate::split::chunk_name((i + 1) as nat)))
}

/// The files that a selection stands for, or what is wrong with it.
pub open spec fn inputs_of(sel: InputSelector, chunks: Option<usize>) -> std::result::Result<
    Seq<Seq<char>>,
    crate::error::ErrorView,
> {
    match (sel.chunk_dir, chunks) {
        (Some(dir), Some(n)) => if n == 0 {
            Err(crate::error::ErrorView::Other("--chunks must be at least 1"@))
        } else {
            Ok(chunk_files(dir@, n as nat))
        },
        (Some(_), None) => Err(crate::error::ErrorView::Other("--chunk-dir requires --chunks"@)),
        (None, _) => if sel.input@.len() == 0 {
            Err(
                crate::error::ErrorView::Other(
                    "no input files selected; pass -i FILE... or --chunk-dir DIR --chunks N"@,
                ),
            )
        } else {
            Ok(texts(sel.input@))
        },
    }
}

/// A copy of some strings.
fn copy_texts(v: &Vec<String>) -> (r: Vec<String>)
    ensures
        texts(r@) == texts(v@),
{
    let mut out: Vec<String> = Vec::new();
    let mut i: usize = 0;
    while i < v.len()
        invariant
            i <= v@.len(),
            out@.len() == i,
            forall|k: int| 0 <= k < i ==> (#[trigger] out@[k])@ == v@[k]@,
        decreases v@.len() - i,
    {
        out.push(v[i].clone());
        i = i + 1;
    }
    assert(texts(out@) =~= texts(v@));
    out
}

/// Resolves a selection of inputs into an ordered list of files.
pub fn resolve_inputs(sel: &InputSelector, chunks: Option<usize>) -> (r: Result<Vec<String>>)
    ensures
        match inputs_of(*sel, chunks) {
            Ok(paths) => r is Ok && texts(r->Ok_0@) == paths,
            Err(e) => r is Err && r->Err_0@ == e,
        },
{
    match (&sel.chunk_dir, chunks) {
        (Some(dir), Some(n)) => {
            if n == 0 {
                return Err(Error::other("--chunks must be at least 1".to_owned()));
            }
            let r = chunk_paths(dir.as_str(), n);
            proof {
                assert(texts(r->Ok_0@) =~= chunk_files(dir@, n as nat));
            }
            r
        },
        (Some(_), None) => Err(Error::other("--chunk-dir requires --chunks".to_owned())),
        (None, _) => {
            if sel.input.len() == 0 {
                return Err(
                    Error::other(
                        "no input files selected; pass -i FILE... or --chunk-dir DIR --chunks N".to_owned(),
                    ),
                );
            }
            Ok(copy_texts(&sel.input))
        },
    }
}

/// The first of some files that is missing.
pub open spec fn first_missing(exist: Seq<bool>, i: int) -> bool {
    0 <= i < exist.len() && !exist[i] && forall|k: int| 0 <= k < i ==> #[trigger] exist[k]
}

/// Checks that every input is there, before any work starts: the first that is
/// not is named, behind `what`.
pub fn check_files(paths: &Vec<String>, exist: &Vec<bool>, what: &str) -> (r: Result<()>)
    requires
        paths@.len() == exist@.len(),
    ensures
        match r {
            Ok(_) => forall|i: int| 0 <= i < exist@.len() ==> #[trigger] exist@[i],
            Err(e) => exists|i: int| #[trigger]
                first_missing(exist@, i) && e@ == crate::error::ErrorView::Other(
                    what@ + " file not found: "@ + paths@[i]@,
                ),
        },
{
    let mut i: usize = 0;
    while i < paths.len()
        invariant
            i <= paths@.len(),
            paths@.len() == exist@.len(),
            forall|k: int| 0 <= k < i ==> #[trigger] exist@[k],
        decreases paths@.len() - i,
    {
        if !exist[i] {
            let mut msg: String = what.to_owned();
            msg.append(" file not found: ");
            msg.append(paths[i].as_str());
            assert(first_missing(exist@, i as int));
            return Err(Error::other(msg));
        }
        i = i + 1;
    }
    Ok(())
}

// ---------------------------------------------------------------------------
// Names
// ---------------------------------------------------------------------------
/// The file name of a path, or `pg` where it has none.
pub open spec fn stem_of(p: Seq<char>) -> Seq<char> {
    match path::file_name_of(encode_utf8(p)) {
        Some(name) => decode_utf8(name),
        None => "pg"@,
    }
}

fn stem<'a>(p: &'a str) -> (r: &'a str)
    ensures
        r@ == stem_of(p@),
{
    match file_name(p) {
        Some(name) => {
            proof {
                encode_utf8_decode_utf8(name@);
            }
            name
        },
        None => "pg",
    }
}

/// The file name under which a graph is written until it is complete.
pub fn temp_graph_name(basename: &str, pid: u32) -> (r: String)
    ensures
        r@ == stem_of(basename@) + "-pgtmp"@ + text::decimal(pid as nat),
{
    let mut name: String = stem(basename).to_owned();
    name.append("-pgtmp");
    append_decimal(&mut name, pid as u64);
    name
}

/// The extensions of the files that a compression leaves, in the order in which
/// they are put in place; the index comes last, where one was asked for.
pub fn graph_extensions(with_index: bool) -> (r: Vec<&'static str>)
    ensures
        r@.len() == if with_index {
            4nat
        } else {
            3nat
        },
        r@[0]@ == "graph"@,
        r@[1]@ == "offsets"@,
        r@[2]@ == "properties"@,
        with_index ==> r@[3]@ == "ef"@,
{
    let mut exts: Vec<&'static str> = Vec::new();
    exts.push("graph");
    exts.push("offsets");
    exts.push("properties");
    if with_index {
        exts.push("ef");
    }
    exts
}

/// Whether a file of a finished compression is to be put in place. One that is
/// missing ends the run, but for the index.
pub fn check_graph_file(file: &str, is_index: bool, present: bool) -> (r: Result<bool>)
    ensures
        if present {
            r == Ok::<bool, Error>(true)
        } else if is_index {
            r == Ok::<bool, Error>(false)
        } else {
            r is Err && r->Err_0@ == crate::error::ErrorView::Other(
                "the compressor did not produce "@ + file@
                    + "; treating the run as incomplete (webgraph writes .properties last, so a missing one means a crash)"@,
            )
        },
{
    if present || is_index {
        return Ok(present);
    }
    let mut msg: String = "the compressor did not produce ".to_owned();
    msg.append(file);
    msg.append(
        "; treating the run as incomplete (webgraph writes .properties last, so a missing one means a crash)",
    );
    Err(Error::other(msg))
}

/// Where sorted binary arcs are kept, and looked for when a build is resumed.
pub fn kept_arcs_path(tmp_dir: &str, output_prefix: &str) -> (r: String)
    ensures
        r@ == path::path_in(tmp_dir@, stem_of(output_prefix@) + "_arcs.bin"@),
{
    let mut name: String = stem(output_prefix).to_owned();
    name.append("_arcs.bin");
    path_join(tmp_dir, name.as_str())
}

/// The files of a build over the first `n` chunks.
pub struct BuildNames {
    /// The chunk files.
    pub chunks: Vec<String>,
    /// The node map.
    pub node_map: String,
    /// The text edge list.
    pub edge_list: String,
    /// The basename of the graph.
    pub output_prefix: String,
    /// The kept binary arcs.
    pub arcs: String,
}

/// The path of an artifact of a build.
pub open spec fn artifact(dir: Seq<char>, head: Seq<char>, n: nat, tail: Seq<char>) -> Seq<char> {
    path::path_in(dir, head + text::decimal(n) + tail)
}

fn artifact_path(dir: &str, head: &str, n: usize, tail: &str) -> (r: String)
    ensures
        r@ == artifact(dir@, head@, n as nat, tail@),
{
    let mut name: String = head.to_owned();
    append_decimal(&mut name, n as u64);
    name.append(tail);
    path_join(dir, name.as_str())
}

/// The files of a build over chunks: `pg_nm_N.tsv`, `pg_el_N.tsv` and `pg_N`.
pub fn build_names(a: &BuildArgs, tmp_dir: &str) -> (r: Result<BuildNames>)
    ensures
        match r {
            Ok(names) => {
                &&& a.chunks > 0
                &&& texts(names.chunks@) == chunk_files(a.chunk_dir@, a.chunks as nat)
                &&& names.node_map@ == artifact(a.graph_dir@, "pg_nm_"@, a.chunks as nat, ".tsv"@)
                &&& names.edge_list@ == artifact(a.graph_dir@, "pg_el_"@, a.chunks as nat, ".tsv"@)
                &&& names.output_prefix@ == artifact(a.graph_dir@, "pg_"@, a.chunks as nat, ""@)
                &&& names.arcs@ == path::path_in(
                    tmp_dir@,
                    stem_of(names.output_prefix@) + "_arcs.bin"@,
                )
            },
            Err(e) => a.chunks == 0 && e@ == crate::error::ErrorView::Other(
                "N must be a positive integer"@,
            ),
        },
{
    if a.chunks == 0 {
        return Err(Error::other("N must be a positive integer".to_owned()));
    }
    let chunks: Vec<String> = match chunk_paths(a.chunk_dir.as_str(), a.chunks) {
        Ok(paths) => paths,
        Err(e) => {
            return Err(e);
        },
    };
    assert(texts(chunks@) =~= chunk_files(a.chunk_dir@, a.chunks as nat));
    let dir: &str = a.graph_dir.as_str();
    let output_prefix: String = artifact_path(dir, "pg_", a.chunks, "");
    let arcs: String = kept_arcs_path(tmp_dir, output_prefix.as_str());
    Ok(
        BuildNames {
            chunks,
            node_map: artifact_path(dir, "pg_nm_", a.chunks, ".tsv"),
            edge_list: artifact_path(dir, "pg_el_", a.chunks, ".tsv"),
            output_prefix,
            arcs,
        },
    )
}

// ---------------------------------------------------------------------------
// Stages
// ---------------------------------------------------------------------------
/// The stages that a build over chunks still has to run.
#[derive(Debug)]
pub enum BuildPlan {
    /// All of them.
    Whole(BuildPgArgs),
    /// Sort the kept arcs, then compress the edge list.
    SortAndCompress(SortEdgesArgs, CompressArgs),
    /// Compress the edge list.
    CompressOnly(CompressArgs),
}

/// The compression of a resumed build: of the text edge list, with everything
/// else as the build has it.
pub open spec fn resumes_compress(c: CompressArgs, a: BuildArgs, names: BuildNames) -> bool {
    &&& c.input@ == names.edge_list@
    &&& c.output_prefix@ == names.output_prefix@
    &&& c.input_format is Tsv
    &&& c.num_nodes == a.num_nodes
    &&& c.node_map is Some && c.node_map->0@ == names.node_map@
    &&& c.parallel == a.parallel
    &&& !c.build_ef
    &&& c.allow_empty == a.allow_empty
    &&& c.verify == a.verify
}

/// The sort of a resumed build: of the kept binary arcs, into the text edge
/// list, without duplicates.
pub open spec fn resumes_sort(s: SortEdgesArgs, a: BuildArgs, names: BuildNames) -> bool {
    &&& s.input@ == names.arcs@
    &&& s.input_format is Binary
    &&& s.edge_list is Some && s.edge_list->0@ == names.edge_list@
    &&& s.sorted_arcs is None
    &&& s.sort_algo == a.sort_algo
    &&& !s.no_dedup
}

/// The whole of a build: over the chunk files, in order, with everything else
/// as the build has it.
pub open spec fn builds_whole(b: BuildPgArgs, a: BuildArgs, names: BuildNames) -> bool {
    &&& texts(b.inputs.input@) == texts(names.chunks@)
    &&& b.inputs.chunk_dir is None
    &&& b.chunks is None
    &&& b.node_map@ == names.node_map@
    &&& b.edge_list@ == names.edge_list@
    &&& b.output_prefix@ == names.output_prefix@
    &&& b.no_text_edge_list == a.no_text_edge_list
    &&& b.no_node_map == a.no_node_map
    &&& b.sort_algo == a.sort_algo
    &&& b.max_tx_id == a.max_tx_id
    &&& b.on_missing_source == a.on_missing_source
    &&& b.num_nodes == a.num_nodes
    &&& b.progress_every == a.progress_every
    &&& b.parallel == a.parallel
    &&& b.allow_empty == a.allow_empty
    &&& b.verify == a.verify
}

/// The compression of a resumed build.
fn compress_args(a: &BuildArgs, names: BuildNames) -> (r: CompressArgs)
    ensures
        resumes_compress(r, *a, names),
{
    CompressArgs {
        input: names.edge_list,
        output_prefix: names.output_prefix,
        input_format: InputFormatArg::Tsv,
        num_nodes: a.num_nodes,
        node_map: Some(names.node_map),
        parallel: a.parallel,
        build_ef: false,
        allow_empty: a.allow_empty,
        verify: a.verify,
    }
}

/// Decides which stages a build over chunks still has to run. A stage can be
/// resumed at only where the file that it starts from is there.
pub fn plan_build(
    a: &BuildArgs,
    names: BuildNames,
    arcs_exist: bool,
    edge_list_exists: bool,
) -> (r: Result<BuildPlan>)
    ensures
        match a.from_stage {
            Some(StageArg::SortEdges) => if !arcs_exist {
                r is Err && r->Err_0@ == crate::error::ErrorView::Other(
                    "--from-stage sort-edges needs "@ + names.arcs@
                        + ", which a previous run with --keep-intermediate would have left there"@,
                )
            } else if a.no_text_edge_list {
                r is Err && r->Err_0@ == crate::error::ErrorView::Other(
                    "--from-stage sort-edges with --no-text-edge-list has nothing to produce"@,
                )
            } else {
                r matches Ok(BuildPlan::SortAndCompress(sort, comp)) && resumes_sort(
                    sort,
                    *a,
                    names,
                ) && resumes_compress(comp, *a, names)
            },
            Some(StageArg::Compress) => if !edge_list_exists {
                r is Err && r->Err_0@ == crate::error::ErrorView::Other(
                    "--from-stage compress needs "@ + names.edge_list@
                        + ", which a previous run would have written"@,
                )
            } else {
                r matches Ok(BuildPlan::CompressOnly(comp)) && resumes_compress(comp, *a, names)
            },
            _ => r matches Ok(BuildPlan::Whole(whole)) && builds_whole(whole, *a, names),
        },
{
    match a.from_stage {
        Some(StageArg::SortEdges) => {
            if !arcs_exist {
                let mut msg: String = "--from-stage sort-edges needs ".to_owned();
                msg.append(names.arcs.as_str());
                msg.append(
                    ", which a previous run with --keep-intermediate would have left there",
                );
                return Err(Error::other(msg));
            }
            if a.no_text_edge_list {
                return Err(
                    Error::other(
                        "--from-stage sort-edges with --no-text-edge-list has nothing to produce".to_owned(),
                    ),
                );
            }
            let sort = SortEdgesArgs {
                input: names.arcs.clone(),
                input_format: InputFormatArg::Binary,
                edge_list: Some(names.edge_list.clone()),
                sorted_arcs: None,
                sort_algo: a.sort_algo,
                no_dedup: false,
            };
            Ok(BuildPlan::SortAndCompress(sort, compress_args(a, names)))
        },
        Some(StageArg::Compress) => {
            if !edge_list_exists {
                let mut msg: String = "--from-stage compress needs ".to_owned();
                msg.append(names.edge_list.as_str());
                msg.append(", which a previous run would have written");
                return Err(Error::other(msg));
            }
            Ok(BuildPlan::CompressOnly(compress_args(a, names)))
        },
        _ => Ok(
            BuildPlan::Whole(
                BuildPgArgs {
                    inputs: InputSelector { input: names.chunks, chunk_dir: None },
                    chunks: None,
                    node_map: names.node_map,
                    edge_list: names.edge_list,
                    output_prefix: names.output_prefix,
                    no_text_edge_list: a.no_text_edge_list,
                    no_node_map: a.no_node_map,
                    sort_algo: a.sort_algo,
                    max_tx_id: a.max_tx_id,
                    on_missing_source: a.on_missing_source,
                    num_nodes: a.num_nodes,
                    progress_every: a.progress_every,
                    parallel: a.parallel,
                    allow_empty: a.allow_empty,
                    verify: a.verify,
                },
            ),
        ),
    }
}

/// The options of a split.
pub fn split_opts(a: &SplitArgs) -> (r: SplitOpts)
    ensures
        r.start@ == a.start@,
        r.end@ == a.end@,
        r.months == a.months,
        r.tz@ == a.tz@,
        r.append == a.append,
        r.create_empty == !a.no_create_empty,
        r.skip_out_of_range == a.skip_out_of_range,
{
    SplitOpts {
        start: a.start.clone(),
        end: a.end.clone(),
        months: a.months,
        tz: a.tz.clone(),
        append: a.append,
        create_empty: !a.no_create_empty,
        skip_out_of_range: a.skip_out_of_range,
    }
}

/// The options of a sort.
pub fn sort_opts(
    common: &CommonOpts,
    algo: SortAlgo,
    dedup: bool,
    memory: u64,
    threads: usize,
) -> (r: SortOpts)
    ensures
        r.algo == algo,
        r.dedup == dedup,
        r.memory_bytes == memory,
        r.tmp_dir@ == common.tmp_dir@,
        r.threads == threads,
        r.keep_intermediate == common.keep_intermediate,
{
    SortOpts {
        algo,
        dedup,
        memory_bytes: memory,
        tmp_dir: common.tmp_dir.clone(),
        threads,
        keep_intermediate: common.keep_intermediate,
    }
}

/// A sort has to write something.
pub fn check_sort_outputs(a: &SortEdgesArgs) -> (r: Result<()>)
    ensures
        match r {
            Ok(_) => a.edge_list is Some || a.sorted_arcs is Some,
            Err(e) => a.edge_list is None && a.sorted_arcs is None && e@
                == crate::error::ErrorView::Other(
                "nothing to do: pass --edge-list FILE and/or --sorted-arcs FILE"@,
            ),
        },
{
    if a.edge_list.is_none() && a.sorted_arcs.is_none() {
        return Err(
            Error::other(
                "nothing to do: pass --edge-list FILE and/or --sorted-arcs FILE".to_owned(),
            ),
        );
    }
    Ok(())
}

// ---------------------------------------------------------------------------
// Arc files
// ---------------------------------------------------------------------------
/// The format of an arc file: as asked for, or as its contents tell.
pub open spec fn chosen_format(
    asked: InputFormatArg,
    path: Seq<char>,
    len: u64,
    head: Seq<u8>,
) -> std::result::Result<ArcFileFormat, crate::error::ErrorView> {
    match asked {
        InputFormatArg::Auto => arcs::format_of(path, len, head),
        InputFormatArg::Tsv => Ok(ArcFileFormat::Tsv),
        InputFormatArg::Binary => Ok(ArcFileFormat::Binary),
    }
}

/// Resolves the format of an arc file, telling it from the start of the file
/// where it is not given.
pub fn resolve_format(asked: InputFormatArg, path: &str, len: u64, head: &[u8]) -> (r: Result<
    ArcFileFormat,
>)
    ensures
        match chosen_format(asked, path@, len, head@) {
            Ok(f) => r == Ok::<ArcFileFormat, Error>(f),
            Err(e) => r is Err && r->Err_0@ == e,
        },
{
    match asked {
        InputFormatArg::Auto => detect_format(path, len, head),
        InputFormatArg::Tsv => Ok(ArcFileFormat::Tsv),
        InputFormatArg::Binary => Ok(ArcFileFormat::Binary),
    }
}

/// Counts arcs and finds the largest endpoint as they go past.
pub struct ArcScan {
    count: u64,
    max: NodeId,
    seen: Ghost<Seq<(NodeId, NodeId)>>,
}

impl ArcScan {
    /// The arcs that went past.
    pub closed spec fn seen(&self) -> Seq<(NodeId, NodeId)> {
        self.seen@
    }

    /// The scan's invariant.
    pub closed spec fn valid(&self) -> bool {
        self.count == self.seen@.len() && self.max == crate::sorter::max_id(self.seen@)
    }

    /// Starts a scan.
    pub fn new() -> (r: Self)
        ensures
            r.valid(),
            r.seen() == Seq::<(NodeId, NodeId)>::empty(),
    {
        ArcScan { count: 0, max: 0, seen: Ghost(Seq::empty()) }
    }

    /// Takes one arc.
    pub fn note(&mut self, src: NodeId, dst: NodeId)
        requires
            old(self).valid(),
            old(self).seen().len() < u64::MAX,
        ensures
            final(self).valid(),
            final(self).seen() == old(self).seen().push((src, dst)),
    {
        self.count = self.count + 1;
        if src > self.max {
            self.max = src;
        }
        if dst > self.max {
            self.max = dst;
        }
        self.seen = Ghost(self.seen@.push((src, dst)));
        assert(self.seen@.drop_last() =~= old(self).seen@);
    }

    /// How many arcs went past, and the largest endpoint.
    pub fn result(&self) -> (r: (u64, NodeId))
        requires
            self.valid(),
        ensures
            r.0 == self.seen().len(),
            r.1 == crate::sorter::max_id(self.seen()),
    {
        (self.count, self.max)
    }
}

/// Counts the arcs of an arc file and finds the largest endpoint.
pub fn scan_arcs(path: &str, input: &[u8], format: ArcFileFormat) -> (r: Result<(u64, NodeId)>)
    ensures
        ({
            let stream = arcs::file_stream(format, path@, input@);
            match r {
                Ok((count, max)) => {
                    &&& stream.failure is None
                    &&& count == stream.arcs.len()
                    &&& max == crate::sorter::max_id(stream.arcs)
                },
                Err(e) => stream.failure == Some(e@),
            }
        }),
{
    let ghost stream = arcs::file_stream(format, path@, input@);
    let mut scan = ArcScan::new();
    let total: usize = input.len();
    match format {
        ArcFileFormat::Tsv => {
            let (mut it, mut slot) = read_tsv_arcs(path, input);
            assert(stream.arcs =~= scan.seen() + it.rest().arcs);
            loop
                invariant_except_break
                    stream.arcs == scan.seen() + it.rest().arcs,
                    stream.failure == it.rest().failure,
                    slot.error is None,
                    scan.seen().len() + it.left() <= total,
                invariant
                    it.valid(),
                    scan.valid(),
                    total <= u64::MAX,
                ensures
                    stream.arcs == scan.seen(),
                    match stream.failure {
                        None => slot.error is None,
                        Some(e) => slot.error matches Some(f) && f@ == e,
                    },
                decreases it.left(),
            {
                let ghost before = scan.seen();
                let ghost rest = it.rest().arcs;
                match it.next(&mut slot) {
                    None => {
                        assert(stream.arcs =~= scan.seen());
                        break;
                    },
                    Some((src, dst)) => {
                        scan.note(src, dst);
                        assert(stream.arcs =~= scan.seen() + it.rest().arcs);
                    },
                }
            }
            match take_iter_error(&mut slot) {
                Ok(_) => {},
                Err(e) => {
                    return Err(e);
                },
            }
        },
        ArcFileFormat::Binary => {
            let mut it = match read_binary_arcs(path, input) {
                Ok(it) => it,
                Err(e) => {
                    return Err(e);
                },
            };
            assert(stream.arcs =~= scan.seen() + it.rest());
            loop
                invariant
                    it.valid(),
                    scan.valid(),
                    stream.arcs == scan.seen() + it.rest(),
                    stream.arcs.len() <= total,
                    total <= u64::MAX,
                ensures
                    stream.arcs == scan.seen(),
                decreases it.rest().len(),
            {
                match it.next() {
                    None => {
                        assert(stream.arcs =~= scan.seen());
                        break;
                    },
                    Some((src, dst)) => {
                        scan.note(src, dst);
                        assert(stream.arcs =~= scan.seen() + it.rest());
                    },
                }
            }
        },
    }
    Ok(scan.result())
}

// ---------------------------------------------------------------------------
// Node counts
// ---------------------------------------------------------------------------
/// The smallest node count that some arcs require: the largest endpoint plus
/// one, or none where there are none.
pub open spec fn nodes_required(arcs: Seq<(NodeId, NodeId)>) -> nat {
    if arcs.len() == 0 {
        0
    } else {
        crate::sorter::max_id(arcs) as nat + 1
    }
}

/// The smallest node count that arcs require, by their number and their largest
/// endpoint.
pub fn nodes_from_arcs(num_arcs: u64, max_node_id: NodeId) -> (r: usize)
    requires
        max_node_id < usize::MAX,
    ensures
        r == if num_arcs == 0 {
            0
        } else {
            max_node_id + 1
        },
{
    if num_arcs == 0 {
        0
    } else {
        max_node_id + 1
    }
}

/// What is said of a literal node count that is too small.
pub open spec fn too_small(n: nat, from_arcs: nat) -> crate::error::ErrorView {
    crate::error::ErrorView::Other(
        "--num-nodes "@ + text::decimal(n) + " is smaller than the "@ + text::decimal(from_arcs)
            + " nodes the arcs require; webgraph would silently drop the out-of-range arcs"@,
    )
}

fn too_small_error(n: usize, from_arcs: usize) -> (r: Error)
    ensures
        r@ == too_small(n as nat, from_arcs as nat),
{
    let mut msg: String = "--num-nodes ".to_owned();
    append_decimal(&mut msg, n as u64);
    msg.append(" is smaller than the ");
    append_decimal(&mut msg, from_arcs as u64);
    msg.append(" nodes the arcs require; webgraph would silently drop the out-of-range arcs");
    Error::other(msg)
}

/// What is said of a node map that has too few nodes.
pub open spec fn other_run(path: Seq<char>, next_id: nat, from_arcs: nat) -> crate::error::ErrorView {
    crate::error::ErrorView::Other(
        "the node map at "@ + path + " declares "@ + text::decimal(next_id)
            + " nodes, fewer than the "@ + text::decimal(from_arcs)
            + " the arcs require; the two files do not belong to the same run"@,
    )
}

/// Resolves the node count of a graph whose arcs come from a file. `node_map`
/// is the node map file, and the next id that it declares.
pub fn resolve_num_nodes(
    choice: NumNodesSpec,
    node_map: Option<(&str, usize)>,
    from_arcs: usize,
) -> (r: Result<usize>)
    ensures
        match choice {
            NumNodesSpec::FromArcs => r == Ok::<usize, Error>(from_arcs),
            NumNodesSpec::Explicit(n) => if n < from_arcs {
                r is Err && r->Err_0@ == too_small(n as nat, from_arcs as nat)
            } else {
                r == Ok::<usize, Error>(n)
            },
            NumNodesSpec::NodeMap => match node_map {
                None => r is Err && r->Err_0@ == crate::error::ErrorView::Other(
                    "--num-nodes node-map requires --node-map FILE"@,
                ),
                Some((path, next_id)) => if next_id < from_arcs {
                    r is Err && r->Err_0@ == other_run(path@, next_id as nat, from_arcs as nat)
                } else {
                    r == Ok::<usize, Error>(next_id)
                },
            },
        },
        r matches Ok(n) ==> n >= from_arcs,
{
    match choice {
        NumNodesSpec::FromArcs => Ok(from_arcs),
        NumNodesSpec::Explicit(n) => {
            if n < from_arcs {
                return Err(too_small_error(n, from_arcs));
            }
            Ok(n)
        },
        NumNodesSpec::NodeMap => match node_map {
            None => Err(Error::other("--num-nodes node-map requires --node-map FILE".to_owned())),
            Some((path, next_id)) => {
                if next_id < from_arcs {
                    let mut msg: String = "the node map at ".to_owned();
                    msg.append(path);
                    msg.append(" declares ");
                    append_decimal(&mut msg, next_id as u64);
                    msg.append(" nodes, fewer than the ");
                    append_decimal(&mut msg, from_arcs as u64);
                    msg.append(" the arcs require; the two files do not belong to the same run");
                    return Err(Error::other(msg));
                }
                Ok(next_id)
            },
        },
    }
}

/// The node count of a graph whose node map is at hand.
pub open spec fn built_nodes(choice: NumNodesSpec, next_id: nat, from_arcs: nat) -> std::result::Result<
    nat,
    crate::error::ErrorView,
> {
    match choice {
        NumNodesSpec::NodeMap => Ok(next_id),
        NumNodesSpec::FromArcs => Ok(from_arcs),
        NumNodesSpec::Explicit(n) => if n < from_arcs {
            Err(too_small(n as nat, from_arcs))
        } else {
            Ok(n as nat)
        },
    }
}

/// Resolves the node count of a graph whose node map is at hand: its next id
/// need not be read back from a file.
pub fn built_num_nodes(choice: NumNodesSpec, next_id: usize, from_arcs: usize) -> (r: Result<usize>)
    ensures
        match built_nodes(choice, next_id as nat, from_arcs as nat) {
            Ok(n) => r is Ok && r->Ok_0 == n,
            Err(e) => r is Err && r->Err_0@ == e,
        },
{
    match choice {
        NumNodesSpec::NodeMap => Ok(next_id),
        NumNodesSpec::FromArcs => Ok(from_arcs),
        NumNodesSpec::Explicit(n) => {
            if n < from_arcs {
                return Err(too_small_error(n, from_arcs));
            }
            Ok(n)
        },
    }
}

// ---------------------------------------------------------------------------
// Reading a node map back
// ---------------------------------------------------------------------------
/// What a line of a node map file holds: the id in its last column, nothing
/// where it is blank, or an error.
pub open spec fn line_id(raw: Seq<u8>, path: Seq<char>, line: u64) -> std::result::Result<
    Option<u64>,
    crate::error::ErrorView,
> {
    let t = arcs::arc_text(raw);
    let last = text::pieces(t, 9).last();
    if !valid_utf8(raw) {
        Err(crate::error::ErrorView::Io { path })
    } else if t.len() == 0 {
        Ok(None)
    } else {
        match text::u64_value(last) {
            Some(id) => Ok(Some(id)),
            None => Err(
                crate::error::ErrorView::Other(
                    "node map "@ + path + " line "@ + text::decimal(line as nat)
                        + ": third column "@ + crate::error::debug_quoted(decode_utf8(last))
                        + " is not an integer"@,
                ),
            ),
        }
    }
}

/// The larger of the largest id so far and another one.
pub open spec fn with_id(max: Option<u64>, id: u64) -> Option<u64> {
    match max {
        Some(m) => if m < id {
            Some(id)
        } else {
            max
        },
        None => Some(id),
    }
}

/// The largest id of a node map file, from a line after the first `line` on,
/// where that of the lines before is `max`.
pub open spec fn largest_id(b: Seq<u8>, path: Seq<char>, line: nat, max: Option<u64>) -> std::result::Result<
    Option<u64>,
    crate::error::ErrorView,
>
    decreases b.len(),
{
    if b.len() == 0 {
        Ok(max)
    } else {
        let n = crate::edge_list::first_line_len(b);
        proof {
            crate::edge_list::lemma_first_line_len(b);
        }
        match line_id(b.take(n as int), path, (line + 1) as u64) {
            Err(e) => Err(e),
            Ok(None) => largest_id(b.skip(n as int), path, line + 1, max),
            Ok(Some(id)) => largest_id(b.skip(n as int), path, line + 1, with_id(max, id)),
        }
    }
}

/// The next id after the largest of a node map file, or what is wrong with it.
pub open spec fn next_id_after(path: Seq<char>, max: Option<u64>) -> std::result::Result<
    usize,
    crate::error::ErrorView,
> {
    match max {
        None => Err(crate::error::ErrorView::Other("the node map "@ + path + " is empty"@)),
        Some(m) => if m < usize::MAX {
            Ok((m + 1) as usize)
        } else {
            Err(
                crate::error::ErrorView::Other(
                    "node map "@ + path + ": node id "@ + text::decimal(m as nat)
                        + " is out of range"@,
                ),
            )
        },
    }
}

/// What stands after the last TAB.
fn last_column<'a>(t: &'a str) -> (r: &'a str)
    ensures
        r.spec_bytes() == text::pieces(t.spec_bytes(), 9).last(),
{
    let b = t.as_bytes();
    let n: usize = text::count_byte(b, 9, b.len());
    proof {
        text::lemma_pieces_len(b@, 9);
        assert(b@.take(b@.len() as int) =~= b@);
    }
    text::piece(t, 9, n)
}

/// Reads line `line` of a node map file, line end and all.
pub fn read_id_line(raw: &[u8], path: &str, line: u64) -> (r: Result<Option<u64>>)
    ensures
        match line_id(raw@, path@, line) {
            Ok(v) => r == Ok::<Option<u64>, Error>(v),
            Err(e) => r is Err && r->Err_0@ == e,
        },
{
    let whole: &str = match utf8_text(raw) {
        Ok(s) => s,
        Err(_) => {
            return Err(Error::io(path.to_owned(), arcs::not_utf8()));
        },
    };
    proof {
        text::lemma_text_is_utf8(whole);
    }
    let t: &str = arcs::trimmed(arcs::trimmed(whole, 10), 13);
    if t.as_bytes().len() == 0 {
        return Ok(None);
    }
    let last: &str = last_column(t);
    match parse_u64(last) {
        Some(id) => Ok(Some(id)),
        None => {
            proof {
                encode_utf8_decode_utf8(last@);
            }
            let shown: String = quoted(last);
            let mut msg: String = "node map ".to_owned();
            msg.append(path);
            msg.append(" line ");
            append_decimal(&mut msg, line);
            msg.append(": third column ");
            msg.append(shown.as_str());
            msg.append(" is not an integer");
            Err(Error::other(msg))
        },
    }
}

/// The next id after the largest of a node map file.
pub fn next_id_from(path: &str, max: Option<u64>) -> (r: Result<usize>)
    ensures
        match next_id_after(path@, max) {
            Ok(n) => r == Ok::<usize, Error>(n),
            Err(e) => r is Err && r->Err_0@ == e,
        },
{
    match max {
        None => {
            let mut msg: String = "the node map ".to_owned();
            msg.append(path);
            msg.append(" is empty");
            Err(Error::other(msg))
        },
        Some(m) => {
            if m >= usize::MAX as u64 {
                let mut msg: String = "node map ".to_owned();
                msg.append(path);
                msg.append(": node id ");
                append_decimal(&mut msg, m);
                msg.append(" is out of range");
                return Err(Error::other(msg));
            }
            Ok(m as usize + 1)
        },
    }
}

/// The larger of the largest id so far and another one.
pub fn larger_id(max: Option<u64>, id: u64) -> (r: Option<u64>)
    ensures
        r == with_id(max, id),
{
    match max {
        Some(m) => if m < id {
            Some(id)
        } else {
            max
        },
        None => Some(id),
    }
}

/// The largest id of a node map file plus one. Stricter than counting its
/// lines: it is right even where lines were dropped or reordered.
pub fn node_map_next_id(path: &str, input: &[u8]) -> (r: Result<usize>)
    ensures
        match largest_id(input@, path@, 0, None) {
            Err(e) => r is Err && r->Err_0@ == e,
            Ok(max) => match next_id_after(path@, max) {
                Ok(n) => r == Ok::<usize, Error>(n),
                Err(e) => r is Err && r->Err_0@ == e,
            },
        },
{
    let mut max: Option<u64> = None;
    let mut line: u64 = 0;
    let mut pos: usize = 0;
    assert(input@.skip(0) =~= input@);
    while pos < input.len()
        invariant
            line <= pos <= input@.len(),
            largest_id(input@, path@, 0, None) == largest_id(
                input@.skip(pos as int),
                path@,
                line as nat,
                max,
            ),
        decreases input@.len() - pos,
    {
        let ghost b = input@.skip(pos as int);
        let feed: usize = find_byte(input, 10, pos);
        let end: usize = if feed < input.len() {
            feed + 1
        } else {
            feed
        };
        let raw: &[u8] = vstd::slice::slice_subrange(input, pos, end);
        proof {
            assert forall|i: int| 0 <= i < feed - pos implies b[i] != 10 by {
                assert(b[i] == input@[pos + i]);
            }
            crate::edge_list::lemma_first_line_end(b, feed - pos);
            assert(raw@ =~= b.take(end - pos));
            assert(b.skip(end - pos) =~= input@.skip(end as int));
        }
        line = line + 1;
        match read_id_line(raw, path, line) {
            Err(e) => {
                return Err(e);
            },
            Ok(None) => {},
            Ok(Some(id)) => {
                max = larger_id(max, id);
            },
        }
        pos = end;
    }
    next_id_from(path, max)
}

/// The largest id of some rows.
pub open spec fn largest_row_id(rows: Seq<(i32, i32, NodeId)>, max: Option<u64>) -> Option<u64>
    decreases rows.len(),
{
    if rows.len() == 0 {
        max
    } else {
        largest_row_id(rows.drop_first(), with_id(max, rows[0].2 as u64))
    }
}

/// A signed number has neither a TAB nor a line end in it.
proof fn lemma_signed_bytes(v: int)
    ensures
        text::signed_decimal_bytes(v).len() > 0,
        forall|i: int|
            0 <= i < text::signed_decimal_bytes(v).len() ==> {
                let c = #[trigger] text::signed_decimal_bytes(v)[i];
                text::is_digit(c) || c == 45
            },
{
    let n = (if v < 0 {
        -v
    } else {
        v
    }) as nat;
    let d = text::decimal_bytes(n);
    text::lemma_decimal_digits(n);
    assert forall|i: int| 0 <= i < text::signed_decimal_bytes(v).len() implies {
        let c = #[trigger] text::signed_decimal_bytes(v)[i];
        text::is_digit(c) || c == 45
    } by {
        if v < 0 {
            if i > 0 {
                assert(text::is_digit(d[i - 1]));
            }
        } else {
            assert(text::is_digit(d[i]));
        }
    }
}

/// A row of a node map file gives its id back.
proof fn lemma_row_line(row: (i32, i32, NodeId), path: Seq<char>, line: u64)
    ensures
        crate::nodemap::row_bytes(row).len() > 0,
        crate::nodemap::row_bytes(row).last() == 10,
        forall|i: int|
            0 <= i < crate::nodemap::row_bytes(row).len() - 1
                ==> #[trigger] crate::nodemap::row_bytes(row)[i] != 10,
        line_id(crate::nodemap::row_bytes(row), path, line) == Ok::<
            Option<u64>,
            crate::error::ErrorView,
        >(Some(row.2 as u64)),
{
    let a = text::signed_decimal_bytes(row.0 as int);
    let b = text::signed_decimal_bytes(row.1 as int);
    let c = text::decimal_bytes(row.2 as nat);
    let raw = crate::nodemap::row_bytes(row);
    let t = raw.drop_last();
    lemma_signed_bytes(row.0 as int);
    lemma_signed_bytes(row.1 as int);
    text::lemma_decimal_digits(row.2 as nat);
    text::lemma_decimal_round_trip(row.2 as nat);
    assert(t =~= a.push(9) + b.push(9) + c);
    assert forall|i: int| 0 <= i < t.len() implies {
        let x = #[trigger] raw[i];
        text::is_digit(x) || x == 45 || x == 9
    } by {
        let k = i - a.len() - 1;
        let l = k - b.len() - 1;
        if i < a.len() {
            assert(raw[i] == a[i]);
        } else if i > a.len() && k < b.len() {
            assert(raw[i] == b[k]);
        } else if l >= 0 {
            assert(raw[i] == c[l]);
            assert(text::is_digit(c[l]));
        }
    }
    assert(text::is_digit(c[c.len() - 1]));
    assert(t.last() == c.last());
    assert(text::trim_end(t, 10) == t);
    assert(text::trim_end(raw, 10) == t);
    assert(text::trim_end(t, 13) == t);
    let u = t.skip(a.len() as int + 1);
    assert(u =~= b.push(9) + c);
    assert(text::pieces(t, 9) == seq![a, b, c]) by {
        assert forall|i: int| 0 <= i < a.len() implies t[i] != 9 by {
            assert(t[i] == a[i]);
        }
        text::lemma_pieces_front(t, 9, a.len() as int);
        assert(t.take(a.len() as int) =~= a);
        assert forall|i: int| 0 <= i < b.len() implies u[i] != 9 by {
            assert(u[i] == b[i]);
        }
        text::lemma_pieces_front(u, 9, b.len() as int);
        assert(u.take(b.len() as int) =~= b);
        assert(u.skip(b.len() as int + 1) =~= c);
        assert(!c.contains(9)) by {
            assert forall|i: int| 0 <= i < c.len() implies c[i] != 9 by {
                assert(text::is_digit(c[i]));
            }
        }
        text::lemma_pieces_single(c, 9);
        assert(seq![a] + (seq![b] + seq![c]) =~= seq![a, b, c]);
    }
    assert forall|i: int| 0 <= i < raw.len() implies #[trigger] raw[i] < 0x80 by {
        if i < t.len() {
            let x = raw[i];
            assert(text::is_digit(x) || x == 45 || x == 9);
        }
    }
    arcs::lemma_ascii_is_utf8(raw);
    assert(text::is_digit(c[0]));
}

/// The rows of a node map file begin with the first.
proof fn lemma_rows_front(rows: Seq<(i32, i32, NodeId)>)
    requires
        rows.len() > 0,
    ensures
        crate::nodemap::tsv_bytes(rows) == crate::nodemap::row_bytes(rows[0])
            + crate::nodemap::tsv_bytes(rows.drop_first()),
    decreases rows.len(),
{
    let init = rows.drop_last();
    let rest = rows.drop_first();
    if rows.len() == 1 {
        assert(crate::nodemap::tsv_bytes(init) =~= Seq::empty());
        assert(crate::nodemap::tsv_bytes(rest) =~= Seq::empty());
        assert(crate::nodemap::tsv_bytes(rows) =~= crate::nodemap::row_bytes(rows[0])
            + crate::nodemap::tsv_bytes(rest));
    } else {
        lemma_rows_front(init);
        assert(rest.drop_last() =~= init.drop_first());
        assert(rest.last() == rows.last());
        assert(crate::nodemap::tsv_bytes(rows) =~= crate::nodemap::row_bytes(rows[0])
            + crate::nodemap::tsv_bytes(rest));
    }
}

proof fn lemma_rows_read(rows: Seq<(i32, i32, NodeId)>, path: Seq<char>, line: nat, max: Option<u64>)
    ensures
        largest_id(crate::nodemap::tsv_bytes(rows), path, line, max) == Ok::<
            Option<u64>,
            crate::error::ErrorView,
        >(largest_row_id(rows, max)),
    decreases rows.len(),
{
    if rows.len() > 0 {
        let first = crate::nodemap::row_bytes(rows[0]);
        let rest = rows.drop_first();
        let b = crate::nodemap::tsv_bytes(rows);
        lemma_rows_front(rows);
        lemma_row_line(rows[0], path, (line + 1) as u64);
        assert forall|i: int| 0 <= i < first.len() - 1 implies b[i] != 10 by {
            assert(b[i] == first[i]);
        }
        crate::edge_list::lemma_first_line_end(b, first.len() - 1);
        assert(b.take(first.len() as int) =~= first);
        assert(b.skip(first.len() as int) =~= crate::nodemap::tsv_bytes(rest));
        lemma_rows_read(rest, path, line + 1, with_id(max, rows[0].2 as u64));
    }
}

/// What the largest of some rows is: one of them or the one before, and no row
/// is above it.
proof fn lemma_largest_row_id(rows: Seq<(i32, i32, NodeId)>, max: Option<u64>)
    ensures
        rows.len() > 0 || max is Some ==> largest_row_id(rows, max) is Some,
        max is Some ==> max->0 <= largest_row_id(rows, max)->0,
        forall|i: int|
            0 <= i < rows.len() ==> (#[trigger] rows[i]).2 <= largest_row_id(rows, max)->0,
        largest_row_id(rows, max) is Some ==> largest_row_id(rows, max) == max || exists|i: int|
            0 <= i < rows.len() && #[trigger] rows[i].2 == largest_row_id(rows, max)->0,
    decreases rows.len(),
{
    if rows.len() > 0 {
        let rest = rows.drop_first();
        let next = with_id(max, rows[0].2 as u64);
        lemma_largest_row_id(rest, next);
        assert forall|i: int| 0 <= i < rows.len() implies (#[trigger] rows[i]).2
            <= largest_row_id(rows, max)->0 by {
            if i > 0 {
                assert(rest[i - 1] == rows[i]);
            }
        }
        let m = largest_row_id(rows, max);
        if m != max && m == next {
            assert(rows[0].2 == m->0);
        } else if m != max {
            let i = choose|i: int| 0 <= i < rest.len() && #[trigger] rest[i].2 == m->0;
            assert(rows[i + 1].2 == m->0);
        }
    }
}

/// A node map is read back from its file: the next id of a map that is not
/// empty and whose ids start at zero is the largest id of its file plus one.
pub proof fn node_map_is_read_back(
    map: &crate::nodemap::DenseNodeMap,
    rows: Seq<(i32, i32, NodeId)>,
    path: Seq<char>,
)
    requires
        map.valid(),
        map@.first_id == 0,
        map@.keys.len() > 0,
        crate::nodemap::is_listing(rows, map@),
    ensures
        largest_id(crate::nodemap::tsv_bytes(rows), path, 0, None) == Ok::<
            Option<u64>,
            crate::error::ErrorView,
        >(Some((map@.next_id() - 1) as u64)),
        next_id_after(path, Some((map@.next_id() - 1) as u64)) == Ok::<usize, crate::error::ErrorView>(map@.next_id() as usize),
{
    let v = map@;
    let last = v.keys[v.keys.len() - 1];
    lemma_rows_read(rows, path, 0, None);
    lemma_largest_row_id(rows, None);
    map.lemma_coherent();
    crate::nodemap::every_id_has_one_key(map, (v.next_id() - 1) as usize);
    let row = (last.0, last.1, v.id_of(last).unwrap());
    assert(rows.contains(row));
    let i = choose|i: int| 0 <= i < rows.len() && rows[i] == row;
    assert(rows[i].2 == v.next_id() - 1);
    let m = largest_row_id(rows, None)->0;
    let j = choose|j: int| 0 <= j < rows.len() && #[trigger] rows[j].2 == m;
    assert(v.id_of((rows[j].0, rows[j].1)) == Some(rows[j].2));
    assert(rows[j].2 < v.next_id());
}

// ---------------------------------------------------------------------------
// What node counts mean
// ---------------------------------------------------------------------------
/// Every node id in some arcs is below `n`.
pub open spec fn endpoints_below(arcs: Seq<(NodeId, NodeId)>, n: int) -> bool {
    forall|i: int| 0 <= i < arcs.len() ==> (#[trigger] arcs[i]).0 < n && arcs[i].1 < n
}

/// Arcs require as many nodes as make every endpoint a node, and no more.
pub proof fn arcs_require_their_endpoints(arcs: Seq<(NodeId, NodeId)>, n: nat)
    ensures
        endpoints_below(arcs, n as int) <==> nodes_required(arcs) <= n,
        arcs.len() == 0 <==> nodes_required(arcs) == 0,
{
    crate::sorter::the_largest_endpoint_is_found(arcs);
    if endpoints_below(arcs, n as int) && arcs.len() > 0 {
        let k = choose|k: int|
            0 <= k < arcs.len() && ((#[trigger] arcs[k]).0 == crate::sorter::max_id(arcs)
                || arcs[k].1 == crate::sorter::max_id(arcs));
        assert(arcs[k].0 < n && arcs[k].1 < n);
    }
}

/// A literal node count is what the graph gets, however few of the nodes have
/// arcs, unless an arc names a node that it does not reach: then it is refused.
pub proof fn literal_node_counts_are_kept(
    arcs: Seq<(NodeId, NodeId)>,
    n: usize,
    next_id: nat,
)
    ensures
        endpoints_below(arcs, n as int) ==> built_nodes(
            NumNodesSpec::Explicit(n),
            next_id,
            nodes_required(arcs),
        ) == Ok::<nat, crate::error::ErrorView>(n as nat),
        !endpoints_below(arcs, n as int) ==> built_nodes(
            NumNodesSpec::Explicit(n),
            next_id,
            nodes_required(arcs),
        ) is Err,
{
    arcs_require_their_endpoints(arcs, n as nat);
}

/// Counted from its arcs, a graph has the smallest number of nodes that holds
/// them; counted from its node map, as many as there are ids.
pub proof fn other_node_counts_are_counted(
    arcs: Seq<(NodeId, NodeId)>,
    next_id: nat,
    n: nat,
)
    ensures
        built_nodes(NumNodesSpec::NodeMap, next_id, nodes_required(arcs)) == Ok::<
            nat,
            crate::error::ErrorView,
        >(next_id),
        built_nodes(NumNodesSpec::FromArcs, next_id, nodes_required(arcs)) matches Ok(found) && (
        endpoints_below(arcs, n as int) <==> found <= n),
{
    arcs_require_their_endpoints(arcs, n);
}

// ---------------------------------------------------------------------------
// What the other plans mean
// ---------------------------------------------------------------------------
/// A parallel compression is taken to need a mapping for each pair of threads,
/// but never fewer than 1024, nor more than can be counted.
pub proof fn mappings_are_needed_for_pairs_of_threads(threads: usize)
    ensures
        mappings_needed(threads) >= 1024,
        threads * threads <= usize::MAX ==> mappings_needed(threads) >= threads * threads,
        1024 <= threads * threads <= usize::MAX ==> mappings_needed(threads) == threads * threads,
        threads <= 32 ==> mappings_needed(threads) == 1024,
        threads * threads > usize::MAX ==> mappings_needed(threads) == usize::MAX,
{
    if threads <= 32 {
        assert(threads * threads <= 1024) by (nonlinear_arith)
            requires
                threads <= 32,
        ;
    }
}

/// The size of some files and some others is the size of the ones and the size
/// of the others; that of one file is its own.
pub proof fn sizes_add_up(a: Seq<u64>, b: Seq<u64>, x: u64)
    ensures
        sum(a + b) == sum(a) + sum(b),
        sum(seq![x]) == x,
        sum(Seq::empty()) == 0,
    decreases b.len(),
{
    assert(seq![x].drop_last() =~= Seq::empty());
    assert(sum(Seq::empty()) == 0);
    assert(sum(seq![x]) == sum(seq![x].drop_last()) + x);
    if b.len() == 0 {
        assert(a + b =~= a);
    } else {
        sizes_add_up(a, b.drop_last(), x);
        assert((a + b).drop_last() =~= a + b.drop_last());
        assert((a + b).last() == b.last());
    }
}

/// The chunk files of a directory are counted from one, in two digits or as many
/// as it takes, and stand in the directory.
pub proof fn chunk_files_are_counted_from_one(dir: Seq<char>, n: nat, i: int)
    requires
        0 <= i < n,
    ensures
        chunk_files(dir, n).len() == n,
        chunk_files(dir, n)[i] == path::path_in(
            dir,
            "chunk_"@ + text::padded((i + 1) as nat, 2) + ".txt"@,
        ),
{
}

/// Files that are named are the inputs, in the order in which they are named.
/// The chunks of a directory are the inputs where it is named, and how many; one
/// of the two alone, no chunk and no file are refused.
pub proof fn inputs_are_the_files_that_are_named(sel: InputSelector, chunks: Option<usize>)
    ensures
        sel.chunk_dir is None && sel.input@.len() > 0 ==> {
            &&& inputs_of(sel, chunks) is Ok
            &&& inputs_of(sel, chunks)->Ok_0.len() == sel.input@.len()
            &&& forall|i: int|
                0 <= i < sel.input@.len() ==> inputs_of(sel, chunks)->Ok_0[i]
                    == (#[trigger] sel.input@[i])@
        },
        sel.chunk_dir is Some && chunks is Some && chunks->0 > 0 ==> {
            &&& inputs_of(sel, chunks) is Ok
            &&& inputs_of(sel, chunks)->Ok_0.len() == chunks->0
            &&& forall|i: int|
                0 <= i < chunks->0 ==> #[trigger] inputs_of(sel, chunks)->Ok_0[i] == path::path_in(
                    sel.chunk_dir->0@,
                    "chunk_"@ + text::padded((i + 1) as nat, 2) + ".txt"@,
                )
        },
        sel.chunk_dir is None && sel.input@.len() == 0 ==> inputs_of(sel, chunks) is Err,
        sel.chunk_dir is Some && (chunks is None || chunks->0 == 0) ==> inputs_of(
            sel,
            chunks,
        ) is Err,
{
}

/// The first file that is missing is missing, those before it are there, and
/// there is only one first.
pub proof fn one_file_is_the_first_missing(exist: Seq<bool>, i: int, j: int)
    requires
        first_missing(exist, i),
    ensures
        0 <= i < exist.len() && !exist[i],
        0 <= j < i ==> exist[j],
        first_missing(exist, j) ==> i == j,
{
    if first_missing(exist, j) && j < i {
        assert(exist[j]);
    }
    if first_missing(exist, j) && i < j {
        assert(exist[i]);
    }
}

/// A resumed compression takes up what the whole build would have compressed,
/// and does with it what the whole build would have done; it reads text.
pub proof fn resuming_goes_on_as_the_whole_would(
    c: CompressArgs,
    s: SortEdgesArgs,
    b: BuildPgArgs,
    a: BuildArgs,
    names: BuildNames,
)
    requires
        resumes_compress(c, a, names),
        resumes_sort(s, a, names),
        builds_whole(b, a, names),
    ensures
        c.input@ == b.edge_list@,
        s.edge_list matches Some(e) && e@ == c.input@,
        s.input@ == names.arcs@,
        c.output_prefix@ == b.output_prefix@,
        c.node_map matches Some(m) && m@ == b.node_map@,
        c.input_format is Tsv,
        s.input_format is Binary,
        c.num_nodes == a.num_nodes && b.num_nodes == a.num_nodes,
        c.parallel == a.parallel && b.parallel == a.parallel,
        c.allow_empty == a.allow_empty && b.allow_empty == a.allow_empty,
        c.verify == a.verify && b.verify == a.verify,
        s.sort_algo == a.sort_algo && b.sort_algo == a.sort_algo,
        s.sorted_arcs is None && !s.no_dedup && !c.build_ef,
        b.edge_list@ == names.edge_list@,
        b.node_map@ == names.node_map@,
        b.output_prefix@ == names.output_prefix@,
        b.no_text_edge_list == a.no_text_edge_list,
        b.no_node_map == a.no_node_map,
        b.max_tx_id == a.max_tx_id,
        b.on_missing_source == a.on_missing_source,
        b.progress_every == a.progress_every,
        b.inputs.chunk_dir is None && b.chunks is None,
        b.inputs.input@.len() == names.chunks@.len(),
        forall|i: int|
            0 <= i < names.chunks@.len() ==> (#[trigger] b.inputs.input@[i])@ == names.chunks@[i]@,
{
    assert(texts(b.inputs.input@).len() == texts(names.chunks@).len());
    assert forall|i: int| 0 <= i < names.chunks@.len() implies (#[trigger] b.inputs.input@[i])@
        == names.chunks@[i]@ by {
        assert(texts(b.inputs.input@)[i] == texts(names.chunks@)[i]);
    }
}

/// A format that is asked for is taken, whatever the file holds; else the file
/// tells.
pub proof fn formats_are_taken_as_asked(path: Seq<char>, len: u64, head: Seq<u8>)
    ensures
        chosen_format(InputFormatArg::Tsv, path, len, head) == Ok::<
            ArcFileFormat,
            crate::error::ErrorView,
        >(ArcFileFormat::Tsv),
        chosen_format(InputFormatArg::Binary, path, len, head) == Ok::<
            ArcFileFormat,
            crate::error::ErrorView,
        >(ArcFileFormat::Binary),
        chosen_format(InputFormatArg::Auto, path, len, head) == arcs::format_of(path, len, head),
{
}

/// A build is named by the file name of its path.
pub proof fn graphs_are_named_by_their_paths(dir: Seq<char>, name: Seq<char>)
    requires
        path::is_name(encode_utf8(name)),
        dir.len() > 0,
    ensures
        stem_of(name) == name,
        stem_of(dir.push('/') + name) == name,
        stem_of(Seq::empty()) == "pg"@,
{
    path::files_are_named_by_their_last_component(encode_utf8(dir), encode_utf8(name));
    encode_utf8_decode_utf8(name);
    encode_utf8_decode_utf8(Seq::<char>::empty());
    assert(dir.push('/') =~= dir + seq!['/']);
    text::lemma_encode_concat(dir.push('/'), name);
    text::lemma_encode_concat(dir, seq!['/']);
    assert(encode_utf8(seq!['/']) =~= seq![47u8]) by {
        is_ascii_chars_encode_utf8(seq!['/']);
    }
    assert(encode_utf8(dir) + seq![47u8] =~= encode_utf8(dir).push(47));
    assert(encode_utf8(Seq::<char>::empty()) =~= Seq::empty()) by {
        is_ascii_chars_encode_utf8(Seq::<char>::empty());
    }
}

/// The artifacts of a build are numbered by its chunks.
pub proof fn artifacts_are_numbered(dir: Seq<char>, head: Seq<char>, n: nat, tail: Seq<char>)
    ensures
        artifact(dir.push('/'), head, n, tail) == dir.push('/') + head + text::decimal(n) + tail,
        artifact(Seq::empty(), head, n, tail) == head + text::decimal(n) + tail,
{
    let name = head + text::decimal(n) + tail;
    path::one_slash_stands_before_a_file(dir, name);
    assert(dir.push('/') + name =~= dir.push('/') + head + text::decimal(n) + tail);
}

/// A line of a node map file gives the number in its last column, however many
/// columns there are and however it ends. A last column that is no number is
/// refused, and an empty line gives nothing.
pub proof fn node_map_lines_give_their_last_column(
    parts: Seq<Seq<u8>>,
    path: Seq<char>,
    line: u64,
)
    requires
        parts.len() > 0,
        text::free_of(parts, 9),
        text::free_of(parts, 10),
        text::free_of(parts, 13),
        text::joined_by(parts, 9).len() > 0,
        forall|i: int|
            0 <= i < text::joined_by(parts, 9).len() ==> #[trigger] text::joined_by(parts, 9)[i]
                < 128,
    ensures
        ({
            let t = text::joined_by(parts, 9);
            match text::u64_value(parts.last()) {
                Some(id) => {
                    let read = Ok::<Option<u64>, crate::error::ErrorView>(Some(id));
                    &&& line_id(t, path, line) == read
                    &&& line_id(t.push(10), path, line) == read
                    &&& line_id(t.push(13).push(10), path, line) == read
                },
                None => line_id(t, path, line) is Err && line_id(t.push(10), path, line) is Err,
            }
        }),
        line_id(seq![10u8], path, line) == Ok::<Option<u64>, crate::error::ErrorView>(None),
{
    let t = text::joined_by(parts, 9);
    text::cutting_undoes_joining(parts, 9);
    assert(t.last() != 10 && t.last() != 13) by {
        if parts.last().len() > 0 {
            let p = parts[parts.len() - 1];
            assert(t.last() == p[p.len() - 1]);
        } else {
            assert(parts.len() > 1);
            assert(t.last() == 9);
        }
    }
    arcs::lemma_line_end(t);
    arcs::lemma_line_end(Seq::empty());
    arcs::lemma_ascii_is_utf8(t);
    arcs::lemma_ascii_is_utf8(t.push(10));
    arcs::lemma_ascii_is_utf8(t.push(13).push(10));
    arcs::lemma_ascii_is_utf8(seq![10u8]);
    assert(Seq::<u8>::empty().push(10) =~= seq![10u8]);
}

/// The lines of a node map file are read one after another, each with its
/// number; the largest id goes along, and an error ends the reading.
pub proof fn node_map_lines_are_read_in_order(
    b: Seq<u8>,
    rest: Seq<u8>,
    path: Seq<char>,
    line: nat,
    before: u64,
)
    requires
        forall|i: int| 0 <= i < b.len() ==> #[trigger] b[i] != 10,
        line < u64::MAX,
    ensures
        ({
            let whole = b.push(10) + rest;
            match line_id(b.push(10), path, (line + 1) as u64) {
                Err(e) => largest_id(whole, path, line, Some(before)) == Err::<
                    Option<u64>,
                    crate::error::ErrorView,
                >(e) && largest_id(whole, path, line, None) == Err::<
                    Option<u64>,
                    crate::error::ErrorView,
                >(e),
                Ok(None) => largest_id(whole, path, line, Some(before)) == largest_id(
                    rest,
                    path,
                    line + 1,
                    Some(before),
                ) && largest_id(whole, path, line, None) == largest_id(rest, path, line + 1, None),
                Ok(Some(id)) => {
                    &&& id >= before ==> largest_id(whole, path, line, Some(before)) == largest_id(
                        rest,
                        path,
                        line + 1,
                        Some(id),
                    )
                    &&& id <= before ==> largest_id(whole, path, line, Some(before)) == largest_id(
                        rest,
                        path,
                        line + 1,
                        Some(before),
                    )
                    &&& largest_id(whole, path, line, None) == largest_id(
                        rest,
                        path,
                        line + 1,
                        Some(id),
                    )
                },
            }
        }),
        largest_id(Seq::empty(), path, line, Some(before)) == Ok::<
            Option<u64>,
            crate::error::ErrorView,
        >(Some(before)),
        largest_id(Seq::empty(), path, line, None) == Ok::<Option<u64>, crate::error::ErrorView>(
            None,
        ),
{
    let whole = b.push(10) + rest;
    crate::edge_list::lines_end_with_line_feeds(b, rest);
    assert(whole.take(b.len() as int + 1) =~= b.push(10));
    assert(whole.skip(b.len() as int + 1) =~= rest);
}

/// The next id is one more than the largest; there is none behind no id, and
/// none behind the last.
pub proof fn the_next_id_follows_the_largest(path: Seq<char>, m: u64)
    ensures
        m < usize::MAX ==> next_id_after(path, Some(m)) == Ok::<usize, crate::error::ErrorView>(
            (m + 1) as usize,
        ),
        m >= usize::MAX ==> next_id_after(path, Some(m)) is Err,
        next_id_after(path, None) is Err,
{
}

/// A run holds as many arcs as take half the budget, and one at least.
pub proof fn a_run_takes_half_the_budget(memory: u64, r: u64)
    requires
        call_ensures(arcs_per_run, (memory,), r),
    ensures
        r >= 1,
        memory >= 32 ==> 32 * r <= memory < 32 * (r + 1),
        memory < 32 ==> r == 1,
{
}

/// As many threads are used as are asked for; without a wish as many as there
/// are cores, and one at least.
pub proof fn threads_are_used_as_asked(asked: Option<usize>, available: usize, r: usize)
    requires
        call_ensures(resolve_threads, (asked, available), r),
    ensures
        r >= 1,
        asked is Some && asked->0 > 0 ==> r == asked->0,
        asked is None && available > 0 ==> r == available,
        asked == Some(0usize) && available > 0 ==> r == available,
{
}

/// As much memory is used as is asked for; without a wish the share of it, but
/// 192 GiB at most.
pub proof fn memory_is_used_as_asked(asked: Option<u64>, share: u64, r: u64)
    requires
        call_ensures(resolve_memory, (asked, share), r),
    ensures
        asked is Some ==> r == asked->0,
        asked is None ==> r <= share && r <= 206_158_430_208 && (r == share || r
            == 206_158_430_208),
{
}

/// Nothing is spilled where all arcs fit into one run, at thirty-two bytes an
/// arc; else all of them are.
pub proof fn arcs_are_spilled_where_they_do_not_fit(
    memory: u64,
    arcs: u64,
    arc_bytes: u64,
    r: u64,
)
    requires
        call_ensures(spill_bytes, (memory, arcs, arc_bytes), r),
    ensures
        32 * arcs <= memory ==> r == 0,
        32 * arcs > memory && arcs > 1 ==> r == arc_bytes,
        arcs <= 1 ==> r == 0,
{
}

/// A disk has enough space where what is free is not less than what is needed;
/// where it is not known, nothing is said.
pub proof fn space_is_enough_where_it_suffices(free: Option<u64>, needed: u64, r: SpaceCheck)
    requires
        call_ensures(check_space, (free, needed), r),
    ensures
        r is Unknown <==> free is None,
        r is Enough <==> free is Some && free->0 >= needed,
        r is Short <==> free is Some && free->0 < needed,
{
}

/// A node count is resolved to what it asks for: a literal count to itself, that
/// of a node map to its next id, that of the arcs to what they require. One that
/// is smaller than what the arcs require is refused, and no other, but for that
/// of a node map that is not given.
pub proof fn node_counts_are_resolved_as_asked(
    n: usize,
    path: &str,
    next_id: usize,
    from_arcs: usize,
    literal: Result<usize>,
    mapped: Result<usize>,
    unmapped: Result<usize>,
    counted: Result<usize>,
)
    requires
        call_ensures(
            resolve_num_nodes,
            (NumNodesSpec::Explicit(n), Some((path, next_id)), from_arcs),
            literal,
        ),
        call_ensures(
            resolve_num_nodes,
            (NumNodesSpec::NodeMap, Some((path, next_id)), from_arcs),
            mapped,
        ),
        call_ensures(
            resolve_num_nodes,
            (NumNodesSpec::NodeMap, None::<(&str, usize)>, from_arcs),
            unmapped,
        ),
        call_ensures(
            resolve_num_nodes,
            (NumNodesSpec::FromArcs, None::<(&str, usize)>, from_arcs),
            counted,
        ),
    ensures
        literal is Ok <==> n >= from_arcs,
        literal is Ok ==> literal->Ok_0 == n,
        mapped is Ok <==> next_id >= from_arcs,
        mapped is Ok ==> mapped->Ok_0 == next_id,
        unmapped is Err,
        counted == Ok::<usize, Error>(from_arcs),
{
}

/// The arcs of a text file are all counted, and the largest endpoint is found.
pub proof fn arcs_of_a_file_are_counted(
    path: &str,
    input: &[u8],
    list: Seq<(NodeId, NodeId)>,
    r: Result<(u64, NodeId)>,
)
    requires
        input@ == arcs::arcs_text(list),
        call_ensures(scan_arcs, (path, input, ArcFileFormat::Tsv), r),
    ensures
        r is Ok,
        r->Ok_0.0 == list.len(),
        endpoints_below(list, r->Ok_0.1 + 1),
        list.len() > 0 ==> !endpoints_below(list, r->Ok_0.1 as int),
        list.len() == 0 ==> r->Ok_0.1 == 0,
{
    arcs::text_round_trips(list, path@, 0);
    crate::sorter::the_largest_endpoint_is_found(list);
    if list.len() > 0 {
        let m = crate::sorter::max_id(list);
        let k = choose|k: int|
            0 <= k < list.len() && ((#[trigger] list[k]).0 == m || list[k].1 == m);
        assert(!(list[k].0 < m && list[k].1 < m));
    }
}

/// The next id of a node map file is above all of its ids, and no smaller number
/// is.
pub proof fn the_next_id_of_a_file_is_free(
    path: &str,
    input: &[u8],
    rows: Seq<(i32, i32, NodeId)>,
    r: Result<usize>,
    i: int,
)
    requires
        input@ == crate::nodemap::tsv_bytes(rows),
        0 <= i < rows.len(),
        call_ensures(node_map_next_id, (path, input), r),
        r is Ok,
    ensures
        rows[i].2 < r->Ok_0,
        exists|k: int| 0 <= k < rows.len() && (#[trigger] rows[k]).2 + 1 == r->Ok_0,
{
    lemma_rows_read(rows, path@, 0, None);
    lemma_largest_row_id(rows, None);
    let m = largest_row_id(rows, None);
    let k = choose|k: int| 0 <= k < rows.len() && #[trigger] rows[k].2 == m->0;
    assert(rows[k].2 + 1 == r->Ok_0);
}

/// What is said of a node count that is too small tells it, and how many nodes
/// the arcs require; of a node map also which it is.
pub proof fn small_node_counts_are_told(n: nat, from_arcs: nat, path: Seq<char>)
    ensures
        too_small(n, from_arcs) matches crate::error::ErrorView::Other(msg) && text::tells(
            msg,
            text::decimal(n) + " is smaller than the "@ + text::decimal(from_arcs)
                + " nodes the arcs require; webgraph would silently drop the out-of-range arcs"@,
        ),
        other_run(path, n, from_arcs) matches crate::error::ErrorView::Other(msg) && text::tells(
            msg,
            path + " declares "@ + text::decimal(n) + " nodes, fewer than the "@ + text::decimal(
                from_arcs,
            ),
        ),
{
    if let crate::error::ErrorView::Other(msg) = too_small(n, from_arcs) {
        text::lemma_tells(
            msg,
            "--num-nodes "@,
            text::decimal(n) + " is smaller than the "@ + text::decimal(from_arcs)
                + " nodes the arcs require; webgraph would silently drop the out-of-range arcs"@,
            Seq::empty(),
        );
    }
    if let crate::error::ErrorView::Other(msg) = other_run(path, n, from_arcs) {
        text::lemma_tells(
            msg,
            "the node map at "@,
            path + " declares "@ + text::decimal(n) + " nodes, fewer than the "@ + text::decimal(
                from_arcs,
            ),
            " the arcs require; the two files do not belong to the same run"@,
        );
    }
}

/// The files of a build stand in the directory of its graphs, and are named by
/// the number of its chunks; the kept arcs are named by the graph.
pub proof fn builds_name_their_files(
    a: BuildArgs,
    tmp_dir: &str,
    dir: Seq<char>,
    names: BuildNames,
    i: int,
)
    requires
        call_ensures(build_names, (&a, tmp_dir), Ok(names)),
        a.graph_dir@ == dir.push('/'),
        0 <= i < a.chunks,
    ensures
        ({
            let n = text::decimal(a.chunks as nat);
            &&& names.node_map@ == dir.push('/') + "pg_nm_"@ + n + ".tsv"@
            &&& names.edge_list@ == dir.push('/') + "pg_el_"@ + n + ".tsv"@
            &&& names.output_prefix@ == dir.push('/') + "pg_"@ + n
            &&& names.chunks@.len() == a.chunks
            &&& names.chunks@[i]@ == path::path_in(
                a.chunk_dir@,
                "chunk_"@ + text::padded((i + 1) as nat, 2) + ".txt"@,
            )
        }),
{
    artifacts_are_numbered(dir, "pg_nm_"@, a.chunks as nat, ".tsv"@);
    artifacts_are_numbered(dir, "pg_el_"@, a.chunks as nat, ".tsv"@);
    artifacts_are_numbered(dir, "pg_"@, a.chunks as nat, ""@);
    chunk_files_are_counted_from_one(a.chunk_dir@, a.chunks as nat, i);
    reveal_strlit("");
    assert(""@ =~= Seq::empty());
    let n = text::decimal(a.chunks as nat);
    assert(dir.push('/') + "pg_"@ + n + ""@ =~= dir.push('/') + "pg_"@ + n);
    assert(texts(names.chunks@).len() == a.chunks);
    assert(texts(names.chunks@)[i] == names.chunks@[i]@);
}

/// The arcs that are kept, and a graph that is not complete, are named by the
/// file name of the graph.
pub proof fn kept_files_are_named_by_their_graph(
    dir: Seq<char>,
    name: Seq<char>,
    prefix: &str,
    tmp_dir: &str,
    pid: u32,
    kept: String,
    temp: String,
)
    requires
        path::is_name(encode_utf8(name)),
        dir.len() > 0,
        prefix@ == dir.push('/') + name,
        call_ensures(kept_arcs_path, (tmp_dir, prefix), kept),
        call_ensures(temp_graph_name, (prefix, pid), temp),
    ensures
        kept@ == path::path_in(tmp_dir@, name + "_arcs.bin"@),
        temp@ == name + "-pgtmp"@ + text::decimal(pid as nat),
{
    graphs_are_named_by_their_paths(dir, name);
}

/// A build is resumed only where the file that it starts from is there; a build
/// that is not resumed is run as a whole.
pub proof fn builds_are_resumed_from_what_is_there(
    a: BuildArgs,
    names: BuildNames,
    arcs_exist: bool,
    edge_list_exists: bool,
    r: Result<BuildPlan>,
)
    requires
        call_ensures(plan_build, (&a, names, arcs_exist, edge_list_exists), r),
    ensures
        a.from_stage == Some(StageArg::SortEdges) ==> (r is Ok <==> arcs_exist
            && !a.no_text_edge_list),
        a.from_stage == Some(StageArg::Compress) ==> (r is Ok <==> edge_list_exists),
        a.from_stage is None ==> r is Ok,
        r is Ok ==> match r->Ok_0 {
            BuildPlan::Whole(_) => a.from_stage != Some(StageArg::SortEdges) && a.from_stage
                != Some(StageArg::Compress),
            BuildPlan::SortAndCompress(s, c) => {
                &&& a.from_stage == Some(StageArg::SortEdges)
                &&& s.input@ == names.arcs@
                &&& c.input@ == names.edge_list@
            },
            BuildPlan::CompressOnly(c) => {
                &&& a.from_stage == Some(StageArg::Compress)
                &&& c.input@ == names.edge_list@
            },
        },
{
}

/// What a file of a finished compression is, decides what its absence means: the
/// index may be missing, the other files may not.
pub proof fn only_the_index_may_be_missing(
    file: &str,
    is_index: bool,
    present: bool,
    r: Result<bool>,
)
    requires
        call_ensures(check_graph_file, (file, is_index, present), r),
    ensures
        r is Err <==> !present && !is_index,
        r is Ok ==> r->Ok_0 == present,
{
}

/// The options of a stage are those of its arguments.
pub proof fn options_are_those_that_were_given(
    s: SplitArgs,
    common: CommonOpts,
    algo: SortAlgo,
    dedup: bool,
    memory: u64,
    threads: usize,
    split: SplitOpts,
    sort: SortOpts,
)
    requires
        call_ensures(split_opts, (&s,), split),
        call_ensures(sort_opts, (&common, algo, dedup, memory, threads), sort),
    ensures
        split.start@ == s.start@ && split.end@ == s.end@ && split.tz@ == s.tz@,
        split.months == s.months,
        split.append <==> s.append,
        split.create_empty <==> !s.no_create_empty,
        split.skip_out_of_range <==> s.skip_out_of_range,
        sort.algo == algo && sort.threads == threads && sort.memory_bytes == memory,
        sort.dedup <==> dedup,
        sort.keep_intermediate <==> common.keep_intermediate,
        sort.tmp_dir@ == common.tmp_dir@,
{
}

} // verus!
