//! What a run would do, in words: the plan that a dry run prints.
//!
//! Sizes and estimates come as texts, since they are rounded floating-point
//! numbers.
use crate::cli::{
    ArcFormatArg, BuildPgArgs, CompressArgs, EdgeListArgs, NumNodesSpec, SortAlgoArg,
    SortEdgesArgs, SplitArgs,
};
use crate::plan;
use crate::text;
use crate::text::{append_decimal, append_right};
use vstd::prelude::*;
use vstd::string::*;

verus! {

// ---------------------------------------------------------------------------
// Inputs and estimates
// ---------------------------------------------------------------------------
/// The lines of the first `n` inputs: the size, aligned to the right, and the
/// name.
pub open spec fn input_lines(names: Seq<Seq<char>>, sizes: Seq<Seq<char>>, n: nat) -> Seq<char>
    decreases n,
{
    if n == 0 {
        Seq::empty()
    } else {
        input_lines(names, sizes, (n - 1) as nat) + "      "@ + text::right_aligned(
            sizes[n - 1],
            12,
        ) + "  "@ + names[n - 1] + "\n"@
    }
}

/// The inputs of a run: how many, how large together, and each of them.
pub open spec fn inputs_text(names: Seq<Seq<char>>, sizes: Seq<Seq<char>>, total: Seq<char>) -> Seq<
    char,
> {
    "  inputs      : "@ + text::decimal(names.len()) + " file(s), "@ + total + "\n"@ + input_lines(
        names,
        sizes,
        names.len(),
    )
}

/// Renders the inputs of a run.
pub fn input_plan(paths: &Vec<String>, sizes: &Vec<String>, total: &str) -> (r: String)
    requires
        paths@.len() == sizes@.len(),
    ensures
        r@ == inputs_text(plan::texts(paths@), plan::texts(sizes@), total@),
{
    let ghost names = plan::texts(paths@);
    let ghost shown = plan::texts(sizes@);
    let mut out: String = "  inputs      : ".to_owned();
    append_decimal(&mut out, paths.len() as u64);
    out.append(" file(s), ");
    out.append(total);
    out.append("\n");
    let ghost head = out@;
    let mut i: usize = 0;
    assert(out@ =~= head + input_lines(names, shown, 0));
    while i < paths.len()
        invariant
            i <= paths@.len(),
            paths@.len() == sizes@.len(),
            names == plan::texts(paths@),
            shown == plan::texts(sizes@),
            out@ == head + input_lines(names, shown, i as nat),
        decreases paths@.len() - i,
    {
        out.append("      ");
        append_right(&mut out, sizes[i].as_str(), 12);
        out.append("  ");
        out.append(paths[i].as_str());
        out.append("\n");
        i = i + 1;
        assert(out@ =~= head + input_lines(names, shown, i as nat));
    }
    out
}

/// What a run is expected to produce, each number as a text.
#[derive(Debug)]
pub struct EstimateTexts {
    /// Output slots.
    pub outputs: String,
    /// Arcs, duplicates included.
    pub arcs: String,
    /// Size of the arcs as records.
    pub arc_bytes: String,
    /// Size of the arcs as text.
    pub edge_list_bytes: String,
    /// Size of the node map.
    pub node_map_bytes: String,
}

/// The estimates of a run; that of the text edge list only where there is one.
pub open spec fn estimates_text(est: EstimateTexts, text_edge_list: bool) -> Seq<char> {
    "  estimates   :\n      output slots (nodes) ~ "@ + est.outputs@
        + "\n      raw arcs             ~ "@ + est.arcs@ + "\n      binary arcs          ~ "@
        + est.arc_bytes@ + (if text_edge_list {
        "\n      text edge list       ~ "@ + est.edge_list_bytes@
    } else {
        Seq::empty()
    }) + "\n      text node map        ~ "@ + est.node_map_bytes@ + "\n"@
}

/// Renders the estimates of a run.
pub fn estimate_plan(est: &EstimateTexts, text_edge_list: bool) -> (r: String)
    ensures
        r@ == estimates_text(*est, text_edge_list),
{
    let mut out: String = "  estimates   :\n      output slots (nodes) ~ ".to_owned();
    out.append(est.outputs.as_str());
    out.append("\n      raw arcs             ~ ");
    out.append(est.arcs.as_str());
    out.append("\n      binary arcs          ~ ");
    out.append(est.arc_bytes.as_str());
    if text_edge_list {
        out.append("\n      text edge list       ~ ");
        out.append(est.edge_list_bytes.as_str());
    }
    out.append("\n      text node map        ~ ");
    out.append(est.node_map_bytes.as_str());
    out.append("\n");
    assert(out@ =~= estimates_text(*est, text_edge_list));
    out
}

// ---------------------------------------------------------------------------
// Names of choices
// ---------------------------------------------------------------------------
/// The name of an arc format.
pub open spec fn format_text(f: ArcFormatArg) -> Seq<char> {
    match f {
        ArcFormatArg::Binary => "Binary"@,
        ArcFormatArg::Tsv => "Tsv"@,
    }
}

fn format_name(f: ArcFormatArg) -> (r: &'static str)
    ensures
        r@ == format_text(f),
{
    match f {
        ArcFormatArg::Binary => "Binary",
        ArcFormatArg::Tsv => "Tsv",
    }
}

/// The name of a sorting backend.
pub open spec fn algo_text(a: SortAlgoArg) -> Seq<char> {
    match a {
        SortAlgoArg::Radix => "Radix"@,
        SortAlgoArg::Pdq => "Pdq"@,
    }
}

fn algo_name(a: SortAlgoArg) -> (r: &'static str)
    ensures
        r@ == algo_text(a),
{
    match a {
        SortAlgoArg::Radix => "Radix",
        SortAlgoArg::Pdq => "Pdq",
    }
}

/// `true` or `false`.
pub open spec fn bool_text(b: bool) -> Seq<char> {
    if b {
        "true"@
    } else {
        "false"@
    }
}

fn bool_name(b: bool) -> (r: &'static str)
    ensures
        r@ == bool_text(b),
{
    if b {
        "true"
    } else {
        "false"
    }
}

/// The name of a choice of a node count.
pub open spec fn nodes_text(n: NumNodesSpec) -> Seq<char> {
    match n {
        NumNodesSpec::NodeMap => "NodeMap"@,
        NumNodesSpec::FromArcs => "FromArcs"@,
        NumNodesSpec::Explicit(v) => "Explicit("@ + text::decimal(v as nat) + ")"@,
    }
}

fn append_nodes(out: &mut String, n: NumNodesSpec)
    ensures
        final(out)@ == old(out)@ + nodes_text(n),
{
    match n {
        NumNodesSpec::NodeMap => out.append("NodeMap"),
        NumNodesSpec::FromArcs => out.append("FromArcs"),
        NumNodesSpec::Explicit(v) => {
            out.append("Explicit(");
            append_decimal(out, v as u64);
            out.append(")");
            assert(out@ =~= old(out)@ + nodes_text(n));
        },
    }
}

/// An output file, or that it is not written.
pub open spec fn output_text(written: bool, name: Seq<char>) -> Seq<char> {
    if written {
        name
    } else {
        "(not written)"@
    }
}

fn output_name<'a>(written: bool, name: &'a str) -> (r: &'a str)
    ensures
        r@ == output_text(written, name@),
{
    if written {
        name
    } else {
        "(not written)"
    }
}

// ---------------------------------------------------------------------------
// Plans
// ---------------------------------------------------------------------------
/// The plan of a split.
pub open spec fn split_text(a: SplitArgs, size: Seq<char>, chunks: nat, table: Seq<char>) -> Seq<
    char,
> {
    "DRY RUN: utxo2webgraph split\n  input       : "@ + a.input@ + " ("@ + size
        + ")\n  output dir  : "@ + a.output_dir@ + "\n  timezone    : "@ + a.tz@
        + "\n  chunks      : "@ + text::decimal(chunks) + "\n  mode        : "@ + (if a.append {
        "append"@
    } else {
        "truncate"@
    }) + "\n"@ + table
}

/// Renders the plan of a split: its input, where its chunks go, and their
/// boundaries.
pub fn split_plan(a: &SplitArgs, size: &str, chunks: usize, table: &str) -> (r: String)
    ensures
        r@ == split_text(*a, size@, chunks as nat, table@),
{
    let mut out: String = "DRY RUN: utxo2webgraph split\n  input       : ".to_owned();
    out.append(a.input.as_str());
    out.append(" (");
    out.append(size);
    out.append(")\n  output dir  : ");
    out.append(a.output_dir.as_str());
    out.append("\n  timezone    : ");
    out.append(a.tz.as_str());
    out.append("\n  chunks      : ");
    append_decimal(&mut out, chunks as u64);
    out.append("\n  mode        : ");
    if a.append {
        out.append("append");
    } else {
        out.append("truncate");
    }
    out.append("\n");
    out.append(table);
    out
}

/// The plan of an edge list.
pub open spec fn edge_list_text(a: EdgeListArgs, inputs: Seq<char>, estimates: Seq<char>) -> Seq<
    char,
> {
    "DRY RUN: utxo2webgraph edge-list\n"@ + inputs + "  arcs        : "@ + a.arcs@ + " ("@
        + format_text(a.arc_format) + ")\n  node map    : "@ + (match a.node_map {
        Some(p) => p@,
        None => "(not written)"@,
    }) + "\n"@ + estimates
}

/// Renders the plan of an edge list.
pub fn edge_list_plan(a: &EdgeListArgs, inputs: &str, estimates: &str) -> (r: String)
    ensures
        r@ == edge_list_text(*a, inputs@, estimates@),
{
    let mut out: String = "DRY RUN: utxo2webgraph edge-list\n".to_owned();
    out.append(inputs);
    out.append("  arcs        : ");
    out.append(a.arcs.as_str());
    out.append(" (");
    out.append(format_name(a.arc_format));
    out.append(")\n  node map    : ");
    match &a.node_map {
        Some(p) => {
            out.append(p.as_str());
        },
        None => {
            out.append("(not written)");
        },
    }
    out.append("\n");
    out.append(estimates);
    out
}

/// The memory budget of a sort, and how many arcs a run of it holds.
pub open spec fn memory_text(memory: Seq<char>, arcs_per_run: u64) -> Seq<char> {
    "  memory      : "@ + memory + "  ("@ + text::decimal(arcs_per_run as nat) + " arcs/run)\n"@
}

fn append_memory(out: &mut String, memory: &str, arcs_per_run: u64)
    ensures
        final(out)@ == old(out)@ + memory_text(memory@, arcs_per_run),
{
    out.append("  memory      : ");
    out.append(memory);
    out.append("  (");
    append_decimal(out, arcs_per_run);
    out.append(" arcs/run)\n");
    assert(out@ =~= old(out)@ + memory_text(memory@, arcs_per_run));
}

/// The plan of a sort.
pub open spec fn sort_text(
    a: SortEdgesArgs,
    size: Seq<char>,
    memory: Seq<char>,
    arcs_per_run: u64,
) -> Seq<char> {
    "DRY RUN: utxo2webgraph sort-edges\n  arcs        : "@ + a.input@ + " ("@ + size
        + ")\n  sort algo   : "@ + algo_text(a.sort_algo) + "\n"@ + memory_text(
        memory,
        arcs_per_run,
    ) + "  dedup       : "@ + bool_text(!a.no_dedup) + "\n"@
}

/// Renders the plan of a sort.
pub fn sort_plan(a: &SortEdgesArgs, size: &str, memory: &str, arcs_per_run: u64) -> (r: String)
    ensures
        r@ == sort_text(*a, size@, memory@, arcs_per_run),
{
    let mut out: String = "DRY RUN: utxo2webgraph sort-edges\n  arcs        : ".to_owned();
    out.append(a.input.as_str());
    out.append(" (");
    out.append(size);
    out.append(")\n  sort algo   : ");
    out.append(algo_name(a.sort_algo));
    out.append("\n");
    append_memory(&mut out, memory, arcs_per_run);
    out.append("  dedup       : ");
    out.append(bool_name(!a.no_dedup));
    out.append("\n");
    out
}

/// The plan of a compression.
pub open spec fn compress_text(a: CompressArgs, size: Seq<char>) -> Seq<char> {
    "DRY RUN: utxo2webgraph compress\n  edge list   : "@ + a.input@ + " ("@ + size
        + ")\n  output      : "@ + a.output_prefix@
        + ".{graph,offsets,properties}\n  num nodes   : "@ + nodes_text(a.num_nodes)
        + "\n  parallel    : "@ + bool_text(a.parallel) + "\n"@
}

/// Renders the plan of a compression.
pub fn compress_plan(a: &CompressArgs, size: &str) -> (r: String)
    ensures
        r@ == compress_text(*a, size@),
{
    let mut out: String = "DRY RUN: utxo2webgraph compress\n  edge list   : ".to_owned();
    out.append(a.input.as_str());
    out.append(" (");
    out.append(size);
    out.append(")\n  output      : ");
    out.append(a.output_prefix.as_str());
    out.append(".{graph,offsets,properties}\n  num nodes   : ");
    append_nodes(&mut out, a.num_nodes);
    out.append("\n  parallel    : ");
    out.append(bool_name(a.parallel));
    out.append("\n");
    out
}

/// The plan of the fused stages.
pub open spec fn build_text(
    a: BuildPgArgs,
    inputs: Seq<char>,
    memory: Seq<char>,
    arcs_per_run: u64,
    estimates: Seq<char>,
) -> Seq<char> {
    "DRY RUN: utxo2webgraph build-pg\n"@ + inputs + "  node map    : "@ + output_text(
        !a.no_node_map,
        a.node_map@,
    ) + "\n  edge list   : "@ + output_text(!a.no_text_edge_list, a.edge_list@)
        + "\n  BVGraph     : "@ + a.output_prefix@
        + ".{graph,offsets,properties}\n  sort algo   : "@ + algo_text(a.sort_algo)
        + "   parallel: "@ + bool_text(a.parallel) + "\n"@ + memory_text(memory, arcs_per_run)
        + estimates
}

/// Renders the plan of the fused stages.
pub fn build_plan(
    a: &BuildPgArgs,
    inputs: &str,
    memory: &str,
    arcs_per_run: u64,
    estimates: &str,
) -> (r: String)
    ensures
        r@ == build_text(*a, inputs@, memory@, arcs_per_run, estimates@),
{
    let mut out: String = "DRY RUN: utxo2webgraph build-pg\n".to_owned();
    out.append(inputs);
    out.append("  node map    : ");
    out.append(output_name(!a.no_node_map, a.node_map.as_str()));
    out.append("\n  edge list   : ");
    out.append(output_name(!a.no_text_edge_list, a.edge_list.as_str()));
    out.append("\n  BVGraph     : ");
    out.append(a.output_prefix.as_str());
    out.append(".{graph,offsets,properties}\n  sort algo   : ");
    out.append(algo_name(a.sort_algo));
    out.append("   parallel: ");
    out.append(bool_name(a.parallel));
    out.append("\n");
    append_memory(&mut out, memory, arcs_per_run);
    out.append(estimates);
    out
}

// ---------------------------------------------------------------------------
// Laws
// ---------------------------------------------------------------------------
/// Every input has a line with its size and its name, in their order, and they
/// are counted.
pub proof fn plans_list_every_input(
    names: Seq<Seq<char>>,
    sizes: Seq<Seq<char>>,
    total: Seq<char>,
    i: int,
)
    requires
        names.len() == sizes.len(),
        0 <= i < names.len(),
    ensures
        text::tells(
            inputs_text(names, sizes, total),
            text::decimal(names.len()) + " file(s), "@ + total + "\n"@,
        ),
        text::tells(
            inputs_text(names, sizes, total),
            text::right_aligned(sizes[i], 12) + "  "@ + names[i] + "\n"@,
        ),
{
    let all = input_lines(names, sizes, names.len());
    let t = inputs_text(names, sizes, total);
    let head = text::decimal(names.len()) + " file(s), "@ + total + "\n"@;
    text::lemma_tells(t, "  inputs      : "@, head, all);
    let part = text::right_aligned(sizes[i], 12) + "  "@ + names[i] + "\n"@;
    lemma_input_line(names, sizes, names.len(), i);
    let (a, b) = choose|a: Seq<char>, b: Seq<char>| all == #[trigger] (a + part + b);
    text::lemma_tells(t, "  inputs      : "@ + head + a, part, b);
}

proof fn lemma_input_line(names: Seq<Seq<char>>, sizes: Seq<Seq<char>>, n: nat, i: int)
    requires
        0 <= i < n,
    ensures
        text::tells(
            input_lines(names, sizes, n),
            text::right_aligned(sizes[i], 12) + "  "@ + names[i] + "\n"@,
        ),
    decreases n,
{
    let part = text::right_aligned(sizes[i], 12) + "  "@ + names[i] + "\n"@;
    let before = input_lines(names, sizes, (n - 1) as nat);
    let all = input_lines(names, sizes, n);
    if i == n - 1 {
        text::lemma_tells(all, before + "      "@, part, Seq::empty());
    } else {
        lemma_input_line(names, sizes, (n - 1) as nat, i);
        let (a, b) = choose|a: Seq<char>, b: Seq<char>| before == #[trigger] (a + part + b);
        let last = "      "@ + text::right_aligned(sizes[n - 1], 12) + "  "@ + names[n - 1] + "\n"@;
        assert(all =~= before + last);
        text::lemma_tells(all, a, part, b + last);
    }
}

/// The estimates tell every number, that of the text edge list only where there
/// is one.
#[verifier::spinoff_prover]
#[verifier::rlimit(50)]
pub proof fn estimates_are_told(est: EstimateTexts)
    ensures
        text::tells(
            estimates_text(est, true),
            "\n      text edge list       ~ "@ + est.edge_list_bytes@,
        ),
        text::tells(
            estimates_text(est, false),
            est.outputs@ + "\n      raw arcs             ~ "@ + est.arcs@
                + "\n      binary arcs          ~ "@ + est.arc_bytes@
                + "\n      text node map        ~ "@ + est.node_map_bytes@ + "\n"@,
        ),
        text::tells(
            estimates_text(est, true),
            est.outputs@ + "\n      raw arcs             ~ "@ + est.arcs@
                + "\n      binary arcs          ~ "@ + est.arc_bytes@,
        ),
        text::tells(
            estimates_text(est, true),
            "\n      text node map        ~ "@ + est.node_map_bytes@ + "\n"@,
        ),
{
    let head = "  estimates   :\n      output slots (nodes) ~ "@;
    let part = est.outputs@ + "\n      raw arcs             ~ "@ + est.arcs@
        + "\n      binary arcs          ~ "@ + est.arc_bytes@;
    let list = "\n      text edge list       ~ "@ + est.edge_list_bytes@;
    let map = "\n      text node map        ~ "@ + est.node_map_bytes@ + "\n"@;
    let long = estimates_text(est, true);
    let short = estimates_text(est, false);
    let none = Seq::<char>::empty();
    text::lemma_tells(long, head + part, list, map);
    text::lemma_tells(long, head, part, list + map);
    text::lemma_tells(long, head + part + list, map, none);
    let both = est.outputs@ + "\n      raw arcs             ~ "@ + est.arcs@
        + "\n      binary arcs          ~ "@ + est.arc_bytes@
        + "\n      text node map        ~ "@ + est.node_map_bytes@ + "\n"@;
    text::lemma_tells(short, head, both, none);
}

/// Choices are named by their names, a literal node count with its number; an
/// output that is not written is not named.
pub proof fn choices_are_named(v: usize, name: Seq<char>)
    ensures
        format_text(ArcFormatArg::Binary) == "Binary"@,
        format_text(ArcFormatArg::Tsv) == "Tsv"@,
        algo_text(SortAlgoArg::Radix) == "Radix"@,
        algo_text(SortAlgoArg::Pdq) == "Pdq"@,
        bool_text(true) == "true"@,
        bool_text(false) == "false"@,
        nodes_text(NumNodesSpec::NodeMap) == "NodeMap"@,
        nodes_text(NumNodesSpec::FromArcs) == "FromArcs"@,
        text::tells(nodes_text(NumNodesSpec::Explicit(v)), text::decimal(v as nat) + ")"@),
        output_text(true, name) == name,
        output_text(false, name) == "(not written)"@,
{
    text::lemma_tells(
        nodes_text(NumNodesSpec::Explicit(v)),
        "Explicit("@,
        text::decimal(v as nat) + ")"@,
        Seq::empty(),
    );
}

/// The plan of a split tells its input, where its chunks go, the zone, how many
/// there are, whether they are appended to, and the table.
#[verifier::spinoff_prover]
#[verifier::rlimit(50)]
pub proof fn split_plans_tell_the_split(
    a: SplitArgs,
    size: Seq<char>,
    chunks: nat,
    table: Seq<char>,
)
    ensures
        ({
            let t = split_text(a, size, chunks, table);
            &&& text::tells(
                t,
                a.input@ + " ("@ + size + ")\n  output dir  : "@ + a.output_dir@
                    + "\n  timezone    : "@ + a.tz@ + "\n  chunks      : "@ + text::decimal(chunks)
                    + "\n  mode        : "@,
            )
            &&& a.append ==> text::tells(t, "append"@ + "\n"@ + table)
            &&& !a.append ==> text::tells(t, "truncate"@ + "\n"@ + table)
        }),
{
    let t = split_text(a, size, chunks, table);
    let head = "DRY RUN: utxo2webgraph split\n  input       : "@;
    let part = a.input@ + " ("@ + size + ")\n  output dir  : "@ + a.output_dir@
        + "\n  timezone    : "@ + a.tz@ + "\n  chunks      : "@ + text::decimal(chunks)
        + "\n  mode        : "@;
    let mode = if a.append {
        "append"@
    } else {
        "truncate"@
    };
    text::lemma_tells(t, head, part, mode + "\n"@ + table);
    text::lemma_tells(t, head + part, mode + "\n"@ + table, Seq::empty());
}

/// The plan of an edge list tells its inputs, its arcs and their format, its node
/// map, and the estimates.
#[verifier::spinoff_prover]
#[verifier::rlimit(50)]
pub proof fn edge_list_plans_tell_the_edge_list(
    a: EdgeListArgs,
    inputs: Seq<char>,
    estimates: Seq<char>,
)
    ensures
        ({
            let t = edge_list_text(a, inputs, estimates);
            let map = if a.node_map is Some {
                a.node_map->0@
            } else {
                "(not written)"@
            };
            &&& text::tells(t, inputs + "  arcs        : "@ + a.arcs@)
            &&& a.arc_format is Binary ==> text::tells(t, "Binary"@ + ")\n  node map    : "@ + map)
            &&& a.arc_format is Tsv ==> text::tells(t, "Tsv"@ + ")\n  node map    : "@ + map)
            &&& text::tells(t, map + "\n"@ + estimates)
        }),
{
    let t = edge_list_text(a, inputs, estimates);
    let map = if a.node_map is Some {
        a.node_map->0@
    } else {
        "(not written)"@
    };
    let head = "DRY RUN: utxo2webgraph edge-list\n"@;
    let arcs = inputs + "  arcs        : "@ + a.arcs@;
    let format = format_text(a.arc_format) + ")\n  node map    : "@;
    text::lemma_tells(t, head, arcs, " ("@ + format + map + "\n"@ + estimates);
    text::lemma_tells(t, head + arcs + " ("@, format + map, "\n"@ + estimates);
    text::lemma_tells(t, head + arcs + " ("@ + format, map + "\n"@ + estimates, Seq::empty());
}

/// The plan of a sort tells its arcs, how they are sorted, how many of them a run
/// holds, and whether duplicates are dropped.
#[verifier::spinoff_prover]
#[verifier::rlimit(50)]
pub proof fn sort_plans_tell_the_sort(
    a: SortEdgesArgs,
    size: Seq<char>,
    memory: Seq<char>,
    arcs_per_run: u64,
)
    ensures
        ({
            let t = sort_text(a, size, memory, arcs_per_run);
            let arcs = a.input@ + " ("@ + size + ")\n  sort algo   : "@;
            let rest = "\n"@ + "  memory      : "@ + memory + "  ("@ + text::decimal(
                arcs_per_run as nat,
            ) + " arcs/run)\n"@ + "  dedup       : "@;
            &&& a.sort_algo is Radix ==> text::tells(t, arcs + "Radix"@ + rest)
            &&& a.sort_algo is Pdq ==> text::tells(t, arcs + "Pdq"@ + rest)
            &&& a.no_dedup ==> text::tells(t, rest + "false"@ + "\n"@)
            &&& !a.no_dedup ==> text::tells(t, rest + "true"@ + "\n"@)
        }),
{
    let t = sort_text(a, size, memory, arcs_per_run);
    let head = "DRY RUN: utxo2webgraph sort-edges\n  arcs        : "@;
    let arcs = a.input@ + " ("@ + size + ")\n  sort algo   : "@;
    let algo = algo_text(a.sort_algo);
    let rest = "\n"@ + "  memory      : "@ + memory + "  ("@ + text::decimal(arcs_per_run as nat)
        + " arcs/run)\n"@ + "  dedup       : "@;
    let end = bool_text(!a.no_dedup) + "\n"@;
    assert(t =~= head + (arcs + algo + rest) + end);
    text::lemma_tells(t, head, arcs + algo + rest, end);
    assert(rest + bool_text(!a.no_dedup) + "\n"@ =~= rest + end);
    text::lemma_tells(
        t,
        head + arcs + algo,
        rest + bool_text(!a.no_dedup) + "\n"@,
        Seq::empty(),
    );
}

/// The plan of a compression tells its edge list, its basename, its node count,
/// and whether it is parallel.
#[verifier::spinoff_prover]
#[verifier::rlimit(50)]
pub proof fn compress_plans_tell_the_compression(a: CompressArgs, size: Seq<char>)
    ensures
        ({
            let t = compress_text(a, size);
            let list = a.input@ + " ("@ + size + ")\n  output      : "@ + a.output_prefix@;
            let nodes = "\n  parallel    : "@;
            &&& text::tells(t, list)
            &&& a.num_nodes matches NumNodesSpec::Explicit(n) ==> text::tells(
                t,
                text::decimal(n as nat) + ")"@ + nodes,
            )
            &&& a.num_nodes is NodeMap ==> text::tells(t, "NodeMap"@ + nodes)
            &&& a.num_nodes is FromArcs ==> text::tells(t, "FromArcs"@ + nodes)
            &&& a.parallel ==> text::tells(t, nodes + "true"@ + "\n"@)
            &&& !a.parallel ==> text::tells(t, nodes + "false"@ + "\n"@)
        }),
{
    let t = compress_text(a, size);
    let head = "DRY RUN: utxo2webgraph compress\n  edge list   : "@;
    let list = a.input@ + " ("@ + size + ")\n  output      : "@ + a.output_prefix@;
    let mid = ".{graph,offsets,properties}\n  num nodes   : "@;
    let nodes = nodes_text(a.num_nodes);
    let par = "\n  parallel    : "@;
    let end = bool_text(a.parallel) + "\n"@;
    assert(t =~= head + list + mid + nodes + par + end);
    text::lemma_tells(t, head, list, mid + nodes + par + end);
    match a.num_nodes {
        NumNodesSpec::Explicit(n) => {
            let shown = text::decimal(n as nat) + ")"@ + par;
            text::lemma_tells(t, head + list + mid + "Explicit("@, shown, end);
        },
        _ => {
            text::lemma_tells(t, head + list + mid, nodes + par, end);
        },
    }
    text::lemma_tells(
        t,
        head + list + mid + nodes,
        par + bool_text(a.parallel) + "\n"@,
        Seq::empty(),
    );
}

proof fn lemma_regroup(a: Seq<char>, b: Seq<char>, c: Seq<char>)
    ensures
        a + b + c == a + (b + c),
{
    assert(a + b + c =~= a + (b + c));
}

/// The plan of the fused stages tells the inputs, what is written and what is
/// not, the basename, how the arcs are sorted, how many of them a run holds, and
/// the estimates.
#[verifier::spinoff_prover]
#[verifier::rlimit(50)]
pub proof fn build_plans_tell_the_build(
    a: BuildPgArgs,
    inputs: Seq<char>,
    memory: Seq<char>,
    arcs_per_run: u64,
    estimates: Seq<char>,
)
    ensures
        ({
            let t = build_text(a, inputs, memory, arcs_per_run, estimates);
            let map = if a.no_node_map {
                "(not written)"@
            } else {
                a.node_map@
            };
            let list = if a.no_text_edge_list {
                "(not written)"@
            } else {
                a.edge_list@
            };
            let algo = if a.sort_algo is Radix {
                "Radix"@
            } else {
                "Pdq"@
            };
            &&& text::tells(
                t,
                inputs + "  node map    : "@ + map + "\n  edge list   : "@ + list
                    + "\n  BVGraph     : "@ + a.output_prefix@,
            )
            &&& text::tells(
                t,
                algo + "   parallel: "@ + (if a.parallel {
                    "true"@
                } else {
                    "false"@
                }) + "\n"@ + "  memory      : "@ + memory + "  ("@ + text::decimal(
                    arcs_per_run as nat,
                ) + " arcs/run)\n"@ + estimates,
            )
        }),
{
    let t = build_text(a, inputs, memory, arcs_per_run, estimates);
    let head = "DRY RUN: utxo2webgraph build-pg\n"@;
    let files = inputs + "  node map    : "@ + output_text(!a.no_node_map, a.node_map@)
        + "\n  edge list   : "@ + output_text(!a.no_text_edge_list, a.edge_list@)
        + "\n  BVGraph     : "@ + a.output_prefix@;
    let mid = ".{graph,offsets,properties}\n  sort algo   : "@;
    let rest = algo_text(a.sort_algo) + "   parallel: "@ + bool_text(a.parallel) + "\n"@
        + "  memory      : "@ + memory + "  ("@ + text::decimal(arcs_per_run as nat)
        + " arcs/run)\n"@ + estimates;
    let map = output_text(!a.no_node_map, a.node_map@);
    let list = output_text(!a.no_text_edge_list, a.edge_list@);
    let algo = algo_text(a.sort_algo);
    let par = bool_text(a.parallel);
    // What stands behind the head, piece by piece.
    let f1 = inputs + "  node map    : "@;
    let f2 = f1 + map;
    let f3 = f2 + "\n  edge list   : "@;
    let f4 = f3 + list;
    let f5 = f4 + "\n  BVGraph     : "@;
    lemma_regroup(head, inputs, "  node map    : "@);
    lemma_regroup(head, f1, map);
    lemma_regroup(head, f2, "\n  edge list   : "@);
    lemma_regroup(head, f3, list);
    lemma_regroup(head, f4, "\n  BVGraph     : "@);
    lemma_regroup(head, f5, a.output_prefix@);
    // What stands behind the files, piece by piece.
    let left = head + files + mid;
    let held = memory_text(memory, arcs_per_run);
    let r1 = algo + "   parallel: "@;
    let r2 = r1 + par;
    let r3 = r2 + "\n"@;
    lemma_regroup(left, algo, "   parallel: "@);
    lemma_regroup(left, r1, par);
    lemma_regroup(left, r2, "\n"@);
    lemma_regroup(left, r3, held);
    lemma_regroup(left, r3 + held, estimates);
    let m1 = "  memory      : "@ + memory;
    let m2 = m1 + "  ("@;
    let m3 = m2 + text::decimal(arcs_per_run as nat);
    lemma_regroup(r3, "  memory      : "@, memory);
    lemma_regroup(r3, m1, "  ("@);
    lemma_regroup(r3, m2, text::decimal(arcs_per_run as nat));
    lemma_regroup(r3, m3, " arcs/run)\n"@);
    assert(t == left + rest);
    lemma_regroup(head + files, mid, rest);
    assert(t + Seq::empty() =~= t);
    text::lemma_tells(t, head, files, mid + rest);
    text::lemma_tells(t, head + files + mid, rest, Seq::empty());
}

} // verus!
