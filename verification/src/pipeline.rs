//! The stages run as one: from a transaction list to what a graph compressor is
//! given.
use crate::arcs;
use crate::cli::NumNodesSpec;
use crate::compress;
use crate::edge_list;
use crate::edge_list::{build_edge_list, EdgeListOpts, EdgeListStats};
use crate::error::Error;
use crate::nodemap;
use crate::nodemap::DenseNodeMap;
use crate::plan;
use crate::plan::{built_num_nodes, nodes_from_arcs};
use crate::sorter;
use crate::sorter::{ArcSorter, SortOpts, SortStats, SortedArcs};
use crate::{ArcSink, Mode, NodeId, Result};
use vstd::prelude::*;

verus! {

/// What a graph compressor is given, and what was found out on the way.
pub struct BuiltGraph {
    /// The counters of the edge-list stage.
    pub stats: EdgeListStats,
    /// The node map.
    pub node_map: DenseNodeMap,
    /// The arcs, in order.
    pub sorted: SortedArcs,
    /// The counters of the sort.
    pub sort_stats: SortStats,
    /// The number of nodes.
    pub num_nodes: usize,
}

/// The pass over a transaction list, before its first line.
pub open spec fn fresh_pass(mode: Mode) -> edge_list::Pass {
    edge_list::Pass {
        map: nodemap::NodeMapView {
            keys: Seq::empty(),
            counts: Seq::empty(),
            first_tx: 0,
            first_id: 0,
            mode,
        },
        arcs: Seq::empty(),
        stats: edge_list::no_stats(),
    }
}

/// What a graph compressor is given, besides the node map.
pub struct BuiltArcs {
    /// The counters of the edge-list stage.
    pub stats: EdgeListStats,
    /// The arcs, in order.
    pub sorted: SortedArcs,
    /// The counters of the sort.
    pub sort_stats: SortStats,
    /// The number of nodes.
    pub num_nodes: usize,
}

/// The number of nodes of a graph, by the pass that its arcs come from.
pub open spec fn pass_nodes(num_nodes: NumNodesSpec, after: edge_list::Pass) -> std::result::Result<
    nat,
    crate::error::ErrorView,
> {
    plan::built_nodes(num_nodes, after.map.next_id(), plan::nodes_required(after.arcs))
}

/// What comes out of a pass that went through: its counters, its arcs in order,
/// and the number of nodes.
///
/// Where duplicates are dropped, it can be compressed: it is ascending, without
/// repeats, and every endpoint is below the number of nodes.
pub open spec fn is_built(
    after: edge_list::Pass,
    dedup: bool,
    num_nodes: NumNodesSpec,
    allow_empty: bool,
    stats: EdgeListStats,
    sorted: SortedArcs,
    sort_stats: SortStats,
    nodes: usize,
) -> bool {
    &&& stats == (EdgeListStats {
        distinct_nodes: after.map.next_id() as u64,
        ..after.stats
    })
    &&& sorted.valid() && sorted.of() == after.arcs && sorted.dedup() == dedup
    &&& sort_stats.raw_arcs == after.arcs.len()
    &&& sort_stats.max_node_id == sorter::max_id(after.arcs)
    &&& forall|s: Seq<u128>| #[trigger]
        sorted.lists(s) ==> sort_stats.distinct_arcs == s.len() && sort_stats.duplicates_removed
            == after.arcs.len() - s.len()
    &&& pass_nodes(num_nodes, after) == Ok::<nat, crate::error::ErrorView>(nodes as nat)
    &&& after.arcs.len() > 0 || allow_empty
    &&& compress::arcs_in_bounds(after.arcs, nodes)
    &&& dedup && after.arcs.len() > 0 ==> forall|s: Seq<u128>| #[trigger]
        sorted.lists(s) ==> {
            &&& compress::arcs_ascend(arcs::unpacked_arcs(s))
            &&& compress::arcs_in_bounds(arcs::unpacked_arcs(s), nodes)
        }
}

/// Why a pass gives no graph: it ended in an error, its node count is refused,
/// or it has no arcs and that is not permitted.
pub open spec fn refusal(
    after: edge_list::Pass,
    failure: Option<crate::error::ErrorView>,
    num_nodes: NumNodesSpec,
    allow_empty: bool,
) -> Option<crate::error::ErrorView> {
    if failure is Some {
        failure
    } else {
        match pass_nodes(num_nodes, after) {
            Err(e) => Some(e),
            Ok(_) => if after.arcs.len() == 0 && !allow_empty {
                Some(crate::error::ErrorView::EmptyEdgeList)
            } else {
                None
            },
        }
    }
}

/// Builds what a graph compressor is given: the node map, the arcs of the
/// join in order, and the number of nodes. The arcs never exist as text.
///
/// The sorter that is made on the way may need a thread pool, and a gap in the
/// transaction ids memory; what comes of either is said by [`build_arcs`].
pub fn build_graph(
    input: &[u8],
    opts: EdgeListOpts,
    sort_opts: SortOpts,
    max_tx_id: Option<usize>,
    num_nodes: NumNodesSpec,
    allow_empty: bool,
) -> (r: Result<BuiltGraph>)
    requires
        edge_list::input_has_room(input@, opts.mode, fresh_pass(opts.mode).map, 0),
    ensures
        ({
            let (after, failure) = fresh_pass(opts.mode).after_all(input@, 1, opts);
            let small = sorter::run_capacity(sort_opts.memory_bytes) < sorter::MIN_ARCS_PER_RUN;
            let refused = refusal(after, failure, num_nodes, allow_empty);
            match r {
                Ok(g) => {
                    &&& !small
                    &&& refused is None
                    &&& g.node_map.valid() && g.node_map@ == after.map
                    &&& is_built(
                        after,
                        sort_opts.dedup,
                        num_nodes,
                        allow_empty,
                        g.stats,
                        g.sorted,
                        g.sort_stats,
                        g.num_nodes,
                    )
                    &&& num_nodes matches NumNodesSpec::Explicit(n) ==> g.num_nodes == n
                },
                Err(e) => if small {
                    e@ == sorter::budget_error(sort_opts.memory_bytes)
                } else {
                    ||| refused == Some(e@)
                    ||| sorter::threads_wanted(sort_opts) > 0 && e@
                        == crate::error::ErrorView::PlainIo
                    ||| e@ matches crate::error::ErrorView::Other(msg) && edge_list::gap_on_the_way(
                        fresh_pass(opts.mode),
                        input@,
                        1,
                        opts,
                        msg,
                    )
                },
            }
        }),
{
    let mut node_map = DenseNodeMap::sized(opts.mode, max_tx_id);
    let sorter: ArcSorter = match ArcSorter::new(sort_opts) {
        Ok(s) => s,
        Err(e) => {
            return Err(e);
        },
    };
    match build_arcs(input, &mut node_map, sorter, opts, num_nodes, allow_empty) {
        Ok(b) => Ok(
            BuiltGraph {
                stats: b.stats,
                node_map,
                sorted: b.sorted,
                sort_stats: b.sort_stats,
                num_nodes: b.num_nodes,
            },
        ),
        Err(e) => Err(e),
    }
}

/// Builds the arcs of the join in order, and the number of nodes, with a node
/// map that keeps what it knows and a sorter that holds nothing yet.
///
/// It is refused exactly where the pass over the input gives no graph, or where
/// the node map was starved of the memory for a gap in the transaction ids.
pub fn build_arcs(
    input: &[u8],
    node_map: &mut DenseNodeMap,
    sorter: ArcSorter,
    opts: EdgeListOpts,
    num_nodes: NumNodesSpec,
    allow_empty: bool,
) -> (r: Result<BuiltArcs>)
    requires
        old(node_map).valid(),
        sorter.valid(),
        !sorter.finished(),
        sorter.arcs() == Seq::<(NodeId, NodeId)>::empty(),
        sorter.held() == sorter.all_runs().len(),
        edge_list::input_has_room(input@, opts.mode, old(node_map)@, 0),
    ensures
        final(node_map).valid(),
        ({
            let before = edge_list::Pass {
                map: old(node_map)@,
                arcs: Seq::empty(),
                stats: edge_list::no_stats(),
            };
            let (after, failure) = before.after_all(input@, 1, opts);
            let refused = refusal(after, failure, num_nodes, allow_empty);
            match r {
                Ok(b) => refused is None && final(node_map)@ == after.map && is_built(
                    after,
                    sorter.dedup(),
                    num_nodes,
                    allow_empty,
                    b.stats,
                    b.sorted,
                    b.sort_stats,
                    b.num_nodes,
                ),
                Err(e) => {
                    ||| refused == Some(e@) && final(node_map)@ == after.map
                    ||| final(node_map).starved() && (e@ matches crate::error::ErrorView::Other(msg)
                        && edge_list::gap_on_the_way(before, input@, 1, opts, msg))
                },
            }
        }),
{
    let mut sorter: ArcSorter = sorter;
    let ghost start = edge_list::Pass {
        map: node_map@,
        arcs: Seq::empty(),
        stats: edge_list::no_stats(),
    };
    let ghost (after, failure) = start.after_all(input@, 1, opts);
    let ghost dedup = sorter.dedup();
    assert(start.arcs =~= sorter.arcs());
    proof {
        node_map.lemma_coherent();
    }
    let stats: EdgeListStats = match build_edge_list(input, node_map, &mut sorter, opts) {
        Ok(s) => s,
        Err(e) => {
            return Err(e);
        },
    };
    proof {
        assert(edge_list::arcs_name_nodes(start));
        edge_list::a_pass_only_extends(start, input@, 1, opts);
        node_map.lemma_coherent();
        lemma_max_below(after.arcs, after.map.next_id());
    }
    let next_id: usize = node_map.next_id();
    let (sorted, sort_stats): (SortedArcs, SortStats) = match sorter.into_sorted() {
        Ok(pair) => pair,
        Err(e) => {
            return Err(e);
        },
    };
    proof {
        sorted.lemma_empty();
    }
    let num_arcs: u64 = sorted.num_arcs();
    let from_arcs: usize = nodes_from_arcs(num_arcs, sorted.max_node_id());
    assert(from_arcs == plan::nodes_required(after.arcs));
    let nodes: usize = match built_num_nodes(num_nodes, next_id, from_arcs) {
        Ok(n) => n,
        Err(e) => {
            return Err(e);
        },
    };
    if num_arcs == 0 && !allow_empty {
        return Err(Error::EmptyEdgeList);
    }
    proof {
        assert forall|i: int| 0 <= i < after.arcs.len() implies (#[trigger] after.arcs[i]).0
            < nodes && after.arcs[i].1 < nodes by {
            compress::lemma_max_id(after.arcs, i);
        }
        assert forall|s: Seq<u128>| #[trigger]
            sorted.lists(s) && dedup && after.arcs.len() > 0 implies compress::arcs_ascend(
            arcs::unpacked_arcs(s),
        ) && compress::arcs_in_bounds(arcs::unpacked_arcs(s), nodes) by {
            compress::sorted_arcs_are_let_past(after.arcs, s, nodes);
        }
    }
    Ok(BuiltArcs { stats, sorted, sort_stats, num_nodes: nodes })
}

/// Where every endpoint is below a bound, so is the largest, or there is none.
proof fn lemma_max_below(arcs: Seq<(NodeId, NodeId)>, bound: nat)
    requires
        forall|i: int|
            0 <= i < arcs.len() ==> (#[trigger] arcs[i]).0 < bound && arcs[i].1 < bound,
    ensures
        arcs.len() > 0 ==> sorter::max_id(arcs) < bound,
        arcs.len() == 0 ==> sorter::max_id(arcs) == 0,
    decreases arcs.len(),
{
    if arcs.len() > 0 {
        let init = arcs.drop_last();
        assert forall|i: int| 0 <= i < init.len() implies (#[trigger] init[i]).0 < bound
            && init[i].1 < bound by {
            assert(init[i] == arcs[i]);
        }
        assert(arcs[arcs.len() - 1].0 < bound);
        lemma_max_below(init, bound);
    }
}

// ---------------------------------------------------------------------------
// What the number of nodes is
// ---------------------------------------------------------------------------
/// A graph for which `n` nodes were asked for has exactly `n` nodes.
pub proof fn a_graph_has_the_nodes_that_were_asked_for(
    after: edge_list::Pass,
    dedup: bool,
    n: usize,
    allow_empty: bool,
    stats: EdgeListStats,
    sorted: SortedArcs,
    sort_stats: SortStats,
    nodes: usize,
)
    requires
        is_built(
            after,
            dedup,
            NumNodesSpec::Explicit(n),
            allow_empty,
            stats,
            sorted,
            sort_stats,
            nodes,
        ),
    ensures
        nodes == n,
{
    plan::literal_node_counts_are_kept(after.arcs, n, after.map.next_id());
}

/// `n` nodes are refused exactly where an arc names a node that is not below
/// `n`. Apart from that only a failed pass and an empty graph are refused, the
/// latter unless it is permitted.
pub proof fn only_too_small_graphs_are_refused(
    after: edge_list::Pass,
    n: usize,
    allow_empty: bool,
)
    ensures
        refusal(after, None, NumNodesSpec::Explicit(n), allow_empty) is Some <==> {
            ||| exists|i: int|
                0 <= i < after.arcs.len() && ((#[trigger] after.arcs[i]).0 >= n || after.arcs[i].1
                    >= n)
            ||| after.arcs.len() == 0 && !allow_empty
        },
        refusal(after, None, NumNodesSpec::NodeMap, allow_empty) is Some <==> after.arcs.len() == 0
            && !allow_empty,
        refusal(after, None, NumNodesSpec::FromArcs, allow_empty) is Some <==> after.arcs.len()
            == 0 && !allow_empty,
        forall|e: crate::error::ErrorView, num_nodes: NumNodesSpec| #[trigger]
            refusal(after, Some(e), num_nodes, allow_empty) == Some(e),
{
    plan::literal_node_counts_are_kept(after.arcs, n, after.map.next_id());
}

/// A graph whose nodes are counted from its arcs has none beyond the largest
/// endpoint, and all up to it; one whose nodes are counted from the node map
/// has a node for every output that was given an id.
pub proof fn a_graph_has_the_nodes_that_were_counted(
    after: edge_list::Pass,
    dedup: bool,
    num_nodes: NumNodesSpec,
    allow_empty: bool,
    stats: EdgeListStats,
    sorted: SortedArcs,
    sort_stats: SortStats,
    nodes: usize,
)
    requires
        is_built(after, dedup, num_nodes, allow_empty, stats, sorted, sort_stats, nodes),
    ensures
        num_nodes is NodeMap ==> nodes == after.map.first_id + after.map.keys.len(),
        num_nodes is FromArcs && after.arcs.len() == 0 ==> nodes == 0,
        num_nodes is FromArcs && after.arcs.len() > 0 ==> exists|i: int|
            0 <= i < after.arcs.len() && ((#[trigger] after.arcs[i]).0 + 1 == nodes
                || after.arcs[i].1 + 1 == nodes),
        forall|i: int|
            0 <= i < after.arcs.len() ==> (#[trigger] after.arcs[i]).0 < nodes && after.arcs[i].1
                < nodes,
        sort_stats.raw_arcs == after.arcs.len(),
        stats.distinct_nodes == after.map.first_id + after.map.keys.len() || after.map.first_id
            + after.map.keys.len() > u64::MAX,
{
    sorter::the_largest_endpoint_is_found(after.arcs);
    if num_nodes is FromArcs && after.arcs.len() > 0 {
        plan::arcs_require_their_endpoints(after.arcs, nodes as nat);
        let k = choose|k: int|
            0 <= k < after.arcs.len() && ((#[trigger] after.arcs[k]).0 == sorter::max_id(after.arcs)
                || after.arcs[k].1 == sorter::max_id(after.arcs));
        assert(after.arcs[k].0 + 1 == nodes || after.arcs[k].1 + 1 == nodes);
    }
}

/// A build for which `n` nodes were asked gives a graph of exactly `n` nodes,
/// and gives none only where an arc names a node that is not below `n`, or for
/// a reason that has nothing to do with `n`.
pub proof fn a_build_has_the_nodes_that_were_asked_for(
    input: &[u8],
    opts: EdgeListOpts,
    sort_opts: SortOpts,
    max_tx_id: Option<usize>,
    n: usize,
    allow_empty: bool,
    g: BuiltGraph,
)
    requires
        call_ensures(
            build_graph,
            (input, opts, sort_opts, max_tx_id, NumNodesSpec::Explicit(n), allow_empty),
            Ok(g),
        ),
    ensures
        g.num_nodes == n,
        forall|i: int|
            0 <= i < g.sorted.of().len() ==> (#[trigger] g.sorted.of()[i]).0 < n
                && g.sorted.of()[i].1 < n,
{
}

/// A transaction list that is written down is built into its graph: with a node
/// for every output, an arc from every output that is spent to every output of
/// the transaction that spends it, and counters that count them.
pub proof fn a_written_list_is_built_into_its_graph(
    txs: Seq<edge_list::Written>,
    first: int,
    input: &[u8],
    opts: EdgeListOpts,
    sort_opts: SortOpts,
    max_tx_id: Option<usize>,
    num_nodes: NumNodesSpec,
    allow_empty: bool,
    g: BuiltGraph,
)
    requires
        edge_list::is_ledger(txs, first),
        edge_list::is_countable(txs),
        outputs_fit(txs),
        input@ == edge_list::written(txs),
        call_ensures(
            build_graph,
            (input, opts, sort_opts, max_tx_id, num_nodes, allow_empty),
            Ok(g),
        ),
    ensures
        ({
            let n = txs.len() as int;
            &&& num_nodes is NodeMap ==> g.num_nodes == edge_list::outputs_before(txs, n)
            &&& num_nodes matches NumNodesSpec::Explicit(asked) ==> g.num_nodes == asked
            &&& g.stats.tx_count == n
            &&& g.stats.node_slots == edge_list::outputs_before(txs, n)
            &&& g.stats.distinct_nodes == edge_list::outputs_before(txs, n)
            &&& g.stats.edge_count == edge_list::arcs_before(txs, n)
            &&& g.sort_stats.raw_arcs == edge_list::arcs_before(txs, n)
            &&& g.sorted.of().len() == edge_list::arcs_before(txs, n)
        }),
{
    edge_list::a_written_list_is_counted(txs, first, fresh_pass(opts.mode).map, opts);
}

/// In that graph the outputs are numbered as they are written, and the arcs that
/// are sorted are those from the outputs that are spent to the outputs of the
/// transactions that spend them.
pub proof fn a_written_list_is_built_into_its_arcs(
    txs: Seq<edge_list::Written>,
    first: int,
    input: &[u8],
    opts: EdgeListOpts,
    sort_opts: SortOpts,
    max_tx_id: Option<usize>,
    num_nodes: NumNodesSpec,
    allow_empty: bool,
    g: BuiltGraph,
    k: int,
    i: int,
    j: int,
)
    requires
        edge_list::is_ledger(txs, first),
        edge_list::is_countable(txs),
        0 <= k < txs.len(),
        0 <= i < txs[k].inputs.len(),
        0 <= j < txs[k].outputs.len(),
        input@ == edge_list::written(txs),
        call_ensures(
            build_graph,
            (input, opts, sort_opts, max_tx_id, num_nodes, allow_empty),
            Ok(g),
        ),
    ensures
        ({
            let from = (edge_list::outputs_before(txs, txs[k].spent_tx(i) - first)
                + txs[k].spent_output(i)) as usize;
            let to = (edge_list::outputs_before(txs, k) + j) as usize;
            &&& g.node_map@.id_of(((first + k) as i32, j as i32)) == Some(to)
            &&& g.sorted.of()[edge_list::arcs_before(txs, k) + i * txs[k].outputs.len() + j] == (
                from,
                to,
            )
        }),
{
    let map = fresh_pass(opts.mode).map;
    edge_list::outputs_are_numbered_as_written(txs, first, map, opts, k, j);
    edge_list::a_written_list_becomes_its_arcs(txs, first, map, opts, k, i, j);
}

/// There are no more outputs than can be counted.
pub open spec fn outputs_fit(txs: Seq<edge_list::Written>) -> bool {
    edge_list::outputs_before(txs, txs.len() as int) <= u64::MAX
}

} // verus!
