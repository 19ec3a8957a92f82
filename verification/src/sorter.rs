//! Sorting and deduplication of arcs, in runs of bounded size.
//!
//! An arc is packed into a single integer, so sorting arcs by source and then
//! by destination is sorting integers. Runs are sorted in memory; a run that is
//! full can be handed out and stored elsewhere until the runs are merged.
use crate::error::Error;
use crate::merge;
use crate::merge::{count_merged, RunMerge};
use crate::text;
use crate::text::append_decimal;
use crate::{mul_capped, pack_arc, unpack_arc, ArcSink, NodeId, Result, SortAlgo, ARC_RECORD_SIZE};
use vstd::multiset::Multiset;
use vstd::prelude::*;
use vstd::string::*;

verus! {

/// Smallest run the sorter will accept. A run below this size means the memory
/// budget was mis-specified, and would produce millions of runs.
pub const MIN_ARCS_PER_RUN: usize = 1024;

/// Arcs the run buffer reserves up front, however large the budget is.
pub const INITIAL_ARCS_CAPACITY: usize = 1_048_576;

/// Configuration for [`ArcSorter`].
#[derive(Debug)]
pub struct SortOpts {
    /// Run-sorting backend. Both variants are valid for every arc, and the
    /// request is always honoured.
    pub algo: SortAlgo,
    /// Remove duplicate arcs.
    pub dedup: bool,
    /// Total memory budget for one sort run, **including** the radix sort's
    /// scratch buffer.
    pub memory_bytes: u64,
    /// Directory that spill runs are created under.
    pub tmp_dir: String,
    /// Worker threads for [`SortAlgo::Pdq`]. `0` means "use the ambient
    /// `rayon` pool".
    pub threads: usize,
    /// Keep spill runs after a successful run, under stable names.
    pub keep_intermediate: bool,
}

impl Clone for SortOpts {
    fn clone(&self) -> (r: SortOpts)
        ensures
            r == *self,
    {
        SortOpts {
            algo: self.algo,
            dedup: self.dedup,
            memory_bytes: self.memory_bytes,
            tmp_dir: self.tmp_dir.clone(),
            threads: self.threads,
            keep_intermediate: self.keep_intermediate,
        }
    }
}

impl Default for SortOpts {
    /// A conservative 256 MiB budget.
    fn default() -> (r: SortOpts)
        ensures
            r.algo == SortAlgo::Radix,
            r.dedup,
            r.memory_bytes == 268_435_456,
            r.tmp_dir@ == "./tmp"@,
            r.threads == 0,
            !r.keep_intermediate,
    {
        SortOpts {
            algo: SortAlgo::Radix,
            dedup: true,
            memory_bytes: 268_435_456,
            tmp_dir: "./tmp".to_owned(),
            threads: 0,
            keep_intermediate: false,
        }
    }
}

/// What the sort did.
#[derive(Copy, Clone, Debug, PartialEq, Eq, Structural)]
pub struct SortStats {
    /// Arcs pushed into the sorter, duplicates included.
    pub raw_arcs: u64,
    /// Arcs surviving deduplication. Equals `raw_arcs` when `dedup` is off.
    pub distinct_arcs: u64,
    /// `raw_arcs - distinct_arcs`.
    pub duplicates_removed: u64,
    /// Number of spill runs. Zero means the whole sort stayed in one buffer.
    pub runs: usize,
    /// Bytes that the spill runs take, at [`ARC_RECORD_SIZE`] an arc.
    pub spilled_bytes: u64,
    /// Largest node id observed on either endpoint.
    pub max_node_id: NodeId,
}

impl Default for SortStats {
    fn default() -> (r: SortStats)
        ensures
            r == (SortStats {
                raw_arcs: 0,
                distinct_arcs: 0,
                duplicates_removed: 0,
                runs: 0,
                spilled_bytes: 0,
                max_node_id: 0,
            }),
    {
        SortStats {
            raw_arcs: 0,
            distinct_arcs: 0,
            duplicates_removed: 0,
            runs: 0,
            spilled_bytes: 0,
            max_node_id: 0,
        }
    }
}

// ---------------------------------------------------------------------------
// Model
// ---------------------------------------------------------------------------
/// The packed forms of some arcs.
pub open spec fn packed_arcs(arcs: Seq<(NodeId, NodeId)>) -> Seq<u128> {
    Seq::new(arcs.len(), |i: int| crate::packed_arc(arcs[i].0, arcs[i].1))
}

/// The packed forms of some arcs, without their order.
pub open spec fn arc_multiset(arcs: Seq<(NodeId, NodeId)>) -> Multiset<u128> {
    packed_arcs(arcs).to_multiset()
}

/// The largest node id on either end of some arcs, zero where there is none.
pub open spec fn max_id(arcs: Seq<(NodeId, NodeId)>) -> NodeId
    decreases arcs.len(),
{
    if arcs.len() == 0 {
        0
    } else {
        let rest = max_id(arcs.drop_last());
        let (src, dst) = arcs.last();
        let hi = if src < dst {
            dst
        } else {
            src
        };
        if hi > rest {
            hi
        } else {
            rest
        }
    }
}

/// `b` can stand for `a`: it holds the same values, and, where duplicates
/// count, each as often.
pub open spec fn stands_for(b: Multiset<u128>, a: Multiset<u128>, dedup: bool) -> bool {
    if dedup {
        forall|k: u128| #[trigger] a.count(k) > 0 <==> b.count(k) > 0
    } else {
        a == b
    }
}

/// What lists the one lists the other.
pub proof fn lemma_stands_for(s: Seq<u128>, b: Multiset<u128>, a: Multiset<u128>, dedup: bool)
    requires
        stands_for(b, a, dedup),
        merge::lists(s, b, dedup),
    ensures
        merge::lists(s, a, dedup),
{
    if dedup {
        assert forall|k: u128| #[trigger] s.contains(k) <==> a.count(k) > 0 by {
            assert(b.count(k) > 0 <==> a.count(k) > 0);
        }
    }
}

// ---------------------------------------------------------------------------
// Sorting one run
// ---------------------------------------------------------------------------
/// `rdst::RadixSort::radix_sort_unstable` on a vector of `u128`: the same
/// values, each as often, in ascending order.
#[verifier::external_body]
fn radix_sort(v: &mut Vec<u128>)
    ensures
        merge::ascending(final(v)@),
        final(v)@.to_multiset() == old(v)@.to_multiset(),
{
    rdst::RadixSort::<u128>::radix_sort_unstable(v);
}

/// `rayon::slice::ParallelSliceMut::par_sort_unstable` on a slice of `u128`:
/// the same values, each as often, in ascending order.
#[verifier::external_body]
fn parallel_sort(v: &mut Vec<u128>)
    ensures
        merge::ascending(final(v)@),
        final(v)@.to_multiset() == old(v)@.to_multiset(),
{
    rayon::slice::ParallelSliceMut::par_sort_unstable(v.as_mut_slice());
}

/// `rayon::ThreadPool`, carried as it is.
#[verifier::external_type_specification]
#[verifier::external_body]
pub struct ExThreadPool(rayon::ThreadPool);

/// `rayon::ThreadPoolBuilder::build` for a number of threads. Whether a pool
/// can be had depends on the machine, so nothing is claimed; the error is
/// handed back as an I/O error.
#[verifier::external_body]
fn build_pool(threads: usize) -> (r: std::result::Result<rayon::ThreadPool, std::io::Error>) {
    rayon::ThreadPoolBuilder::new().num_threads(threads).build().map_err(std::io::Error::other)
}

/// `rayon::ThreadPool::install`, which runs a closure in the pool and returns
/// what it returns: [`sort_here`] has its effect on `v`.
#[verifier::external_body]
fn sort_in_pool(pool: &rayon::ThreadPool, v: &mut Vec<u128>)
    ensures
        merge::ascending(final(v)@),
        final(v)@.to_multiset() == old(v)@.to_multiset(),
{
    pool.install(|| sort_here(v));
}

/// Sorts in whatever pool the caller runs in.
fn sort_here(v: &mut Vec<u128>)
    ensures
        merge::ascending(final(v)@),
        final(v)@.to_multiset() == old(v)@.to_multiset(),
{
    parallel_sort(v);
}

/// Sorts packed arcs by comparison, in a pool of their own if there is one.
fn sort_pdq(v: &mut Vec<u128>, pool: Option<&rayon::ThreadPool>)
    ensures
        merge::ascending(final(v)@),
        final(v)@.to_multiset() == old(v)@.to_multiset(),
{
    match pool {
        Some(p) => sort_in_pool(p, v),
        None => sort_here(v),
    }
}

/// Sorts packed arcs with the requested backend.
fn sort_arcs(v: &mut Vec<u128>, algo: SortAlgo, pool: Option<&rayon::ThreadPool>)
    ensures
        merge::ascending(final(v)@),
        final(v)@.to_multiset() == old(v)@.to_multiset(),
{
    match algo {
        SortAlgo::Radix => radix_sort(v),
        SortAlgo::Pdq => sort_pdq(v, pool),
    }
}

/// Drops every value of an ascending vector that equals the one before it.
fn drop_repeats(v: &mut Vec<u128>)
    requires
        merge::ascending(old(v)@),
    ensures
        merge::strictly_ascending(final(v)@),
        final(v)@.len() <= old(v)@.len(),
        forall|k: u128| #[trigger] final(v)@.contains(k) <==> old(v)@.contains(k),
{
    let ghost s = v@;
    let n: usize = v.len();
    if n == 0 {
        return;
    }
    let mut kept: usize = 1;
    let mut i: usize = 1;
    proof {
        assert forall|k: u128| #[trigger] v@.take(1).contains(k) <==> s.take(1).contains(k) by {}
    }
    while i < n
        invariant
            1 <= kept <= i <= n,
            n == s.len(),
            v@.len() == n,
            merge::ascending(s),
            merge::strictly_ascending(v@.take(kept as int)),
            v@[kept - 1] == s[i - 1],
            forall|j: int| i <= j < n ==> v@[j] == s[j],
            forall|k: u128| #[trigger]
                v@.take(kept as int).contains(k) <==> s.take(i as int).contains(k),
        decreases n - i,
    {
        let ghost before = v@.take(kept as int);
        let ghost t0 = s.take(i as int);
        let ghost t1 = s.take(i + 1);
        let key: u128 = v[i];
        proof {
            assert(key == s[i as int]);
            assert(s[i - 1] <= s[i as int]);
            assert(t1 =~= t0.push(key));
            assert(before.last() == v@[kept - 1]);
        }
        if key != v[kept - 1] {
            v[kept] = key;
            proof {
                let after = v@.take(kept + 1);
                assert(after =~= before.push(key));
                assert forall|a: int, b: int| 0 <= a < b < after.len() implies after[a]
                    < after[b] by {
                    if b == kept {
                        assert(before[a] <= before[kept - 1]);
                    } else {
                        assert(before[a] < before[b]);
                    }
                }
                assert forall|k: u128| #[trigger] after.contains(k) <==> t1.contains(k) by {
                    lemma_push_contains(before, key, k);
                    lemma_push_contains(t0, key, k);
                }
            }
            kept = kept + 1;
        } else {
            proof {
                assert(before[kept - 1] == key);
                assert(before.contains(key));
                assert forall|k: u128| #[trigger] before.contains(k) <==> t1.contains(k) by {
                    lemma_push_contains(t0, key, k);
                }
            }
        }
        i = i + 1;
    }
    v.truncate(kept);
    assert(s.take(n as int) =~= s);
}

proof fn lemma_push_contains(s: Seq<u128>, x: u128, k: u128)
    ensures
        s.push(x).contains(k) <==> (s.contains(k) || k == x),
{
    if s.contains(k) {
        assert(s.push(x)[s.index_of(k)] == k);
    }
    if k == x {
        assert(s.push(x)[s.len() as int] == k);
    }
    if s.push(x).contains(k) && k != x {
        let i = s.push(x).index_of(k);
        assert(s[i] == k);
    }
}

/// Sorts the run buffer and, optionally, deduplicates it in place. Returns how
/// many duplicates were removed.
fn sort_dedup(
    v: &mut Vec<u128>,
    algo: SortAlgo,
    dedup: bool,
    pool: Option<&rayon::ThreadPool>,
) -> (r: u64)
    ensures
        merge::lists(final(v)@, old(v)@.to_multiset(), dedup),
        stands_for(final(v)@.to_multiset(), old(v)@.to_multiset(), dedup),
        final(v)@.len() + r == old(v)@.len(),
        !dedup ==> r == 0,
        old(v)@.len() > 0 ==> final(v)@.len() > 0,
{
    let before: usize = v.len();
    let ghost s = v@;
    sort_arcs(v, algo, pool);
    let ghost t = v@;
    proof {
        s.to_multiset_ensures();
        t.to_multiset_ensures();
    }
    if dedup {
        drop_repeats(v);
        proof {
            v@.to_multiset_ensures();
            assert forall|k: u128| #[trigger] v@.contains(k) <==> s.to_multiset().count(k) > 0 by {
                assert(t.contains(k) <==> t.to_multiset().count(k) > 0);
            }
            assert forall|k: u128| #[trigger] s.to_multiset().count(k) > 0 <==> v@.to_multiset().count(
                k,
            ) > 0 by {
                assert(v@.contains(k) <==> s.to_multiset().count(k) > 0);
                assert(v@.contains(k) <==> v@.to_multiset().count(k) > 0);
            }
            if s.len() > 0 {
                assert(t.contains(t[0]));
                assert(v@.contains(t[0]));
            }
        }
    }
    (before - v.len()) as u64
}


// ---------------------------------------------------------------------------
// ArcSorter
// ---------------------------------------------------------------------------
/// The message of a memory budget that is too small for a run.
pub open spec fn budget_message(memory_bytes: u64, arcs_per_run: usize) -> Seq<char> {
    "memory budget of "@ + text::decimal(memory_bytes as nat) + " bytes only allows "@
        + text::decimal(arcs_per_run as nat) + " arcs per run (minimum "@ + text::decimal(
        MIN_ARCS_PER_RUN as nat,
    ) + "); arcs_per_run = memory / (2 * "@ + text::decimal(ARC_RECORD_SIZE as nat)
        + " bytes per arc), the factor 2 being the radix sort's scratch buffer"@
}

fn budget_text(memory_bytes: u64, arcs_per_run: usize) -> (r: String)
    ensures
        r@ == budget_message(memory_bytes, arcs_per_run),
{
    let mut out: String = "memory budget of ".to_owned();
    append_decimal(&mut out, memory_bytes);
    out.append(" bytes only allows ");
    append_decimal(&mut out, arcs_per_run as u64);
    out.append(" arcs per run (minimum ");
    append_decimal(&mut out, MIN_ARCS_PER_RUN as u64);
    out.append("); arcs_per_run = memory / (2 * ");
    append_decimal(&mut out, ARC_RECORD_SIZE as u64);
    out.append(" bytes per arc), the factor 2 being the radix sort's scratch buffer");
    out
}

/// How many arcs a run may hold within a memory budget: an arc takes
/// [`ARC_RECORD_SIZE`] bytes, twice, the second time for the radix sort's
/// scratch buffer.
pub open spec fn run_capacity(memory_bytes: u64) -> usize {
    (memory_bytes / 32) as usize
}

/// The error of a memory budget that is too small for a run.
pub open spec fn budget_error(memory_bytes: u64) -> crate::error::ErrorView {
    crate::error::ErrorView::Other(budget_message(memory_bytes, run_capacity(memory_bytes)))
}

fn run_size(memory_bytes: u64) -> (r: usize)
    ensures
        r == run_capacity(memory_bytes),
{
    (memory_bytes / (2 * ARC_RECORD_SIZE as u64)) as usize
}

fn within_budget(memory_bytes: u64) -> (r: bool)
    ensures
        r == (run_capacity(memory_bytes) >= MIN_ARCS_PER_RUN),
{
    run_size(memory_bytes) >= MIN_ARCS_PER_RUN
}

/// How many threads the pool of a sorter is to have; none for no pool of its
/// own.
pub open spec fn threads_wanted(opts: SortOpts) -> usize {
    if opts.algo is Pdq {
        opts.threads
    } else {
        0
    }
}

/// How many threads the pool of a sorter is to have; none for no pool of its
/// own. A pool for the radix sort would be a second set of threads that never
/// runs a task.
pub fn pool_threads(opts: &SortOpts) -> (r: usize)
    ensures
        r == threads_wanted(*opts),
{
    match opts.algo {
        SortAlgo::Pdq => opts.threads,
        SortAlgo::Radix => 0,
    }
}

/// The [`ArcSink`] that sorts.
///
/// Arcs are packed, buffered up to [`ArcSorter::arcs_per_run`], sorted and
/// deduplicated in place, and become a run. [`ArcSorter::take_run`] hands a run
/// out, to be stored elsewhere. [`ArcSorter::into_sorted`] hands back the arcs
/// in order where no run was handed out.
pub struct ArcSorter {
    opts: SortOpts,
    algo: SortAlgo,
    arcs_per_run: usize,
    buf: Vec<u128>,
    /// The runs that have not been handed out.
    runs: Vec<Vec<u128>>,
    pool: Option<rayon::ThreadPool>,
    stats: SortStats,
    finished: bool,
    /// The arcs pushed.
    arcs: Ghost<Seq<(NodeId, NodeId)>>,
    /// All runs, those handed out included.
    all: Ghost<Seq<Seq<u128>>>,
}

impl ArcSorter {
    /// All runs so far, in order.
    pub closed spec fn all_runs(&self) -> Seq<Seq<u128>> {
        self.all@
    }

    /// The arcs that are in no run yet.
    pub closed spec fn buffered(&self) -> Seq<u128> {
        self.buf@
    }

    /// How many runs have not been handed out.
    pub closed spec fn held(&self) -> nat {
        self.runs@.len()
    }

    /// The counters.
    pub closed spec fn stats_view(&self) -> SortStats {
        self.stats
    }

    /// Whether duplicates are dropped.
    pub closed spec fn dedup(&self) -> bool {
        self.opts.dedup
    }

    /// The backend.
    pub closed spec fn algo_view(&self) -> SortAlgo {
        self.algo
    }

    /// The size of a run.
    pub closed spec fn capacity(&self) -> usize {
        self.arcs_per_run
    }

    spec fn sorter_valid(&self) -> bool {
        &&& self.arcs_per_run >= MIN_ARCS_PER_RUN
        &&& self.buf@.len() < self.arcs_per_run
        &&& self.parts_valid()
    }

    /// What holds also while the buffer is full.
    spec fn parts_valid(&self) -> bool {
        let arcs = self.arcs@;
        &&& self.stats.raw_arcs == arcs.len()
        &&& self.stats.max_node_id == max_id(arcs)
        &&& self.stats.distinct_arcs == 0
        &&& self.stats.runs == runs_counted(self.all@.len())
        &&& self.stats.spilled_bytes == crate::capped(16 * merge::total_len(self.all@))
        &&& self.stats.duplicates_removed + merge::total_len(self.all@) + self.buf@.len()
            == arcs.len()
        &&& !self.opts.dedup ==> self.stats.duplicates_removed == 0
        &&& self.runs@.len() <= self.all@.len()
        &&& merge::run_views(self.runs@) == self.all@.skip(self.all@.len() - self.runs@.len())
        &&& forall|r: int| 0 <= r < self.all@.len() ==> run_valid(#[trigger] self.all@[r], self.opts.dedup)
        &&& stands_for(
            merge::total(self.all@).add(self.buf@.to_multiset()),
            arc_multiset(arcs),
            self.opts.dedup,
        )
    }

    /// A sorter for `opts` into which nothing has been pushed.
    pub open spec fn fresh(&self, opts: SortOpts) -> bool {
        &&& self.valid()
        &&& !self.finished()
        &&& self.arcs() == Seq::<(NodeId, NodeId)>::empty()
        &&& self.all_runs() == Seq::<Seq<u128>>::empty()
        &&& self.buffered() == Seq::<u128>::empty()
        &&& self.held() == 0
        &&& self.dedup() == opts.dedup
        &&& self.algo_view() == opts.algo
        &&& self.capacity() == run_capacity(opts.memory_bytes)
    }

    /// Creates a sorter.
    ///
    /// Fails with [`Error::Other`] when `memory_bytes` is so small that a run
    /// would hold fewer than [`MIN_ARCS_PER_RUN`] arcs, and with
    /// [`Error::PlainIo`] when the thread pool that [`SortAlgo::Pdq`] was asked
    /// to have cannot be built. Whether it can is up to the machine; how many
    /// threads are asked for is said by [`pool_threads`], and what comes of the
    /// pool by [`ArcSorter::with_pool`].
    pub fn new(opts: SortOpts) -> (r: Result<Self>)
        ensures
            match r {
                Ok(sorter) => run_capacity(opts.memory_bytes) >= MIN_ARCS_PER_RUN && sorter.fresh(
                    opts,
                ),
                Err(e) => if run_capacity(opts.memory_bytes) < MIN_ARCS_PER_RUN {
                    e@ == budget_error(opts.memory_bytes)
                } else {
                    threads_wanted(opts) > 0 && e@ == crate::error::ErrorView::PlainIo
                },
            },
    {
        let threads: usize = pool_threads(&opts);
        if threads == 0 || !within_budget(opts.memory_bytes) {
            return Self::with_pool(opts, None);
        }
        match build_pool(threads) {
            Ok(pool) => Self::with_pool(opts, Some(pool)),
            Err(why) => Err(Error::PlainIo(why)),
        }
    }

    /// Creates a sorter that sorts in the given pool, or, without one, in
    /// whatever pool its caller runs in. Only the comparison sort takes a pool:
    /// the radix sort follows the ambient one and cannot be told about another.
    pub fn with_pool(opts: SortOpts, pool: Option<rayon::ThreadPool>) -> (r: Result<Self>)
        ensures
            match r {
                Ok(sorter) => run_capacity(opts.memory_bytes) >= MIN_ARCS_PER_RUN && sorter.fresh(
                    opts,
                ),
                Err(e) => run_capacity(opts.memory_bytes) < MIN_ARCS_PER_RUN && e@ == budget_error(
                    opts.memory_bytes,
                ),
            },
    {
        let arcs_per_run: usize = run_size(opts.memory_bytes);
        if arcs_per_run < MIN_ARCS_PER_RUN {
            return Err(Error::other(budget_text(opts.memory_bytes, arcs_per_run)));
        }
        let algo: SortAlgo = opts.algo;
        let reserve: usize = if arcs_per_run < INITIAL_ARCS_CAPACITY {
            arcs_per_run
        } else {
            INITIAL_ARCS_CAPACITY
        };
        let sorter = ArcSorter {
            buf: Vec::with_capacity(reserve),
            opts,
            algo,
            arcs_per_run,
            runs: Vec::new(),
            pool,
            stats: SortStats::default(),
            finished: false,
            arcs: Ghost(Seq::empty()),
            all: Ghost(Seq::empty()),
        };
        proof {
            broadcast use vstd::multiset::group_multiset_axioms;

            assert(merge::run_views(sorter.runs@) =~= sorter.all@.skip(0));
            let none = Seq::<u128>::empty();
            none.to_multiset_ensures();
            assert(packed_arcs(sorter.arcs@) =~= none);
            assert(sorter.buf@ =~= none);
            assert(merge::total(sorter.all@).add(none.to_multiset()) =~= none.to_multiset());
        }
        Ok(sorter)
    }

    /// The backend actually in use: always the one that was asked for.
    pub fn effective_algo(&self) -> (r: SortAlgo)
        ensures
            r == self.algo_view(),
    {
        self.algo
    }

    /// Arcs buffered before they become a run.
    pub fn arcs_per_run(&self) -> (r: usize)
        ensures
            r == self.capacity(),
    {
        self.arcs_per_run
    }

    /// Statistics gathered so far.
    pub fn stats(&self) -> (r: SortStats)
        ensures
            r == self.stats_view(),
    {
        self.stats
    }

    /// Sorts and deduplicates the buffer, and makes it a run.
    fn spill(&mut self)
        requires
            old(self).parts_valid(),
            old(self).arcs_per_run >= MIN_ARCS_PER_RUN,
            old(self).arcs@.len() <= u64::MAX,
        ensures
            final(self).sorter_valid(),
            final(self).buf@.len() == 0,
            final(self).arcs@ == old(self).arcs@,
            final(self).finished == old(self).finished,
            final(self).opts == old(self).opts,
            final(self).algo == old(self).algo,
            final(self).arcs_per_run == old(self).arcs_per_run,
            old(self).buf@.len() == 0 ==> final(self).all@ == old(self).all@
                && final(self).runs@ == old(self).runs@,
            old(self).buf@.len() > 0 ==> {
                &&& final(self).all@.len() == old(self).all@.len() + 1
                &&& final(self).all@.drop_last() == old(self).all@
                &&& merge::lists(
                    final(self).all@.last(),
                    old(self).buf@.to_multiset(),
                    old(self).opts.dedup,
                )
                &&& final(self).runs@.len() == old(self).runs@.len() + 1
            },
    {
        if self.buf.len() == 0 {
            return;
        }
        let ghost before = *self;
        let pool: Option<&rayon::ThreadPool> = self.pool.as_ref();
        let removed: u64 = sort_dedup(&mut self.buf, self.algo, self.opts.dedup, pool);
        let mut run: Vec<u128> = Vec::new();
        std::mem::swap(&mut run, &mut self.buf);
        let bytes: u64 = mul_capped(run.len() as u64, ARC_RECORD_SIZE as u64);
        proof {
            lemma_runs_bounded(before.all@, before.opts.dedup);
        }
        self.stats.duplicates_removed = self.stats.duplicates_removed + removed;
        self.stats.spilled_bytes = self.stats.spilled_bytes.saturating_add(bytes);
        let ghost contents = run@;
        self.runs.push(run);
        self.stats.runs = self.stats.runs.saturating_add(1);
        self.all = Ghost(self.all@.push(contents));
        proof {
            broadcast use vstd::multiset::group_multiset_axioms;

            assert(self.all@.drop_last() =~= before.all@);
            assert(merge::total_len(self.all@) == merge::total_len(before.all@) + contents.len());
            let none = self.buf@;
            none.to_multiset_ensures();
            assert(none.to_multiset() =~= Multiset::<u128>::empty());
            assert(merge::run_views(self.runs@) =~= self.all@.skip(
                self.all@.len() - self.runs@.len(),
            )) by {
                assert forall|r: int| 0 <= r < before.runs@.len() implies before.runs@[r]@
                    == #[trigger] before.all@[r + (before.all@.len() - before.runs@.len())] by {
                    assert(merge::run_views(before.runs@)[r] == before.all@.skip(
                        before.all@.len() - before.runs@.len(),
                    )[r]);
                }
            }
            assert forall|r: int| 0 <= r < self.all@.len() implies run_valid(
                #[trigger] self.all@[r],
                self.opts.dedup,
            ) by {
                if r < before.all@.len() {
                    assert(self.all@[r] == before.all@[r]);
                }
            }
            let m = arc_multiset(self.arcs@);
            let was = merge::total(before.all@).add(before.buf@.to_multiset());
            let is = merge::total(self.all@).add(none.to_multiset());
            assert(is =~= merge::total(before.all@).add(contents.to_multiset()));
            if self.opts.dedup {
                assert forall|k: u128| #[trigger] m.count(k) > 0 <==> is.count(k) > 0 by {
                    assert(m.count(k) > 0 <==> was.count(k) > 0);
                    assert(before.buf@.to_multiset().count(k) > 0
                        <==> contents.to_multiset().count(k) > 0);
                }
            } else {
                assert(is =~= was);
            }
        }
    }

    /// Hands out the oldest run that has not been handed out, to be stored
    /// elsewhere.
    pub fn take_run(&mut self) -> (r: Option<Vec<u128>>)
        requires
            old(self).valid(),
        ensures
            final(self).valid(),
            final(self).arcs() == old(self).arcs(),
            final(self).finished() == old(self).finished(),
            final(self).all_runs() == old(self).all_runs(),
            final(self).buffered() == old(self).buffered(),
            final(self).stats_view() == old(self).stats_view(),
            final(self).dedup() == old(self).dedup(),
            final(self).algo_view() == old(self).algo_view(),
            final(self).capacity() == old(self).capacity(),
            old(self).held() <= old(self).all_runs().len(),
            match r {
                Some(run) => {
                    &&& old(self).held() > 0
                    &&& final(self).held() == old(self).held() - 1
                    &&& run@ == old(self).all_runs()[old(self).all_runs().len() - old(
                        self,
                    ).held()]
                },
                None => old(self).held() == 0 && final(self).held() == 0,
            },
    {
        if self.runs.len() == 0 {
            return None;
        }
        let ghost before = *self;
        let run: Vec<u128> = self.runs.remove(0);
        proof {
            let skipped = before.all@.len() - before.runs@.len();
            assert(run@ == merge::run_views(before.runs@)[0]);
            assert(before.all@.skip(skipped)[0] == before.all@[skipped]);
            assert(merge::run_views(self.runs@) =~= self.all@.skip(skipped + 1)) by {
                assert forall|r: int| 0 <= r < self.runs@.len() implies #[trigger] merge::run_views(
                    self.runs@,
                )[r] == self.all@.skip(skipped + 1)[r] by {
                    assert(self.runs@[r] == before.runs@[r + 1]);
                    assert(merge::run_views(before.runs@)[r + 1] == before.all@.skip(skipped)[r
                        + 1]);
                }
            }
        }
        Some(run)
    }

    /// Makes the arcs that are left in the buffer a run, where there are runs
    /// already: the merge is over runs then.
    pub fn spill_tail(&mut self)
        requires
            old(self).valid(),
        ensures
            final(self).valid(),
            final(self).arcs() == old(self).arcs(),
            final(self).finished() == old(self).finished(),
            final(self).dedup() == old(self).dedup(),
            final(self).algo_view() == old(self).algo_view(),
            final(self).capacity() == old(self).capacity(),
            old(self).all_runs().len() == 0 ==> *final(self) == *old(self),
            old(self).all_runs().len() > 0 ==> spilled_from(
                old(self).buffered(),
                old(self).all_runs(),
                0,
                old(self).dedup(),
                final(self).buffered(),
                final(self).all_runs(),
            ),
            final(self).held() - old(self).held() == final(self).all_runs().len() - old(
                self,
            ).all_runs().len(),
    {
        if self.stats.runs > 0 {
            proof {
                lemma_runs_bounded(self.all@, self.opts.dedup);
            }
            self.spill();
        }
    }
}

/// What becomes of a buffer: below `capacity` it stays; else, unless it is
/// empty, its arcs become the last run, in order, and the buffer is empty.
pub open spec fn spilled_from(
    buf: Seq<u128>,
    runs: Seq<Seq<u128>>,
    capacity: nat,
    dedup: bool,
    new_buf: Seq<u128>,
    new_runs: Seq<Seq<u128>>,
) -> bool {
    if buf.len() == 0 || buf.len() < capacity {
        new_buf =~= buf && new_runs =~= runs
    } else {
        &&& new_buf.len() == 0
        &&& new_runs.len() == runs.len() + 1
        &&& new_runs.drop_last() == runs
        &&& merge::lists(new_runs.last(), buf.to_multiset(), dedup)
    }
}

/// A number of runs, capped at what the counter holds.
pub open spec fn runs_counted(n: nat) -> usize {
    if n <= usize::MAX {
        n as usize
    } else {
        usize::MAX
    }
}

/// A run is sorted, has no repeats where duplicates are dropped, and is not
/// empty.
pub open spec fn run_valid(run: Seq<u128>, dedup: bool) -> bool {
    &&& run.len() > 0
    &&& merge::ascending(run)
    &&& dedup ==> merge::strictly_ascending(run)
}

/// There are no more runs than arcs in them.
proof fn lemma_runs_bounded(runs: Seq<Seq<u128>>, dedup: bool)
    requires
        forall|r: int| 0 <= r < runs.len() ==> run_valid(#[trigger] runs[r], dedup),
    ensures
        runs.len() <= merge::total_len(runs),
    decreases runs.len(),
{
    if runs.len() > 0 {
        let rest = runs.drop_last();
        assert(run_valid(runs[runs.len() - 1], dedup));
        assert forall|r: int| 0 <= r < rest.len() implies run_valid(#[trigger] rest[r], dedup) by {
            assert(run_valid(runs[r], dedup));
        }
        lemma_runs_bounded(rest, dedup);
    }
}

/// What a sorter keeps, whatever is pushed into it.
pub ghost struct SorterSetting {
    pub dedup: bool,
    pub algo: SortAlgo,
    pub capacity: usize,
    /// How many runs have been handed out.
    pub handed_out: int,
}

impl ArcSink for ArcSorter {
    type Setting = SorterSetting;

    open spec fn setting(&self) -> SorterSetting {
        SorterSetting {
            dedup: self.dedup(),
            algo: self.algo_view(),
            capacity: self.capacity(),
            handed_out: self.all_runs().len() - self.held(),
        }
    }

    closed spec fn arcs(&self) -> Seq<(NodeId, NodeId)> {
        self.arcs@
    }

    closed spec fn valid(&self) -> bool {
        self.sorter_valid()
    }

    closed spec fn finished(&self) -> bool {
        self.finished
    }

    open spec fn failure(&self) -> Option<crate::error::ErrorView> {
        None
    }

    fn push(&mut self, src: NodeId, dst: NodeId) -> (r: Result<()>)
        ensures
            spilled_from(
                old(self).buffered().push(crate::packed_arc(src, dst)),
                old(self).all_runs(),
                old(self).capacity() as nat,
                old(self).dedup(),
                final(self).buffered(),
                final(self).all_runs(),
            ),
    {
        let hi: NodeId = if src < dst {
            dst
        } else {
            src
        };
        if hi > self.stats.max_node_id {
            self.stats.max_node_id = hi;
        }
        let key: u128 = pack_arc(src, dst);
        let ghost before = *self;
        self.buf.push(key);
        self.stats.raw_arcs = self.stats.raw_arcs + 1;
        self.arcs = Ghost(self.arcs@.push((src, dst)));
        proof {
            broadcast use vstd::multiset::group_multiset_axioms;

            assert(self.arcs@.drop_last() =~= before.arcs@);
            assert(packed_arcs(self.arcs@) =~= packed_arcs(before.arcs@).push(key));
            packed_arcs(before.arcs@).to_multiset_ensures();
            before.buf@.to_multiset_ensures();
            let m0 = arc_multiset(before.arcs@);
            let m1 = arc_multiset(self.arcs@);
            let was = merge::total(before.all@).add(before.buf@.to_multiset());
            let is = merge::total(self.all@).add(self.buf@.to_multiset());
            assert(m1 =~= m0.insert(key));
            assert(is =~= was.insert(key));
            if self.opts.dedup {
                assert forall|k: u128| #[trigger] m1.count(k) > 0 <==> is.count(k) > 0 by {
                    assert(m0.count(k) > 0 <==> was.count(k) > 0);
                }
            }
        }
        if self.buf.len() >= self.arcs_per_run {
            self.spill();
        }
        Ok(())
    }

    /// Marks the sorter complete. What is left in the buffer is turned into
    /// sorted output by [`ArcSorter::into_sorted`].
    fn finish(&mut self) -> (r: Result<()>)
        ensures
            final(self).all_runs() == old(self).all_runs(),
            final(self).buffered() == old(self).buffered(),
            final(self).stats_view() == old(self).stats_view(),
    {
        self.finished = true;
        Ok(())
    }
}


/// What a sorter counts: every arc that was pushed is in a run, in the buffer,
/// or was dropped as the duplicate of one that is; runs are sorted. How many
/// distinct arcs there are is not known, and counted as none, until they have
/// been sorted.
pub proof fn sorter_accounts_for_every_arc(sorter: &ArcSorter)
    requires
        sorter.valid(),
    ensures
        sorter.stats_view().raw_arcs == sorter.arcs().len(),
        sorter.stats_view().max_node_id == max_id(sorter.arcs()),
        sorter.stats_view().distinct_arcs == 0,
        sorter.stats_view().runs == runs_counted(sorter.all_runs().len()),
        sorter.stats_view().spilled_bytes == crate::capped(
            16 * merge::total_len(sorter.all_runs()),
        ),
        sorter.stats_view().duplicates_removed + merge::total_len(sorter.all_runs())
            + sorter.buffered().len() == sorter.arcs().len(),
        !sorter.dedup() ==> sorter.stats_view().duplicates_removed == 0,
        sorter.buffered().len() < sorter.capacity(),
        forall|r: int|
            0 <= r < sorter.all_runs().len() ==> run_valid(
                #[trigger] sorter.all_runs()[r],
                sorter.dedup(),
            ),
        stands_for(
            merge::total(sorter.all_runs()).add(sorter.buffered().to_multiset()),
            arc_multiset(sorter.arcs()),
            sorter.dedup(),
        ),
{
}

// ---------------------------------------------------------------------------
// SortedArcs
// ---------------------------------------------------------------------------
enum Repr {
    Memory(Vec<u128>),
    Runs(Vec<Vec<u128>>),
}

/// A sorted, optionally deduplicated arc set: either one vector or a set of
/// runs that are merged as they are read.
pub struct SortedArcs {
    dedup: bool,
    num_arcs: u64,
    max_node_id: NodeId,
    repr: Repr,
    /// The arcs that were sorted.
    of: Ghost<Seq<(NodeId, NodeId)>>,
}

impl SortedArcs {
    /// The arcs that were sorted, as they were pushed.
    pub closed spec fn of(&self) -> Seq<(NodeId, NodeId)> {
        self.of@
    }

    /// Whether duplicates were dropped.
    pub closed spec fn dedup(&self) -> bool {
        self.dedup
    }

    /// `s` is what comes out: the packed arcs in ascending order.
    pub open spec fn lists(&self, s: Seq<u128>) -> bool {
        merge::lists(s, arc_multiset(self.of()), self.dedup())
    }

    /// The invariant of the set.
    pub closed spec fn valid(&self) -> bool {
        &&& self.max_node_id == max_id(self.of@)
        &&& forall|s: Seq<u128>| #[trigger]
            merge::lists(s, arc_multiset(self.of@), self.dedup) ==> s.len() == self.num_arcs
        &&& match self.repr {
            Repr::Memory(v) => merge::lists(v@, arc_multiset(self.of@), self.dedup),
            Repr::Runs(runs) => {
                &&& stands_for(
                    merge::total(merge::run_views(runs@)),
                    arc_multiset(self.of@),
                    self.dedup,
                )
                &&& forall|r: int| 0 <= r < runs@.len() ==> merge::ascending(#[trigger] runs@[r]@)
            },
        }
    }

    /// Exact number of arcs this set will yield.
    pub fn num_arcs(&self) -> (r: u64)
        requires
            self.valid(),
        ensures
            exists|s: Seq<u128>| #[trigger] self.lists(s) && s.len() == r,
            forall|s: Seq<u128>| #[trigger] self.lists(s) ==> s.len() == r,
    {
        proof {
            self.lemma_empty();
        }
        self.num_arcs
    }

    /// A set yields no arcs exactly where none were sorted.
    pub proof fn lemma_empty(&self)
        requires
            self.valid(),
        ensures
            exists|s: Seq<u128>| #[trigger] self.lists(s) && (s.len() == 0 <==> self.of().len() == 0),
    {
        let keys = packed_arcs(self.of@);
        merge::listing_exists(keys, self.dedup);
        let s = choose|s: Seq<u128>| #[trigger] merge::lists(s, keys.to_multiset(), self.dedup);
        merge::listing_of_nothing(s, keys, self.dedup);
        assert(self.lists(s));
    }

    /// Largest node id seen on either endpoint.
    pub fn max_node_id(&self) -> (r: NodeId)
        requires
            self.valid(),
        ensures
            r == max_id(self.of()),
    {
        self.max_node_id
    }

    /// Walks the arcs in ascending `(src, dst)` order.
    pub fn iter<'a>(&'a self) -> (r: SortedArcIter<'a>)
        requires
            self.valid(),
        ensures
            r.valid(),
            r.of() == self.of(),
            r.dedup() == self.dedup(),
            r.given() == Seq::<u128>::empty(),
    {
        let inner: IterInner<'a> = match &self.repr {
            Repr::Memory(v) => {
                assert(v@.take(0) =~= Seq::empty());
                IterInner::Memory(v, 0)
            },
            Repr::Runs(runs) => IterInner::Merge(RunMerge::new(runs, self.dedup)),
        };
        SortedArcIter { inner, of: Ghost(self.of@), dedup: Ghost(self.dedup) }
    }
}

enum IterInner<'a> {
    Memory(&'a Vec<u128>, usize),
    Merge(RunMerge<'a>),
}

/// An ascending walk over a [`SortedArcs`].
pub struct SortedArcIter<'a> {
    inner: IterInner<'a>,
    of: Ghost<Seq<(NodeId, NodeId)>>,
    dedup: Ghost<bool>,
}

impl<'a> SortedArcIter<'a> {
    /// The arcs that were sorted, as they were pushed.
    pub closed spec fn of(&self) -> Seq<(NodeId, NodeId)> {
        self.of@
    }

    /// Whether duplicates were dropped.
    pub closed spec fn dedup(&self) -> bool {
        self.dedup@
    }

    /// What has come out so far, packed.
    pub closed spec fn given(&self) -> Seq<u128> {
        match self.inner {
            IterInner::Memory(v, i) => v@.take(i as int),
            IterInner::Merge(m) => m.given(),
        }
    }

    /// The walk's invariant.
    pub closed spec fn valid(&self) -> bool {
        match self.inner {
            IterInner::Memory(v, i) => i <= v@.len() && merge::lists(
                v@,
                arc_multiset(self.of@),
                self.dedup@,
            ),
            IterInner::Merge(m) => {
                &&& m.valid()
                &&& m.dedup() == self.dedup@
                &&& stands_for(merge::total(m.runs()), arc_multiset(self.of@), self.dedup@)
            },
        }
    }

    /// How many arcs can still come out, at most.
    pub closed spec fn remaining(&self) -> nat {
        match self.inner {
            IterInner::Memory(v, i) => (v@.len() - i) as nat,
            IterInner::Merge(m) => m.remaining(),
        }
    }

    /// The next packed arc, or `None` when all have come out. What has come out
    /// by then lists the arcs that were sorted.
    pub fn next_key(&mut self) -> (r: Option<u128>)
        requires
            old(self).valid(),
        ensures
            final(self).valid(),
            final(self).of() == old(self).of(),
            final(self).dedup() == old(self).dedup(),
            match r {
                Some(k) => {
                    &&& final(self).given() == old(self).given().push(k)
                    &&& final(self).remaining() < old(self).remaining()
                },
                None => final(self).given() == old(self).given() && merge::lists(
                    old(self).given(),
                    arc_multiset(old(self).of()),
                    old(self).dedup(),
                ),
            },
    {
        let ghost before = self.given();
        let ghost of = self.of@;
        let ghost dedup = self.dedup@;
        let key: u128 = match &mut self.inner {
            IterInner::Memory(v, i) => {
                if *i >= v.len() {
                    assert(v@.take(*i as int) =~= v@);
                    return None;
                }
                let k: u128 = v[*i];
                assert(v@.take(*i + 1) =~= v@.take(*i as int).push(k));
                *i = *i + 1;
                k
            },
            IterInner::Merge(m) => {
                let ghost runs = m.runs();
                match m.next() {
                    Some(k) => k,
                    None => {
                        proof {
                            lemma_stands_for(before, merge::total(runs), arc_multiset(of), dedup);
                        }
                        return None;
                    },
                }
            },
        };
        assert(self.given() == before.push(key));
        Some(key)
    }

    /// The next arc, or `None` when all have come out. What has come out by
    /// then lists the arcs that were sorted.
    pub fn next(&mut self) -> (r: Option<(NodeId, NodeId)>)
        requires
            old(self).valid(),
        ensures
            final(self).valid(),
            final(self).of() == old(self).of(),
            final(self).dedup() == old(self).dedup(),
            match r {
                Some(arc) => {
                    &&& final(self).remaining() < old(self).remaining()
                    &&& exists|k: u128|
                        final(self).given() == #[trigger] old(self).given().push(k) && arc
                            == crate::unpacked_arc(k)
                },
                None => final(self).given() == old(self).given() && merge::lists(
                    old(self).given(),
                    arc_multiset(old(self).of()),
                    old(self).dedup(),
                ),
            },
    {
        match self.next_key() {
            Some(key) => Some(unpack_arc(key)),
            None => None,
        }
    }
}

impl SortStats {
    /// The counters once the number of arcs that came out is known.
    pub fn with_distinct(self, num_arcs: u64) -> (r: SortStats)
        ensures
            r == (SortStats {
                distinct_arcs: num_arcs,
                duplicates_removed: if num_arcs <= self.raw_arcs {
                    (self.raw_arcs - num_arcs) as u64
                } else {
                    0
                },
                ..self
            }),
    {
        let mut r: SortStats = self;
        r.distinct_arcs = num_arcs;
        r.duplicates_removed = if num_arcs <= self.raw_arcs {
            self.raw_arcs - num_arcs
        } else {
            0
        };
        r
    }
}

/// Where what stands for some arcs has listings of one length only, so have
/// the arcs, and none is longer than they are.
proof fn lemma_listed_len(num: nat, b: Multiset<u128>, a: Multiset<u128>, dedup: bool)
    requires
        stands_for(b, a, dedup),
        forall|s: Seq<u128>| #[trigger] merge::lists(s, b, dedup) ==> s.len() == num,
    ensures
        forall|s: Seq<u128>| #[trigger]
            merge::lists(s, a, dedup) ==> s.len() == num && s.len() <= a.len(),
{
    assert forall|s: Seq<u128>| #[trigger] merge::lists(s, a, dedup) implies s.len() == num
        && s.len() <= a.len() by {
        merge::listing_is_no_longer(s, a, dedup);
        if dedup {
            assert forall|k: u128| #[trigger] b.count(k) > 0 <==> a.count(k) > 0 by {}
        }
        lemma_stands_for(s, a, b, dedup);
    }
}

/// Counts how many arcs come out of runs that hold `total` arcs. Only where
/// there are several, and duplicates are dropped, do they have to be merged for
/// it.
fn count_runs(runs: &Vec<Vec<u128>>, dedup: bool, total: u64) -> (r: u64)
    requires
        runs@.len() > 0,
        forall|i: int|
            0 <= i < runs@.len() ==> run_valid(#[trigger] merge::run_views(runs@)[i], dedup),
        merge::total_len(merge::run_views(runs@)) <= u64::MAX,
        !dedup ==> total == merge::total_len(merge::run_views(runs@)),
    ensures
        forall|s: Seq<u128>| #[trigger]
            merge::lists(s, merge::total(merge::run_views(runs@)), dedup) ==> s.len() == r,
{
    let ghost all = merge::run_views(runs@);
    if runs.len() == 1 {
        proof {
            broadcast use vstd::multiset::group_multiset_axioms;

            let run = all[0];
            assert(run_valid(run, dedup));
            assert(all.drop_last() =~= Seq::<Seq<u128>>::empty());
            assert(merge::total(all.drop_last()) =~= Multiset::<u128>::empty());
            assert(merge::total(all) =~= run.to_multiset());
            run.to_multiset_ensures();
            assert(merge::lists(run, run.to_multiset(), dedup));
            assert forall|s: Seq<u128>| #[trigger]
                merge::lists(s, merge::total(all), dedup) implies s.len() == run.len() by {
                merge::listing_is_unique(s, run, run.to_multiset(), dedup);
            }
        }
        return runs[0].len() as u64;
    }
    if dedup {
        proof {
            assert forall|i: int| 0 <= i < runs@.len() implies merge::ascending(
                #[trigger] runs@[i]@,
            ) by {
                assert(run_valid(all[i], dedup));
            }
        }
        return count_merged(runs, true);
    }
    proof {
        merge::lemma_total_len(all);
        assert forall|s: Seq<u128>| #[trigger]
            merge::lists(s, merge::total(all), dedup) implies s.len() == total by {
            merge::listing_is_no_longer(s, merge::total(all), dedup);
        }
    }
    total
}

impl ArcSorter {
    /// The sorted arcs and their counters are those of this sorter.
    spec fn gives(&self, sorted: SortedArcs, stats: SortStats) -> bool {
        &&& sorted.valid()
        &&& sorted.of() == self.arcs()
        &&& sorted.dedup() == self.dedup()
        &&& stats.raw_arcs == self.arcs().len()
        &&& stats.max_node_id == max_id(self.arcs())
        &&& forall|s: Seq<u128>| #[trigger]
            sorted.lists(s) ==> stats.distinct_arcs == s.len() && stats.duplicates_removed
                == stats.raw_arcs - s.len()
    }

    /// The sorted arcs where no run was ever made: the buffer, sorted.
    #[verifier::spinoff_prover]
    fn sort_buffer(self) -> (r: (SortedArcs, SortStats))
        requires
            self.sorter_valid(),
            self.all@.len() == 0,
        ensures
            self.gives(r.0, r.1),
            r.1.runs == 0,
            r.1.spilled_bytes == 0,
    {
        let mut me: ArcSorter = self;
        let dedup: bool = me.opts.dedup;
        let ghost arcs = me.arcs@;
        let ghost m = arc_multiset(arcs);
        let ghost buf = me.buf@;
        let pool: Option<&rayon::ThreadPool> = me.pool.as_ref();
        let _: u64 = sort_dedup(&mut me.buf, me.algo, dedup, pool);
        let num_arcs: u64 = me.buf.len() as u64;
        let stats: SortStats = me.stats.with_distinct(num_arcs);
        proof {
            broadcast use vstd::multiset::group_multiset_axioms;

            packed_arcs(arcs).to_multiset_ensures();
            assert(merge::total(Seq::<Seq<u128>>::empty()).add(buf.to_multiset())
                =~= buf.to_multiset());
            lemma_stands_for(me.buf@, buf.to_multiset(), m, dedup);
            merge::listing_is_no_longer(me.buf@, m, dedup);
            assert forall|s: Seq<u128>| #[trigger] merge::lists(s, m, dedup) implies s.len()
                == num_arcs by {
                merge::listing_is_unique(s, me.buf@, m, dedup);
            }
        }
        let max_node_id: NodeId = stats.max_node_id;
        (
            SortedArcs {
                dedup,
                num_arcs,
                max_node_id,
                repr: Repr::Memory(me.buf),
                of: Ghost(arcs),
            },
            stats,
        )
    }

    /// The sorted arcs where there are runs, all of them held, and nothing is
    /// left in the buffer.
    #[verifier::spinoff_prover]
    fn collect_runs(self) -> (r: (SortedArcs, SortStats))
        requires
            self.sorter_valid(),
            self.buf@.len() == 0,
            self.runs@.len() == self.all@.len(),
            self.all@.len() > 0,
            self.arcs@.len() <= u64::MAX,
        ensures
            self.gives(r.0, r.1),
            r.1.runs == self.stats.runs,
            r.1.spilled_bytes == self.stats.spilled_bytes,
    {
        let dedup: bool = self.opts.dedup;
        let ghost arcs = self.arcs@;
        let ghost m = arc_multiset(arcs);
        let ghost all = self.all@;
        proof {
            broadcast use vstd::multiset::group_multiset_axioms;

            let none = self.buf@;
            packed_arcs(arcs).to_multiset_ensures();
            none.to_multiset_ensures();
            assert(none.to_multiset() =~= Multiset::<u128>::empty());
            assert(merge::total(all).add(none.to_multiset()) =~= merge::total(all));
            assert(all.skip(0) =~= all);
            assert(merge::run_views(self.runs@) =~= all);
            assert forall|r: int| 0 <= r < self.runs@.len() implies merge::ascending(
                #[trigger] self.runs@[r]@,
            ) by {
                assert(merge::run_views(self.runs@)[r] == all[r]);
                assert(run_valid(all[r], dedup));
            }
        }
        let num_arcs: u64 = count_runs(&self.runs, dedup, self.stats.raw_arcs);
        proof {
            lemma_listed_len(num_arcs as nat, merge::total(all), m, dedup);
        }
        let stats: SortStats = self.stats.with_distinct(num_arcs);
        let max_node_id: NodeId = stats.max_node_id;
        (
            SortedArcs {
                dedup,
                num_arcs,
                max_node_id,
                repr: Repr::Runs(self.runs),
                of: Ghost(arcs),
            },
            stats,
        )
    }

    /// Finishes the sort and hands back the sorted arcs: one buffer where no
    /// run was ever made, else the runs, with the rest of the buffer as the
    /// last of them. The arc count is exact either way.
    #[verifier::spinoff_prover]
    pub fn into_sorted(self) -> (r: Result<(SortedArcs, SortStats)>)
        requires
            self.valid(),
            self.held() == self.all_runs().len(),
        ensures
            r matches Ok((sorted, stats)) && {
                &&& sorted.valid()
                &&& sorted.of() == self.arcs()
                &&& sorted.dedup() == self.dedup()
                &&& stats.raw_arcs == self.arcs().len()
                &&& stats.max_node_id == max_id(self.arcs())
                &&& forall|s: Seq<u128>| #[trigger]
                    sorted.lists(s) ==> stats.distinct_arcs == s.len()
                        && stats.duplicates_removed == stats.raw_arcs - s.len()
                &&& self.all_runs().len() == 0 ==> stats.runs == 0 && stats.spilled_bytes == 0
                &&& self.all_runs().len() > 0 ==> stats.runs == runs_counted(
                    self.all_runs().len() + if self.buffered().len() > 0 {
                        1nat
                    } else {
                        0
                    },
                )
                &&& self.all_runs().len() > 0 ==> forall|tail: Seq<u128>| #[trigger]
                    merge::lists(tail, self.buffered().to_multiset(), self.dedup())
                        ==> stats.spilled_bytes == crate::capped(
                        16 * (merge::total_len(self.all_runs()) + tail.len()),
                    )
            },
    {
        let mut me: ArcSorter = self;
        if me.runs.len() == 0 {
            return Ok(me.sort_buffer());
        }
        let ghost before = me;
        me.spill();
        proof {
            let left = before.buf@.to_multiset();
            let dedup = before.opts.dedup;
            assert forall|tail: Seq<u128>| #[trigger]
                merge::lists(tail, left, dedup) implies me.stats.spilled_bytes == crate::capped(
                16 * (merge::total_len(before.all@) + tail.len()),
            ) by {
                if before.buf@.len() > 0 {
                    merge::listing_is_unique(tail, me.all@.last(), left, dedup);
                } else {
                    before.buf@.to_multiset_ensures();
                    merge::listing_is_no_longer(tail, left, dedup);
                }
            }
        }
        Ok(me.collect_runs())
    }
}

// ---------------------------------------------------------------------------
// What the counters mean
// ---------------------------------------------------------------------------
/// The largest endpoint is one of the endpoints, and none is above it; without
/// arcs it is zero.
pub proof fn the_largest_endpoint_is_found(arcs: Seq<(NodeId, NodeId)>)
    ensures
        arcs.len() == 0 ==> max_id(arcs) == 0,
        forall|i: int|
            0 <= i < arcs.len() ==> (#[trigger] arcs[i]).0 <= max_id(arcs) && arcs[i].1 <= max_id(
                arcs,
            ),
        arcs.len() > 0 ==> exists|i: int|
            0 <= i < arcs.len() && ((#[trigger] arcs[i]).0 == max_id(arcs) || arcs[i].1 == max_id(
                arcs,
            )),
    decreases arcs.len(),
{
    if arcs.len() > 0 {
        let init = arcs.drop_last();
        the_largest_endpoint_is_found(init);
        assert forall|i: int| 0 <= i < arcs.len() implies (#[trigger] arcs[i]).0 <= max_id(arcs)
            && arcs[i].1 <= max_id(arcs) by {
            if i < init.len() {
                assert(init[i] == arcs[i]);
            }
        }
        if init.len() > 0 && max_id(arcs) == max_id(init) {
            let k = choose|k: int|
                0 <= k < init.len() && ((#[trigger] init[k]).0 == max_id(init) || init[k].1
                    == max_id(init));
            assert(arcs[k] == init[k]);
        } else {
            assert(arcs[arcs.len() - 1] == arcs.last());
        }
    }
}

/// A run holds as many arcs as fit twice into the budget, at sixteen bytes an
/// arc: that many fit, and one more would not.
pub proof fn a_run_fills_its_budget(memory_bytes: u64)
    requires
        memory_bytes <= 32 * usize::MAX,
    ensures
        32 * run_capacity(memory_bytes) <= memory_bytes,
        memory_bytes < 32 * (run_capacity(memory_bytes) + 1),
{
}

/// The comparison sort runs on as many threads as were asked for; the radix
/// sort has no threads of its own, however many were asked for.
pub proof fn only_the_comparison_sort_has_threads(opts: SortOpts)
    ensures
        threads_wanted(SortOpts { algo: SortAlgo::Pdq, ..opts }) == opts.threads,
        threads_wanted(SortOpts { algo: SortAlgo::Radix, ..opts }) == 0,
{
}

/// A spill keeps every arc: what was buffered and what lay in runs is there
/// afterwards, each as often, or at all where duplicates are dropped. A buffer
/// that is not full is left alone, and after a spill it is empty.
pub proof fn a_spill_keeps_every_arc(
    buf: Seq<u128>,
    runs: Seq<Seq<u128>>,
    capacity: nat,
    dedup: bool,
    new_buf: Seq<u128>,
    new_runs: Seq<Seq<u128>>,
    k: u128,
)
    requires
        spilled_from(buf, runs, capacity, dedup, new_buf, new_runs),
    ensures
        buf.len() < capacity ==> new_buf == buf && new_runs == runs,
        buf.len() >= capacity && buf.len() > 0 ==> new_buf.len() == 0 && new_runs.len()
            == runs.len() + 1,
        forall|r: int| 0 <= r < runs.len() ==> #[trigger] new_runs[r] == runs[r],
        !dedup ==> new_buf.to_multiset().count(k) + merge::total(new_runs).count(k)
            == buf.to_multiset().count(k) + merge::total(runs).count(k),
        new_buf.to_multiset().count(k) + merge::total(new_runs).count(k) > 0
            <==> buf.to_multiset().count(k) + merge::total(runs).count(k) > 0,
{
    if buf.len() == 0 || buf.len() < capacity {
    } else {
        let last = new_runs.last();
        assert forall|r: int| 0 <= r < runs.len() implies #[trigger] new_runs[r] == runs[r] by {
            assert(new_runs.drop_last()[r] == runs[r]);
        }
        assert(new_buf =~= Seq::empty());
        new_buf.to_multiset_ensures();
        buf.to_multiset_ensures();
        assert(last.contains(k) <==> last.to_multiset().count(k) > 0) by {
            vstd::seq_lib::to_multiset_contains(last, k);
        }
        assert(merge::total(new_runs).count(k) == merge::total(runs).count(k)
            + last.to_multiset().count(k));
        assert(new_buf.to_multiset().count(k) == 0) by {
            vstd::seq_lib::to_multiset_contains(new_buf, k);
        }
    }
}

/// What is said of a budget that is too small tells the budget, and how many
/// arcs it allows.
pub proof fn small_budgets_are_told(memory_bytes: u64)
    ensures
        budget_error(memory_bytes) matches crate::error::ErrorView::Other(msg) && text::tells(
            msg,
            text::decimal(memory_bytes as nat) + " bytes only allows "@ + text::decimal(
                run_capacity(memory_bytes) as nat,
            ) + " arcs per run (minimum "@,
        ),
{
    let m = budget_message(memory_bytes, run_capacity(memory_bytes));
    let part = text::decimal(memory_bytes as nat) + " bytes only allows "@ + text::decimal(
        run_capacity(memory_bytes) as nat,
    ) + " arcs per run (minimum "@;
    let head = "memory budget of "@ + part;
    assert(m.take(head.len() as int) =~= head);
    text::lemma_tells(m, "memory budget of "@, part, m.skip(head.len() as int));
}

} // verus!
