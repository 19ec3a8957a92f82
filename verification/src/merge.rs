//! Streaming k-way merge of sorted runs of packed arcs, with deduplication
//! across runs.
//!
//! [`Merger`] decides: it holds the head of every run, says which run is to be
//! advanced, and whether an arc is to be emitted. Where the runs are kept is
//! the caller's business. [`RunMerge`] drives it over runs in memory.
use vstd::multiset::Multiset;
use vstd::prelude::*;

verus! {

// ---------------------------------------------------------------------------
// Model
// ---------------------------------------------------------------------------
/// Ascending, equal neighbours allowed.
pub open spec fn ascending(s: Seq<u128>) -> bool {
    forall|i: int, j: int| 0 <= i <= j < s.len() ==> s[i] <= s[j]
}

/// Strictly ascending: no value twice.
pub open spec fn strictly_ascending(s: Seq<u128>) -> bool {
    forall|i: int, j: int| 0 <= i < j < s.len() ==> s[i] < s[j]
}

/// `s` lists the values of `m` in ascending order: each as often as it occurs,
/// or, where duplicates are dropped, each once.
pub open spec fn lists(s: Seq<u128>, m: Multiset<u128>, dedup: bool) -> bool {
    if dedup {
        strictly_ascending(s) && forall|k: u128| #[trigger] s.contains(k) <==> m.count(k) > 0
    } else {
        ascending(s) && s.to_multiset() == m
    }
}

/// What the first `pos[r]` values of each run `r` hold, taken together.
pub open spec fn taken(runs: Seq<Seq<u128>>, pos: Seq<int>) -> Multiset<u128>
    decreases runs.len(),
{
    if runs.len() == 0 {
        Multiset::empty()
    } else {
        taken(runs.drop_last(), pos.drop_last()).add(runs.last().take(pos.last()).to_multiset())
    }
}

/// What all runs hold, taken together.
pub open spec fn total(runs: Seq<Seq<u128>>) -> Multiset<u128>
    decreases runs.len(),
{
    if runs.len() == 0 {
        Multiset::empty()
    } else {
        total(runs.drop_last()).add(runs.last().to_multiset())
    }
}

/// One more value taken from run `r`.
proof fn lemma_taken_step(runs: Seq<Seq<u128>>, pos: Seq<int>, r: int)
    requires
        pos.len() == runs.len(),
        0 <= r < runs.len(),
        0 <= pos[r] < runs[r].len(),
    ensures
        taken(runs, pos.update(r, pos[r] + 1)) == taken(runs, pos).insert(runs[r][pos[r]]),
    decreases runs.len(),
{
    broadcast use vstd::multiset::group_multiset_axioms;

    let n = runs.len() - 1;
    let next = pos.update(r, pos[r] + 1);
    if r == n {
        assert(next.drop_last() =~= pos.drop_last());
        let run = runs.last();
        let p = pos[r];
        assert(run.take(p + 1) =~= run.take(p).push(run[p]));
        run.take(p).to_multiset_ensures();
        assert(taken(runs, next) =~= taken(runs, pos).insert(run[p]));
    } else {
        lemma_taken_step(runs.drop_last(), pos.drop_last(), r);
        assert(next.drop_last() =~= pos.drop_last().update(r, pos[r] + 1));
        assert(taken(runs, next) =~= taken(runs, pos).insert(runs[r][pos[r]]));
    }
}

/// Nothing taken from any run is nothing.
proof fn lemma_taken_none(runs: Seq<Seq<u128>>, pos: Seq<int>)
    requires
        pos.len() == runs.len(),
        forall|r: int| 0 <= r < runs.len() ==> #[trigger] pos[r] == 0,
    ensures
        taken(runs, pos) == Multiset::<u128>::empty(),
    decreases runs.len(),
{
    broadcast use vstd::multiset::group_multiset_axioms;

    if runs.len() > 0 {
        let n = runs.len() - 1;
        assert(pos[n] == 0);
        assert forall|r: int| 0 <= r < n implies #[trigger] pos.drop_last()[r] == 0 by {
            assert(pos[r] == 0);
        }
        lemma_taken_none(runs.drop_last(), pos.drop_last());
        let none = runs.last().take(0);
        none.to_multiset_ensures();
        assert(none.to_multiset() =~= Multiset::empty());
        assert(taken(runs, pos) =~= Multiset::<u128>::empty());
    }
}

/// Everything taken from every run is everything.
proof fn lemma_taken_all(runs: Seq<Seq<u128>>, pos: Seq<int>)
    requires
        pos.len() == runs.len(),
        forall|r: int| 0 <= r < runs.len() ==> #[trigger] pos[r] == runs[r].len(),
    ensures
        taken(runs, pos) == total(runs),
    decreases runs.len(),
{
    if runs.len() > 0 {
        let n = runs.len() - 1;
        assert(pos[n] == runs[n].len());
        assert forall|r: int| 0 <= r < n implies #[trigger] pos.drop_last()[r]
            == runs.drop_last()[r].len() by {
            assert(pos[r] == runs[r].len());
        }
        lemma_taken_all(runs.drop_last(), pos.drop_last());
        assert(runs.last().take(pos.last()) =~= runs.last());
    }
}

/// The number of values in all runs.
pub open spec fn total_len(runs: Seq<Seq<u128>>) -> nat
    decreases runs.len(),
{
    if runs.len() == 0 {
        0
    } else {
        total_len(runs.drop_last()) + runs.last().len()
    }
}

// ---------------------------------------------------------------------------
// Heap of heads
// ---------------------------------------------------------------------------
/// `a` comes out of the merge no later than `b`: the smaller arc first, and of
/// equal arcs the one of the earlier run.
pub open spec fn head_before(a: (u128, usize), b: (u128, usize)) -> bool {
    a.0 < b.0 || (a.0 == b.0 && a.1 <= b.1)
}

/// Whether `a` comes out no later than `b`.
fn comes_before(a: (u128, usize), b: (u128, usize)) -> (r: bool)
    ensures
        r == head_before(a, b),
{
    a.0 < b.0 || (a.0 == b.0 && a.1 <= b.1)
}

/// The parent of position `i` of a heap.
spec fn parent(i: int) -> int {
    (i - 1) / 2
}

/// No position comes before its parent, leaving out the position `hole`.
spec fn heap_but_for(s: Seq<(u128, usize)>, hole: int) -> bool {
    forall|j: int|
        1 <= j < s.len() && j != hole ==> head_before(s[parent(j)], #[trigger] s[j])
}

/// No position comes before its parent, leaving out the children of `hole`.
spec fn heap_but_below(s: Seq<(u128, usize)>, hole: int) -> bool {
    forall|j: int|
        1 <= j < s.len() && parent(j) != hole ==> head_before(s[parent(j)], #[trigger] s[j])
}

/// The children of `i` do not come before the parent of `i`.
spec fn skips(s: Seq<(u128, usize)>, i: int) -> bool {
    i > 0 ==> forall|j: int|
        1 <= j < s.len() && parent(j) == i ==> head_before(s[parent(i)], #[trigger] s[j])
}

/// No position comes before its parent.
spec fn is_heap(s: Seq<(u128, usize)>) -> bool {
    forall|j: int| 1 <= j < s.len() ==> head_before(s[parent(j)], #[trigger] s[j])
}

/// The root of a heap comes before everything in it.
proof fn lemma_root(s: Seq<(u128, usize)>, i: int)
    requires
        is_heap(s),
        0 <= i < s.len(),
    ensures
        head_before(s[0], s[i]),
    decreases i,
{
    if i > 0 {
        lemma_root(s, parent(i));
        assert(head_before(s[parent(i)], s[i]));
    }
}

/// The heads of the runs, the one that comes out next on top.
struct HeadHeap {
    items: Vec<(u128, usize)>,
}

impl HeadHeap {
    spec fn valid(&self) -> bool {
        is_heap(self.items@)
    }

    spec fn contents(&self) -> Multiset<(u128, usize)> {
        self.items@.to_multiset()
    }

    /// Exchanges two heads.
    fn swap(&mut self, i: usize, j: usize)
        requires
            i < old(self).items@.len(),
            j < old(self).items@.len(),
            i != j,
        ensures
            final(self).items@ == old(self).items@.update(
                i as int,
                old(self).items@[j as int],
            ).update(j as int, old(self).items@[i as int]),
            final(self).contents() == old(self).contents(),
    {
        let a: (u128, usize) = self.items[i];
        let b: (u128, usize) = self.items[j];
        let ghost s = self.items@;
        self.items[i] = b;
        self.items[j] = a;
        proof {
            broadcast use vstd::multiset::group_multiset_axioms;

            vstd::seq_lib::to_multiset_update(s, i as int, b);
            vstd::seq_lib::to_multiset_update(s.update(i as int, b), j as int, a);
            vstd::seq_lib::to_multiset_contains(s, a);
            vstd::seq_lib::to_multiset_contains(s, b);
            assert(s[i as int] == a && s[j as int] == b);
            assert(s.contains(a) && s.contains(b));
            assert(self.items@.to_multiset() =~= s.to_multiset());
        }
    }

    /// Adds a head.
    fn push(&mut self, head: (u128, usize))
        requires
            old(self).valid(),
        ensures
            final(self).valid(),
            final(self).contents() == old(self).contents().insert(head),
    {
        let ghost s0 = self.items@;
        self.items.push(head);
        proof {
            s0.to_multiset_ensures();
            assert(self.items@.to_multiset() =~= s0.to_multiset().insert(head));
        }
        let mut i: usize = self.items.len() - 1;
        while i > 0
            invariant
                i < self.items@.len(),
                heap_but_for(self.items@, i as int),
                skips(self.items@, i as int),
                self.contents() == old(self).contents().insert(head),
            ensures
                is_heap(self.items@),
            decreases i,
        {
            let p: usize = (i - 1) / 2;
            if comes_before(self.items[p], self.items[i]) {
                break;
            }
            let ghost s = self.items@;
            self.swap(i, p);
            proof {
                lemma_sift_up(s, self.items@, i as int);
            }
            i = p;
        }
    }

    /// Takes out the head that comes out next.
    fn pop(&mut self) -> (r: Option<(u128, usize)>)
        requires
            old(self).valid(),
        ensures
            final(self).valid(),
            match r {
                None => old(self).contents() == Multiset::<(u128, usize)>::empty()
                    && final(self).contents() == old(self).contents(),
                Some(head) => {
                    &&& old(self).contents().count(head) > 0
                    &&& final(self).contents() == old(self).contents().remove(head)
                    &&& forall|x: (u128, usize)| #[trigger]
                        old(self).contents().count(x) > 0 ==> head_before(head, x)
                },
            },
    {
        let n: usize = self.items.len();
        let ghost s0 = self.items@;
        if n == 0 {
            proof {
                s0.to_multiset_ensures();
                assert(s0.to_multiset() =~= Multiset::<(u128, usize)>::empty()) by {
                    broadcast use vstd::multiset::group_multiset_axioms;

                }
            }
            return None;
        }
        let head: (u128, usize) = self.items[0];
        let last: (u128, usize) = self.items[n - 1];
        self.items.pop();
        let ghost s1 = self.items@;
        proof {
            s0.to_multiset_ensures();
            assert(s1 =~= s0.remove(n - 1));
            assert(s0[0] == head);
            assert(s0.contains(head));
            vstd::seq_lib::to_multiset_contains(s0, head);
            assert forall|x: (u128, usize)| #[trigger] s0.to_multiset().count(x) > 0 implies head_before(
                head,
                x,
            ) by {
                vstd::seq_lib::to_multiset_contains(s0, x);
                let i = s0.index_of(x);
                lemma_root(s0, i);
            }
        }
        if n == 1 {
            return Some(head);
        }
        self.items[0] = last;
        let m: usize = n - 1;
        proof {
            broadcast use vstd::multiset::group_multiset_axioms;

            vstd::seq_lib::to_multiset_update(s1, 0, last);
            assert(s1[0] == head);
            assert(s1.contains(head));
            vstd::seq_lib::to_multiset_contains(s1, head);
            assert(self.items@.to_multiset() =~= s0.to_multiset().remove(head));
            assert forall|j: int|
                1 <= j < self.items@.len() && parent(j) != 0 implies head_before(
                self.items@[parent(j)],
                #[trigger] self.items@[j],
            ) by {
                assert(head_before(s0[parent(j)], s0[j]));
            }
        }
        let mut i: usize = 0;
        loop
            invariant
                i < m,
                m == self.items@.len(),
                heap_but_below(self.items@, i as int),
                skips(self.items@, i as int),
                self.contents() == old(self).contents().remove(head),
            ensures
                is_heap(self.items@),
                self.contents() == old(self).contents().remove(head),
            decreases m - i,
        {
            if i >= m / 2 {
                // No child: 2 * i + 1 is past the end.
                assert(is_heap(self.items@)) by {
                    assert forall|j: int| 1 <= j < self.items@.len() implies head_before(
                        self.items@[parent(j)],
                        #[trigger] self.items@[j],
                    ) by {
                        assert(parent(j) != i);
                    }
                }
                break;
            }
            let mut c: usize = 2 * i + 1;
            if c + 1 < m && !comes_before(self.items[c], self.items[c + 1]) {
                c = c + 1;
            }
            if comes_before(self.items[i], self.items[c]) {
                assert(is_heap(self.items@)) by {
                    assert forall|j: int| 1 <= j < self.items@.len() implies head_before(
                        self.items@[parent(j)],
                        #[trigger] self.items@[j],
                    ) by {
                        if parent(j) == i {
                            assert(j == 2 * i + 1 || j == 2 * i + 2);
                        }
                    }
                }
                break;
            }
            let ghost s = self.items@;
            self.swap(i, c);
            proof {
                lemma_sift_down(s, self.items@, i as int, c as int);
            }
            i = c;
        }
        Some(head)
    }
}

/// Moving a head up one level moves the hole up with it.
proof fn lemma_sift_up(s: Seq<(u128, usize)>, t: Seq<(u128, usize)>, i: int)
    requires
        0 < i < s.len(),
        heap_but_for(s, i),
        skips(s, i),
        !head_before(s[parent(i)], s[i]),
        t == s.update(i, s[parent(i)]).update(parent(i), s[i]),
    ensures
        heap_but_for(t, parent(i)),
        skips(t, parent(i)),
{
    let p = parent(i);
    assert forall|j: int| 1 <= j < t.len() && j != p implies head_before(
        t[parent(j)],
        #[trigger] t[j],
    ) by {
        if j == i {
        } else if parent(j) == i {
            assert(head_before(s[p], s[j]));
        } else if parent(j) == p {
            assert(head_before(s[p], s[j]));
        } else {
            assert(head_before(s[parent(j)], s[j]));
        }
    }
    if p > 0 {
        assert forall|j: int| 1 <= j < t.len() && parent(j) == p implies head_before(
            t[parent(p)],
            #[trigger] t[j],
        ) by {
            assert(head_before(s[parent(p)], s[p]));
            if j != i {
                assert(head_before(s[p], s[j]));
            }
        }
    }
}

/// Moving a head down one level moves the hole down with it.
proof fn lemma_sift_down(s: Seq<(u128, usize)>, t: Seq<(u128, usize)>, i: int, c: int)
    requires
        0 <= i < s.len(),
        1 <= c < s.len(),
        parent(c) == i,
        heap_but_below(s, i),
        skips(s, i),
        !head_before(s[i], s[c]),
        forall|j: int| 1 <= j < s.len() && parent(j) == i ==> head_before(s[c], #[trigger] s[j]),
        t == s.update(i, s[c]).update(c, s[i]),
    ensures
        heap_but_below(t, c),
        skips(t, c),
{
    assert forall|j: int| 1 <= j < t.len() && parent(j) != c implies head_before(
        t[parent(j)],
        #[trigger] t[j],
    ) by {
        if parent(j) == i {
            assert(head_before(s[c], s[j]));
        } else if j == i {
            assert(head_before(s[parent(i)], s[c]));
        } else {
            assert(head_before(s[parent(j)], s[j]));
        }
    }
    assert forall|j: int| 1 <= j < t.len() && parent(j) == c implies head_before(
        t[parent(c)],
        #[trigger] t[j],
    ) by {
        assert(head_before(s[c], s[j]));
    }
}

// ---------------------------------------------------------------------------
// Merger
// ---------------------------------------------------------------------------
/// The decisions of a k-way merge.
pub struct Merger {
    /// The next arc of every run that is not exhausted, with the index of the
    /// run.
    heap: HeadHeap,
    /// The arc emitted last.
    last: Option<u128>,
    /// Whether an arc equal to the last one is dropped.
    dedup: bool,
}

impl Merger {
    /// The merge's invariant.
    pub closed spec fn valid(&self) -> bool {
        self.heap.valid()
    }

    /// The next arc of every run that is not exhausted, with the index of the
    /// run.
    pub closed spec fn heads(&self) -> Multiset<(u128, usize)> {
        self.heap.contents()
    }

    /// The arc emitted last.
    pub closed spec fn last(&self) -> Option<u128> {
        self.last
    }

    /// Whether duplicates are dropped.
    pub closed spec fn dedup(&self) -> bool {
        self.dedup
    }

    /// A merge that has not been given any run yet.
    pub fn new(dedup: bool) -> (r: Self)
        ensures
            r.valid(),
            r.heads() == Multiset::<(u128, usize)>::empty(),
            r.last() is None,
            r.dedup() == dedup,
    {
        let heap = HeadHeap { items: Vec::new() };
        proof {
            broadcast use vstd::multiset::group_multiset_axioms;

            heap.items@.to_multiset_ensures();
            assert(heap.contents() =~= Multiset::<(u128, usize)>::empty());
        }
        Merger { heap, last: None, dedup }
    }

    /// Tells the merge what comes next in run `run`, `None` for nothing.
    pub fn offer(&mut self, key: Option<u128>, run: usize)
        requires
            old(self).valid(),
        ensures
            final(self).valid(),
            final(self).heads() == match key {
                Some(k) => old(self).heads().insert((k, run)),
                None => old(self).heads(),
            },
            final(self).last() == old(self).last(),
            final(self).dedup() == old(self).dedup(),
    {
        if let Some(k) = key {
            self.heap.push((k, run));
        }
    }

    /// Takes out the smallest head, and says which run it came from: that run
    /// is to be advanced next. `None` when no run is left.
    pub fn pop(&mut self) -> (r: Option<(u128, usize)>)
        requires
            old(self).valid(),
        ensures
            final(self).valid(),
            final(self).last() == old(self).last(),
            final(self).dedup() == old(self).dedup(),
            match r {
                None => old(self).heads() == Multiset::<(u128, usize)>::empty()
                    && final(self).heads() == old(self).heads(),
                Some(head) => {
                    &&& old(self).heads().count(head) > 0
                    &&& final(self).heads() == old(self).heads().remove(head)
                    &&& forall|x: (u128, usize)| #[trigger]
                        old(self).heads().count(x) > 0 ==> head_before(head, x)
                },
            },
    {
        self.heap.pop()
    }

    /// Whether an arc that came out is to be emitted: always, unless
    /// duplicates are dropped and it equals the one emitted last.
    pub fn accept(&mut self, key: u128) -> (r: bool)
        requires
            old(self).valid(),
        ensures
            final(self).valid(),
            r == !(old(self).dedup() && old(self).last() == Some(key)),
            final(self).heads() == old(self).heads(),
            final(self).dedup() == old(self).dedup(),
            final(self).last() == Some(key),
    {
        if self.dedup {
            if let Some(last) = self.last {
                if last == key {
                    return false;
                }
            }
        }
        self.last = Some(key);
        true
    }
}


// ---------------------------------------------------------------------------
// Merge of runs in memory
// ---------------------------------------------------------------------------
/// The contents of some runs.
pub open spec fn run_views(runs: Seq<Vec<u128>>) -> Seq<Seq<u128>> {
    Seq::new(runs.len(), |r: int| runs[r]@)
}

/// How many values of the runs are not taken yet.
spec fn left(runs: Seq<Seq<u128>>, pos: Seq<int>) -> int
    decreases runs.len(),
{
    if runs.len() == 0 {
        0
    } else {
        left(runs.drop_last(), pos.drop_last()) + (runs.last().len() - pos.last())
    }
}

proof fn lemma_left_step(runs: Seq<Seq<u128>>, pos: Seq<int>, r: int)
    requires
        pos.len() == runs.len(),
        0 <= r < runs.len(),
    ensures
        left(runs, pos.update(r, pos[r] + 1)) == left(runs, pos) - 1,
    decreases runs.len(),
{
    let next = pos.update(r, pos[r] + 1);
    if r == runs.len() - 1 {
        assert(next.drop_last() =~= pos.drop_last());
    } else {
        lemma_left_step(runs.drop_last(), pos.drop_last(), r);
        assert(next.drop_last() =~= pos.drop_last().update(r, pos[r] + 1));
    }
}

proof fn lemma_left_bound(runs: Seq<Seq<u128>>, pos: Seq<int>)
    requires
        pos.len() == runs.len(),
        forall|r: int| 0 <= r < runs.len() ==> #[trigger] pos[r] <= runs[r].len(),
    ensures
        left(runs, pos) >= 0,
    decreases runs.len(),
{
    if runs.len() > 0 {
        let n = runs.len() - 1;
        assert(pos[n] <= runs[n].len());
        assert forall|r: int| 0 <= r < n implies #[trigger] pos.drop_last()[r]
            <= runs.drop_last()[r].len() by {
            assert(pos[r] <= runs[r].len());
        }
        lemma_left_bound(runs.drop_last(), pos.drop_last());
    }
}

/// A merge of runs in memory.
pub struct RunMerge<'a> {
    runs: &'a Vec<Vec<u128>>,
    /// How many values of each run have come out.
    pos: Vec<usize>,
    merger: Merger,
    /// What has been emitted.
    given: Ghost<Seq<u128>>,
}

impl<'a> RunMerge<'a> {
    /// The runs being merged.
    pub closed spec fn runs(&self) -> Seq<Seq<u128>> {
        run_views(self.runs@)
    }

    /// What has been emitted so far.
    pub closed spec fn given(&self) -> Seq<u128> {
        self.given@
    }

    /// Whether duplicates are dropped.
    pub closed spec fn dedup(&self) -> bool {
        self.merger.dedup()
    }

    /// How many values can still come out, at most.
    pub closed spec fn remaining(&self) -> nat {
        left(self.runs(), self.positions()) as nat
    }

    spec fn positions(&self) -> Seq<int> {
        Seq::new(self.pos@.len(), |r: int| self.pos@[r] as int)
    }

    /// The merge's invariant.
    pub closed spec fn valid(&self) -> bool {
        &&& self.merger.valid()
        &&& self.pos@.len() == self.runs@.len()
        &&& forall|r: int| 0 <= r < self.runs@.len() ==> ascending(#[trigger] self.runs@[r]@)
        &&& forall|r: int|
            0 <= r < self.runs@.len() ==> #[trigger] self.pos@[r] <= self.runs@[r]@.len()
        &&& heads_are(self.merger.heads(), self.runs(), self.positions(), self.runs@.len() as int)
        &&& lists(self.given@, taken(self.runs(), self.positions()), self.dedup())
        &&& self.merger.last() == if self.given@.len() == 0 {
            None::<u128>
        } else {
            Some(self.given@.last())
        }
        &&& self.given@.len() > 0 ==> forall|r: int, i: int|
            0 <= r < self.runs@.len() && self.pos@[r] <= i < self.runs@[r]@.len()
                ==> self.given@.last() <= #[trigger] self.runs@[r]@[i]
    }

    /// Starts a merge.
    pub fn new(runs: &'a Vec<Vec<u128>>, dedup: bool) -> (r: Self)
        requires
            forall|i: int| 0 <= i < runs@.len() ==> ascending(#[trigger] runs@[i]@),
        ensures
            r.valid(),
            r.runs() == run_views(runs@),
            r.given() == Seq::<u128>::empty(),
            r.dedup() == dedup,
    {
        let mut merger = Merger::new(dedup);
        let mut pos: Vec<usize> = Vec::new();
        let ghost views = run_views(runs@);
        let ghost zeros: Seq<int> = Seq::new(runs@.len(), |i: int| 0);
        let mut i: usize = 0;
        while i < runs.len()
            invariant
                i <= runs@.len(),
                views == run_views(runs@),
                zeros == Seq::new(runs@.len(), |i: int| 0int),
                merger.valid(),
                merger.last() is None,
                merger.dedup() == dedup,
                pos@.len() == i,
                forall|r: int| 0 <= r < i ==> #[trigger] pos@[r] == 0,
                heads_are(merger.heads(), views, zeros, i as int),
            decreases runs@.len() - i,
        {
            let first: Option<u128> = if runs[i].len() > 0 {
                Some(runs[i][0])
            } else {
                None
            };
            let ghost before = merger.heads();
            merger.offer(first, i);
            proof {
                broadcast use vstd::multiset::group_multiset_axioms;

                assert(views[i as int] == runs@[i as int]@);
                assert forall|k: u128, r: usize| #[trigger] merger.heads().count((k, r))
                    == head_count(views, zeros, i + 1, k, r) by {
                    assert(before.count((k, r)) == head_count(views, zeros, i as int, k, r));
                }
            }
            pos.push(0);
            i = i + 1;
        }
        let r = RunMerge { runs, pos, merger, given: Ghost(Seq::empty()) };
        proof {
            broadcast use vstd::multiset::group_multiset_axioms;

            assert(r.positions() =~= zeros);
            lemma_taken_none(views, zeros);
            let none = Seq::<u128>::empty();
            none.to_multiset_ensures();
            assert(none.to_multiset() =~= Multiset::<u128>::empty());
            assert(lists(none, taken(views, zeros), dedup));
        }
        r
    }

    /// The next value of the merge, or `None` when all have come out.
    pub fn next(&mut self) -> (r: Option<u128>)
        requires
            old(self).valid(),
        ensures
            final(self).valid(),
            final(self).runs() == old(self).runs(),
            final(self).dedup() == old(self).dedup(),
            match r {
                Some(k) => {
                    &&& final(self).given() == old(self).given().push(k)
                    &&& final(self).remaining() < old(self).remaining()
                },
                None => final(self).given() == old(self).given() && lists(
                    old(self).given(),
                    total(old(self).runs()),
                    old(self).dedup(),
                ),
            },
    {
        loop
            invariant
                self.valid(),
                self.runs == old(self).runs,
                self.dedup() == old(self).dedup(),
                self.given@ == old(self).given@,
                self.remaining() <= old(self).remaining(),
            decreases left(self.runs(), self.positions()),
        {
            let ghost before = *self;
            let ghost views = self.runs();
            let ghost pos = self.positions();
            assert(self.runs@.len() == self.runs.len());
            let (key, run): (u128, usize) = match self.merger.pop() {
                Some(head) => head,
                None => {
                    proof {
                        broadcast use vstd::multiset::group_multiset_axioms;

                        assert forall|r: int| 0 <= r < views.len() implies #[trigger] pos[r]
                            == views[r].len() by {
                            if pos[r] < views[r].len() {
                                let k = views[r][pos[r]];
                                assert(self.pos@[r] <= self.runs@[r]@.len());
                                assert(before.merger.heads().count((k, r as usize)) == head_count(
                                    views,
                                    pos,
                                    views.len() as int,
                                    k,
                                    r as usize,
                                ));
                            }
                            assert(self.pos@[r] <= self.runs@[r]@.len());
                        }
                        lemma_taken_all(views, pos);
                    }
                    return None;
                },
            };
            proof {
                assert(before.merger.heads().count((key, run)) == head_count(
                    views,
                    pos,
                    views.len() as int,
                    key,
                    run,
                ));
                assert(views[run as int] == self.runs@[run as int]@);
            }
            assert(self.pos@[run as int] < self.runs@[run as int].len());
            let at: usize = self.pos[run] + 1;
            self.pos[run] = at;
            let next: Option<u128> = if at < self.runs[run].len() {
                Some(self.runs[run][at])
            } else {
                None
            };
            let ghost popped = self.merger.heads();
            self.merger.offer(next, run);
            let emit: bool = self.merger.accept(key);
            proof {
                if emit {
                    self.given@ = self.given@.push(key);
                }
                before.lemma_advanced(*self, key, run, popped);
            }
            if emit {
                return Some(key);
            }
        }
    }

    /// Taking the smallest head out of the merge keeps its invariant.
    proof fn lemma_advanced(
        self,
        new: RunMerge<'a>,
        key: u128,
        run: usize,
        popped: Multiset<(u128, usize)>,
    )
        requires
            self.valid(),
            self.runs@.len() <= usize::MAX,
            run < self.runs@.len(),
            self.pos@[run as int] < self.runs@[run as int]@.len() <= usize::MAX,
            self.runs@[run as int]@[self.pos@[run as int] as int] == key,
            self.merger.heads().count((key, run)) > 0,
            forall|x: (u128, usize)| #[trigger]
                self.merger.heads().count(x) > 0 ==> head_before((key, run), x),
            popped == self.merger.heads().remove((key, run)),
            new.runs == self.runs,
            new.pos@ == self.pos@.update(run as int, (self.pos@[run as int] + 1) as usize),
            new.merger.valid(),
            new.merger.dedup() == self.merger.dedup(),
            new.merger.last() == Some(key),
            new.merger.heads() == if new.pos@[run as int] < self.runs@[run as int]@.len() {
                popped.insert(
                    (self.runs@[run as int]@[new.pos@[run as int] as int], run),
                )
            } else {
                popped
            },
            new.given@ == if self.merger.dedup() && self.merger.last() == Some(key) {
                self.given@
            } else {
                self.given@.push(key)
            },
        ensures
            new.valid(),
            left(new.runs(), new.positions()) < left(self.runs(), self.positions()),
            left(self.runs(), self.positions()) >= 0,
            left(new.runs(), new.positions()) >= 0,
    {
        broadcast use vstd::multiset::group_multiset_axioms;

        let views = self.runs();
        let pos = self.positions();
        let next = new.positions();
        let n = views.len() as int;
        assert(next =~= pos.update(run as int, pos[run as int] + 1));
        assert(views[run as int] == self.runs@[run as int]@);
        lemma_taken_step(views, pos, run as int);
        lemma_left_step(views, pos, run as int);
        assert forall|r: int| 0 <= r < n implies #[trigger] pos[r] <= views[r].len() by {
            assert(self.pos@[r] <= self.runs@[r]@.len());
        }
        lemma_left_bound(views, pos);
        assert forall|r: int| 0 <= r < n implies #[trigger] next[r] <= views[r].len() by {
            assert(pos[r] <= views[r].len());
        }
        lemma_left_bound(views, next);
        assert forall|r: int| 0 <= r < new.runs@.len() implies #[trigger] new.pos@[r]
            <= new.runs@[r]@.len() by {
            assert(self.pos@[r] <= self.runs@[r]@.len());
        }
        // The heads are the runs' next values.
        assert forall|k: u128, r: usize| #[trigger] new.merger.heads().count((k, r)) == head_count(
            views,
            next,
            n,
            k,
            r,
        ) by {
            assert(self.merger.heads().count((k, r)) == head_count(views, pos, n, k, r));
            if r != run && (r as int) < n {
                assert(next[r as int] == pos[r as int]);
            }
        }
        // Nothing that is left is below the key.
        assert forall|r: int, i: int|
            0 <= r < n && self.pos@[r] <= i < self.runs@[r]@.len() implies key
            <= #[trigger] self.runs@[r]@[i] by {
            let k = self.runs@[r]@[self.pos@[r] as int];
            assert(views[r] == self.runs@[r]@);
            assert(self.merger.heads().count((k, r as usize)) == head_count(
                views,
                pos,
                n,
                k,
                r as usize,
            ));
            assert(head_before((key, run), (k, r as usize)));
            assert(ascending(self.runs@[r]@));
        }
        assert forall|r: int, i: int|
            0 <= r < new.runs@.len() && new.pos@[r] <= i < new.runs@[r]@.len() implies key
            <= #[trigger] new.runs@[r]@[i] by {
            assert(self.pos@[r] <= i);
        }
        // What has been emitted is below the key.
        let given = self.given@;
        if given.len() > 0 {
            assert(given.last() <= self.runs@[run as int]@[self.pos@[run as int] as int]);
        }
        let after = new.given@;
        let m = taken(views, pos);
        assert(taken(views, next) == m.insert(key));
        if self.merger.dedup() {
            if self.merger.last() == Some(key) {
                assert(given.last() == key);
                assert(given[given.len() - 1] == key);
                assert(given.contains(key));
                assert forall|k: u128| #[trigger] after.contains(k) <==> m.insert(key).count(k)
                    > 0 by {
                    assert(given.contains(k) <==> m.count(k) > 0);
                }
            } else {
                assert(after.drop_last() =~= given);
                assert forall|i: int, j: int| 0 <= i < j < after.len() implies after[i]
                    < after[j] by {
                    if j == given.len() {
                        assert(given[i] <= given[given.len() - 1]);
                    }
                }
                assert forall|k: u128| #[trigger] after.contains(k) <==> m.insert(key).count(k)
                    > 0 by {
                    assert(given.contains(k) <==> m.count(k) > 0);
                    assert(after[given.len() as int] == key);
                    if given.contains(k) {
                        assert(after[given.index_of(k)] == k);
                    }
                    if after.contains(k) && k != key {
                        let i = after.index_of(k);
                        assert(given[i] == k);
                    }
                }
            }
        } else {
            given.to_multiset_ensures();
            assert(after.to_multiset() =~= m.insert(key));
            assert forall|i: int, j: int| 0 <= i <= j < after.len() implies after[i]
                <= after[j] by {
                if j == given.len() && i < j {
                    assert(given[i] <= given[given.len() - 1]);
                }
            }
        }
        assert(lists(after, taken(views, next), new.dedup()));
    }
}

/// How often `(k, r)` is a head, of the first `n` runs.
spec fn head_count(runs: Seq<Seq<u128>>, pos: Seq<int>, n: int, k: u128, r: usize) -> nat {
    if r < n && pos[r as int] < runs[r as int].len() && runs[r as int][pos[r as int]] == k {
        1
    } else {
        0
    }
}

/// The heads are the next values of the first `n` runs.
spec fn heads_are(
    heads: Multiset<(u128, usize)>,
    runs: Seq<Seq<u128>>,
    pos: Seq<int>,
    n: int,
) -> bool {
    forall|k: u128, r: usize| #[trigger] heads.count((k, r)) == head_count(runs, pos, n, k, r)
}


// ---------------------------------------------------------------------------
// Laws
// ---------------------------------------------------------------------------
/// There is only one listing: whichever way some arcs are sorted, in however
/// many runs, the outcome is the same.
pub proof fn listing_is_unique(a: Seq<u128>, b: Seq<u128>, m: Multiset<u128>, dedup: bool)
    requires
        lists(a, m, dedup),
        lists(b, m, dedup),
    ensures
        a == b,
    decreases a.len() + b.len(),
{
    broadcast use vstd::multiset::group_multiset_axioms;

    if dedup {
        lemma_same_strict(a, b);
    } else {
        lemma_same_sorted(a, b);
    }
}

proof fn lemma_same_strict(a: Seq<u128>, b: Seq<u128>)
    requires
        strictly_ascending(a),
        strictly_ascending(b),
        forall|k: u128| #[trigger] a.contains(k) <==> b.contains(k),
    ensures
        a == b,
    decreases a.len(),
{
    if a.len() == 0 {
        if b.len() > 0 {
            assert(b.contains(b[0]));
            assert(a.contains(b[0]));
        }
        assert(a =~= b);
    } else {
        assert(a.contains(a.last()));
        assert(b.contains(a.last()));
        let x = a.last();
        let y = b.last();
        assert(b.contains(y));
        assert(a.contains(y));
        let i = a.index_of(y);
        let j = b.index_of(x);
        assert(a[i] <= a[a.len() - 1]);
        assert(b[j] <= b[b.len() - 1]);
        assert(x == y);
        let p = a.drop_last();
        let q = b.drop_last();
        assert forall|k: u128| #[trigger] p.contains(k) <==> q.contains(k) by {
            if p.contains(k) {
                let t = p.index_of(k);
                assert(a[t] == k && a[t] < a[a.len() - 1]);
                assert(a.contains(k));
                let u = b.index_of(k);
                assert(b[u] == k);
                assert(q[u] == k);
            }
            if q.contains(k) {
                let t = q.index_of(k);
                assert(b[t] == k && b[t] < b[b.len() - 1]);
                assert(b.contains(k));
                assert(a.contains(k));
                let u = a.index_of(k);
                assert(a[u] == k);
                assert(p[u] == k);
            }
        }
        lemma_same_strict(p, q);
        assert(a =~= p.push(x));
        assert(b =~= q.push(y));
    }
}

proof fn lemma_same_sorted(a: Seq<u128>, b: Seq<u128>)
    requires
        ascending(a),
        ascending(b),
        a.to_multiset() == b.to_multiset(),
    ensures
        a == b,
    decreases a.len(),
{
    broadcast use vstd::multiset::group_multiset_axioms;

    a.to_multiset_ensures();
    b.to_multiset_ensures();
    assert(a.len() == b.len());
    if a.len() == 0 {
        assert(a =~= b);
    } else {
        let x = a.last();
        let y = b.last();
        assert(a.contains(x) && b.contains(y));
        vstd::seq_lib::to_multiset_contains(a, x);
        vstd::seq_lib::to_multiset_contains(b, x);
        vstd::seq_lib::to_multiset_contains(a, y);
        vstd::seq_lib::to_multiset_contains(b, y);
        let i = a.index_of(y);
        let j = b.index_of(x);
        assert(a[i] <= a[a.len() - 1]);
        assert(b[j] <= b[b.len() - 1]);
        assert(x == y);
        let p = a.drop_last();
        let q = b.drop_last();
        p.to_multiset_ensures();
        q.to_multiset_ensures();
        assert(a =~= p.push(x));
        assert(b =~= q.push(x));
        assert(p.to_multiset().insert(x) == q.to_multiset().insert(x));
        assert(p.to_multiset() =~= q.to_multiset()) by {
            assert forall|k: u128| p.to_multiset().count(k) == q.to_multiset().count(k) by {
                assert(p.to_multiset().insert(x).count(k) == q.to_multiset().insert(x).count(k));
            }
        }
        lemma_same_sorted(p, q);
    }
}

/// A listing is never longer than what it lists.
pub proof fn listing_is_no_longer(s: Seq<u128>, m: Multiset<u128>, dedup: bool)
    requires
        lists(s, m, dedup),
    ensures
        s.len() <= m.len(),
        !dedup ==> s.len() == m.len(),
    decreases s.len(),
{
    broadcast use vstd::multiset::group_multiset_axioms;

    s.to_multiset_ensures();
    if dedup && s.len() > 0 {
        let x = s.last();
        let p = s.drop_last();
        assert(s.contains(x));
        lemma_distinct_below(s, m);
    }
}

proof fn lemma_distinct_below(s: Seq<u128>, m: Multiset<u128>)
    requires
        strictly_ascending(s),
        forall|k: u128| #[trigger] s.contains(k) ==> m.count(k) > 0,
    ensures
        s.len() <= m.len(),
    decreases s.len(),
{
    broadcast use vstd::multiset::group_multiset_axioms;

    if s.len() > 0 {
        let x = s.last();
        let p = s.drop_last();
        assert(s.contains(x));
        let rest = m.remove(x);
        assert forall|k: u128| #[trigger] p.contains(k) implies rest.count(k) > 0 by {
            let i = p.index_of(k);
            assert(s[i] == k && s[i] < s[s.len() - 1]);
            assert(s.contains(k));
        }
        lemma_distinct_below(p, rest);
    }
}

/// The number of values in all runs is the size of what they hold together.
pub proof fn lemma_total_len(runs: Seq<Seq<u128>>)
    ensures
        total(runs).len() == total_len(runs),
    decreases runs.len(),
{
    broadcast use vstd::multiset::group_multiset_axioms;

    if runs.len() > 0 {
        lemma_total_len(runs.drop_last());
        runs.last().to_multiset_ensures();
    }
}


proof fn lemma_taken_len(runs: Seq<Seq<u128>>, pos: Seq<int>)
    requires
        pos.len() == runs.len(),
        forall|r: int| 0 <= r < runs.len() ==> 0 <= #[trigger] pos[r] <= runs[r].len(),
    ensures
        taken(runs, pos).len() <= total_len(runs),
    decreases runs.len(),
{
    broadcast use vstd::multiset::group_multiset_axioms;

    if runs.len() > 0 {
        let n = runs.len() - 1;
        assert(0 <= pos[n] <= runs[n].len());
        assert forall|r: int| 0 <= r < n implies 0 <= #[trigger] pos.drop_last()[r]
            <= runs.drop_last()[r].len() by {
            assert(0 <= pos[r] <= runs[r].len());
        }
        lemma_taken_len(runs.drop_last(), pos.drop_last());
        runs.last().take(pos.last()).to_multiset_ensures();
    }
}

impl<'a> RunMerge<'a> {
    /// A merge never emits more than there is in the runs.
    pub proof fn lemma_given_bounded(&self)
        requires
            self.valid(),
        ensures
            self.given().len() <= total_len(self.runs()),
    {
        let views = self.runs();
        let pos = self.positions();
        assert forall|r: int| 0 <= r < views.len() implies 0 <= #[trigger] pos[r]
            <= views[r].len() by {
            assert(self.pos@[r] <= self.runs@[r]@.len());
        }
        lemma_taken_len(views, pos);
        listing_is_no_longer(self.given@, taken(views, pos), self.dedup());
    }
}

/// Counts how many arcs a merge of runs yields.
pub fn count_merged(runs: &Vec<Vec<u128>>, dedup: bool) -> (r: u64)
    requires
        forall|i: int| 0 <= i < runs@.len() ==> ascending(#[trigger] runs@[i]@),
        total_len(run_views(runs@)) <= u64::MAX,
    ensures
        forall|s: Seq<u128>| #[trigger]
            lists(s, total(run_views(runs@)), dedup) ==> s.len() == r,
{
    let ghost views = run_views(runs@);
    let mut merge = RunMerge::new(runs, dedup);
    let mut n: u64 = 0;
    loop
        invariant
            merge.valid(),
            merge.runs() == views,
            merge.dedup() == dedup,
            n == merge.given().len(),
            total_len(views) <= u64::MAX,
        ensures
            lists(merge.given(), total(views), dedup),
            n == merge.given().len(),
        decreases total_len(views) - merge.given().len(),
    {
        match merge.next() {
            Some(_) => {
                proof {
                    merge.lemma_given_bounded();
                }
                n = n + 1;
            },
            None => {
                break;
            },
        }
    }
    proof {
        assert forall|s: Seq<u128>| #[trigger] lists(s, total(views), dedup) implies s.len()
            == n by {
            listing_is_unique(s, merge.given(), total(views), dedup);
        }
    }
    n
}


/// An ascending run without its repeats.
spec fn without_repeats(s: Seq<u128>) -> Seq<u128>
    decreases s.len(),
{
    if s.len() == 0 {
        s
    } else {
        let rest = without_repeats(s.drop_last());
        if s.len() > 1 && s[s.len() - 2] == s.last() {
            rest
        } else {
            rest.push(s.last())
        }
    }
}

proof fn lemma_without_repeats(s: Seq<u128>)
    requires
        ascending(s),
    ensures
        strictly_ascending(without_repeats(s)),
        forall|k: u128| #[trigger] without_repeats(s).contains(k) <==> s.contains(k),
        s.len() > 0 ==> without_repeats(s).len() > 0 && without_repeats(s).last() == s.last(),
    decreases s.len(),
{
    if s.len() > 0 {
        let init = s.drop_last();
        lemma_without_repeats(init);
        let rest = without_repeats(init);
        let out = without_repeats(s);
        if s.len() > 1 {
            assert(init.last() == s[s.len() - 2]);
            assert(init.last() <= s.last());
        }
        assert forall|k: u128| #[trigger] out.contains(k) <==> s.contains(k) by {
            assert(rest.contains(k) <==> init.contains(k));
            if s.contains(k) {
                let i = choose|i: int| 0 <= i < s.len() && s[i] == k;
                if i < init.len() {
                    assert(init[i] == k);
                    let j = choose|j: int| 0 <= j < rest.len() && rest[j] == k;
                    assert(out[j] == k);
                } else if out.len() > rest.len() {
                    assert(out[rest.len() as int] == k);
                } else {
                    assert(out.last() == k);
                }
            }
            if out.contains(k) {
                let j = choose|j: int| 0 <= j < out.len() && out[j] == k;
                if j < rest.len() {
                    assert(rest[j] == k);
                    let i = choose|i: int| 0 <= i < init.len() && init[i] == k;
                    assert(s[i] == k);
                } else {
                    assert(s[s.len() - 1] == k);
                }
            }
        }
    }
}

/// Whatever the values, there is a listing of them.
pub proof fn listing_exists(s: Seq<u128>, dedup: bool)
    ensures
        exists|t: Seq<u128>| #[trigger] lists(t, s.to_multiset(), dedup),
{
    let leq = |a: u128, b: u128| a <= b;
    s.lemma_sort_by_ensures(leq);
    let t = s.sort_by(leq);
    assert forall|i: int, j: int| 0 <= i <= j < t.len() implies t[i] <= t[j] by {
        if i < j {
            assert(leq(t[i], t[j]));
        }
    }
    assert(ascending(t));
    if dedup {
        lemma_without_repeats(t);
        let u = without_repeats(t);
        assert forall|k: u128| #[trigger] u.contains(k) <==> s.to_multiset().count(k) > 0 by {
            vstd::seq_lib::to_multiset_contains(t, k);
            assert(u.contains(k) <==> t.contains(k));
        }
        assert(lists(u, s.to_multiset(), dedup));
    } else {
        assert(lists(t, s.to_multiset(), dedup));
    }
}

/// What lists something is not empty, and what lists nothing is.
pub proof fn listing_of_nothing(t: Seq<u128>, s: Seq<u128>, dedup: bool)
    requires
        lists(t, s.to_multiset(), dedup),
    ensures
        t.len() == 0 <==> s.len() == 0,
{
    s.to_multiset_ensures();
    t.to_multiset_ensures();
    if s.len() > 0 {
        vstd::seq_lib::to_multiset_contains(s, s[0]);
        vstd::seq_lib::to_multiset_contains(t, s[0]);
        assert(s.contains(s[0]));
    }
    if t.len() > 0 {
        vstd::seq_lib::to_multiset_contains(s, t[0]);
        vstd::seq_lib::to_multiset_contains(t, t[0]);
        assert(t.contains(t[0]));
    }
}

} // verus!
