//! Node map: the dense [`NodeId`] assigned to every transaction output.
//!
//! The obvious implementation is a hash map from the `(txId, offset)` key to an
//! id, minting a fresh id the first time a key is seen:
//!
//! ```text
//! get_or_create(key):
//!     if key in nodes { return nodes[key] }
//!     id = next_id; next_id += 1; nodes[key] = id; return id
//! ```
//!
//! [`DenseNodeMap`] computes exactly that function without the map. It exploits
//! the near-density of `txId`, the zero-based line number of the transaction
//! list, to replace one hash entry per output with a single prefix sum over
//! transactions.
//!
//! A `txId` may legitimately repeat, and may go *backwards*: two pairs of
//! blocks hold the same coinbase transaction. A repeat keeps the ids of the
//! first occurrence, in both modes. Only a *forward* gap is an anomaly.
use crate::error::Error;
use crate::text;
use crate::text::{append_decimal, append_signed, push_decimal, push_signed};
use crate::{pack, unpack, Mode, NodeId, Result};
use std::collections::HashMap;
use vstd::prelude::*;
use vstd::string::*;

verus! {

broadcast use vstd::std_specs::hash::group_hash_axioms;

/// Largest forward `txId` jump [`DenseNodeMap`] will bridge in
/// [`Mode::Lenient`] before giving up.
///
/// The fill costs one [`NodeId`] per skipped id, so a single corrupt record
/// must not be allowed to ask for an unbounded one.
pub const MAX_TX_GAP: i64 = 1_048_576;

/// The number of output offsets an `i32` can name.
pub const MAX_OUTPUTS: u32 = 0x8000_0000;

// ---------------------------------------------------------------------------
// Model
// ---------------------------------------------------------------------------
/// What a node map knows.
pub ghost struct NodeMapView {
    /// The `(txId, offset)` keys that have an id, in the order of their ids.
    pub keys: Seq<(i32, i32)>,
    /// The declared output count of each transaction from `first_tx` on.
    pub counts: Seq<nat>,
    /// The transaction id of `counts[0]`.
    pub first_tx: int,
    /// The id of `keys[0]`.
    pub first_id: nat,
    /// What a forward gap in the transaction ids means.
    pub mode: Mode,
}

impl NodeMapView {
    /// The transaction id that would continue the run.
    pub open spec fn next_tx(self) -> int {
        self.first_tx + self.counts.len()
    }

    /// The id the next mint would use.
    pub open spec fn next_id(self) -> nat {
        self.first_id + self.keys.len()
    }

    /// What holds of every node map: no key has two ids, and every key belongs
    /// to a transaction that the run has already passed.
    pub open spec fn coherent(self) -> bool {
        &&& self.keys.no_duplicates()
        &&& forall|j: int| 0 <= j < self.keys.len() ==> (#[trigger] self.keys[j]).0 < self.next_tx()
        &&& self.counts.len() == 0 ==> self.keys.len() == 0
        &&& self.counts.len() > 0 ==> i32::MIN <= self.first_tx && self.next_tx() <= i32::MAX + 1
    }

    /// The declared output count of `tx`, if it was registered.
    pub open spec fn outputs_of(self, tx: i32) -> Option<nat> {
        if self.counts.len() > 0 && self.first_tx <= tx < self.next_tx() {
            Some(self.counts[tx - self.first_tx])
        } else {
            None
        }
    }

    /// Every declared output has an id.
    pub open spec fn complete(self) -> bool {
        forall|tx: i32, k: int|
            self.outputs_of(tx) is Some && 0 <= k < self.outputs_of(tx)->0
                ==> #[trigger] self.id_of((tx, k as i32)) is Some
    }

    /// The id of `key`, if it has one.
    pub open spec fn id_of(self, key: (i32, i32)) -> Option<NodeId> {
        if self.keys.contains(key) {
            Some((self.first_id + self.keys.index_of(key)) as usize)
        } else {
            None
        }
    }

    /// The map after `get_or_create(key)`.
    pub open spec fn minted(self, key: (i32, i32)) -> NodeMapView {
        if self.keys.contains(key) {
            self
        } else {
            NodeMapView { keys: self.keys.push(key), ..self }
        }
    }

    /// The map after `get_or_create` on the first `n` outputs of `tx`, in
    /// ascending order.
    pub open spec fn minted_all(self, tx: i32, n: nat) -> NodeMapView
        decreases n,
    {
        if n == 0 {
            self
        } else {
            self.minted_all(tx, (n - 1) as nat).minted((tx, (n - 1) as i32))
        }
    }

    /// The ids of the first `n` outputs of `tx`.
    pub open spec fn ids_of(self, tx: i32, n: nat) -> Seq<NodeId> {
        Seq::new(n, |k: int| self.id_of((tx, k as i32)).unwrap())
    }

    /// The output counts once `tx`, at or ahead of the cursor, has been
    /// registered with `n` outputs: skipped ids are transactions without
    /// outputs.
    pub open spec fn counts_with(self, tx: i32, n: nat) -> Seq<nat> {
        (self.counts + Seq::new((tx - self.next_tx()) as nat, |i: int| 0nat)).push(n)
    }

    /// The map after registering `n` outputs of `tx`, or why that is refused.
    pub open spec fn registered(self, tx: i32, n: nat, line: u64) -> std::result::Result<
        NodeMapView,
        crate::error::ErrorView,
    > {
        let minted = self.minted_all(tx, n);
        if self.counts.len() == 0 {
            Ok(NodeMapView { counts: seq![n], first_tx: tx as int, ..minted })
        } else if tx < self.next_tx() {
            Ok(minted)
        } else if tx > self.next_tx() && self.mode is Strict {
            Err(
                crate::error::ErrorView::NonDenseTxId {
                    line,
                    expected: self.next_tx() as i64,
                    found: tx as i64,
                },
            )
        } else if tx - self.next_tx() > MAX_TX_GAP {
            Err(
                crate::error::ErrorView::TxIdGapTooLarge {
                    line,
                    expected: self.next_tx() as i64,
                    found: tx as i64,
                },
            )
        } else {
            Ok(NodeMapView { counts: self.counts_with(tx, n), ..minted })
        }
    }

    /// Whether registering `tx` has to allocate for a gap.
    pub open spec fn bridges(self, tx: i32) -> bool {
        self.counts.len() > 0 && tx > self.next_tx()
    }

    /// How many transactions without outputs are filled in before `tx` is
    /// registered: those that are skipped, where the gap is to be bridged.
    pub open spec fn filled_before(self, tx: i32) -> nat {
        if self.bridges(tx) && self.mode is Lenient && tx - self.next_tx() <= MAX_TX_GAP {
            (tx - self.next_tx()) as nat
        } else {
            0
        }
    }

    /// The map after registering a transaction, or why it is refused, where it
    /// is known whether there is memory for the gap before it.
    pub open spec fn registered_given(
        self,
        tx: i32,
        n: nat,
        line: u64,
        had: bool,
    ) -> std::result::Result<NodeMapView, crate::error::ErrorView> {
        if self.filled_before(tx) > 0 && !had {
            Err(crate::error::ErrorView::Other(bridge_failure(line, self.next_tx(), tx as int)))
        } else {
            self.registered(tx, n, line)
        }
    }

    /// The map after forcing a node for `key`, or why that is refused.
    pub open spec fn forced(self, key: (i32, i32), line: u64) -> std::result::Result<
        NodeMapView,
        crate::error::ErrorView,
    > {
        if self.counts.len() == 0 || key.0 >= self.next_tx() {
            Err(
                crate::error::ErrorView::ForwardForcedNode {
                    line,
                    tx_id: key.0,
                    offset: key.1,
                    reached: (self.next_tx() - 1) as i64,
                },
            )
        } else {
            Ok(self.minted(key))
        }
    }
}

/// Without duplicates, a key is found where it stands.
pub proof fn lemma_index_of(keys: Seq<(i32, i32)>, j: int)
    requires
        keys.no_duplicates(),
        0 <= j < keys.len(),
    ensures
        keys.contains(keys[j]),
        keys.index_of(keys[j]) == j,
{
    let k = keys[j];
    assert(keys.contains(k));
    let i = keys.index_of(k);
    assert(0 <= i < keys.len() && keys[i] == k);
}

/// Minting appends: what had an id keeps it.
pub proof fn lemma_minted(v: NodeMapView, key: (i32, i32))
    requires
        v.keys.no_duplicates(),
    ensures
        v.minted(key).keys.no_duplicates(),
        v.keys.is_prefix_of(v.minted(key).keys),
        v.minted(key).keys.contains(key),
        v.minted(key).keys.len() <= v.keys.len() + 1,
        forall|k: (i32, i32)| #[trigger]
            v.keys.contains(k) ==> v.minted(key).id_of(k) == v.id_of(k),
        forall|k: (i32, i32)|
            k != key ==> (#[trigger] v.minted(key).keys.contains(k) == v.keys.contains(k)),
{
    let w = v.minted(key);
    if v.keys.contains(key) {
    } else {
        assert(w.keys.drop_last() =~= v.keys);
        assert(w.keys.take(v.keys.len() as int) =~= v.keys);
        assert(w.keys[v.keys.len() as int] == key);
        assert forall|i: int, j: int|
            0 <= i < w.keys.len() && 0 <= j < w.keys.len() && i != j implies w.keys[i]
            != w.keys[j] by {
            if i == v.keys.len() {
                assert(v.keys[j] == w.keys[j]);
            } else if j == v.keys.len() {
                assert(v.keys[i] == w.keys[i]);
            } else {
                assert(v.keys[j] == w.keys[j]);
                assert(v.keys[i] == w.keys[i]);
            }
        }
        assert forall|k: (i32, i32)| #[trigger] v.keys.contains(k) implies w.id_of(k) == v.id_of(
            k,
        ) by {
            let i = v.keys.index_of(k);
            assert(w.keys[i] == k);
            lemma_index_of(w.keys, i);
        }
        assert forall|k: (i32, i32)| k != key implies (#[trigger] w.keys.contains(k)
            == v.keys.contains(k)) by {
            if v.keys.contains(k) {
                assert(w.keys[v.keys.index_of(k)] == k);
            }
            if w.keys.contains(k) {
                let i = w.keys.index_of(k);
                assert(v.keys[i] == k);
            }
        }
    }
}

/// Minting a transaction's outputs appends: what had an id keeps it, the
/// outputs have ids afterwards, and nothing else is touched.
pub proof fn lemma_minted_all(v: NodeMapView, tx: i32, n: nat)
    requires
        v.keys.no_duplicates(),
    ensures
        v.minted_all(tx, n).keys.no_duplicates(),
        v.keys.is_prefix_of(v.minted_all(tx, n).keys),
        v.minted_all(tx, n).keys.len() <= v.keys.len() + n,
        v.minted_all(tx, n) == (NodeMapView { keys: v.minted_all(tx, n).keys, ..v }),
        forall|k: int|
            0 <= k < n ==> #[trigger] v.minted_all(tx, n).keys.contains((tx, k as i32)),
        forall|k: (i32, i32)| #[trigger]
            v.keys.contains(k) ==> v.minted_all(tx, n).id_of(k) == v.id_of(k),
        forall|k: (i32, i32)| #[trigger]
            v.minted_all(tx, n).keys.contains(k) ==> v.keys.contains(k) || k.0 == tx,
    decreases n,
{
    if n > 0 {
        let m = (n - 1) as nat;
        lemma_minted_all(v, tx, m);
        let u = v.minted_all(tx, m);
        let key = (tx, m as i32);
        lemma_minted(u, key);
        let w = u.minted(key);
        assert(v.keys.is_prefix_of(w.keys)) by {
            assert(w.keys.take(v.keys.len() as int) =~= u.keys.take(v.keys.len() as int));
        }
        assert forall|k: int| 0 <= k < n implies #[trigger] w.keys.contains((tx, k as i32)) by {
            if k < m {
                assert(u.keys.contains((tx, k as i32)));
                let i = u.keys.index_of((tx, k as i32));
                assert(w.keys[i] == u.keys[i]);
            }
        }
        assert forall|k: (i32, i32)| #[trigger] v.keys.contains(k) implies w.id_of(k) == v.id_of(
            k,
        ) by {
            assert(u.keys.contains(k)) by {
                let i = v.keys.index_of(k);
                assert(u.keys[i] == v.keys[i]);
            }
        }
        assert forall|k: (i32, i32)| #[trigger] w.keys.contains(k) implies v.keys.contains(k)
            || k.0 == tx by {
            if k != key {
                assert(u.keys.contains(k));
            }
        }
    } else {
        assert(v.keys.take(v.keys.len() as int) =~= v.keys);
    }
}

/// A transaction without any key gets a contiguous run of ids.
pub proof fn lemma_minted_fresh(v: NodeMapView, tx: i32, n: nat)
    requires
        v.keys.no_duplicates(),
        n <= MAX_OUTPUTS,
        forall|j: int| 0 <= j < v.keys.len() ==> (#[trigger] v.keys[j]).0 != tx,
    ensures
        v.minted_all(tx, n).keys == v.keys + Seq::new(n, |k: int| (tx, k as i32)),
    decreases n,
{
    let w = v.minted_all(tx, n);
    if n > 0 {
        let m = (n - 1) as nat;
        lemma_minted_fresh(v, tx, m);
        let u = v.minted_all(tx, m);
        assert(!u.keys.contains((tx, m as i32))) by {
            if u.keys.contains((tx, m as i32)) {
                let i = u.keys.index_of((tx, m as i32));
                if i < v.keys.len() {
                    assert(v.keys[i].0 != tx);
                } else {
                    assert(u.keys[i] == (tx, (i - v.keys.len()) as i32));
                }
            }
        }
        assert(w.keys =~= v.keys + Seq::new(n, |k: int| (tx, k as i32)));
    } else {
        assert(w.keys =~= v.keys + Seq::new(n, |k: int| (tx, k as i32)));
    }
}

// ---------------------------------------------------------------------------
// DenseNodeMap
// ---------------------------------------------------------------------------
/// How many elements of `s` are `key`.
spec fn dups(s: Seq<usize>, key: int) -> nat
    decreases s.len(),
{
    if s.len() == 0 {
        0
    } else {
        dups(s.drop_last(), key) + if s.last() == key {
            1nat
        } else {
            0nat
        }
    }
}

proof fn lemma_dups_range(s: Seq<usize>, key: int, lo: int, hi: int)
    requires
        0 <= lo <= hi <= s.len(),
        forall|j: int| 0 <= j < lo ==> s[j] < key,
        forall|j: int| lo <= j < hi ==> s[j] == key,
        forall|j: int| hi <= j < s.len() ==> s[j] > key,
    ensures
        dups(s, key) == hi - lo,
    decreases s.len(),
{
    if s.len() > 0 {
        let t = s.drop_last();
        if hi == s.len() && lo == s.len() {
            lemma_dups_range(t, key, lo - 1, hi - 1);
        } else if hi == s.len() {
            lemma_dups_range(t, key, lo, hi - 1);
        } else {
            lemma_dups_range(t, key, lo, hi);
        }
    }
}

/// The declared output count of the transaction at `i`: the width of its id
/// interval, less the nodes that were forced into it.
spec fn count_at(base: Seq<usize>, phantom_at: Seq<usize>, i: int) -> int {
    base[i + 1] - base[i] - dups(phantom_at, i + 1)
}

/// Node map backed by a single `Vec<NodeId>` indexed by transaction id.
///
/// The id of output `offset` of transaction `t` is
/// `base[t - min_tx] + offset`, with `base` the prefix sum of the
/// per-transaction output counts. That the ids are consecutive is checked at
/// every registration, never assumed.
pub struct DenseNodeMap {
    /// `base[i]` is the id of output 0 of transaction `min_tx + i`, and the
    /// final element is always equal to `next_id`.
    base: Vec<NodeId>,
    /// One past the highest id handed out so far.
    pub next_id: NodeId,
    /// The transaction id of `base[0]`.
    min_tx: i64,
    /// Strict/lenient behaviour for a non-dense transaction id.
    mode: Mode,
    /// Nodes minted by [`DenseNodeMap::force_create`], or by a repeat that
    /// declared more outputs than the first occurrence did, keyed by [`pack`].
    pub extra: HashMap<u64, NodeId>,
    /// For each such node, the number of transactions registered at the time
    /// it was minted. Appended in order and therefore already sorted.
    pub phantom_at: Vec<usize>,
    /// The keys in the order of their ids.
    keys: Ghost<Seq<(i32, i32)>>,
    /// Whether the last registration was refused for want of memory.
    starved: Ghost<bool>,
}

impl View for DenseNodeMap {
    type V = NodeMapView;

    closed spec fn view(&self) -> NodeMapView {
        NodeMapView {
            keys: self.keys@,
            counts: Seq::new(
                self.txs(),
                |i: int| count_at(self.base@, self.phantom_at@, i) as nat,
            ),
            first_tx: self.min_tx as int,
            first_id: self.first_id(),
            mode: self.mode,
        }
    }
}

impl DenseNodeMap {
    spec fn txs(&self) -> nat {
        if self.base@.len() == 0 {
            0
        } else {
            (self.base@.len() - 1) as nat
        }
    }

    spec fn first_id(&self) -> nat {
        if self.base@.len() == 0 {
            self.next_id as nat
        } else {
            self.base@[0] as nat
        }
    }

    /// Whether the last registration was refused because there was no memory
    /// for the gap before it.
    pub closed spec fn starved(&self) -> bool {
        self.starved@
    }

    /// Position `j` of the keys is an output of some transaction's own run.
    spec fn dense_at(&self, j: int) -> bool {
        exists|i: int|
            0 <= i < self.txs() && self.base@[i] <= self.first_id() + j && self.first_id() + j
                < self.base@[i] + #[trigger] count_at(self.base@, self.phantom_at@, i)
    }

    /// Position `j` of the keys is in the side table.
    spec fn extra_at(&self, j: int) -> bool {
        let k = crate::packed(self.keys@[j].0, self.keys@[j].1);
        self.extra@.contains_key(k) && self.extra@[k] == self.first_id() + j
    }

    /// The map's invariant.
    pub closed spec fn valid(&self) -> bool {
        &&& self.shape_valid()
        &&& self.keys_valid()
    }

    spec fn shape_valid(&self) -> bool {
        &&& self.base@.len() != 1
        &&& self.base@.len() == 0 ==> self.extra@.is_empty() && self.phantom_at@.len() == 0
        &&& self.base@.len() > 0 ==> {
            &&& self.base@.last() == self.next_id
            &&& i32::MIN <= self.min_tx
            &&& self.min_tx + self.txs() <= i32::MAX + 1
        }
        &&& self.base@.len() == 0 ==> i32::MIN <= self.min_tx <= i32::MAX
        &&& forall|i: int|
            0 <= i < self.txs() ==> 0 <= #[trigger] count_at(self.base@, self.phantom_at@, i)
                <= MAX_OUTPUTS
        &&& forall|i: int, j: int|
            0 <= i <= j < self.base@.len() ==> self.base@[i] <= self.base@[j]
        &&& forall|j: int|
            0 <= j < self.phantom_at@.len() ==> 1 <= #[trigger] self.phantom_at@[j] <= self.txs()
        &&& forall|i: int, j: int|
            0 <= i <= j < self.phantom_at@.len() ==> self.phantom_at@[i] <= self.phantom_at@[j]
    }

    spec fn keys_valid(&self) -> bool {
        &&& self.keys@.len() == self.next_id - self.first_id()
        &&& self.keys@.no_duplicates()
        &&& forall|j: int|
            0 <= j < self.keys@.len() ==> (#[trigger] self.keys@[j]).0 < self.min_tx + self.txs()
        &&& forall|i: int, o: int|
            0 <= i < self.txs() && 0 <= o < count_at(self.base@, self.phantom_at@, i)
                ==> #[trigger] self.keys@[self.base@[i] - self.first_id() + o] == (
                (self.min_tx + i) as i32,
                o as i32,
            )
        &&& forall|k: u64| #[trigger]
            self.extra@.contains_key(k) ==> {
                &&& self.first_id() <= self.extra@[k] < self.next_id
                &&& crate::packed(
                    self.keys@[self.extra@[k] - self.first_id()].0,
                    self.keys@[self.extra@[k] - self.first_id()].1,
                ) == k
                &&& !self.dense_at(self.extra@[k] - self.first_id())
            }
        &&& forall|j: int|
            0 <= j < self.keys@.len() ==> #[trigger] self.dense_at(j) || self.extra_at(j)
    }

    /// Every valid map is coherent, and its ids are node ids.
    pub proof fn lemma_coherent(&self)
        requires
            self.valid(),
        ensures
            self@.coherent(),
            self@.next_id() <= usize::MAX,
    {
    }

    /// Creates an empty dense map.
    pub fn new(mode: Mode) -> (r: Self)
        ensures
            r.valid(),
            !r.starved(),
            r@ == (NodeMapView {
                keys: Seq::empty(),
                counts: Seq::empty(),
                first_tx: 0,
                first_id: 0,
                mode,
            }),
    {
        let r = DenseNodeMap {
            base: Vec::new(),
            next_id: 0,
            min_tx: 0,
            mode,
            extra: HashMap::new(),
            phantom_at: Vec::new(),
            keys: Ghost(Seq::empty()),
            starved: Ghost(false),
        };
        assert(r@.counts =~= Seq::empty());
        r
    }

    /// Creates an empty dense map pre-sized for `txs` transactions.
    pub fn with_capacity(mode: Mode, txs: usize) -> (r: Self)
        ensures
            r.valid(),
            !r.starved(),
            r@ == (NodeMapView {
                keys: Seq::empty(),
                counts: Seq::empty(),
                first_tx: 0,
                first_id: 0,
                mode,
            }),
    {
        let mut m = Self::new(mode);
        m.base.reserve(txs.saturating_add(1));
        assert(m@.counts =~= Seq::empty());
        m
    }

    /// Creates an empty dense map, pre-sized when the caller knows how many
    /// transactions to expect.
    pub fn sized(mode: Mode, txs: Option<usize>) -> (r: Self)
        ensures
            r.valid(),
            !r.starved(),
            r@ == (NodeMapView {
                keys: Seq::empty(),
                counts: Seq::empty(),
                first_tx: 0,
                first_id: 0,
                mode,
            }),
    {
        match txs {
            Some(n) => Self::with_capacity(mode, n),
            None => Self::new(mode),
        }
    }

    /// Number of outputs registered for `tx_id`, or `None` if that transaction
    /// was never registered.
    pub fn num_outputs(&self, tx_id: i32) -> (r: Option<u32>)
        requires
            self.valid(),
        ensures
            r == match self@.outputs_of(tx_id) {
                Some(n) => Some(n as u32),
                None => None,
            },
            self@.outputs_of(tx_id) is Some ==> self@.outputs_of(tx_id)->0 <= MAX_OUTPUTS,
    {
        match self.index_of(tx_id) {
            Some(i) => Some(self.outputs_at(i) as u32),
            None => None,
        }
    }

    /// The transaction id that would continue the run, or `None` as long as
    /// nothing was registered.
    pub fn next_tx(&self) -> (r: Option<i64>)
        requires
            self.valid(),
        ensures
            r == if self@.counts.len() == 0 {
                None
            } else {
                Some(self@.next_tx() as i64)
            },
            r matches Some(tx) ==> tx == self@.next_tx(),
    {
        if self.base.len() == 0 {
            return None;
        }
        Some(self.min_tx + (self.base.len() as i64 - 1))
    }

    /// Index into `base` for `tx_id`, if it names a registered transaction.
    fn index_of(&self, tx_id: i32) -> (r: Option<usize>)
        requires
            self.shape_valid(),
        ensures
            r == if self.min_tx <= tx_id < self.min_tx + self.txs() {
                Some((tx_id - self.min_tx) as usize)
            } else {
                None
            },
    {
        if self.base.len() == 0 {
            return None;
        }
        let ntx: usize = self.base.len() - 1;
        let i: i64 = tx_id as i64 - self.min_tx;
        if i < 0 || i as u64 >= ntx as u64 {
            return None;
        }
        Some(i as usize)
    }

    /// Output count of the transaction at `base` index `i`, discounting any
    /// forced nodes that were minted inside its id interval.
    fn outputs_at(&self, i: usize) -> (r: usize)
        requires
            self.shape_valid(),
            i < self.txs(),
        ensures
            r == count_at(self.base@, self.phantom_at@, i as int),
    {
        assert(0 <= count_at(self.base@, self.phantom_at@, i as int));
        assert(i + 1 < self.base.len());
        let raw: usize = self.base[i + 1] - self.base[i];
        if self.phantom_at.len() == 0 {
            return raw;
        }
        raw - self.phantoms_in(i)
    }

    /// How many forced nodes fall inside transaction `i`'s id interval.
    fn phantoms_in(&self, i: usize) -> (r: usize)
        requires
            self.shape_valid(),
            i < self.txs(),
        ensures
            r == dups(self.phantom_at@, i + 1),
    {
        assert(i + 1 < self.base.len());
        let key: usize = i + 1;
        let lo: usize = first_not_below(&self.phantom_at, key);
        let hi: usize = first_not_below(&self.phantom_at, key + 1);
        proof {
            let s = self.phantom_at@;
            if hi < lo {
                assert(s[hi as int] < key);
                assert(s[hi as int] >= key + 1);
            }
            lemma_dups_range(s, key as int, lo as int, hi as int);
        }
        hi - lo
    }
}

/// The first position of an ascending `v` whose element is not below `key`.
fn first_not_below(v: &Vec<usize>, key: usize) -> (r: usize)
    requires
        forall|i: int, j: int| 0 <= i <= j < v@.len() ==> v@[i] <= v@[j],
    ensures
        r <= v@.len(),
        forall|j: int| 0 <= j < r ==> v@[j] < key,
        forall|j: int| r <= j < v@.len() ==> v@[j] >= key,
{
    let mut lo: usize = 0;
    let mut hi: usize = v.len();
    while lo < hi
        invariant
            lo <= hi <= v@.len(),
            forall|i: int, j: int| 0 <= i <= j < v@.len() ==> v@[i] <= v@[j],
            forall|j: int| 0 <= j < lo ==> v@[j] < key,
            forall|j: int| hi <= j < v@.len() ==> v@[j] >= key,
        decreases hi - lo,
    {
        let mid: usize = lo + (hi - lo) / 2;
        if v[mid] < key {
            lo = mid + 1;
        } else {
            hi = mid;
        }
    }
    lo
}


impl DenseNodeMap {
    /// Output `o` of the transaction at `i` stands where the prefix sum says.
    proof fn lemma_dense_position(&self, i: int, o: int)
        requires
            self.valid(),
            0 <= i < self.txs(),
            0 <= o < count_at(self.base@, self.phantom_at@, i),
        ensures
            0 <= self.base@[i] - self.first_id() + o < self.keys@.len(),
            self.base@[i] + o < self.next_id,
            self@.id_of(((self.min_tx + i) as i32, o as i32)) == Some(
                (self.base@[i] + o) as usize,
            ),
    {
        let j = self.base@[i] - self.first_id() + o;
        assert(self.base@[0] <= self.base@[i]);
        assert(self.base@[i + 1] <= self.base@[self.base@.len() - 1]);
        assert(self.keys@[j] == ((self.min_tx + i) as i32, o as i32));
        lemma_index_of(self.keys@, j);
    }

    /// What is neither in a transaction's own run nor in the side table has no
    /// id.
    proof fn lemma_absent(&self, tx_id: i32, offset: i32)
        requires
            self.valid(),
            !self.extra@.contains_key(crate::packed(tx_id, offset)),
            forall|i: int|
                0 <= i < self.txs() && tx_id == self.min_tx + i && offset >= 0 ==> offset
                    >= #[trigger] count_at(self.base@, self.phantom_at@, i),
        ensures
            !self.keys@.contains((tx_id, offset)),
    {
        let key = (tx_id, offset);
        if self.keys@.contains(key) {
            let j = self.keys@.index_of(key);
            assert(self.keys@[j] == key);
            assert(self.dense_at(j) || self.extra_at(j));
            if self.dense_at(j) {
                let i = choose|i: int|
                    0 <= i < self.txs() && self.base@[i] <= self.first_id() + j && self.first_id()
                        + j < self.base@[i] + #[trigger] count_at(self.base@, self.phantom_at@, i);
                let o = self.first_id() + j - self.base@[i];
                assert(self.keys@[self.base@[i] - self.first_id() + o] == (
                    (self.min_tx + i) as i32,
                    o as i32,
                ));
            }
        }
    }

    /// Resolves a previously registered output. **Never inserts.**
    ///
    /// A `tx_id` that appeared twice resolves to the ids of its *first*
    /// occurrence.
    pub fn lookup(&self, tx_id: i32, offset: i32) -> (r: Option<NodeId>)
        requires
            self.valid(),
        ensures
            r == self@.id_of((tx_id, offset)),
    {
        if offset >= 0 {
            if let Some(i) = self.index_of(tx_id) {
                let n: usize = self.outputs_at(i);
                if (offset as usize) < n {
                    proof {
                        self.lemma_dense_position(i as int, offset as int);
                    }
                    return Some(self.base[i] + offset as usize);
                }
            }
        }
        if self.extra.is_empty() {
            proof {
                self.lemma_absent(tx_id, offset);
            }
            return None;
        }
        match self.extra.get(&pack(tx_id, offset)) {
            Some(id) => {
                proof {
                    let j = *id - self.first_id();
                    crate::pack_is_injective(
                        (self.keys@[j].0, self.keys@[j].1),
                        (tx_id, offset),
                    );
                    lemma_index_of(self.keys@, j);
                }
                Some(*id)
            },
            None => {
                proof {
                    self.lemma_absent(tx_id, offset);
                }
                None
            },
        }
    }

    /// Mints a node for an unregistered `(txId, offset)` that lies behind the
    /// dense cursor. Repeated calls with the same key return the same id.
    ///
    /// A forced node lives in the side table, which the minting of dense ids
    /// never consults. So a key may only be forced once the cursor can never
    /// reach it: a transaction at or ahead of the cursor is
    /// [`Error::ForwardForcedNode`].
    pub fn force_create(&mut self, tx_id: i32, offset: i32, line: u64) -> (r: Result<NodeId>)
        requires
            old(self).valid(),
            old(self)@.next_id() < usize::MAX,
        ensures
            final(self).valid(),
            final(self).starved() == old(self).starved(),
            match old(self)@.forced((tx_id, offset), line) {
                Ok(v) => final(self)@ == v && (r matches Ok(id) && v.id_of((tx_id, offset))
                    == Some(id)),
                Err(e) => *final(self) == *old(self) && (r matches Err(err) && err@ == e),
            },
    {
        let ghost before = *self;
        let ntx: usize = if self.base.len() == 0 {
            0
        } else {
            self.base.len() - 1
        };
        let reached: i64 = self.min_tx + ntx as i64 - 1;
        if self.base.len() == 0 || tx_id as i64 > reached {
            return Err(Error::ForwardForcedNode { line, tx_id, offset, reached });
        }
        if let Some(id) = self.lookup(tx_id, offset) {
            return Ok(id);
        }
        let id: NodeId = self.next_id;
        let ghost key = (tx_id, offset);
        self.next_id = self.next_id + 1;
        self.extra.insert(pack(tx_id, offset), id);
        self.phantom_at.push(ntx);
        let last: usize = self.base.len() - 1;
        self.base[last] = self.next_id;
        self.keys = Ghost(self.keys@.push(key));
        proof {
            before.lemma_forced(*self, key);
            lemma_minted(before@, key);
            lemma_index_of(self.keys@, before.keys@.len() as int);
        }
        Ok(id)
    }

    /// Adding one key to the side table, behind the last transaction's run,
    /// keeps the invariant and changes no output count.
    proof fn lemma_forced(self, new: DenseNodeMap, key: (i32, i32))
        requires
            self.valid(),
            self.base@.len() > 0,
            !self.keys@.contains(key),
            key.0 < self.min_tx + self.txs(),
            self.next_id < usize::MAX,
            self.txs() <= usize::MAX,
            new.next_id == self.next_id + 1,
            new.min_tx == self.min_tx,
            new.mode == self.mode,
            new.extra@ == self.extra@.insert(crate::packed(key.0, key.1), self.next_id),
            new.phantom_at@ == self.phantom_at@.push(self.txs() as usize),
            new.base@ == self.base@.update(self.base@.len() - 1, new.next_id),
            new.keys@ == self.keys@.push(key),
        ensures
            new.valid(),
            new@ == self@.minted(key),
    {
        let n = self.txs() as int;
        let pa = self.phantom_at@;
        let first = self.first_id();
        assert(new.first_id() == first);
        assert(new.phantom_at@.drop_last() =~= pa);
        assert forall|i: int| 0 <= i < n implies #[trigger] count_at(
            new.base@,
            new.phantom_at@,
            i,
        ) == count_at(self.base@, pa, i) by {}
        assert forall|i: int, j: int| 0 <= i <= j < new.base@.len() implies new.base@[i]
            <= new.base@[j] by {
            assert(self.base@[i] <= self.base@[j]);
        }
        assert(new.shape_valid());
        lemma_minted(self@, key);
        assert(self@.minted(key).keys == new.keys@);
        let p = crate::packed(key.0, key.1);
        assert(!self.extra@.contains_key(p)) by {
            if self.extra@.contains_key(p) {
                let j = self.extra@[p] - first;
                crate::pack_is_injective((self.keys@[j].0, self.keys@[j].1), key);
                assert(self.keys@[j] == key);
            }
        }
        assert forall|i: int, o: int|
            0 <= i < new.txs() && 0 <= o < count_at(
                new.base@,
                new.phantom_at@,
                i,
            ) implies #[trigger] new.keys@[new.base@[i] - new.first_id() + o] == (
            (new.min_tx + i) as i32,
            o as i32,
        ) by {
            self.lemma_dense_position(i, o);
            assert(self.keys@[self.base@[i] - first + o] == ((self.min_tx + i) as i32, o as i32));
        }
        assert forall|k: u64| #[trigger] new.extra@.contains_key(k) implies {
            &&& new.first_id() <= new.extra@[k] < new.next_id
            &&& crate::packed(
                new.keys@[new.extra@[k] - new.first_id()].0,
                new.keys@[new.extra@[k] - new.first_id()].1,
            ) == k
            &&& !new.dense_at(new.extra@[k] - new.first_id())
        } by {
            let j = new.extra@[k] - first;
            if k != p {
                assert(self.extra@.contains_key(k));
            }
            if new.dense_at(j) {
                let i = choose|i: int|
                    0 <= i < new.txs() && new.base@[i] <= new.first_id() + j && new.first_id() + j
                        < new.base@[i] + #[trigger] count_at(new.base@, new.phantom_at@, i);
                assert(count_at(new.base@, new.phantom_at@, i) == count_at(self.base@, pa, i));
                assert(self.base@[i + 1] <= self.base@[self.base@.len() - 1]);
                assert(self.dense_at(j));
            }
        }
        assert forall|j: int| 0 <= j < new.keys@.len() implies #[trigger] new.dense_at(j)
            || new.extra_at(j) by {
            if j < self.keys@.len() {
                assert(new.keys@[j] == self.keys@[j]);
                assert(self.dense_at(j) || self.extra_at(j));
                if self.dense_at(j) {
                    let i = choose|i: int|
                        0 <= i < self.txs() && self.base@[i] <= self.first_id() + j
                            && self.first_id() + j < self.base@[i] + #[trigger] count_at(
                            self.base@,
                            self.phantom_at@,
                            i,
                        );
                    assert(count_at(new.base@, new.phantom_at@, i) == count_at(self.base@, pa, i));
                    assert(new.dense_at(j));
                } else {
                    let k = crate::packed(self.keys@[j].0, self.keys@[j].1);
                    assert(k != p);
                    assert(new.extra_at(j));
                }
            } else {
                assert(new.extra_at(j));
            }
        }
        assert(new.keys_valid());
        assert(new@.counts =~= self@.counts) by {
            assert forall|i: int| 0 <= i < n implies #[trigger] new@.counts[i] == self@.counts[i] by {
                assert(count_at(new.base@, new.phantom_at@, i) == count_at(self.base@, pa, i));
            }
        }
    }

    /// One past the highest id handed out so far: the id the next mint would
    /// use.
    pub fn next_id(&self) -> (r: NodeId)
        requires
            self.valid(),
        ensures
            r == self@.next_id(),
    {
        self.next_id
    }

    /// The number of distinct `(txId, offset)` keys that have ever been given
    /// an id, in a map whose ids start at 0.
    pub fn distinct_nodes(&self) -> (r: u64)
        requires
            self.valid(),
        ensures
            r == self@.next_id(),
            self@.first_id == 0 ==> r == self@.keys.len(),
    {
        self.next_id as u64
    }
}


/// The message of a gap that could not be filled for want of memory.
pub open spec fn bridge_failure(line: u64, expected: int, found: int) -> Seq<char> {
    "line "@ + text::decimal(line as nat) + ": transaction id "@ + text::signed_decimal(found)
        + " skips ahead of "@ + text::signed_decimal(expected) + "; filling the "@
        + text::signed_decimal(found - expected) + "-id gap needs "@ + text::decimal(
        ((found - expected) * 8) as nat,
    )
        + " bytes, which could not be allocated; the input's transaction ids are not consecutive"@
}

fn bridge_failure_text(line: u64, expected: i64, found: i64) -> (r: String)
    requires
        0 <= found - expected <= MAX_TX_GAP,
    ensures
        r@ == bridge_failure(line, expected as int, found as int),
{
    let gap: i64 = found - expected;
    let mut out: String = "line ".to_owned();
    append_decimal(&mut out, line);
    out.append(": transaction id ");
    append_signed(&mut out, found);
    out.append(" skips ahead of ");
    append_signed(&mut out, expected);
    out.append("; filling the ");
    append_signed(&mut out, gap);
    out.append("-id gap needs ");
    append_decimal(&mut out, gap as u64 * 8);
    out.append(
        " bytes, which could not be allocated; the input's transaction ids are not consecutive",
    );
    out
}

/// The ids in `out` are those of the first outputs of `tx`, in order.
spec fn resolves(v: NodeMapView, tx: i32, out: Seq<NodeId>) -> bool {
    forall|i: int|
        0 <= i < out.len() ==> v.id_of((tx, i as i32)) == Some(#[trigger] out[i])
}

proof fn lemma_dups_none(s: Seq<usize>, key: int)
    requires
        forall|j: int| 0 <= j < s.len() ==> #[trigger] s[j] != key,
    ensures
        dups(s, key) == 0,
    decreases s.len(),
{
    if s.len() > 0 {
        assert(s[s.len() - 1] != key);
        let t = s.drop_last();
        assert forall|j: int| 0 <= j < t.len() implies #[trigger] t[j] != key by {
            assert(s[j] != key);
        }
        lemma_dups_none(t, key);
    }
}

impl DenseNodeMap {
    /// A map is what it holds.
    proof fn lemma_same_contents(self, new: DenseNodeMap)
        requires
            self.valid(),
            new.base@ == self.base@,
            new.next_id == self.next_id,
            new.min_tx == self.min_tx,
            new.mode == self.mode,
            new.extra == self.extra,
            new.phantom_at == self.phantom_at,
            new.keys == self.keys,
        ensures
            new.valid(),
            new@ == self@,
    {
        assert forall|j: int| #[trigger] new.dense_at(j) == self.dense_at(j) by {}
        assert forall|j: int| 0 <= j < new.keys@.len() implies #[trigger] new.dense_at(j)
            || new.extra_at(j) by {
            assert(self.dense_at(j) || self.extra_at(j));
        }
        assert(new@.counts =~= self@.counts);
    }

    /// Appending a transaction, behind `gap` transactions without outputs,
    /// keeps the invariant.
    proof fn lemma_appended(self, new: DenseNodeMap, tx: i32, n: nat, gap: nat)
        requires
            self.valid(),
            n <= MAX_OUTPUTS,
            self.next_id + n <= usize::MAX,
            self.base@.len() == 0 ==> gap == 0 && new.min_tx == tx,
            self.base@.len() > 0 ==> new.min_tx == self.min_tx,
            tx == new.min_tx + self.txs() + gap,
            new.next_id == self.next_id + n,
            new.mode == self.mode,
            new.extra@ == self.extra@,
            new.phantom_at@ == self.phantom_at@,
            new.base@ == (if self.base@.len() == 0 {
                seq![self.next_id]
            } else {
                self.base@
            } + Seq::new(gap, |i: int| self.next_id)).push(new.next_id),
            new.keys@ == self.keys@ + Seq::new(n, |k: int| (tx, k as i32)),
        ensures
            new.valid(),
            new@.keys == self@.minted_all(tx, n).keys,
            new@.counts == if self@.counts.len() == 0 {
                seq![n]
            } else {
                self@.counts_with(tx, n)
            },
            new@.first_tx == if self@.counts.len() == 0 {
                tx as int
            } else {
                self@.first_tx
            },
            new@.first_id == self@.first_id,
            new@.mode == self@.mode,
            new@.ids_of(tx, n) == Seq::new(n, |k: int| (self.next_id + k) as usize),
    {
        let old_txs = self.txs() as int;
        let pa = self.phantom_at@;
        let first = self.first_id();
        let last = old_txs + gap;
        assert(new.txs() == last + 1);
        assert(new.first_id() == first);
        assert forall|i: int| 0 <= i < old_txs implies #[trigger] count_at(new.base@, pa, i)
            == count_at(self.base@, pa, i) by {
            assert(new.base@[i] == self.base@[i]);
            assert(new.base@[i + 1] == self.base@[i + 1]);
        }
        assert forall|i: int| old_txs <= i < new.txs() implies #[trigger] count_at(
            new.base@,
            pa,
            i,
        ) == (if i == last {
            n as int
        } else {
            0
        }) && new.base@[i] == self.next_id by {
            lemma_dups_none(pa, i + 1);
        }
        assert forall|i: int, j: int| 0 <= i <= j < new.base@.len() implies new.base@[i]
            <= new.base@[j] by {
            if self.base@.len() > 0 && i < self.base@.len() {
                assert(self.base@[i] <= self.base@[self.base@.len() - 1]);
                if j < self.base@.len() {
                    assert(self.base@[i] <= self.base@[j]);
                }
            }
        }
        assert(new.shape_valid());
        assert forall|j: int| 0 <= j < self.keys@.len() implies (#[trigger] self.keys@[j]).0
            != tx by {}
        lemma_minted_fresh(self@, tx, n);
        lemma_minted_all(self@, tx, n);
        assert forall|i: int, o: int|
            0 <= i < new.txs() && 0 <= o < count_at(
                new.base@,
                new.phantom_at@,
                i,
            ) implies #[trigger] new.keys@[new.base@[i] - new.first_id() + o] == (
            (new.min_tx + i) as i32,
            o as i32,
        ) by {
            if i < old_txs {
                assert(count_at(new.base@, pa, i) == count_at(self.base@, pa, i));
                self.lemma_dense_position(i, o);
                assert(self.keys@[self.base@[i] - first + o] == (
                    (self.min_tx + i) as i32,
                    o as i32,
                ));
            } else {
                assert(count_at(new.base@, pa, i) == (if i == last {
                    n as int
                } else {
                    0
                }));
            }
        }
        assert forall|k: u64| #[trigger] new.extra@.contains_key(k) implies {
            &&& new.first_id() <= new.extra@[k] < new.next_id
            &&& crate::packed(
                new.keys@[new.extra@[k] - new.first_id()].0,
                new.keys@[new.extra@[k] - new.first_id()].1,
            ) == k
            &&& !new.dense_at(new.extra@[k] - new.first_id())
        } by {
            assert(self.extra@.contains_key(k));
            let j = new.extra@[k] - first;
            if new.dense_at(j) {
                let i = choose|i: int|
                    0 <= i < new.txs() && new.base@[i] <= new.first_id() + j && new.first_id() + j
                        < new.base@[i] + #[trigger] count_at(new.base@, new.phantom_at@, i);
                if i < old_txs {
                    assert(count_at(new.base@, pa, i) == count_at(self.base@, pa, i));
                    assert(self.dense_at(j));
                } else {
                    assert(new.base@[i] == self.next_id);
                }
            }
        }
        assert forall|j: int| 0 <= j < new.keys@.len() implies #[trigger] new.dense_at(j)
            || new.extra_at(j) by {
            if j < self.keys@.len() {
                assert(new.keys@[j] == self.keys@[j]);
                assert(self.dense_at(j) || self.extra_at(j));
                if self.dense_at(j) {
                    let i = choose|i: int|
                        0 <= i < self.txs() && self.base@[i] <= self.first_id() + j
                            && self.first_id() + j < self.base@[i] + #[trigger] count_at(
                            self.base@,
                            self.phantom_at@,
                            i,
                        );
                    assert(count_at(new.base@, pa, i) == count_at(self.base@, pa, i));
                    assert(new.dense_at(j));
                } else {
                    assert(new.extra_at(j));
                }
            } else {
                assert(count_at(new.base@, pa, last) == n);
                assert(new.dense_at(j));
            }
        }
        assert(new.keys_valid());
        let counts = if self@.counts.len() == 0 {
            seq![n]
        } else {
            self@.counts_with(tx, n)
        };
        assert(new@.counts =~= counts) by {
            assert forall|i: int| 0 <= i < new.txs() implies #[trigger] new@.counts[i]
                == counts[i] by {
                if i < old_txs {
                    assert(count_at(new.base@, pa, i) == count_at(self.base@, pa, i));
                } else {
                    assert(count_at(new.base@, pa, i) == (if i == last {
                        n as int
                    } else {
                        0
                    }));
                }
            }
        }
        let ids = Seq::new(n, |k: int| (self.next_id + k) as usize);
        assert(new@.ids_of(tx, n) =~= ids) by {
            assert forall|k: int| 0 <= k < n implies new@.id_of((tx, k as i32)) == Some(
                #[trigger] ids[k],
            ) by {
                let j = self.keys@.len() + k;
                assert(new.keys@[j] == (tx, k as i32));
                lemma_index_of(new.keys@, j);
            }
        }
    }

    /// How many transactions without outputs have to be filled in before
    /// `tx_id` is registered.
    fn filled_before(&self, tx_id: i32) -> (r: usize)
        requires
            self.valid(),
        ensures
            r == self@.filled_before(tx_id),
    {
        if self.base.len() == 0 || self.mode == Mode::Strict {
            return 0;
        }
        let expected: i64 = self.min_tx + (self.base.len() as i64 - 1);
        let found: i64 = tx_id as i64;
        if found > expected && found - expected <= MAX_TX_GAP {
            (found - expected) as usize
        } else {
            0
        }
    }

    /// Registers the outputs of one transaction, leaving their node ids in
    /// `out` in ascending offset order.
    ///
    /// A `tx_id` below the dense cursor is a repeat, which mints nothing for
    /// the offsets the first occurrence already owns. `line` is only used to
    /// name the input in an error.
    ///
    /// Filling a gap needs memory. Where it cannot be had, the map is left as
    /// it was and the error says so; whether it can is up to the machine. What
    /// comes of either answer is said by [`DenseNodeMap::register_given`].
    pub fn register_tx(
        &mut self,
        tx_id: i32,
        num_outputs: u32,
        line: u64,
        out: &mut Vec<NodeId>,
    ) -> (r: Result<()>)
        requires
            old(self).valid(),
            num_outputs <= MAX_OUTPUTS,
            old(self)@.next_id() + num_outputs <= usize::MAX,
        ensures
            final(self).valid(),
            final(self).starved() ==> old(self)@.filled_before(tx_id) > 0,
            match old(self)@.registered_given(
                tx_id,
                num_outputs as nat,
                line,
                !final(self).starved(),
            ) {
                Ok(v) => r is Ok && final(self)@ == v && final(out)@ == v.ids_of(
                    tx_id,
                    num_outputs as nat,
                ),
                Err(e) => final(self)@ == old(self)@ && final(out)@.len() == 0 && (r matches Err(
                    err,
                ) && err@ == e),
            },
    {
        let gap: usize = self.filled_before(tx_id);
        let ghost before = *self;
        // An allocation failure must surface as a typed error.
        let had: bool = if gap > 0 {
            match self.base.try_reserve(gap) {
                Ok(_) => true,
                Err(_) => false,
            }
        } else {
            true
        };
        proof {
            before.lemma_same_contents(*self);
        }
        self.register_given(tx_id, num_outputs, line, had, out)
    }

    /// Registers the outputs of one transaction as
    /// [`DenseNodeMap::register_tx`] does, where it is known whether there is
    /// memory for the gap before it.
    pub fn register_given(
        &mut self,
        tx_id: i32,
        num_outputs: u32,
        line: u64,
        had: bool,
        out: &mut Vec<NodeId>,
    ) -> (r: Result<()>)
        requires
            old(self).valid(),
            num_outputs <= MAX_OUTPUTS,
            old(self)@.next_id() + num_outputs <= usize::MAX,
        ensures
            final(self).valid(),
            final(self).starved() == (old(self)@.filled_before(tx_id) > 0 && !had),
            match old(self)@.registered_given(tx_id, num_outputs as nat, line, had) {
                Ok(v) => r is Ok && final(self)@ == v && final(out)@ == v.ids_of(
                    tx_id,
                    num_outputs as nat,
                ),
                Err(e) => final(self)@ == old(self)@ && final(out)@.len() == 0 && (r matches Err(
                    err,
                ) && err@ == e),
            },
    {
        self.starved = Ghost(false);
        proof {
            old(self).lemma_same_contents(*self);
        }
        let ghost before = *self;
        out.clear();
        let ghost mut gap_len: nat = 0;
        if self.base.len() == 0 {
            self.min_tx = tx_id as i64;
            self.base.push(self.next_id);
            assert(self.base@ =~= seq![before.next_id] + Seq::new(0, |i: int| before.next_id));
        } else {
            assert(self.base@ =~= before.base@ + Seq::new(0, |i: int| before.next_id));
            let expected: i64 = self.min_tx + (self.base.len() as i64 - 1);
            let found: i64 = tx_id as i64;
            if found < expected {
                return self.register_repeat(tx_id, num_outputs, line, out);
            }
            if found != expected {
                if self.mode == Mode::Strict {
                    return Err(Error::NonDenseTxId { line, expected, found });
                }
                let gap: i64 = found - expected;
                if gap > MAX_TX_GAP {
                    return Err(Error::TxIdGapTooLarge { line, expected, found });
                }
                if !had {
                    self.starved = Ghost(true);
                    proof {
                        before.lemma_same_contents(*self);
                    }
                    return Err(Error::other(bridge_failure_text(line, expected, found)));
                }
                let mut filled: i64 = 0;
                while filled < gap
                    invariant
                        0 <= filled <= gap,
                        self.base@ == before.base@ + Seq::new(
                            filled as nat,
                            |i: int| before.next_id,
                        ),
                        self.next_id == before.next_id,
                        self.min_tx == before.min_tx,
                        self.mode == before.mode,
                        self.extra == before.extra,
                        self.phantom_at == before.phantom_at,
                        self.keys == before.keys,
                        !self.starved@,
                    decreases gap - filled,
                {
                    // A filler transaction without outputs: it starts where it ends.
                    self.base.push(self.next_id);
                    filled = filled + 1;
                    assert(self.base@ =~= before.base@ + Seq::new(
                        filled as nat,
                        |i: int| before.next_id,
                    ));
                }
                proof {
                    gap_len = gap as nat;
                }
            }
        }
        let start: NodeId = self.next_id;
        self.next_id = start + num_outputs as usize;
        self.base.push(self.next_id);
        self.keys = Ghost(self.keys@ + Seq::new(num_outputs as nat, |k: int| (tx_id, k as i32)));
        proof {
            before.lemma_appended(*self, tx_id, num_outputs as nat, gap_len);
            lemma_minted_all(before@, tx_id, num_outputs as nat);
        }
        out.reserve(num_outputs as usize);
        let mut k: usize = 0;
        while k < num_outputs as usize
            invariant
                k <= num_outputs,
                start + num_outputs <= usize::MAX,
                out@ == Seq::new(k as nat, |i: int| (start + i) as usize),
            decreases num_outputs - k,
        {
            out.push(start + k);
            k = k + 1;
            assert(out@ =~= Seq::new(k as nat, |i: int| (start + i) as usize));
        }
        Ok(())
    }

    /// Re-registers a transaction the dense cursor has already passed.
    ///
    /// The offsets the first occurrence owns are answered from the prefix sum.
    /// Further offsets, and every offset of a transaction below the first one,
    /// are forced into the side table.
    fn register_repeat(
        &mut self,
        tx_id: i32,
        num_outputs: u32,
        line: u64,
        out: &mut Vec<NodeId>,
    ) -> (r: Result<()>)
        requires
            old(self).valid(),
            old(self)@.counts.len() > 0,
            tx_id < old(self)@.next_tx(),
            num_outputs <= MAX_OUTPUTS,
            old(self)@.next_id() + num_outputs <= usize::MAX,
            old(out)@.len() == 0,
        ensures
            final(self).valid(),
            r is Ok,
            final(self)@ == old(self)@.minted_all(tx_id, num_outputs as nat),
            final(self).starved() == old(self).starved(),
            final(out)@ == final(self)@.ids_of(tx_id, num_outputs as nat),
    {
        let ghost before = self@;
        out.reserve(num_outputs as usize);
        let (start, k0): (usize, usize) = match self.index_of(tx_id) {
            Some(i) => (self.base[i], self.outputs_at(i)),
            None => (0, 0),
        };
        let reused: usize = if k0 < num_outputs as usize {
            k0
        } else {
            num_outputs as usize
        };
        let mut k: usize = 0;
        while k < reused
            invariant
                k <= reused <= k0,
                reused <= num_outputs <= MAX_OUTPUTS,
                self.valid(),
                self@ == before,
                self.starved() == old(self).starved(),
                before.minted_all(tx_id, k as nat) == before,
                out@.len() == k,
                resolves(before, tx_id, out@),
                k0 > 0 ==> self.min_tx <= tx_id < self.min_tx + self.txs() && start
                    == self.base@[tx_id - self.min_tx] && k0 == count_at(
                    self.base@,
                    self.phantom_at@,
                    tx_id - self.min_tx,
                ),
            decreases reused - k,
        {
            proof {
                self.lemma_dense_position(tx_id - self.min_tx, k as int);
            }
            out.push(start + k);
            k = k + 1;
        }
        let mut offset: usize = reused;
        while offset < num_outputs as usize
            invariant
                reused <= offset <= num_outputs <= MAX_OUTPUTS,
                self.valid(),
                before.keys.no_duplicates(),
                before.counts.len() > 0,
                tx_id < before.next_tx(),
                before.next_id() + num_outputs <= usize::MAX,
                self@ == before.minted_all(tx_id, offset as nat),
                self.starved() == old(self).starved(),
                out@.len() == offset,
                resolves(self@, tx_id, out@),
            decreases num_outputs - offset,
        {
            let ghost prior = self@;
            proof {
                lemma_minted_all(before, tx_id, offset as nat);
                lemma_minted(prior, (tx_id, offset as i32));
            }
            let ghost known = out@;
            match self.force_create(tx_id, offset as i32, line) {
                Ok(id) => {
                    out.push(id);
                },
                Err(e) => {
                    assert(false);
                    return Err(e);
                },
            }
            proof {
                assert forall|i: int| 0 <= i < out@.len() implies self@.id_of((tx_id, i as i32))
                    == Some(#[trigger] out@[i]) by {
                    if i < offset {
                        assert(prior.id_of((tx_id, i as i32)) == Some(known[i]));
                        assert(prior.keys.contains((tx_id, i as i32)));
                    }
                }
            }
            offset = offset + 1;
        }
        assert(out@ =~= self@.ids_of(tx_id, num_outputs as nat));
        Ok(())
    }
}


// ---------------------------------------------------------------------------
// Listing
// ---------------------------------------------------------------------------
/// `a` comes before `b`: by transaction id, then by offset.
pub open spec fn key_below(a: (i32, i32), b: (i32, i32)) -> bool {
    a.0 < b.0 || (a.0 == b.0 && a.1 < b.1)
}

/// The rows are in ascending `(txId, offset)` order, no key twice.
pub open spec fn rows_ascend(rows: Seq<(i32, i32, NodeId)>) -> bool {
    forall|i: int, j: int|
        #![trigger rows[i], rows[j]]
        0 <= i < j < rows.len() ==> key_below((rows[i].0, rows[i].1), (rows[j].0, rows[j].1))
}

/// `rows` lists a node map: every key with its id, in ascending
/// `(txId, offset)` order, each key exactly once.
pub open spec fn is_listing(rows: Seq<(i32, i32, NodeId)>, v: NodeMapView) -> bool {
    &&& rows_ascend(rows)
    &&& forall|i: int|
        0 <= i < rows.len() ==> v.id_of(((#[trigger] rows[i]).0, rows[i].1)) == Some(rows[i].2)
    &&& forall|j: int|
        0 <= j < v.keys.len() ==> rows.contains(
            ((#[trigger] v.keys[j]).0, v.keys[j].1, v.id_of(v.keys[j]).unwrap()),
        )
}

/// One row of the node map file, `txId\toffset\tid\n`.
pub open spec fn row_bytes(row: (i32, i32, NodeId)) -> Seq<u8> {
    text::signed_decimal_bytes(row.0 as int).push(9) + text::signed_decimal_bytes(
        row.1 as int,
    ).push(9) + text::decimal_bytes(row.2 as nat).push(10)
}

/// The rows of the node map file, one after another.
pub open spec fn tsv_bytes(rows: Seq<(i32, i32, NodeId)>) -> Seq<u8>
    decreases rows.len(),
{
    if rows.len() == 0 {
        Seq::empty()
    } else {
        tsv_bytes(rows.drop_last()) + row_bytes(rows.last())
    }
}

/// A node map has only one listing, so the file that is written for it is
/// determined by the map.
pub proof fn listing_is_unique(
    a: Seq<(i32, i32, NodeId)>,
    b: Seq<(i32, i32, NodeId)>,
    v: NodeMapView,
)
    requires
        is_listing(a, v),
        is_listing(b, v),
    ensures
        a == b,
{
    lemma_listing_prefix(a, b, v, a.len());
    lemma_listing_prefix(b, a, v, b.len());
    assert(a =~= b);
}

proof fn lemma_listing_prefix(
    a: Seq<(i32, i32, NodeId)>,
    b: Seq<(i32, i32, NodeId)>,
    v: NodeMapView,
    n: nat,
)
    requires
        is_listing(a, v),
        is_listing(b, v),
        n <= a.len(),
    ensures
        n <= b.len(),
        forall|i: int| 0 <= i < n ==> a[i] == b[i],
    decreases n,
{
    if n > 0 {
        let m = n - 1;
        lemma_listing_prefix(a, b, v, m as nat);
        let p = lemma_listing_finds(b, a, v, m);
        if p < m {
            assert(a[p] == b[p]);
            assert(key_below((a[p].0, a[p].1), (a[m].0, a[m].1)));
        }
        let q = lemma_listing_finds(a, b, v, m);
        if q < m {
            assert(a[q] == b[q]);
            assert(key_below((b[q].0, b[q].1), (b[m].0, b[m].1)));
        }
        if p > m && q > m {
            assert(key_below((b[m].0, b[m].1), (b[p].0, b[p].1)));
            assert(key_below((a[m].0, a[m].1), (a[q].0, a[q].1)));
        }
    }
}

/// Where one listing has the row at `m` of another.
proof fn lemma_listing_finds(
    b: Seq<(i32, i32, NodeId)>,
    a: Seq<(i32, i32, NodeId)>,
    v: NodeMapView,
    m: int,
) -> (p: int)
    requires
        is_listing(a, v),
        is_listing(b, v),
        0 <= m < a.len(),
    ensures
        0 <= p < b.len(),
        b[p] == a[m],
{
    let key = (a[m].0, a[m].1);
    assert(v.id_of(key) == Some(a[m].2));
    let j = v.keys.index_of(key);
    assert(v.keys[j] == key);
    assert(b.contains((v.keys[j].0, v.keys[j].1, v.id_of(v.keys[j]).unwrap())));
    b.index_of(a[m])
}

/// `a` is not after `b`, as `(txId, offset, id)` triples.
pub open spec fn row_not_above(a: (i32, i32, NodeId), b: (i32, i32, NodeId)) -> bool {
    ||| a.0 < b.0
    ||| a.0 == b.0 && a.1 < b.1
    ||| a.0 == b.0 && a.1 == b.1 && a.2 <= b.2
}

/// `<[T]>::sort_unstable` on triples of integers: the same triples, in the
/// lexicographic order that tuples have.
#[verifier::external_body]
fn sort_rows(rows: &mut Vec<(i32, i32, NodeId)>)
    ensures
        final(rows)@.to_multiset() == old(rows)@.to_multiset(),
        forall|i: int, j: int|
            0 <= i <= j < final(rows)@.len() ==> row_not_above(final(rows)@[i], final(rows)@[j]),
{
    rows.sort_unstable();
}

/// A walk over the rows of a node map, in listing order.
pub struct NodeRows {
    /// The side table, ascending.
    extras: Vec<(i32, i32, NodeId)>,
    /// The next row of the side table.
    ei: usize,
    /// The transaction the walk has reached.
    i: usize,
    /// The next output of that transaction.
    off: usize,
    /// The output count of that transaction.
    count: usize,
    /// The rows handed out so far.
    given: Ghost<Seq<(i32, i32, NodeId)>>,
}

impl NodeRows {
    /// The rows handed out so far.
    pub closed spec fn given(&self) -> Seq<(i32, i32, NodeId)> {
        self.given@
    }

    /// The walk is one over `map`.
    pub closed spec fn walks(&self, map: &DenseNodeMap) -> bool {
        &&& map.valid()
        &&& self.at_valid(map)
        &&& self.extras_valid(map)
        &&& self.given_valid(map)
    }

    spec fn at_valid(&self, map: &DenseNodeMap) -> bool {
        &&& self.i <= map.txs()
        &&& self.ei <= self.extras@.len()
        &&& self.off <= self.count
        &&& self.i < map.txs() ==> self.count == count_at(
            map.base@,
            map.phantom_at@,
            self.i as int,
        )
        &&& self.i == map.txs() ==> self.count == 0
    }

    spec fn extras_valid(&self, map: &DenseNodeMap) -> bool {
        &&& rows_ascend(self.extras@)
        &&& forall|e: int|
            0 <= e < self.extras@.len() ==> is_extra(map, #[trigger] self.extras@[e])
        &&& forall|k: u64| #[trigger]
            map.extra@.contains_key(k) ==> exists|e: int|
                0 <= e < self.extras@.len() && crate::packed(
                    (#[trigger] self.extras@[e]).0,
                    self.extras@[e].1,
                ) == k
    }

    spec fn given_valid(&self, map: &DenseNodeMap) -> bool {
        let given = self.given@;
        &&& rows_ascend(given)
        &&& forall|g: int|
            0 <= g < given.len() ==> map@.id_of(((#[trigger] given[g]).0, given[g].1)) == Some(
                given[g].2,
            )
        // Everything given comes before everything that is still to come.
        &&& forall|g: int|
            0 <= g < given.len() ==> ((#[trigger] given[g]).0 < map.min_tx + self.i || (given[g].0
                == map.min_tx + self.i && given[g].1 < self.off))
        &&& forall|g: int, e: int|
            0 <= g < given.len() && self.ei <= e < self.extras@.len() ==> key_below(
                ((#[trigger] given[g]).0, given[g].1),
                ((#[trigger] self.extras@[e]).0, self.extras@[e].1),
            )
        // Nothing before the current place is left out.
        &&& forall|i: int, o: int|
            0 <= i < map.txs() && 0 <= o < count_at(map.base@, map.phantom_at@, i) && (i < self.i
                || (i == self.i && o < self.off)) ==> given.contains(
                #[trigger] dense_row(map, i, o),
            )
        &&& forall|e: int| 0 <= e < self.ei ==> given.contains(#[trigger] self.extras@[e])
    }

    /// The next row, or `None` once every row has been handed out.
    pub fn next_row(&mut self, map: &DenseNodeMap) -> (r: Option<(i32, i32, NodeId)>)
        requires
            old(self).walks(map),
        ensures
            final(self).walks(map),
            match r {
                Some(row) => final(self).given() == old(self).given().push(row),
                None => final(self).given() == old(self).given() && is_listing(
                    old(self).given(),
                    map@,
                ),
            },
    {
        let ntx: usize = if map.base.len() == 0 {
            0
        } else {
            map.base.len() - 1
        };
        let ghost start = self.given@;
        while self.i < ntx && self.off >= self.count
            invariant
                self.walks(map),
                ntx == map.txs(),
                self.given@ == start,
            decreases ntx - self.i,
        {
            self.i = self.i + 1;
            self.off = 0;
            self.count = if self.i < ntx {
                map.outputs_at(self.i)
            } else {
                0
            };
        }
        if self.i < ntx {
            let tx: i32 = (map.min_tx + self.i as i64) as i32;
            let off: i32 = self.off as i32;
            if self.ei < self.extras.len() {
                let row: (i32, i32, NodeId) = self.extras[self.ei];
                if row.0 < tx || (row.0 == tx && row.1 < off) {
                    self.give_extra(map);
                    return Some(row);
                }
            }
            proof {
                map.lemma_dense_position(self.i as int, self.off as int);
            }
            let row: (i32, i32, NodeId) = (tx, off, map.base[self.i] + self.off);
            self.give_dense(map);
            return Some(row);
        }
        if self.ei < self.extras.len() {
            let row: (i32, i32, NodeId) = self.extras[self.ei];
            proof {
                assert(is_extra(map, row));
                lemma_extra_id(map, row);
                let j = map.keys@.index_of((row.0, row.1));
                assert(map.keys@[j].0 < map.min_tx + map.txs());
            }
            self.give_extra(map);
            return Some(row);
        }
        proof {
            self.lemma_all_given(map);
        }
        None
    }

    /// Moves past the next row of the side table.
    fn give_extra(&mut self, map: &DenseNodeMap)
        requires
            old(self).walks(map),
            old(self).ei < old(self).extras@.len(),
            ({
                let row = old(self).extras@[old(self).ei as int];
                row.0 < map.min_tx + old(self).i || (row.0 == map.min_tx + old(self).i && row.1
                    < old(self).off)
            }),
        ensures
            final(self).walks(map),
            final(self).given@ == old(self).given@.push(old(self).extras@[old(self).ei as int]),
    {
        let ghost row = self.extras@[self.ei as int];
        let ghost before = *self;
        assert(self.ei < self.extras.len());
        self.ei = self.ei + 1;
        self.given = Ghost(self.given@.push(row));
        proof {
            assert(is_extra(map, row));
            lemma_extra_id(map, row);
            before.lemma_given(*self, map, row);
        }
    }

    /// Moves past the next output of the current transaction.
    fn give_dense(&mut self, map: &DenseNodeMap)
        requires
            old(self).walks(map),
            old(self).i < map.txs(),
            old(self).off < old(self).count,
            old(self).ei < old(self).extras@.len() ==> !key_below(
                (
                    old(self).extras@[old(self).ei as int].0,
                    old(self).extras@[old(self).ei as int].1,
                ),
                ((map.min_tx + old(self).i) as i32, old(self).off as i32),
            ),
        ensures
            final(self).walks(map),
            final(self).given@ == old(self).given@.push(
                dense_row(map, old(self).i as int, old(self).off as int),
            ),
    {
        let ghost row = dense_row(map, self.i as int, self.off as int);
        let ghost before = *self;
        self.off = self.off + 1;
        self.given = Ghost(self.given@.push(row));
        proof {
            map.lemma_dense_position(before.i as int, before.off as int);
            if before.ei < before.extras@.len() {
                let x = before.extras@[before.ei as int];
                assert(is_extra(map, x));
                lemma_extra_id(map, x);
                if (x.0, x.1) == (row.0, row.1) {
                    let j = map.base@[before.i as int] - map.first_id() + before.off;
                    assert(count_at(map.base@, map.phantom_at@, before.i as int) == before.count);
                    assert(map.dense_at(j));
                }
                assert forall|e: int| before.ei <= e < before.extras@.len() implies key_below(
                    (row.0, row.1),
                    ((#[trigger] before.extras@[e]).0, before.extras@[e].1),
                ) by {}
            }
            before.lemma_given(*self, map, row);
        }
    }

    /// Handing out a row that is above all rows given and below all that are
    /// still to come keeps the walk's invariant.
    proof fn lemma_given(self, new: NodeRows, map: &DenseNodeMap, row: (i32, i32, NodeId))
        requires
            self.walks(map),
            new.extras == self.extras,
            new.i == self.i,
            new.count == self.count,
            new.given@ == self.given@.push(row),
            new.at_valid(map),
            map@.id_of((row.0, row.1)) == Some(row.2),
            (new.ei == self.ei + 1 && new.off == self.off && row == self.extras@[self.ei as int] && (
            row.0 < map.min_tx + self.i || (row.0 == map.min_tx + self.i && row.1 < self.off))) || (
            new.ei == self.ei && new.off == self.off + 1 && self.i < map.txs() && row == dense_row(
                map,
                self.i as int,
                self.off as int,
            ) && row.1 == self.off && row.0 == map.min_tx + self.i),
            forall|e: int|
                new.ei <= e < new.extras@.len() ==> key_below(
                    (row.0, row.1),
                    ((#[trigger] new.extras@[e]).0, new.extras@[e].1),
                ),
        ensures
            new.walks(map),
    {
        let given = self.given@;
        let after = new.given@;
        assert(after.drop_last() =~= given);
        assert forall|g: int| 0 <= g < given.len() implies key_below(
            ((#[trigger] given[g]).0, given[g].1),
            (row.0, row.1),
        ) by {
            if new.ei == self.ei + 1 {
                assert(key_below(
                    (given[g].0, given[g].1),
                    (self.extras@[self.ei as int].0, self.extras@[self.ei as int].1),
                ));
            }
        }
        assert forall|i: int, j: int|
            #![trigger after[i], after[j]]
            0 <= i < j < after.len() implies key_below(
            (after[i].0, after[i].1),
            (after[j].0, after[j].1),
        ) by {
            assert(after[i] == given[i]);
            if j < given.len() {
                assert(after[j] == given[j]);
            }
        }
        assert forall|g: int| 0 <= g < after.len() implies map@.id_of(
            ((#[trigger] after[g]).0, after[g].1),
        ) == Some(after[g].2) by {
            if g < given.len() {
                assert(after[g] == given[g]);
            }
        }
        assert forall|g: int| 0 <= g < after.len() implies ((#[trigger] after[g]).0 < map.min_tx
            + new.i || (after[g].0 == map.min_tx + new.i && after[g].1 < new.off)) by {
            if g < given.len() {
                assert(after[g] == given[g]);
            }
        }
        assert forall|g: int, e: int|
            0 <= g < after.len() && new.ei <= e < new.extras@.len() implies key_below(
            ((#[trigger] after[g]).0, after[g].1),
            ((#[trigger] new.extras@[e]).0, new.extras@[e].1),
        ) by {
            if g < given.len() {
                assert(after[g] == given[g]);
            }
        }
        assert forall|i: int, o: int|
            0 <= i < map.txs() && 0 <= o < count_at(map.base@, map.phantom_at@, i) && (i < new.i
                || (i == new.i && o < new.off)) implies after.contains(
            #[trigger] dense_row(map, i, o),
        ) by {
            let d = dense_row(map, i, o);
            if i < self.i || (i == self.i && o < self.off) {
                assert(given.contains(d));
                assert(after[given.index_of(d)] == d);
            } else {
                assert(after[given.len() as int] == row);
            }
        }
        assert forall|e: int| 0 <= e < new.ei implies after.contains(
            #[trigger] new.extras@[e],
        ) by {
            if e < self.ei {
                assert(given.contains(self.extras@[e]));
                assert(after[given.index_of(self.extras@[e])] == self.extras@[e]);
            } else {
                assert(after[given.len() as int] == row);
            }
        }
    }

    /// At the end of the walk everything has been given.
    proof fn lemma_all_given(&self, map: &DenseNodeMap)
        requires
            self.walks(map),
            self.i == map.txs(),
            self.ei == self.extras@.len(),
        ensures
            is_listing(self.given@, map@),
    {
        let v = map@;
        assert forall|j: int| 0 <= j < v.keys.len() implies self.given@.contains(
            ((#[trigger] v.keys[j]).0, v.keys[j].1, v.id_of(v.keys[j]).unwrap()),
        ) by {
            lemma_index_of(v.keys, j);
            assert(map.dense_at(j) || map.extra_at(j));
            if map.dense_at(j) {
                let i = choose|i: int|
                    0 <= i < map.txs() && map.base@[i] <= map.first_id() + j && map.first_id() + j
                        < map.base@[i] + #[trigger] count_at(map.base@, map.phantom_at@, i);
                let o = map.first_id() + j - map.base@[i];
                map.lemma_dense_position(i, o);
                assert(map.keys@[map.base@[i] - map.first_id() + o] == (
                    (map.min_tx + i) as i32,
                    o as i32,
                ));
                assert(self.given@.contains(dense_row(map, i, o)));
            } else {
                let k = crate::packed(map.keys@[j].0, map.keys@[j].1);
                assert(map.extra@.contains_key(k));
                let e = choose|e: int|
                    0 <= e < self.extras@.len() && crate::packed(
                        (#[trigger] self.extras@[e]).0,
                        self.extras@[e].1,
                    ) == k;
                let row = self.extras@[e];
                crate::pack_is_injective((row.0, row.1), map.keys@[j]);
                assert(is_extra(map, row));
                lemma_extra_id(map, row);
                assert(self.given@.contains(row));
            }
        }
    }
}

/// A row of the side table.
spec fn is_extra(map: &DenseNodeMap, row: (i32, i32, NodeId)) -> bool {
    let k = crate::packed(row.0, row.1);
    map.extra@.contains_key(k) && map.extra@[k] == row.2
}

/// Output `o` of the transaction at `i`, as a row.
spec fn dense_row(map: &DenseNodeMap, i: int, o: int) -> (i32, i32, NodeId) {
    ((map.min_tx + i) as i32, o as i32, (map.base@[i] + o) as usize)
}

/// The side table holds the ids of its keys, none of them an output of a
/// transaction's own run.
proof fn lemma_extra_id(map: &DenseNodeMap, row: (i32, i32, NodeId))
    requires
        map.valid(),
        is_extra(map, row),
    ensures
        map@.id_of((row.0, row.1)) == Some(row.2),
        map.keys@.contains((row.0, row.1)),
        map.keys@.index_of((row.0, row.1)) == row.2 - map.first_id(),
        !map.dense_at(row.2 - map.first_id()),
{
    let k = crate::packed(row.0, row.1);
    assert(map.extra@.contains_key(k));
    let j = row.2 - map.first_id();
    crate::pack_is_injective((map.keys@[j].0, map.keys@[j].1), (row.0, row.1));
    lemma_index_of(map.keys@, j);
}


/// Appends `txId\toffset\tid\n` to `buf`.
pub fn push_row(buf: &mut Vec<u8>, tx: i32, offset: i32, id: NodeId)
    ensures
        final(buf)@ == old(buf)@ + row_bytes((tx, offset, id)),
{
    push_signed(buf, tx as i64);
    buf.push(9);
    push_signed(buf, offset as i64);
    buf.push(9);
    push_decimal(buf, id as u64);
    buf.push(10);
    assert(buf@ =~= old(buf)@ + row_bytes((tx, offset, id)));
}

impl DenseNodeMap {
    /// The side table in ascending `(txId, offset)` order.
    fn sorted_extras(&self) -> (rows: Vec<(i32, i32, NodeId)>)
        requires
            self.valid(),
        ensures
            rows_ascend(rows@),
            forall|e: int| 0 <= e < rows@.len() ==> is_extra(self, #[trigger] rows@[e]),
            forall|k: u64| #[trigger]
                self.extra@.contains_key(k) ==> exists|e: int|
                    0 <= e < rows@.len() && crate::packed((#[trigger] rows@[e]).0, rows@[e].1)
                        == k,
    {
        let mut rows: Vec<(i32, i32, NodeId)> = Vec::new();
        for entry in it: self.extra.iter()
            invariant
                self.valid(),
                it.seq() == vstd::std_specs::iter::IteratorSpec::remaining(&self.extra.iter()),
                it.seq().no_duplicates(),
                rows@.len() == it.index(),
                forall|e: int|
                    0 <= e < rows@.len() ==> crate::packed(
                        (#[trigger] rows@[e]).0,
                        rows@[e].1,
                    ) == *it.seq()[e].0 && rows@[e].2 == *it.seq()[e].1,
        {
            let (t, o) = unpack(*entry.0);
            rows.push((t, o, *entry.1));
        }
        let ghost listed = rows@;
        let ghost entries = vstd::std_specs::iter::IteratorSpec::remaining(&self.extra.iter());
        proof {
            assert forall|e: int| 0 <= e < listed.len() implies is_extra(
                self,
                #[trigger] listed[e],
            ) by {
                assert(self.extra@.contains_key(*entries[e].0));
            }
            assert forall|a: int, b: int|
                0 <= a < listed.len() && 0 <= b < listed.len() && a != b implies listed[a]
                != listed[b] by {
                assert(entries[a] != entries[b]);
            }
            listed.lemma_multiset_has_no_duplicates();
        }
        sort_rows(&mut rows);
        proof {
            rows@.lemma_multiset_has_no_duplicates_conv();
            assert forall|e: int| 0 <= e < rows@.len() implies is_extra(
                self,
                #[trigger] rows@[e],
            ) by {
                lemma_same_rows(rows@, listed, e);
            }
            assert forall|i: int, j: int|
                #![trigger rows@[i], rows@[j]]
                0 <= i < j < rows@.len() implies key_below(
                (rows@[i].0, rows@[i].1),
                (rows@[j].0, rows@[j].1),
            ) by {
                assert(is_extra(self, rows@[i]));
                assert(is_extra(self, rows@[j]));
                assert(row_not_above(rows@[i], rows@[j]));
                assert(rows@[i] != rows@[j]);
            }
            assert forall|k: u64| #[trigger] self.extra@.contains_key(k) implies exists|e: int|
                0 <= e < rows@.len() && crate::packed((#[trigger] rows@[e]).0, rows@[e].1)
                    == k by {
                assert(entries.contains((&k, &self.extra@[k])));
                let a = entries.index_of((&k, &self.extra@[k]));
                assert(crate::packed(listed[a].0, listed[a].1) == k);
                lemma_same_rows(listed, rows@, a);
                let e = rows@.index_of(listed[a]);
                assert(rows@[e] == listed[a]);
            }
        }
        rows
    }

    /// Starts a walk over the rows of the map.
    pub fn rows(&self) -> (r: NodeRows)
        requires
            self.valid(),
        ensures
            r.walks(self),
            r.given() == Seq::<(i32, i32, NodeId)>::empty(),
    {
        let extras = self.sorted_extras();
        let count: usize = if self.base.len() > 1 {
            self.outputs_at(0)
        } else {
            0
        };
        let r = NodeRows { extras, ei: 0, i: 0, off: 0, count, given: Ghost(Seq::empty()) };
        assert(r.at_valid(self));
        assert(r.extras_valid(self));
        assert(r.given_valid(self));
        r
    }

    /// Writes the node map as `txId\toffset\tid`, LF-terminated, no header, in
    /// ascending `(txId, offset)` order, each key exactly once.
    pub fn write_tsv(&self, w: &mut Vec<u8>) -> (r: Result<()>)
        requires
            self.valid(),
        ensures
            r is Ok,
            exists|rows: Seq<(i32, i32, NodeId)>| #[trigger]
                is_listing(rows, self@) && final(w)@ == old(w)@ + tsv_bytes(rows),
    {
        let ghost start = w@;
        let mut walk = self.rows();
        assert(w@ =~= start + tsv_bytes(walk.given()));
        let ghost mut left: int = self.keys@.len() as int;
        loop
            invariant
                walk.walks(self),
                w@ == start + tsv_bytes(walk.given()),
                left == self.keys@.len() - walk.given().len(),
            ensures
                is_listing(walk.given(), self@),
                w@ == start + tsv_bytes(walk.given()),
            decreases left,
        {
            let ghost given = walk.given();
            match walk.next_row(self) {
                Some(row) => {
                    push_row(w, row.0, row.1, row.2);
                    proof {
                        assert(walk.given().drop_last() =~= given);
                        assert(w@ =~= start + tsv_bytes(walk.given()));
                        walk.lemma_given_bounded(self);
                        left = left - 1;
                    }
                },
                None => {
                    break;
                },
            }
        }
        Ok(())
    }
}

impl NodeRows {
    /// A walk never hands out more rows than there are keys.
    proof fn lemma_given_bounded(&self, map: &DenseNodeMap)
        requires
            self.walks(map),
        ensures
            self.given().len() <= map.keys@.len(),
    {
        let given = self.given@;
        let keys = given.map_values(|row: (i32, i32, NodeId)| (row.0, row.1));
        assert forall|i: int, j: int|
            0 <= i < keys.len() && 0 <= j < keys.len() && i != j implies keys[i] != keys[j] by {
            if i < j {
                assert(key_below((given[i].0, given[i].1), (given[j].0, given[j].1)));
            } else {
                assert(key_below((given[j].0, given[j].1), (given[i].0, given[i].1)));
            }
        }
        keys.unique_seq_to_set();
        map.keys@.unique_seq_to_set();
        assert(keys.to_set().subset_of(map.keys@.to_set())) by {
            assert forall|k: (i32, i32)| keys.to_set().contains(k) implies map.keys@.to_set().contains(
                k,
            ) by {
                let g = keys.index_of(k);
                assert(map@.id_of((given[g].0, given[g].1)) == Some(given[g].2));
            }
        }
        vstd::set_lib::lemma_len_subset(keys.to_set(), map.keys@.to_set());
    }
}

/// Sequences with the same elements, as often, hold each other's elements.
proof fn lemma_same_rows(a: Seq<(i32, i32, NodeId)>, b: Seq<(i32, i32, NodeId)>, i: int)
    requires
        a.to_multiset() == b.to_multiset(),
        0 <= i < a.len(),
    ensures
        b.contains(a[i]),
        exists|e: int| 0 <= e < b.len() && b[e] == a[i],
{
    vstd::seq_lib::to_multiset_contains(a, a[i]);
    vstd::seq_lib::to_multiset_contains(b, a[i]);
    assert(a.contains(a[i]));
}


// ---------------------------------------------------------------------------
// Laws
// ---------------------------------------------------------------------------
/// Ids are dense: every id from the first one up to the next one to be minted
/// belongs to exactly one key.
pub proof fn every_id_has_one_key(map: &DenseNodeMap, id: NodeId)
    requires
        map.valid(),
        map@.first_id <= id < map@.next_id(),
    ensures
        map@.id_of(map@.keys[id - map@.first_id]) == Some(id),
        forall|key: (i32, i32)| #[trigger]
            map@.id_of(key) == Some(id) ==> key == map@.keys[id - map@.first_id],
{
    map.lemma_coherent();
    lemma_index_of(map@.keys, id - map@.first_id);
    assert forall|key: (i32, i32)| #[trigger] map@.id_of(key) == Some(id) implies key
        == map@.keys[id - map@.first_id] by {
        let j = map@.keys.index_of(key);
        assert(map@.keys[j] == key);
    }
}

/// Two keys never share an id.
pub proof fn ids_are_distinct(map: &DenseNodeMap, a: (i32, i32), b: (i32, i32))
    requires
        map.valid(),
        map@.id_of(a) is Some,
        map@.id_of(a) == map@.id_of(b),
    ensures
        a == b,
{
    map.lemma_coherent();
    let i = map@.keys.index_of(a);
    let j = map@.keys.index_of(b);
    assert(map@.keys[i] == a && map@.keys[j] == b);
}

/// A registration that succeeds gives every declared output an id, never
/// changes an id that was given before, and keeps the map coherent.
pub proof fn registration_keeps_ids(v: NodeMapView, tx: i32, n: nat, line: u64, w: NodeMapView)
    requires
        v.coherent(),
        v.registered(tx, n, line) == Ok::<NodeMapView, crate::error::ErrorView>(w),
    ensures
        w.coherent(),
        w.first_id == v.first_id,
        w.mode == v.mode,
        v.keys.is_prefix_of(w.keys),
        forall|key: (i32, i32)| #[trigger]
            v.id_of(key) is Some ==> w.id_of(key) == v.id_of(key),
        forall|k: int| 0 <= k < n ==> #[trigger] w.id_of((tx, k as i32)) is Some,
{
    lemma_minted_all(v, tx, n);
    let m = v.minted_all(tx, n);
    assert(w.keys == m.keys);
    assert forall|key: (i32, i32)| #[trigger] v.id_of(key) is Some implies w.id_of(key)
        == v.id_of(key) by {
        assert(v.keys.contains(key));
    }
    assert forall|k: int| 0 <= k < n implies #[trigger] w.id_of((tx, k as i32)) is Some by {
        assert(m.keys.contains((tx, k as i32)));
    }
    assert forall|j: int| 0 <= j < w.keys.len() implies (#[trigger] w.keys[j]).0 < w.next_tx() by {
        assert(m.keys.contains(w.keys[j]));
        if v.keys.contains(w.keys[j]) {
            let i = v.keys.index_of(w.keys[j]);
            assert(v.keys[i].0 < v.next_tx());
        }
    }
}

/// A transaction at or ahead of the cursor gets a contiguous run of new ids,
/// in ascending offset order.
pub proof fn forward_ids_are_contiguous(v: NodeMapView, tx: i32, n: nat, line: u64, w: NodeMapView)
    requires
        v.coherent(),
        n <= MAX_OUTPUTS,
        v.counts.len() == 0 || tx >= v.next_tx(),
        v.next_id() + n <= usize::MAX,
        v.registered(tx, n, line) == Ok::<NodeMapView, crate::error::ErrorView>(w),
    ensures
        w.next_id() == v.next_id() + n,
        forall|k: int|
            0 <= k < n ==> #[trigger] w.id_of((tx, k as i32)) == Some(
                (v.next_id() + k) as usize,
            ),
{
    lemma_minted_fresh(v, tx, n);
    lemma_minted_all(v, tx, n);
    assert forall|k: int| 0 <= k < n implies #[trigger] w.id_of((tx, k as i32)) == Some(
        (v.next_id() + k) as usize,
    ) by {
        let j = v.keys.len() + k;
        assert(w.keys[j] == (tx, k as i32));
        lemma_index_of(w.keys, j);
    }
}

/// Registering a transaction a second time, with no more outputs, changes
/// nothing and gives the same ids, in both modes.
pub proof fn repeats_are_idempotent(
    v: NodeMapView,
    tx: i32,
    n: nat,
    line: u64,
    w: NodeMapView,
    again: nat,
    line2: u64,
)
    requires
        v.coherent(),
        again <= n,
        v.registered(tx, n, line) == Ok::<NodeMapView, crate::error::ErrorView>(w),
    ensures
        w.registered(tx, again, line2) == Ok::<NodeMapView, crate::error::ErrorView>(w),
{
    registration_keeps_ids(v, tx, n, line, w);
    lemma_minted_all(v, tx, n);
    assert(tx < w.next_tx());
    lemma_minted_known(w, tx, again);
}

proof fn lemma_minted_known(w: NodeMapView, tx: i32, n: nat)
    requires
        forall|k: int| 0 <= k < n ==> #[trigger] w.id_of((tx, k as i32)) is Some,
    ensures
        w.minted_all(tx, n) == w,
    decreases n,
{
    if n > 0 {
        lemma_minted_known(w, tx, (n - 1) as nat);
        assert(w.id_of((tx, (n - 1) as i32)) is Some);
    }
}

/// Forcing a node that succeeds gives the key an id, never changes an id that
/// was given before, and forcing it again changes nothing.
pub proof fn forcing_keeps_ids(
    v: NodeMapView,
    key: (i32, i32),
    line: u64,
    w: NodeMapView,
    line2: u64,
)
    requires
        v.coherent(),
        v.forced(key, line) == Ok::<NodeMapView, crate::error::ErrorView>(w),
    ensures
        w.coherent(),
        w.counts == v.counts,
        w.first_id == v.first_id,
        w.mode == v.mode,
        v.keys.is_prefix_of(w.keys),
        w.id_of(key) is Some,
        forall|k: (i32, i32)| #[trigger] v.id_of(k) is Some ==> w.id_of(k) == v.id_of(k),
        w.forced(key, line2) == Ok::<NodeMapView, crate::error::ErrorView>(w),
{
    lemma_minted(v, key);
    assert forall|k: (i32, i32)| #[trigger] v.id_of(k) is Some implies w.id_of(k)
        == v.id_of(k) by {
        assert(v.keys.contains(k));
    }
    assert forall|j: int| 0 <= j < w.keys.len() implies (#[trigger] w.keys[j]).0 < w.next_tx() by {
        if j < v.keys.len() {
            assert(w.keys[j] == v.keys[j]);
        }
    }
}

/// The listing of a node map has one row for each distinct node.
pub proof fn listing_has_one_row_per_node(rows: Seq<(i32, i32, NodeId)>, v: NodeMapView)
    requires
        v.coherent(),
        is_listing(rows, v),
    ensures
        rows.len() == v.keys.len(),
{
    let keys = rows.map_values(|row: (i32, i32, NodeId)| (row.0, row.1));
    assert forall|i: int, j: int|
        0 <= i < keys.len() && 0 <= j < keys.len() && i != j implies keys[i] != keys[j] by {
        if i < j {
            assert(key_below((rows[i].0, rows[i].1), (rows[j].0, rows[j].1)));
        } else {
            assert(key_below((rows[j].0, rows[j].1), (rows[i].0, rows[i].1)));
        }
    }
    assert forall|k: (i32, i32)| keys.to_set().contains(k) <==> v.keys.to_set().contains(k) by {
        if keys.to_set().contains(k) {
            let g = keys.index_of(k);
            assert(v.id_of((rows[g].0, rows[g].1)) == Some(rows[g].2));
        }
        if v.keys.to_set().contains(k) {
            let j = v.keys.index_of(k);
            assert(v.keys[j] == k);
            let row = (v.keys[j].0, v.keys[j].1, v.id_of(v.keys[j]).unwrap());
            assert(rows.contains(row));
            let g = rows.index_of(row);
            assert(keys[g] == k);
        }
    }
    assert(keys.to_set() =~= v.keys.to_set());
    keys.unique_seq_to_set();
    v.keys.unique_seq_to_set();
}

/// Every output that a transaction was registered with has an id.
pub proof fn every_declared_output_has_an_id(map: &DenseNodeMap)
    requires
        map.valid(),
    ensures
        map@.coherent(),
        map@.complete(),
{
    map.lemma_coherent();
    let v = map@;
    assert forall|tx: i32, k: int|
        v.outputs_of(tx) is Some && 0 <= k < v.outputs_of(tx)->0 implies #[trigger] v.id_of(
        (tx, k as i32),
    ) is Some by {
        let i = tx - map.min_tx;
        assert(v.counts[i] == count_at(map.base@, map.phantom_at@, i));
        let j = map.base@[i] - map.first_id() + k;
        assert(map.base@[i + 1] <= map.base@[map.base@.len() - 1]);
        assert(map.keys@[map.base@[i] - map.first_id() + k] == ((map.min_tx + i) as i32, k as i32));
        assert(v.keys[j] == (tx, k as i32));
    }
}

/// Registering a transaction that is known, with no more outputs than it was
/// registered with, succeeds and changes nothing at all, whatever has followed
/// it and in both modes.
pub proof fn known_transactions_are_repeats(v: NodeMapView, tx: i32, n: nat, line: u64)
    requires
        v.complete(),
        v.outputs_of(tx) is Some,
        n <= v.outputs_of(tx)->0,
    ensures
        v.registered(tx, n, line) == Ok::<NodeMapView, crate::error::ErrorView>(v),
{
    assert forall|k: int| 0 <= k < n implies #[trigger] v.id_of((tx, k as i32)) is Some by {
        assert(0 <= k < v.outputs_of(tx)->0);
    }
    lemma_minted_known(v, tx, n);
}

/// A call that changes a node map.
pub ghost enum Step {
    /// The outputs of a transaction are registered.
    Register { tx: i32, n: nat, line: u64 },
    /// A node is forced.
    Force { key: (i32, i32), line: u64 },
}

impl NodeMapView {
    /// The map after a call, or why it is refused.
    pub open spec fn step(self, step: Step) -> std::result::Result<
        NodeMapView,
        crate::error::ErrorView,
    > {
        match step {
            Step::Register { tx, n, line } => self.registered(tx, n, line),
            Step::Force { key, line } => self.forced(key, line),
        }
    }

    /// The map after some calls; one that is refused changes nothing.
    pub open spec fn after_steps(self, steps: Seq<Step>) -> NodeMapView
        decreases steps.len(),
    {
        if steps.len() == 0 {
            self
        } else {
            let v = self.after_steps(steps.drop_last());
            match v.step(steps.last()) {
                Ok(w) => w,
                Err(_) => v,
            }
        }
    }
}

/// Whatever is registered or forced later, no id and no output count that was
/// given ever changes, and every declared output keeps having an id.
pub proof fn steps_keep_what_was_given(v: NodeMapView, steps: Seq<Step>)
    requires
        v.coherent(),
    ensures
        v.after_steps(steps).coherent(),
        v.complete() ==> v.after_steps(steps).complete(),
        v.after_steps(steps).first_id == v.first_id,
        v.after_steps(steps).mode == v.mode,
        forall|tx: i32| #[trigger]
            v.outputs_of(tx) is Some ==> v.after_steps(steps).outputs_of(tx) == v.outputs_of(tx),
        forall|key: (i32, i32)| #[trigger]
            v.id_of(key) is Some ==> v.after_steps(steps).id_of(key) == v.id_of(key),
    decreases steps.len(),
{
    if steps.len() > 0 {
        steps_keep_what_was_given(v, steps.drop_last());
        let u = v.after_steps(steps.drop_last());
        if let Ok(w) = u.step(steps.last()) {
            lemma_step(u, steps.last(), w);
            assert forall|tx: i32| #[trigger] v.outputs_of(tx) is Some implies w.outputs_of(tx)
                == v.outputs_of(tx) by {
                assert(u.outputs_of(tx) is Some);
            }
            assert forall|key: (i32, i32)| #[trigger] v.id_of(key) is Some implies w.id_of(key)
                == v.id_of(key) by {
                assert(u.id_of(key) is Some);
            }
        }
    }
}

proof fn lemma_step(u: NodeMapView, step: Step, w: NodeMapView)
    requires
        u.coherent(),
        u.step(step) == Ok::<NodeMapView, crate::error::ErrorView>(w),
    ensures
        w.coherent(),
        u.complete() ==> w.complete(),
        w.first_id == u.first_id,
        w.mode == u.mode,
        forall|tx: i32| #[trigger]
            u.outputs_of(tx) is Some ==> w.outputs_of(tx) == u.outputs_of(tx),
        forall|key: (i32, i32)| #[trigger]
            u.id_of(key) is Some ==> w.id_of(key) == u.id_of(key),
{
    match step {
        Step::Register { tx, n, line } => {
            registration_keeps_ids(u, tx, n, line, w);
            lemma_minted_all(u, tx, n);
            if u.complete() {
                assert forall|t: i32, k: int|
                    w.outputs_of(t) is Some && 0 <= k
                        < w.outputs_of(t)->0 implies #[trigger] w.id_of((t, k as i32)) is Some by {
                    if u.outputs_of(t) is Some {
                        assert(u.id_of((t, k as i32)) is Some);
                    } else {
                        assert(t == tx);
                    }
                }
            }
        },
        Step::Force { key, line } => {
            forcing_keeps_ids(u, key, line, w, line);
            if u.complete() {
                assert forall|t: i32, k: int|
                    w.outputs_of(t) is Some && 0 <= k
                        < w.outputs_of(t)->0 implies #[trigger] w.id_of((t, k as i32)) is Some by {
                    assert(u.outputs_of(t) == w.outputs_of(t));
                    assert(u.id_of((t, k as i32)) is Some);
                }
            }
        },
    }
}

/// An output count once registered never changes: not by a repeat that declares
/// more or fewer outputs, and not by a forced node, even one whose id directly
/// follows those of the transaction.
pub proof fn output_counts_never_change(
    v: NodeMapView,
    tx: i32,
    n: nat,
    line: u64,
    w: NodeMapView,
    steps: Seq<Step>,
)
    requires
        v.coherent(),
        v.counts.len() == 0 || tx >= v.next_tx(),
        v.registered(tx, n, line) == Ok::<NodeMapView, crate::error::ErrorView>(w),
    ensures
        w.after_steps(steps).outputs_of(tx) == Some(n),
{
    registration_keeps_ids(v, tx, n, line, w);
    lemma_minted_all(v, tx, n);
    assert(w.outputs_of(tx) == Some(n));
    steps_keep_what_was_given(w, steps);
}

/// A hash map after get-or-create: a key that is not there gets the next
/// number.
pub open spec fn get_or_create(m: Map<(i32, i32), nat>, key: (i32, i32)) -> Map<(i32, i32), nat> {
    if m.contains_key(key) {
        m
    } else {
        m.insert(key, m.len())
    }
}

/// A hash map after get-or-create on the first `n` outputs of `tx`, in
/// ascending order.
pub open spec fn get_or_create_all(m: Map<(i32, i32), nat>, tx: i32, n: nat) -> Map<
    (i32, i32),
    nat,
>
    decreases n,
{
    if n == 0 {
        m
    } else {
        get_or_create(get_or_create_all(m, tx, (n - 1) as nat), (tx, (n - 1) as i32))
    }
}

/// A hash map after what some calls on a node map ask for, those that the node
/// map refuses left out.
pub open spec fn oracle(v: NodeMapView, m: Map<(i32, i32), nat>, steps: Seq<Step>) -> Map<
    (i32, i32),
    nat,
>
    decreases steps.len(),
{
    if steps.len() == 0 {
        m
    } else {
        let before = oracle(v, m, steps.drop_last());
        if v.after_steps(steps.drop_last()).step(steps.last()) is Err {
            before
        } else {
            match steps.last() {
                Step::Register { tx, n, line } => get_or_create_all(before, tx, n),
                Step::Force { key, line } => get_or_create(before, key),
            }
        }
    }
}

impl NodeMapView {
    /// The node map holds what the hash map does: as many keys, and the same
    /// number for each.
    pub open spec fn agrees(self, m: Map<(i32, i32), nat>) -> bool {
        &&& self.first_id == 0
        &&& m.dom().finite()
        &&& m.len() == self.next_id()
        &&& forall|key: (i32, i32)| #[trigger] m.contains_key(key) <==> self.keys.contains(key)
        &&& forall|key: (i32, i32)| #[trigger]
            m.contains_key(key) ==> m[key] == self.keys.index_of(key)
    }
}

/// A node map is a get-or-create map: after any calls it holds as many nodes as
/// the hash map does, every lookup gives what the hash map gives, and the ids of
/// a transaction's outputs are the numbers that the hash map has for them.
pub proof fn a_node_map_is_a_get_or_create_map(
    v: NodeMapView,
    m: Map<(i32, i32), nat>,
    steps: Seq<Step>,
)
    requires
        v.coherent(),
        v.agrees(m),
    ensures
        v.after_steps(steps).agrees(oracle(v, m, steps)),
        v.after_steps(steps).next_id() == oracle(v, m, steps).len(),
        forall|key: (i32, i32)| #[trigger]
            v.after_steps(steps).id_of(key) == if oracle(v, m, steps).contains_key(key) {
                Some(oracle(v, m, steps)[key] as usize)
            } else {
                None
            },
        forall|tx: i32, n: nat, k: int|
            0 <= k < n && oracle(v, m, steps).contains_key((tx, k as i32)) ==> (
            #[trigger] v.after_steps(steps).ids_of(tx, n)[k]) == oracle(v, m, steps)[(
                tx,
                k as i32,
            )] as usize,
    decreases steps.len(),
{
    if steps.len() > 0 {
        a_node_map_is_a_get_or_create_map(v, m, steps.drop_last());
        steps_keep_what_was_given(v, steps.drop_last());
        let u = v.after_steps(steps.drop_last());
        let before = oracle(v, m, steps.drop_last());
        if let Ok(w) = u.step(steps.last()) {
            match steps.last() {
                Step::Register { tx, n, line } => {
                    lemma_minted_all_agrees(u, before, tx, n);
                    lemma_minted_all(u, tx, n);
                },
                Step::Force { key, line } => {
                    lemma_minted_agrees(u, before, key);
                },
            }
        }
    }
}

proof fn lemma_minted_agrees(v: NodeMapView, m: Map<(i32, i32), nat>, key: (i32, i32))
    requires
        v.keys.no_duplicates(),
        v.agrees(m),
    ensures
        v.minted(key).agrees(get_or_create(m, key)),
{
    lemma_minted(v, key);
    let w = v.minted(key);
    let after = get_or_create(m, key);
    if !v.keys.contains(key) {
        assert(!m.contains_key(key));
        lemma_index_of(w.keys, v.keys.len() as int);
        assert forall|k: (i32, i32)| #[trigger] after.contains_key(k) implies after[k]
            == w.keys.index_of(k) by {
            if k != key {
                assert(m.contains_key(k));
                let i = v.keys.index_of(k);
                assert(w.keys[i] == k);
                lemma_index_of(w.keys, i);
            }
        }
        assert forall|k: (i32, i32)| #[trigger] after.contains_key(k) <==> w.keys.contains(k) by {
            assert(m.contains_key(k) <==> v.keys.contains(k));
        }
    }
}

proof fn lemma_minted_all_agrees(v: NodeMapView, m: Map<(i32, i32), nat>, tx: i32, n: nat)
    requires
        v.keys.no_duplicates(),
        v.agrees(m),
    ensures
        v.minted_all(tx, n).agrees(get_or_create_all(m, tx, n)),
    decreases n,
{
    if n > 0 {
        let k = (n - 1) as nat;
        lemma_minted_all_agrees(v, m, tx, k);
        lemma_minted_all(v, tx, k);
        lemma_minted_agrees(v.minted_all(tx, k), get_or_create_all(m, tx, k), (tx, k as i32));
    }
}

/// A new node map agrees with an empty hash map.
pub proof fn a_new_node_map_is_empty(v: NodeMapView)
    requires
        v.keys.len() == 0,
        v.counts.len() == 0,
        v.first_id == 0,
    ensures
        v.coherent(),
        v.complete(),
        v.agrees(Map::empty()),
{
}

/// A registration is refused for nothing but a gap before it: in strict mode for
/// any, in lenient mode for one of more than 2^20 transactions.
pub proof fn only_gaps_are_refused(v: NodeMapView, tx: i32, n: nat, line: u64)
    ensures
        v.registered(tx, n, line) is Err <==> v.counts.len() > 0 && tx > v.first_tx + v.counts.len()
            && (v.mode is Strict || tx - (v.first_tx + v.counts.len()) > 1_048_576),
        v.registered(tx, n, line) is Err ==> v.registered(tx, n, line)->Err_0 == if v.mode is Strict {
            crate::error::ErrorView::NonDenseTxId {
                line,
                expected: (v.first_tx + v.counts.len()) as i64,
                found: tx as i64,
            }
        } else {
            crate::error::ErrorView::TxIdGapTooLarge {
                line,
                expected: (v.first_tx + v.counts.len()) as i64,
                found: tx as i64,
            }
        },
{
}

/// A node is forced for every output of a transaction that was passed, and for
/// no other.
pub proof fn only_passed_outputs_are_forced(v: NodeMapView, key: (i32, i32), line: u64)
    ensures
        v.forced(key, line) is Ok <==> v.counts.len() > 0 && key.0 < v.first_tx + v.counts.len(),
        v.forced(key, line) is Err ==> v.forced(key, line)->Err_0
            == (crate::error::ErrorView::ForwardForcedNode {
            line,
            tx_id: key.0,
            offset: key.1,
            reached: (v.first_tx + v.counts.len() - 1) as i64,
        }),
{
}

/// The transactions in a gap that is filled have no outputs, and the one behind
/// it has those that it declares; the run goes on behind it. A repeat leaves the
/// run where it was.
pub proof fn gaps_are_filled_with_nothing(
    v: NodeMapView,
    tx: i32,
    n: nat,
    line: u64,
    w: NodeMapView,
    t: i32,
)
    requires
        v.coherent(),
        v.registered(tx, n, line) == Ok::<NodeMapView, crate::error::ErrorView>(w),
    ensures
        v.counts.len() > 0 && v.first_tx + v.counts.len() <= t < tx ==> w.outputs_of(t) == Some(
            0nat,
        ),
        v.counts.len() == 0 || tx >= v.first_tx + v.counts.len() ==> w.outputs_of(tx) == Some(n)
            && w.first_tx + w.counts.len() == tx + 1,
        v.counts.len() > 0 && tx < v.first_tx + v.counts.len() ==> w.first_tx + w.counts.len()
            == v.first_tx + v.counts.len(),
        t > tx && (v.counts.len() == 0 || t >= v.first_tx + v.counts.len()) ==> w.outputs_of(
            t,
        ) is None,
        v.counts.len() == 0 ==> w.first_tx == tx,
        v.counts.len() > 0 ==> w.first_tx == v.first_tx,
{
    lemma_minted_all(v, tx, n);
}

/// Nothing but the outputs that are registered gets a node: every key that has an
/// id afterwards had one before, or is one of them.
pub proof fn only_declared_outputs_get_nodes(
    v: NodeMapView,
    tx: i32,
    n: nat,
    line: u64,
    w: NodeMapView,
    key: (i32, i32),
)
    requires
        v.coherent(),
        n <= 0x8000_0000,
        v.registered(tx, n, line) == Ok::<NodeMapView, crate::error::ErrorView>(w),
        w.id_of(key) is Some,
    ensures
        v.id_of(key) is Some || (key.0 == tx && 0 <= key.1 < n),
    decreases n,
{
    lemma_minted_all(v, tx, n);
    lemma_only_minted(v, tx, n, key);
}

proof fn lemma_only_minted(v: NodeMapView, tx: i32, n: nat, key: (i32, i32))
    requires
        v.keys.no_duplicates(),
        n <= 0x8000_0000,
        v.minted_all(tx, n).keys.contains(key),
    ensures
        v.keys.contains(key) || (key.0 == tx && 0 <= key.1 < n),
    decreases n,
{
    if n > 0 {
        let k = (n - 1) as nat;
        lemma_minted_all(v, tx, k);
        lemma_minted(v.minted_all(tx, k), (tx, k as i32));
        if key != (tx, k as i32) {
            assert(v.minted_all(tx, k).keys.contains(key));
            lemma_only_minted(v, tx, k, key);
        }
    }
}

/// A listing holds every node and nothing else, ordered by transaction and then
/// by offset.
pub proof fn listings_hold_every_node(
    rows: Seq<(i32, i32, NodeId)>,
    v: NodeMapView,
    key: (i32, i32),
    id: NodeId,
    i: int,
    j: int,
)
    requires
        is_listing(rows, v),
    ensures
        rows.contains((key.0, key.1, id)) <==> v.id_of(key) == Some(id),
        0 <= i < j < rows.len() ==> rows[i].0 < rows[j].0 || (rows[i].0 == rows[j].0 && rows[i].1
            < rows[j].1),
{
    if rows.contains((key.0, key.1, id)) {
        let k = rows.index_of((key.0, key.1, id));
        assert(rows[k] == (key.0, key.1, id));
    }
    if v.id_of(key) == Some(id) {
        let k = v.keys.index_of(key);
        assert(v.keys[k] == key);
    }
    if 0 <= i < j < rows.len() {
        assert(key_below((rows[i].0, rows[i].1), (rows[j].0, rows[j].1)));
    }
}

/// A row is read back in all three columns: cut at its tabs, its pieces are the
/// transaction, the offset and the id. It ends in a line feed, and has no other.
pub proof fn rows_are_read_back(row: (i32, i32, NodeId))
    ensures
        row_bytes(row).len() > 0,
        row_bytes(row).last() == 10,
        forall|i: int|
            0 <= i < row_bytes(row).len() - 1 ==> #[trigger] row_bytes(row)[i] != 10,
        ({
            let p = text::pieces(row_bytes(row).drop_last(), 9);
            &&& p.len() == 3
            &&& text::i32_value(p[0]) == Some(row.0)
            &&& text::i32_value(p[1]) == Some(row.1)
            &&& text::usize_value(p[2]) == Some(row.2)
        }),
{
    let a = text::signed_decimal_bytes(row.0 as int);
    let b = text::signed_decimal_bytes(row.1 as int);
    let c = text::decimal_bytes(row.2 as nat);
    text::written_numbers_are_read(row.0 as int);
    text::written_numbers_are_read(row.1 as int);
    text::written_numbers_are_read(row.2 as int);
    assert(c == text::signed_decimal_bytes(row.2 as int));
    let parts = seq![a, b, c];
    assert(text::free_of(parts, 9));
    text::cutting_undoes_joining(parts, 9);
    assert(parts.drop_last() =~= seq![a, b]);
    assert(seq![a, b].drop_last() =~= seq![a]);
    assert(text::joined_by(seq![a], 9) == a);
    assert(text::joined_by(seq![a, b], 9) == a.push(9) + b);
    assert(row_bytes(row).drop_last() =~= text::joined_by(parts, 9));
    assert forall|i: int| 0 <= i < row_bytes(row).len() - 1 implies #[trigger] row_bytes(row)[i]
        != 10 by {
        let k = i - a.len() - 1;
        let l = k - b.len() - 1;
        if i < a.len() {
            assert(row_bytes(row)[i] == a[i]);
        } else if i > a.len() && k < b.len() {
            assert(row_bytes(row)[i] == b[k]);
        } else if l >= 0 {
            assert(row_bytes(row)[i] == c[l]);
        }
    }
}

/// The rows of a file, without their line feeds.
pub open spec fn row_lines(rows: Seq<(i32, i32, NodeId)>) -> Seq<Seq<u8>> {
    Seq::new(rows.len(), |i: int| row_bytes(rows[i]).drop_last())
}

/// A node map file has one line for each row, in their order; it is read back row
/// by row, so that two listings with the same file are the same listing.
pub proof fn node_map_files_are_read_back(
    rows: Seq<(i32, i32, NodeId)>,
    others: Seq<(i32, i32, NodeId)>,
)
    ensures
        text::pieces(tsv_bytes(rows), 10) == row_lines(rows).push(Seq::empty()),
        tsv_bytes(rows) == tsv_bytes(others) ==> rows == others,
{
    lemma_file_lines(rows);
    lemma_file_lines(others);
    if tsv_bytes(rows) == tsv_bytes(others) {
        let a = row_lines(rows).push(Seq::empty());
        let b = row_lines(others).push(Seq::empty());
        assert(a == b);
        assert(row_lines(rows).len() == rows.len() && row_lines(others).len() == others.len());
        assert(a.len() == rows.len() + 1 && b.len() == others.len() + 1);
        assert forall|i: int| 0 <= i < rows.len() implies rows[i] == others[i] by {
            assert(a[i] == row_bytes(rows[i]).drop_last());
            assert(b[i] == row_bytes(others[i]).drop_last());
            rows_are_read_back(rows[i]);
            rows_are_read_back(others[i]);
        }
        assert(rows =~= others);
    }
}

proof fn lemma_file_lines(rows: Seq<(i32, i32, NodeId)>)
    ensures
        text::pieces(tsv_bytes(rows), 10) == row_lines(rows).push(Seq::empty()),
    decreases rows.len(),
{
    let lines = row_lines(rows);
    if rows.len() == 0 {
        assert(lines.push(Seq::empty()) =~= seq![Seq::<u8>::empty()]);
    } else {
        let init = rows.drop_last();
        lemma_file_lines(init);
        rows_are_read_back(rows.last());
        let line = row_bytes(rows.last()).drop_last();
        let all = tsv_bytes(init) + line;
        lemma_line_appended(tsv_bytes(init), line);
        assert(tsv_bytes(rows) =~= all.push(10));
        assert(all.push(10).drop_last() =~= all);
        assert(row_lines(init).push(Seq::empty()).drop_last() =~= row_lines(init));
        assert(lines =~= row_lines(init).push(line));
    }
}

/// What follows the last separator belongs to the last piece.
proof fn lemma_line_appended(a: Seq<u8>, line: Seq<u8>)
    requires
        text::pieces(a, 10).last().len() == 0,
        forall|i: int| 0 <= i < line.len() ==> #[trigger] line[i] != 10,
    ensures
        text::pieces(a + line, 10) == text::pieces(a, 10).drop_last().push(line),
    decreases line.len(),
{
    let p = text::pieces(a, 10);
    text::lemma_pieces_len(a, 10);
    if line.len() == 0 {
        assert(a + line =~= a);
        assert(line =~= p.last());
        assert(p =~= p.drop_last().push(line));
    } else {
        let init = line.drop_last();
        lemma_line_appended(a, init);
        assert((a + line).drop_last() =~= a + init);
        assert((a + line).last() == line.last() && line[line.len() - 1] != 10);
        let before = p.drop_last().push(init);
        assert(init.push(line.last()) =~= line);
        assert(before.drop_last().push(before.last().push(line.last())) =~= p.drop_last().push(
            line,
        ));
    }
}

/// A gap is filled where it is bridged: with as many transactions as it skips,
/// in lenient mode, where it is not too large. Without the memory for it the
/// registration is refused; else it is what it would be.
pub proof fn gaps_are_filled_where_they_are_bridged(
    v: NodeMapView,
    tx: i32,
    n: nat,
    line: u64,
    had: bool,
)
    ensures
        ({
            let next = v.first_tx + v.counts.len();
            let gap = v.counts.len() > 0 && tx > next && v.mode is Lenient && tx - next
                <= 1_048_576;
            &&& v.filled_before(tx) == if gap {
                (tx - next) as nat
            } else {
                0
            }
            &&& !gap || had ==> v.registered_given(tx, n, line, had) == v.registered(tx, n, line)
            &&& gap && !had ==> v.registered_given(tx, n, line, had) is Err
        }),
{
}

/// What is said of a gap that could not be filled tells the line, the
/// transaction that was found, the one that was expected, and how many there are
/// between them.
#[verifier::spinoff_prover]
#[verifier::rlimit(50)]
pub proof fn unfilled_gaps_are_told(line: u64, expected: int, found: int)
    ensures
        ("line "@ + text::decimal(line as nat)).is_prefix_of(bridge_failure(line, expected, found)),
        text::tells(
            bridge_failure(line, expected, found),
            ": transaction id "@ + text::signed_decimal(found) + " skips ahead of "@
                + text::signed_decimal(expected) + "; filling the "@ + text::signed_decimal(
                found - expected,
            ) + "-id gap needs "@ + text::decimal((8 * (found - expected)) as nat),
        ),
{
    let m = bridge_failure(line, expected, found);
    let start = "line "@ + text::decimal(line as nat);
    assert(m.take(start.len() as int) =~= start);
    text::lemma_tells(
        m,
        start,
        ": transaction id "@ + text::signed_decimal(found) + " skips ahead of "@
            + text::signed_decimal(expected) + "; filling the "@ + text::signed_decimal(
            found - expected,
        ) + "-id gap needs "@ + text::decimal((8 * (found - expected)) as nat),
        " bytes, which could not be allocated; the input's transaction ids are not consecutive"@,
    );
}

} // verus!
