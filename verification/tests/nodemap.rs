use std::collections::HashMap;
use utxo2webgraph::nodemap::DenseNodeMap;
use utxo2webgraph::{pack, unpack, Error, Mode, NodeId};

fn register(m: &mut DenseNodeMap, tx: i32, n: u32) -> Vec<NodeId> {
    let mut out = Vec::new();
    m.register_tx(tx, n, tx as u64 + 1, &mut out).unwrap();
    out
}

fn tsv_of(m: &DenseNodeMap) -> String {
    let mut tsv = Vec::new();
    m.write_tsv(&mut tsv).unwrap();
    String::from_utf8(tsv).unwrap()
}

fn keys_of(text: &str) -> Vec<(i64, i64)> {
    text.lines()
        .map(|l| {
            let mut f = l.split('\t');
            (
                f.next().unwrap().parse().unwrap(),
                f.next().unwrap().parse().unwrap(),
            )
        })
        .collect()
}

#[test]
fn a_lenient_gap_beyond_the_ceiling_is_refused_rather_than_allocated() {
    let mut m = DenseNodeMap::new(Mode::Lenient);
    let mut out = Vec::new();
    m.register_tx(0, 1, 1, &mut out).expect("first tx");

    let err = m
        .register_tx(i32::MAX, 1, 2, &mut out)
        .expect_err("a 2.1e9-id gap must be refused");
    let text = err.to_string();
    match err {
        Error::TxIdGapTooLarge {
            line,
            expected,
            found,
        } => {
            assert_eq!(line, 2);
            assert_eq!(expected, 1);
            assert_eq!(found, i32::MAX as i64);
            assert!(
                !text.contains("re-run with --lenient"),
                "must not advise the flag the operator already passed: {text}"
            );
        }
        other => panic!("expected TxIdGapTooLarge, got {other:?}"),
    }

    // A gap inside the ceiling is still bridged.
    let mut m = DenseNodeMap::new(Mode::Lenient);
    m.register_tx(0, 1, 1, &mut out).expect("first tx");
    m.register_tx(5, 2, 2, &mut out).expect("small gap is filled");
    assert_eq!(out, vec![1, 2]);
    assert_eq!(m.lookup(0, 0), Some(0));
    assert_eq!(m.lookup(5, 1), Some(2));
    // The filler transactions have no outputs.
    assert_eq!(m.lookup(3, 0), None);
}

#[test]
fn dense_assigns_contiguous_ids() {
    let mut m = DenseNodeMap::new(Mode::Strict);
    assert_eq!(register(&mut m, 0, 1), vec![0]);
    assert_eq!(register(&mut m, 1, 2), vec![1, 2]);
    assert_eq!(register(&mut m, 2, 0), Vec::<NodeId>::new());
    assert_eq!(register(&mut m, 3, 3), vec![3, 4, 5]);

    assert_eq!(m.lookup(0, 0), Some(0));
    assert_eq!(m.lookup(1, 0), Some(1));
    assert_eq!(m.lookup(3, 0), Some(3));
    assert_eq!(m.next_id(), 6);
    assert_eq!(m.distinct_nodes(), 6);

    assert_eq!(m.lookup(1, 1), Some(2));
    assert_eq!(m.lookup(2, 0), None); // zero outputs
    assert_eq!(m.lookup(99, 0), None); // never registered
    assert_eq!(m.num_outputs(1), Some(2));
    assert_eq!(m.num_outputs(2), Some(0));
    assert_eq!(m.num_outputs(3), Some(3));
    assert_eq!(m.num_outputs(4), None);
}

#[test]
fn ids_are_not_capped_at_thirty_two_bits() {
    const HIGH: NodeId = 1 << 32;
    let mut m = DenseNodeMap::new(Mode::Strict);
    m.next_id = HIGH;

    assert_eq!(register(&mut m, 0, 3), vec![HIGH, HIGH + 1, HIGH + 2]);
    assert_eq!(register(&mut m, 1, 2), vec![HIGH + 3, HIGH + 4]);
    assert_eq!(m.lookup(0, 2), Some(HIGH + 2));
    assert_eq!(m.lookup(1, 1), Some(HIGH + 4));
    assert_eq!(m.num_outputs(0), Some(3));
    assert_eq!(m.next_id(), HIGH + 5);
    assert_eq!(m.distinct_nodes(), HIGH as u64 + 5);

    // A forced node above the ceiling behaves the same way.
    assert_eq!(m.force_create(0, 9, 1).unwrap(), HIGH + 5);
    assert_eq!(m.lookup(0, 9), Some(HIGH + 5));

    // And every id survives the TSV round trip in full.
    assert_eq!(
        tsv_of(&m),
        "0\t0\t4294967296\n0\t1\t4294967297\n0\t2\t4294967298\n\
         0\t9\t4294967301\n1\t0\t4294967299\n1\t1\t4294967300\n"
    );
}

#[test]
fn dense_rejects_non_dense_tx_ids_in_strict_mode() {
    let mut m = DenseNodeMap::new(Mode::Strict);
    register(&mut m, 0, 1);
    let mut out = Vec::new();
    match m.register_tx(5, 1, 2, &mut out) {
        Err(Error::NonDenseTxId {
            line: 2,
            expected: 1,
            found: 5,
        }) => {}
        other => panic!("expected NonDenseTxId, got {other:?}"),
    }
}

#[test]
fn dense_fills_gaps_in_lenient_mode() {
    let mut m = DenseNodeMap::new(Mode::Lenient);
    register(&mut m, 0, 1);
    let ids = register(&mut m, 5, 1);
    assert_eq!(ids, vec![1]);
    assert_eq!(m.lookup(5, 0), Some(1));
    // The filler transactions exist with zero outputs.
    assert_eq!(m.num_outputs(3), Some(0));
    assert_eq!(m.lookup(3, 0), None);
    assert_eq!(m.next_id(), 2);
}

#[test]
fn dense_backwards_tx_id_reuses_the_original_ids() {
    for mode in [Mode::Strict, Mode::Lenient] {
        let mut m = DenseNodeMap::new(mode);
        assert_eq!(register(&mut m, 0, 1), vec![0]);
        assert_eq!(register(&mut m, 1, 1), vec![1]);
        let mut out = Vec::new();
        m.register_tx(0, 1, 3, &mut out)
            .unwrap_or_else(|e| panic!("{mode:?}: backwards txId must be accepted: {e:?}"));
        assert_eq!(out, vec![0], "{mode:?}: the original id comes back");
        assert_eq!(m.next_id(), 2, "{mode:?}: nextId must not move");
        assert_eq!(m.distinct_nodes(), 2);
    }
}

#[test]
fn bip30_duplicate_tx_id_reuses_original_ids() {
    for mode in [Mode::Strict, Mode::Lenient] {
        let mut m = DenseNodeMap::new(mode);
        let first = register(&mut m, 100, 1);
        assert_eq!(first, vec![0]);
        for tx in 101..=160 {
            register(&mut m, tx, 2);
        }
        let next_id_before = m.next_id();
        let distinct_before = m.distinct_nodes();

        let again = register(&mut m, 100, 1);
        assert_eq!(again, first, "{mode:?}: the duplicate keeps the original id");
        assert_eq!(m.next_id(), next_id_before, "{mode:?}: nextId must not move");
        assert_eq!(
            m.distinct_nodes(),
            distinct_before,
            "{mode:?}: no new node was created"
        );
        assert_eq!(m.lookup(100, 0), Some(0), "{mode:?}: lookup sees the first");
        assert!(
            m.phantom_at.is_empty(),
            "{mode:?}: a BIP-30 duplicate must not create a phantom"
        );
        assert!(m.extra.is_empty(), "{mode:?}: and must not touch `extra`");
        assert_eq!(m.num_outputs(100), Some(1));

        // One row per distinct key, still ascending.
        let text = tsv_of(&m);
        let rows: Vec<&str> = text.lines().collect();
        assert_eq!(rows.len(), m.distinct_nodes() as usize);
        assert_eq!(rows[0], "100\t0\t0");
        let keys = keys_of(&text);
        let mut sorted = keys.clone();
        sorted.sort_unstable();
        sorted.dedup();
        assert_eq!(keys, sorted, "{mode:?}: ascending and duplicate-free");
    }
}

#[test]
fn repeat_with_more_outputs_mints_only_the_overflow() {
    for mode in [Mode::Strict, Mode::Lenient] {
        let mut m = DenseNodeMap::new(mode);
        let first = register(&mut m, 100, 2);
        assert_eq!(first, vec![0, 1]);
        for tx in 101..=110 {
            register(&mut m, tx, 1);
        }
        let next_id_before = m.next_id();
        let distinct_before = m.distinct_nodes();

        let again = register(&mut m, 100, 4);
        assert_eq!(&again[..2], &first[..], "{mode:?}: offsets 0,1 are reused");
        assert_eq!(
            &again[2..],
            &[next_id_before, next_id_before + 1],
            "{mode:?}: offsets 2,3 are freshly minted"
        );
        assert_eq!(m.next_id(), next_id_before + 2);
        assert_eq!(
            m.distinct_nodes(),
            distinct_before + 2,
            "{mode:?}: exactly two new nodes"
        );
        assert_eq!(m.lookup(100, 0), Some(0));
        assert_eq!(m.lookup(100, 1), Some(1));
        assert_eq!(m.lookup(100, 2), Some(next_id_before));
        assert_eq!(m.lookup(100, 3), Some(next_id_before + 1));

        // Still one ascending row per distinct key, overflow included.
        let keys = keys_of(&tsv_of(&m));
        assert_eq!(keys.len(), m.distinct_nodes() as usize);
        let mut sorted = keys.clone();
        sorted.sort_unstable();
        sorted.dedup();
        assert_eq!(keys, sorted, "{mode:?}: ascending and duplicate-free");
        assert!(keys.contains(&(100, 2)) && keys.contains(&(100, 3)));
    }
}

#[test]
fn repeat_below_the_rebase_floor_is_force_created() {
    let mut m = DenseNodeMap::new(Mode::Strict);
    register(&mut m, 100, 1);
    register(&mut m, 101, 1);
    let ids = register(&mut m, 50, 1);
    assert_eq!(ids, vec![2], "a fresh id, since 50 has no dense slot");
    assert_eq!(m.lookup(50, 0), Some(2));
    assert_eq!(m.distinct_nodes(), 3);
    // Idempotent: a third sighting reuses the force-created id.
    assert_eq!(register(&mut m, 50, 1), vec![2]);
    assert_eq!(m.distinct_nodes(), 3);
}

#[test]
fn dense_force_create_keeps_the_prefix_sum_honest() {
    let mut m = DenseNodeMap::new(Mode::Strict);
    register(&mut m, 10, 2);
    let phantom = m.force_create(5, 7, 1).unwrap();
    assert_eq!(phantom, 2);
    assert_eq!(m.lookup(5, 7), Some(2));
    // Re-creating the same key is idempotent.
    assert_eq!(m.force_create(5, 7, 1).unwrap(), 2);
    // The next transaction still starts after the phantom, and the output
    // count of the previous one is unaffected.
    assert_eq!(register(&mut m, 11, 1), vec![3]);
    assert_eq!(m.num_outputs(10), Some(2));
    assert_eq!(m.num_outputs(11), Some(1));
    assert_eq!(m.lookup(10, 0), Some(0));
    assert_eq!(m.lookup(10, 1), Some(1));
    assert_eq!(m.lookup(11, 0), Some(3));
    assert_eq!(m.next_id(), 4);

    assert_eq!(tsv_of(&m), "5\t7\t2\n10\t0\t0\n10\t1\t1\n11\t0\t3\n");
}

#[test]
fn force_create_refuses_a_txid_the_cursor_has_not_reached() {
    let mut m = DenseNodeMap::new(Mode::Strict);
    register(&mut m, 0, 1);

    for forward in [1, 2, 999] {
        match m.force_create(forward, 0, 7) {
            Err(Error::ForwardForcedNode {
                line: 7,
                tx_id,
                offset: 0,
                reached: 0,
            }) => assert_eq!(tx_id, forward),
            other => panic!("expected ForwardForcedNode for {forward}, got {other:?}"),
        }
    }

    // The refusal is total: nothing was minted, nothing was recorded.
    assert_eq!(m.next_id(), 1);
    assert!(m.extra.is_empty() && m.phantom_at.is_empty());
    assert_eq!(register(&mut m, 1, 1), vec![1]);
    assert_eq!(m.lookup(1, 0), Some(1));
    assert_eq!(m.distinct_nodes(), 2);

    assert_eq!(tsv_of(&m), "0\t0\t0\n1\t0\t1\n");
}

#[test]
fn force_create_refuses_everything_before_the_first_transaction() {
    let mut m = DenseNodeMap::new(Mode::Strict);
    match m.force_create(0, 0, 1) {
        Err(Error::ForwardForcedNode { reached: -1, .. }) => {}
        other => panic!("expected ForwardForcedNode, got {other:?}"),
    }
    assert_eq!(m.next_id(), 0);
    assert_eq!(register(&mut m, 0, 1), vec![0]);
}

#[test]
fn repeat_registration_is_idempotent() {
    let mut m = DenseNodeMap::new(Mode::Strict);
    let a = register(&mut m, 7, 2);
    let b = register(&mut m, 7, 2);
    assert_eq!(a, vec![0, 1]);
    assert_eq!(b, vec![0, 1]);
    assert_eq!(m.next_id(), 2);
    assert_eq!(m.distinct_nodes(), 2);
}

#[test]
fn write_tsv_is_ascending_by_tx_and_offset() {
    let mut m = DenseNodeMap::new(Mode::Strict);
    register(&mut m, 0, 1);
    register(&mut m, 1, 2);
    register(&mut m, 2, 1);
    assert_eq!(tsv_of(&m), "0\t0\t0\n1\t0\t1\n1\t1\t2\n2\t0\t3\n");
}

/// The same map, written out literally: one hash entry per key, ids minted on
/// first sight.
#[derive(Default)]
struct GetOrCreateOracle {
    nodes: HashMap<u64, NodeId>,
    next_id: NodeId,
}

impl GetOrCreateOracle {
    fn get_or_create(&mut self, tx: i32, offset: i32) -> NodeId {
        let next = &mut self.next_id;
        *self.nodes.entry(pack(tx, offset)).or_insert_with(|| {
            let id = *next;
            *next += 1;
            id
        })
    }

    fn register(&mut self, tx: i32, n: u32, out: &mut Vec<NodeId>) {
        out.clear();
        for offset in 0..n as i32 {
            let id = self.get_or_create(tx, offset);
            out.push(id);
        }
    }

    fn lookup(&self, tx: i32, offset: i32) -> Option<NodeId> {
        self.nodes.get(&pack(tx, offset)).copied()
    }

    fn tsv(&self) -> String {
        let mut rows: Vec<(i32, i32, NodeId)> = self
            .nodes
            .iter()
            .map(|(k, v)| {
                let (t, o) = unpack(*k);
                (t, o, *v)
            })
            .collect();
        rows.sort_unstable();
        rows.iter()
            .map(|(t, o, i)| format!("{t}\t{o}\t{i}\n"))
            .collect()
    }
}

#[test]
fn dense_matches_a_get_or_create_oracle_on_a_long_random_run() {
    // A fixed LCG keeps this reproducible.
    let mut state: u64 = 0x2545_F491_4F6C_DD1D;
    let mut next = move || {
        state = state
            .wrapping_mul(6364136223846793005)
            .wrapping_add(1442695040888963407);
        (state >> 33) as u32
    };

    let mut dense = DenseNodeMap::new(Mode::Strict);
    let mut oracle = GetOrCreateOracle::default();
    let mut a = Vec::new();
    let mut b = Vec::new();
    let mut probes: Vec<(i32, i32)> = Vec::new();
    let mut counts: Vec<u32> = Vec::new();

    for tx in 0..5000i32 {
        let n = next() % 5; // 0..4 outputs, including zero-output txs
        counts.push(n);
        dense.register_tx(tx, n, tx as u64 + 1, &mut a).unwrap();
        oracle.register(tx, n, &mut b);
        assert_eq!(a, b, "output ids diverged at tx {tx}");
        if n > 0 {
            probes.push((tx, (next() % n) as i32));
        }
        // Every 250th transaction, re-emit an earlier one with the SAME
        // output count.
        if tx > 0 && tx % 250 == 0 {
            let back = tx - (next() % tx as u32) as i32 - 1;
            let back = back.max(0);
            let bn = counts[back as usize];
            dense
                .register_tx(back, bn, tx as u64 + 1, &mut a)
                .unwrap_or_else(|e| panic!("repeat of tx {back} at {tx} failed: {e:?}"));
            oracle.register(back, bn, &mut b);
            assert_eq!(a, b, "repeat of tx {back} diverged at tx {tx}");
        }
    }

    assert_eq!(dense.next_id(), oracle.next_id);
    assert_eq!(dense.distinct_nodes(), oracle.nodes.len() as u64);
    for (tx, off) in probes {
        assert_eq!(dense.lookup(tx, off), oracle.lookup(tx, off));
        assert_eq!(dense.lookup(tx, off + 100), oracle.lookup(tx, off + 100));
    }

    assert_eq!(tsv_of(&dense), oracle.tsv());
}

#[test]
fn negative_ids_are_listed_before_the_others() {
    let mut m = DenseNodeMap::new(Mode::Lenient);
    assert_eq!(register(&mut m, -5, 1), vec![0]);
    let mut out = Vec::new();
    m.register_tx(-4, 2, 2, &mut out).unwrap();
    assert_eq!(m.force_create(-9, -3, 3).unwrap(), 3);
    assert_eq!(tsv_of(&m), "-9\t-3\t3\n-5\t0\t0\n-4\t0\t1\n-4\t1\t2\n");
}

#[test]
fn a_presized_map_is_an_empty_one() {
    for m in [
        DenseNodeMap::sized(Mode::Strict, Some(1000)),
        DenseNodeMap::sized(Mode::Strict, None),
        DenseNodeMap::with_capacity(Mode::Strict, 16),
    ] {
        assert_eq!(m.next_id(), 0);
        assert_eq!(m.lookup(0, 0), None);
        assert_eq!(m.num_outputs(0), None);
        assert_eq!(tsv_of(&m), "");
    }
}

#[test]
fn forcing_keeps_every_id() {
    let mut m = DenseNodeMap::new(Mode::Strict);
    register(&mut m, 3, 2);
    register(&mut m, 4, 1);
    let before: Vec<_> = [(3, 0), (3, 1), (4, 0)].iter().map(|&(t, o)| m.lookup(t, o)).collect();
    assert_eq!(m.force_create(3, 7, 1).unwrap(), 3);
    assert_eq!(m.force_create(4, 0, 1).unwrap(), 2, "an output that exists is not minted again");
    let after: Vec<_> = [(3, 0), (3, 1), (4, 0)].iter().map(|&(t, o)| m.lookup(t, o)).collect();
    assert_eq!(before, after);
    assert_eq!(m.next_id(), 4);
}

#[test]
fn an_output_count_outlives_repeats_and_forced_nodes() {
    let mut map = DenseNodeMap::new(Mode::Lenient);
    let mut out = Vec::new();
    map.register_tx(4, 2, 1, &mut out).unwrap();
    assert_eq!(map.num_outputs(4), Some(2));
    assert_eq!(map.force_create(4, 7, 2).unwrap(), 2);
    map.register_tx(4, 5, 3, &mut out).unwrap();
    assert_eq!(out, vec![0, 1, 3, 4, 5]);
    map.register_tx(5, 1, 4, &mut out).unwrap();
    map.register_tx(4, 1, 5, &mut out).unwrap();
    assert_eq!(out, vec![0]);
    assert_eq!(map.num_outputs(4), Some(2));
    assert_eq!(map.num_outputs(5), Some(1));
    assert_eq!(map.lookup(4, 7), Some(2));
    assert_eq!(map.next_id(), 7);
}

#[test]
fn a_gap_is_filled_only_where_there_is_memory() {
    let mut map = DenseNodeMap::new(Mode::Lenient);
    let mut out = vec![9];
    assert_eq!(map.next_tx(), None);
    // Nothing to fill: it does not matter whether there is memory.
    map.register_given(3, 2, 1, false, &mut out).unwrap();
    assert_eq!(out, vec![0, 1]);
    map.register_given(4, 1, 2, false, &mut out).unwrap();
    assert_eq!(map.next_tx(), Some(5));
    // A gap, without the memory for it: the map stays as it was.
    match map.register_given(7, 1, 3, false, &mut out) {
        Err(Error::Other(msg)) => assert_eq!(
            msg,
            "line 3: transaction id 7 skips ahead of 5; filling the 2-id gap needs 16 bytes, \
             which could not be allocated; the input's transaction ids are not consecutive"
        ),
        other => panic!("expected an allocation error, got {other:?}"),
    }
    assert!(out.is_empty());
    assert_eq!((map.next_id(), map.next_tx()), (3, Some(5)));
    assert_eq!(map.num_outputs(7), None);
    // A repeat needs none.
    map.register_given(3, 2, 4, false, &mut out).unwrap();
    assert_eq!(out, vec![0, 1]);
    // The same gap with the memory for it.
    map.register_given(7, 1, 5, true, &mut out).unwrap();
    assert_eq!(out, vec![3]);
    assert_eq!((map.num_outputs(5), map.num_outputs(6)), (Some(0), Some(0)));
    assert_eq!(map.next_tx(), Some(8));

    let mut strict = DenseNodeMap::new(Mode::Strict);
    strict.register_given(0, 1, 1, true, &mut out).unwrap();
    assert!(matches!(
        strict.register_given(2, 1, 2, false, &mut out),
        Err(Error::NonDenseTxId { line: 2, expected: 1, found: 2 })
    ));
}
