use std::collections::HashMap;

use maelstrom_raft::counters::{GCounter, PnCounter};
use maelstrom_raft::datomic::DatomicState;
use maelstrom_raft::store::{IdGenerator, SerializableMap, Thunk};
use maelstrom_raft::txn::{
    commit_step, first_commit_step, save_outcome, CommitAction,
    execute_txns, keys_to_load, next_root, parse_txn, txn_ready, RootPointer, ThunkCache,
    TxnOp, TxnResult,
};

#[test]
fn ids_count_up_per_node() {
    let mut ids = IdGenerator::init("n1".to_string());
    assert_eq!(ids.get_next_id(), "n1-0");
    assert_eq!(ids.get_next_id(), "n1-1");
}

#[test]
fn txn_append_then_read_sees_both() {
    let mut map = SerializableMap::init();
    let mut ids = IdGenerator::init("n1".to_string());
    let ops = vec![TxnOp::Append(1, 1), TxnOp::Append(1, 2), TxnOp::Read(1)];
    assert!(txn_ready(&map, &ops));
    let results = execute_txns(&mut map, &ops, &mut ids);
    assert!(matches!(results[0], TxnResult::Append(1, 1)));
    assert!(matches!(results[1], TxnResult::Append(1, 2)));
    match &results[2] {
        TxnResult::Read(1, Some(l)) => assert_eq!(l, &vec![1, 2]),
        other => panic!("unexpected {:?}", other),
    }
    assert!(map.has_changed());
    let (root, json) = next_root(&map, &"init".to_string(), &mut ids);
    assert_eq!(root, "n1-2");
    assert_eq!(json.unwrap(), vec![("1".to_string(), "n1-1".to_string())]);
}

#[test]
fn read_of_missing_key_is_none() {
    let mut map = SerializableMap::init();
    let mut ids = IdGenerator::init("n1".to_string());
    let results = execute_txns(&mut map, &vec![TxnOp::Read(4)], &mut ids);
    assert!(matches!(results[0], TxnResult::Read(4, None)));
    assert!(!map.has_changed());
    let (root, json) = next_root(&map, &"r0".to_string(), &mut ids);
    assert_eq!(root, "r0");
    assert!(json.is_none());
}

#[test]
fn map_text_form_round_trip() {
    let mut map = SerializableMap::init();
    map.append(-3, 1, "a-1".to_string());
    map.append(12, 2, "a-2".to_string());
    let json = map.to_json();
    assert_eq!(json, vec![("-3".to_string(), "a-1".to_string()), ("12".to_string(), "a-2".to_string())]);
    let back = SerializableMap::from_json(&json).unwrap();
    assert!(!back.has_changed());
    assert_eq!(back.to_json(), json);
    assert_eq!(back.missing_thunk(12), Some("a-2".to_string()));
    assert!(SerializableMap::from_json(&vec![("k".to_string(), "x".to_string())]).is_none());
}

#[test]
fn thunks_load_and_save() {
    let mut map = SerializableMap::from_json(&vec![("5".to_string(), "n2-7".to_string())]).unwrap();
    let ops = vec![TxnOp::Read(5), TxnOp::Append(5, 3)];
    assert!(!txn_ready(&map, &ops));
    let to_load = keys_to_load(&map, &ops);
    assert_eq!(to_load[0], (5, "n2-7".to_string()));
    map.load(5, vec![1, 2]);
    assert!(txn_ready(&map, &ops));
    let mut ids = IdGenerator::init("n1".to_string());
    let results = execute_txns(&mut map, &ops, &mut ids);
    match &results[0] {
        TxnResult::Read(5, Some(l)) => assert_eq!(l, &vec![1, 2]),
        other => panic!("unexpected {:?}", other),
    }
    let unsaved = map.unsaved();
    assert_eq!(unsaved, vec![("n1-0".to_string(), vec![1, 2, 3])]);
    map.mark_saved(5);
    assert!(map.unsaved().is_empty());

    let t = Thunk::init("x".to_string(), None, false);
    assert!(t.value().is_none());
    assert!(!t.is_saved());
}

#[test]
fn parse_txn_kinds() {
    assert_eq!(parse_txn(&"r".to_string(), 1, None), Some(TxnOp::Read(1)));
    assert_eq!(parse_txn(&"append".to_string(), 1, Some(2)), Some(TxnOp::Append(1, 2)));
    assert_eq!(parse_txn(&"append".to_string(), 1, None), None);
    assert_eq!(parse_txn(&"w".to_string(), 1, Some(2)), None);
}

#[test]
fn cas_root_moves_pointer_only_on_success() {
    let mut root = RootPointer::init("r0".to_string());
    let err = root.cas_root("r1".to_string(), &"error".to_string()).err().unwrap();
    assert_eq!(err.code, 30);
    assert_eq!(root.read_root(), "r0");
    assert!(root.cas_root("r1".to_string(), &"cas_ok".to_string()).is_ok());
    assert_eq!(root.read_root(), "r1");
}

#[test]
fn saved_thunk_is_cached() {
    let mut cache = ThunkCache::init();
    assert!(cache.lookup(&"a".to_string()).is_none());
    cache.record("a".to_string(), vec![1]);
    cache.record("b".to_string(), vec![2]);
    cache.record("a".to_string(), vec![3]);
    assert_eq!(cache.lookup(&"a".to_string()), Some(vec![3]));
    assert_eq!(cache.lookup(&"b".to_string()), Some(vec![2]));
}

/// Two nodes append to one key through a shared store whose root moves by
/// compare-and-set; every append survives exactly once.
#[test]
fn concurrent_txns_keep_every_append() {
    let mut store: HashMap<String, Vec<i32>> = HashMap::new();
    let mut roots: HashMap<String, Vec<(String, String)>> = HashMap::new();
    roots.insert("root-0".to_string(), vec![]);
    let mut current_root = "root-0".to_string();
    let mut gens = vec![IdGenerator::init("n1".to_string()), IdGenerator::init("n2".to_string())];
    for i in 0..100 {
        for node in 0..2 {
            let value = (node as i32) * 1000 + i;
            loop {
                let seen_root = current_root.clone();
                let mut map = SerializableMap::from_json(&roots[&seen_root]).unwrap();
                let ops = vec![TxnOp::Append(5, value)];
                for (k, id) in keys_to_load(&map, &ops) {
                    map.load(k, store[&id].clone());
                }
                execute_txns(&mut map, &ops, &mut gens[node]);
                for (id, list) in map.unsaved() {
                    store.insert(id, list);
                }
                let (new_root, json) = next_root(&map, &seen_root, &mut gens[node]);
                roots.insert(new_root.clone(), json.unwrap());
                let mut pointer = RootPointer::init(seen_root.clone());
                let response = if current_root == seen_root { "cas_ok" } else { "error" };
                if pointer.cas_root(new_root, &response.to_string()).is_ok() {
                    current_root = pointer.read_root();
                    break;
                }
            }
        }
    }
    let mut map = SerializableMap::from_json(&roots[&current_root]).unwrap();
    let ops = vec![TxnOp::Read(5)];
    for (k, id) in keys_to_load(&map, &ops) {
        map.load(k, store[&id].clone());
    }
    let mut ids = IdGenerator::init("n3".to_string());
    let results = execute_txns(&mut map, &ops, &mut ids);
    match &results[0] {
        TxnResult::Read(5, Some(l)) => {
            let mut sorted = l.clone();
            sorted.sort();
            let mut expected: Vec<i32> = (0..100).chain(1000..1100).collect();
            expected.sort();
            assert_eq!(sorted, expected);
        }
        other => panic!("unexpected {:?}", other),
    }
}

#[test]
fn counters_merge_and_read() {
    let mut a = GCounter::init();
    a.add("n1".to_string(), 3);
    a.add("n1".to_string(), 2);
    let mut b = GCounter::init();
    b.add("n1".to_string(), 4);
    b.add("n2".to_string(), 1);
    a.merge(b);
    assert_eq!(a.read(), 6);

    let mut p = PnCounter::init();
    p.add("n1".to_string(), 5);
    p.add("n1".to_string(), -2);
    assert_eq!(p.read(), 3);
    let mut q = PnCounter::init();
    q.add("n2".to_string(), 4);
    let mut q2 = PnCounter::init();
    q2.add("n2".to_string(), 4);
    p.merge(q);
    assert_eq!(p.read(), 7);
    p.merge(q2);
    assert_eq!(p.read(), 7);
}

#[test]
fn counter_merge_is_commutative_on_values() {
    let build = |pairs: &[(&str, i32)]| {
        let mut g = GCounter::init();
        for (n, d) in pairs {
            g.add(n.to_string(), *d);
        }
        g
    };
    let mut ab = build(&[("x", 1), ("y", 5)]);
    ab.merge(build(&[("y", 2), ("z", 7)]));
    let mut ba = build(&[("y", 2), ("z", 7)]);
    ba.merge(build(&[("x", 1), ("y", 5)]));
    assert_eq!(ab.read(), 13);
    assert_eq!(ab.read(), ba.read());
}

#[test]
fn datomic_appends() {
    let mut d = DatomicState::init();
    assert!(d.read(1).is_empty());
    d.append(1, 4);
    d.append(1, 5);
    assert_eq!(d.read(1), vec![4, 5]);
}

#[test]
fn commit_steps_write_then_compare_and_set() {
    let ok = "write_ok".to_string();
    let id = "n1-0".to_string();
    assert!(matches!(first_commit_step(0), CommitAction::CompareAndSet));
    assert!(matches!(first_commit_step(2), CommitAction::Write(0)));
    assert!(matches!(commit_step(0, 2, &id, &ok), CommitAction::Write(1)));
    assert!(matches!(commit_step(1, 2, &id, &ok), CommitAction::CompareAndSet));
    match commit_step(0, 2, &id, &"error".to_string()) {
        CommitAction::Abort(e) => {
            assert_eq!(e.code, 14);
            assert_eq!(e.text, "Failed to save thunk with id n1-0");
        }
        _ => panic!("a failed write aborts"),
    }
    assert!(save_outcome(&id, &ok).is_ok());
}

#[test]
fn add_checks_only_the_node_count() {
    let mut g = GCounter::init();
    g.add("a".to_string(), i32::MAX);
    g.add("b".to_string(), 5);
    assert_eq!(g.count_of(&"a".to_string()), i32::MAX);
    assert_eq!(g.count_of(&"c".to_string()), 0);
    assert_eq!(g.total_sum(), i32::MAX as i128 + 5);

    let mut p = PnCounter::init();
    p.add("n1".to_string(), 4);
    p.add("n1".to_string(), -3);
    p.add("n2".to_string(), -1);
    assert_eq!(p.inc_of(&"n1".to_string()), 4);
    assert_eq!(p.dec_of(&"n1".to_string()), 3);
    assert_eq!(p.dec_of(&"n2".to_string()), 1);
    assert_eq!(p.up_total(), 4);
    assert_eq!(p.down_total(), 4);
}

#[test]
fn replicas_that_merge_each_other_read_the_same() {
    let build = |inc: &[(&str, i32)], dec: &[(&str, i32)]| {
        let mut p = PnCounter::init();
        for (n, d) in inc {
            p.add(n.to_string(), *d);
        }
        for (n, d) in dec {
            p.add(n.to_string(), -*d);
        }
        p
    };
    let mut a = build(&[("x", 3)], &[("y", 1)]);
    let mut b = build(&[("x", 1), ("z", 4)], &[("y", 2)]);
    a.merge(build(&[("x", 1), ("z", 4)], &[("y", 2)]));
    b.merge(build(&[("x", 3)], &[("y", 1)]));
    assert_eq!(a.read(), 5);
    assert_eq!(a.read(), b.read());
    a.merge(build(&[("x", 3), ("z", 4)], &[("y", 2)]));
    assert_eq!(a.read(), 5);
}
