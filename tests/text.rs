use maelstrom_raft::error::{abort, key_already_exists, malformed_request, node_not_found, not_supported,
    precondition_failed, temporarily_unavailable, txn_conflict, key_does_not_exist};
use maelstrom_raft::log::{to_str, unsafe_parse_i32, Entry, Log, Op};
use maelstrom_raft::node::NodeState;
use maelstrom_raft::text::{format_i32, parse_i32, split_on};

#[test]
fn decimal_forms() {
    assert_eq!(format_i32(0), "0");
    assert_eq!(format_i32(-42), "-42");
    assert_eq!(format_i32(i32::MIN), "-2147483648");
    assert_eq!(format_i32(i32::MAX), "2147483647");
    assert_eq!(parse_i32("+7"), Some(7));
    assert_eq!(parse_i32("-2147483648"), Some(i32::MIN));
    assert_eq!(parse_i32("2147483648"), None);
    assert_eq!(parse_i32("12a"), None);
    assert_eq!(parse_i32(""), None);
    assert_eq!(parse_i32("-"), None);
    assert_eq!(unsafe_parse_i32("0031"), 31);
}

#[test]
fn split_pieces() {
    assert_eq!(split_on("a,b,,c", ','), vec!["a", "b", "", "c"]);
    assert_eq!(split_on("", ','), vec![""]);
}

#[test]
fn op_text_forms_round_trip() {
    let ops = vec![
        Op::CAS { key: 1, from: -2, to: 3, requester: "c1".to_string(), msg_id: 5 },
        Op::Read { key: 7, requester: "c2".to_string(), msg_id: 8 },
        Op::Write { key: 9, value: 10, requester: "c3".to_string(), msg_id: 11 },
    ];
    let texts = ["CAS:1,-2,3,c1,5", "Read:7,c2,8", "Write:9,10,c3,11"];
    for (op, text) in ops.into_iter().zip(texts.iter()) {
        let s = to_str(op.clone());
        assert_eq!(&s, text);
        let back = Op::from_str(&s).unwrap();
        assert_eq!(to_str(back), s);
    }
    assert!(Op::from_str("Delete:1,c,2").is_err());
    assert!(Op::from_str("Read:1,c").is_err());
    assert!(Op::from_str("Read:x,c,2").is_err());
    assert!(Op::from_str("Read").is_err());
}

#[test]
fn log_indexing_from_one() {
    let mut log = Log::init("n1".to_string());
    assert_eq!(log.size(), 1);
    assert_eq!(log.get(1).unwrap().term, 0);
    assert!(log.get(0).is_none());
    assert!(log.get(2).is_none());
    let mut more = vec![
        Entry { term: 1, op: None },
        Entry { term: 2, op: None },
    ];
    log.append(&mut more);
    assert!(more.is_empty());
    assert_eq!(log.last().term, 2);
    assert_eq!(log.upto_index(2).len(), 2);
    assert_eq!(log.upto_index(0).len(), 0);
    assert_eq!(log.upto_index(9).len(), 0);
    log.truncate(2);
    assert_eq!(log.size(), 2);
    assert_eq!(log.last().term, 1);
}

#[test]
fn error_codes() {
    let t = || "x".to_string();
    assert_eq!(node_not_found(t()).code, 1);
    assert_eq!(not_supported(t()).code, 10);
    assert_eq!(temporarily_unavailable(t()).code, 11);
    assert_eq!(malformed_request(t()).code, 12);
    assert_eq!(abort(t()).code, 14);
    assert_eq!(key_does_not_exist(t()).code, 20);
    assert_eq!(key_already_exists(t()).code, 21);
    assert_eq!(precondition_failed(t()).code, 22);
    assert_eq!(txn_conflict(t()).code, 30);
    assert_eq!(abort(t()).text, "x");
}

#[test]
fn node_ids_and_callbacks() {
    let mut node: NodeState<&'static str> = NodeState::init();
    assert!(!node.is_initialized());
    node.set_node_id("n2".to_string());
    node.set_other_node_ids(vec!["n1".to_string(), "n2".to_string(), "n3".to_string()]);
    assert_eq!(node.other_nodes(), vec!["n1".to_string(), "n3".to_string()]);
    assert_eq!(node.node_id(), "n2");
    assert_eq!(node.next_msg_id(), 0);
    assert_eq!(node.next_msg_id(), 1);
    node.add_callback(1, "slot");
    assert_eq!(node.check_for_callback(None), None);
    assert_eq!(node.check_for_callback(Some(1)), Some("slot"));
    assert_eq!(node.check_for_callback(Some(1)), None);
}
