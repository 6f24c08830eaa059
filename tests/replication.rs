use driftdb::{
    load_store, storage_ops, Action, DeleteInstruction, Key, KeyAndSeq, PushInstruction,
    SequenceNumber, SequenceValue, StorageOp, Store, StoreInstruction, Value,
};

fn v(b: u8) -> Value {
    Value(vec![b])
}

#[test]
fn append_becomes_one_put() {
    let mut store = Store::empty();
    let r = store.apply_action(&Key::from("foo"), v(1), &Action::Append);
    assert_eq!(
        vec![StorageOp::Put {
            key: "3|foo|00000000000000000001".to_string(),
            value: v(1)
        }],
        storage_ops(&r.instruction)
    );
}

#[test]
fn replace_clears_the_prefix_then_puts() {
    let mut store = Store::empty();
    let r = store.apply_action(&Key::from("foo"), v(2), &Action::Replace);
    assert_eq!(
        vec![
            StorageOp::DeletePrefix {
                prefix: "3|foo|".to_string()
            },
            StorageOp::Put {
                key: "3|foo|00000000000000000001".to_string(),
                value: v(2)
            }
        ],
        storage_ops(&r.instruction)
    );
}

#[test]
fn compact_deletes_up_to_the_boundary_then_puts_at_it() {
    let mut store = Store::empty();
    let r = store.apply_action(&Key::from("s"), v(3), &Action::Compact { seq: SequenceNumber(41) });
    assert_eq!(
        vec![
            StorageOp::DeleteRange {
                prefix: "1|s|".to_string(),
                end: "1|s|00000000000000000042".to_string()
            },
            StorageOp::Put {
                key: "1|s|00000000000000000041".to_string(),
                value: v(3)
            }
        ],
        storage_ops(&r.instruction)
    );
}

#[test]
fn relay_needs_no_storage() {
    let mut store = Store::empty();
    let r = store.apply_action(&Key::from("s"), v(3), &Action::Relay);
    assert!(storage_ops(&r.instruction).is_empty());
}

#[test]
fn delete_up_to_the_largest_sequence_number_clears_the_prefix() {
    let ins = StoreInstruction {
        key: Key::from("k"),
        delete_instruction: Some(DeleteInstruction::DeleteUpTo(SequenceNumber(u64::MAX))),
        push_instruction: Some(PushInstruction::PushStart(SequenceValue {
            value: v(0),
            seq: SequenceNumber(u64::MAX),
        })),
        broadcast: None,
    };
    assert_eq!(
        vec![
            StorageOp::DeletePrefix {
                prefix: "1|k|".to_string()
            },
            StorageOp::Put {
                key: "1|k|18446744073709551615".to_string(),
                value: v(0)
            }
        ],
        storage_ops(&ins)
    );
}

#[test]
fn load_store_rebuilds_logs_and_next_sequence() {
    let entries = vec![
        (KeyAndSeq::new(Key::from("a"), SequenceNumber(1)).to_string(), v(1)),
        (KeyAndSeq::new(Key::from("b"), SequenceNumber(5)).to_string(), v(5)),
        (KeyAndSeq::new(Key::from("a"), SequenceNumber(3)).to_string(), v(3)),
    ];
    let mut store = load_store(&entries).unwrap();
    assert_eq!(SequenceNumber(5), store.sequence_number());
    assert_eq!(
        vec![
            SequenceValue { value: v(1), seq: SequenceNumber(1) },
            SequenceValue { value: v(3), seq: SequenceNumber(3) }
        ],
        store.get(&Key::from("a"), SequenceNumber(0))
    );
    let r = store.apply_action(&Key::from("a"), v(6), &Action::Append);
    assert_eq!(SequenceNumber(6), r.instruction.broadcast.unwrap().seq);
}

#[test]
fn load_store_refuses_a_foreign_key() {
    let entries = vec![("not a storage key".to_string(), v(1))];
    assert!(load_store(&entries).is_err());
    assert_eq!(SequenceNumber(0), load_store(&Vec::new()).unwrap().sequence_number());
}

fn apply_ops(kv: &mut std::collections::BTreeMap<String, Value>, ops: Vec<StorageOp>) {
    for op in ops {
        match op {
            StorageOp::DeletePrefix { prefix } => kv.retain(|k, _| !k.starts_with(&prefix)),
            StorageOp::DeleteRange { prefix, end } => {
                kv.retain(|k, _| !(k.starts_with(&prefix) && *k < end))
            }
            StorageOp::Put { key, value } => {
                kv.insert(key, value);
            }
        }
    }
}

#[test]
fn storage_replay_rebuilds_the_store() {
    let mut store = Store::empty();
    let mut kv = std::collections::BTreeMap::new();
    let pushes = [
        ("a", Action::Append),
        ("a|b", Action::Append),
        ("a", Action::Append),
        ("a", Action::Relay),
        ("a", Action::Append),
        ("a|b", Action::Replace),
        ("a", Action::Compact { seq: SequenceNumber(3) }),
        ("a", Action::Append),
        ("a", Action::Compact { seq: SequenceNumber(3) }),
    ];
    for (i, (k, action)) in pushes.into_iter().enumerate() {
        let r = store.apply_action(&Key::from(k), v(i as u8), &action);
        apply_ops(&mut kv, storage_ops(&r.instruction));
    }
    let entries: Vec<(String, Value)> = kv.into_iter().collect();
    let loaded = load_store(&entries).unwrap();
    for k in ["a", "a|b"] {
        assert_eq!(
            store.get(&Key::from(k), SequenceNumber(0)),
            loaded.get(&Key::from(k), SequenceNumber(0))
        );
    }
    assert_eq!(store.sequence_number(), loaded.sequence_number());
}
