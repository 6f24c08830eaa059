use driftdb::{
    Action, DeleteInstruction, Key, PushInstruction, SequenceNumber, SequenceValue, Store,
    StoreInstruction, Value, ValueLog,
};

fn v(b: u8) -> Value {
    Value(vec![b])
}

fn entry(seq: u64, b: u8) -> SequenceValue {
    SequenceValue {
        value: v(b),
        seq: SequenceNumber(seq),
    }
}

fn log_of(store: &Store, k: &str) -> Vec<SequenceValue> {
    store.get(&Key::from(k), SequenceNumber(0))
}

#[test]
fn sequence_numbers_start_at_one_and_are_never_reused() {
    let mut store = Store::empty();
    let k = Key::from("k");
    let mut seen = Vec::new();
    for (i, action) in [Action::Append, Action::Relay, Action::Replace, Action::Append]
        .into_iter()
        .enumerate()
    {
        let r = store.apply_action(&k, v(i as u8), &action);
        seen.push(r.instruction.broadcast.unwrap().seq.0);
    }
    assert_eq!(vec![1, 2, 3, 4], seen);
    assert_eq!(SequenceNumber(4), store.sequence_number());
}

#[test]
fn apply_action_turns_each_action_into_instructions() {
    let mut store = Store::empty();
    let k = Key::from("k");
    let r = store.apply_action(&k, v(1), &Action::Append);
    assert_eq!(None, r.instruction.delete_instruction);
    assert_eq!(Some(PushInstruction::Push(entry(1, 1))), r.instruction.push_instruction);
    assert_eq!(Some(entry(1, 1)), r.instruction.broadcast);
    assert_eq!(1, r.stream_size);

    let r = store.apply_action(&k, v(2), &Action::Replace);
    assert_eq!(Some(DeleteInstruction::Delete), r.instruction.delete_instruction);
    assert_eq!(Some(PushInstruction::Push(entry(2, 2))), r.instruction.push_instruction);
    assert_eq!(1, r.stream_size);
    assert_eq!(vec![entry(2, 2)], log_of(&store, "k"));

    let r = store.apply_action(&k, v(3), &Action::Relay);
    assert!(!r.mutates());
    assert_eq!(Some(entry(3, 3)), r.instruction.broadcast);
    assert_eq!(vec![entry(2, 2)], log_of(&store, "k"));

    let r = store.apply_action(&k, v(4), &Action::Compact { seq: SequenceNumber(2) });
    assert_eq!(
        Some(DeleteInstruction::DeleteUpTo(SequenceNumber(2))),
        r.instruction.delete_instruction
    );
    assert_eq!(Some(PushInstruction::PushStart(entry(2, 4))), r.instruction.push_instruction);
    assert_eq!(None, r.instruction.broadcast);
    assert_eq!(SequenceNumber(3), store.sequence_number());
}

#[test]
fn replace_leaves_exactly_the_new_entry() {
    let mut store = Store::empty();
    let k = Key::from("k");
    for i in 0..5 {
        store.apply_action(&k, v(i), &Action::Append);
    }
    store.apply_action(&k, v(9), &Action::Replace);
    assert_eq!(vec![entry(6, 9)], log_of(&store, "k"));
}

#[test]
fn relay_leaves_the_store_unchanged() {
    let mut store = Store::empty();
    let k = Key::from("k");
    store.apply_action(&k, v(1), &Action::Append);
    let before = store.dump();
    store.apply_action(&k, v(2), &Action::Relay);
    store.apply_action(&Key::from("other"), v(3), &Action::Relay);
    assert_eq!(before, store.dump());
}

#[test]
fn get_returns_later_entries_in_order() {
    let mut store = Store::empty();
    let k = Key::from("k");
    for i in 0..4 {
        store.apply_action(&k, v(i), &Action::Append);
    }
    assert_eq!(vec![entry(3, 2), entry(4, 3)], store.get(&k, SequenceNumber(2)));
    assert!(store.get(&k, SequenceNumber(4)).is_empty());
    assert!(store.get(&Key::from("missing"), SequenceNumber(0)).is_empty());
}

#[test]
fn compact_twice_at_the_same_boundary_is_compact_once() {
    let mut store = Store::empty();
    let k = Key::from("s");
    for i in 0..4 {
        store.apply_action(&k, v(i), &Action::Append);
    }
    let compact = Action::Compact { seq: SequenceNumber(3) };
    store.apply_action(&k, v(7), &compact);
    let once = log_of(&store, "s");
    assert_eq!(vec![entry(3, 7), entry(4, 3)], once);
    store.apply_action(&k, v(7), &compact);
    assert_eq!(once, log_of(&store, "s"));
}

#[test]
fn compact_past_the_log_still_writes_the_head() {
    let mut store = Store::empty();
    let k = Key::from("s");
    store.apply_action(&k, v(1), &Action::Append);
    store.apply_action(&k, v(2), &Action::Append);
    store.apply_action(&k, v(5), &Action::Compact { seq: SequenceNumber(9) });
    assert_eq!(vec![entry(9, 5)], log_of(&store, "s"));
    assert_eq!(SequenceNumber(2), store.sequence_number());
}

#[test]
fn replaying_instructions_rebuilds_the_store() {
    let mut store = Store::empty();
    let mut replica = Store::empty();
    let pushes = [
        ("a", Action::Append),
        ("b", Action::Append),
        ("a", Action::Relay),
        ("a", Action::Append),
        ("b", Action::Replace),
        ("a", Action::Compact { seq: SequenceNumber(2) }),
        ("a", Action::Append),
    ];
    for (i, (k, action)) in pushes.into_iter().enumerate() {
        let r = store.apply_action(&Key::from(k), v(i as u8), &action);
        replica.apply(&r.instruction);
    }
    for k in ["a", "b"] {
        assert_eq!(log_of(&store, k), log_of(&replica, k));
    }
    assert_eq!(
        vec![entry(2, 5), entry(4, 3), entry(6, 6)],
        store.subjects()[0].1.values.iter().cloned().collect::<Vec<_>>()
    );
}

#[test]
fn apply_runs_delete_before_push() {
    let mut store = Store::empty();
    let k = Key::from("k");
    for i in 0..3 {
        store.apply_action(&k, v(i), &Action::Append);
    }
    let size = store.apply(&StoreInstruction {
        key: k.clone(),
        delete_instruction: Some(DeleteInstruction::DeleteUpTo(SequenceNumber(1))),
        push_instruction: Some(PushInstruction::Push(entry(10, 10))),
        broadcast: None,
    });
    assert_eq!(3, size);
    assert_eq!(vec![entry(2, 1), entry(3, 2), entry(10, 10)], log_of(&store, "k"));
}

#[test]
fn dump_lists_every_key_with_its_log() {
    let mut log = ValueLog::new();
    log.push_back(entry(1, 1));
    log.push_front(entry(0, 0));
    let store = Store::new(vec![(Key::from("x"), log), (Key::from("y"), ValueLog::new())], SequenceNumber(1));
    assert_eq!(
        vec![(Key::from("x"), vec![entry(0, 0), entry(1, 1)]), (Key::from("y"), vec![])],
        store.dump()
    );
}
