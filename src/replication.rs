//! Turning a store instruction into operations on an ordered
//! key-value storage, so that replaying them rebuilds the store's logs.

use vstd::prelude::*;

use crate::key_seq_pair::{
    is_text_prefix, key_and_seq_text, lemma_keys_sorted_by_seq, lemma_prefix_unambiguous,
    lemma_text_less_irreflexive, prefix_text, text_less, KeyAndSeq,
};
use crate::store::{
    above, allocates, delete_up_to, pushed, DeleteInstruction, Entry, InstructionModel,
    PushInstruction, PushModel, Store, StoreInstruction,
};
use crate::types::{Action, SequenceValue, Value};
use vstd::utf8::encode_utf8;

verus! {

/// One operation on the storage.
#[derive(Debug, Clone, PartialEq, Eq)]
pub enum StorageOp {
    /// Delete every entry whose key starts with `prefix`.
    DeletePrefix { prefix: String },
    /// Delete every entry whose key starts with `prefix` and sorts before `end`.
    DeleteRange { prefix: String, end: String },
    /// Write `value` under `key`.
    Put { key: String, value: Value },
}

/// A storage operation as contracts see it.
pub enum StorageOpModel {
    DeletePrefix { prefix: Seq<char> },
    DeleteRange { prefix: Seq<char>, end: Seq<char> },
    Put { key: Seq<char>, value: Seq<u8> },
}

impl View for StorageOp {
    type V = StorageOpModel;

    open spec fn view(&self) -> StorageOpModel {
        match self {
            StorageOp::DeletePrefix { prefix } => StorageOpModel::DeletePrefix { prefix: prefix@ },
            StorageOp::DeleteRange { prefix, end } => StorageOpModel::DeleteRange {
                prefix: prefix@,
                end: end@,
            },
            StorageOp::Put { key, value } => StorageOpModel::Put { key: key@, value: value@ },
        }
    }
}

/// The storage operation for a delete: all of the stream's entries, or
/// those up to and including a sequence number, whose keys sort before the
/// key of the next one.
pub open spec fn delete_op(key: Seq<char>, d: DeleteInstruction) -> StorageOpModel {
    match d {
        DeleteInstruction::Delete => StorageOpModel::DeletePrefix { prefix: prefix_text(key) },
        DeleteInstruction::DeleteUpTo(s) => if s.0 == u64::MAX {
            StorageOpModel::DeletePrefix { prefix: prefix_text(key) }
        } else {
            StorageOpModel::DeleteRange {
                prefix: prefix_text(key),
                end: key_and_seq_text(key, (s.0 + 1) as u64),
            }
        },
    }
}

/// The storage operation for a push: the value under the entry's key.
pub open spec fn put_op(key: Seq<char>, p: PushModel) -> StorageOpModel {
    match p {
        PushModel::Back(e) => StorageOpModel::Put { key: key_and_seq_text(key, e.0), value: e.1 },
        PushModel::Front(e) => StorageOpModel::Put { key: key_and_seq_text(key, e.0), value: e.1 },
    }
}

/// The storage operations for an instruction: its delete, then its push.
pub open spec fn storage_plan(ins: InstructionModel) -> Seq<StorageOpModel> {
    let deletes = match ins.delete {
        Some(d) => seq![delete_op(ins.key, d)],
        None => Seq::<StorageOpModel>::empty(),
    };
    let puts = match ins.push {
        Some(p) => seq![put_op(ins.key, p)],
        None => Seq::<StorageOpModel>::empty(),
    };
    deletes + puts
}

/// The storage operations that replicate `ins`, in the order to apply them.
pub fn storage_ops(ins: &StoreInstruction) -> (r: Vec<StorageOp>)
    ensures
        r@.map_values(|o: StorageOp| o@) == storage_plan(ins@),
{
    let mut ops: Vec<StorageOp> = Vec::new();
    match &ins.delete_instruction {
        Some(DeleteInstruction::Delete) => {
            ops.push(StorageOp::DeletePrefix { prefix: KeyAndSeq::prefix_str(&ins.key) });
        },
        Some(DeleteInstruction::DeleteUpTo(seq)) => {
            let prefix = KeyAndSeq::prefix_str(&ins.key);
            if seq.0 == u64::MAX {
                ops.push(StorageOp::DeletePrefix { prefix });
            } else {
                let end = KeyAndSeq::new(ins.key.copy(), seq.next()).to_string();
                ops.push(StorageOp::DeleteRange { prefix, end });
            }
        },
        None => {},
    }
    match &ins.push_instruction {
        Some(p) => {
            let v = p.value();
            let key = KeyAndSeq::new(ins.key.copy(), v.seq).to_string();
            ops.push(StorageOp::Put { key, value: v.value.copy() });
        },
        None => {},
    }
    assert(ops@.map_values(|o: StorageOp| o@) =~= storage_plan(ins@));
    ops
}

/// Text that `KeyAndSeq::to_string` writes for some key and sequence number.
pub open spec fn is_storage_key(s: Seq<char>) -> bool {
    exists|k: Seq<char>, q: u64| s == key_and_seq_text(k, q)
}

/// The key and sequence number that a storage key was written from.
pub open spec fn storage_key_parts(s: Seq<char>) -> (Seq<char>, u64) {
    choose|p: (Seq<char>, u64)| s == key_and_seq_text(p.0, p.1)
}

/// The log of `k` that stored entries give, in the order they are listed.
pub open spec fn loaded_log(es: Seq<(String, Value)>, k: Seq<char>) -> Seq<Entry>
    decreases es.len(),
{
    if es.len() == 0 {
        Seq::<Entry>::empty()
    } else {
        let prev = loaded_log(es.drop_last(), k);
        let parts = storage_key_parts(es.last().0@);
        if parts.0 == k {
            prev.push((parts.1, es.last().1@))
        } else {
            prev
        }
    }
}

/// The largest sequence number among stored entries, 0 when there are none.
pub open spec fn loaded_last(es: Seq<(String, Value)>) -> u64
    decreases es.len(),
{
    if es.len() == 0 {
        0
    } else {
        let prev = loaded_last(es.drop_last());
        let q = storage_key_parts(es.last().0@).1;
        if q > prev {
            q
        } else {
            prev
        }
    }
}

/// Rebuilds a store from stored entries, each a storage key and a value,
/// appending each entry to its stream in the order given. The last
/// allocated sequence number is the largest one found. Fails exactly when
/// some key is not a storage key.
pub fn load_store(entries: &Vec<(String, Value)>) -> (r: Result<Store, &'static str>)
    ensures
        (r is Ok) == forall|i: int| 0 <= i < entries@.len() ==> is_storage_key(#[trigger] entries@[i].0@),
        r matches Ok(st) ==> {
            &&& st.wf()
            &&& st.last() == loaded_last(entries@)
            &&& forall|k: Seq<char>| #[trigger] st.log(k) == loaded_log(entries@, k)
            &&& forall|k: Seq<char>| #[trigger] st.has(k) == (st.log(k).len() > 0)
        },
{
    let mut st = Store::empty();
    let mut i: usize = 0;
    assert(entries@.subrange(0, 0) =~= Seq::<(String, Value)>::empty());
    assert forall|k: Seq<char>| #[trigger] st.log(k) == loaded_log(entries@.subrange(0, 0), k) by {
        assert(st.log(k) == Seq::<Entry>::empty());
    };
    while i < entries.len()
        invariant
            0 <= i <= entries@.len(),
            st.wf(),
            st.last() == loaded_last(entries@.subrange(0, i as int)),
            forall|k: Seq<char>| #[trigger] st.log(k) == loaded_log(entries@.subrange(0, i as int), k),
            forall|k: Seq<char>| #[trigger] st.has(k) == (st.log(k).len() > 0),
            forall|j: int| 0 <= j < i ==> is_storage_key(#[trigger] entries@[j].0@),
        decreases entries@.len() - i,
    {
        let ghost sub = entries@.subrange(0, i as int);
        let ghost next = entries@.subrange(0, i + 1);
        assert(next.drop_last() =~= sub);
        assert(next.last() == entries@[i as int]);
        let text = &entries[i].0;
        match KeyAndSeq::from_str(text.as_str()) {
            Err(e) => {
                assert(!is_storage_key(entries@[i as int].0@));
                return Err(e);
            },
            Ok(ks) => {
                let ghost witness = (ks.key@, ks.seq.0);
                assert(text@ == key_and_seq_text(witness.0, witness.1));
                let ghost parts = storage_key_parts(text@);
                assert(text@ == key_and_seq_text(parts.0, parts.1));
                assert(parts.0 == ks.key@ && parts.1 == ks.seq.0);
                let ghost before = st;
                let ins = StoreInstruction {
                    key: ks.key,
                    delete_instruction: None,
                    push_instruction: Some(
                        PushInstruction::Push(SequenceValue { value: entries[i].1.copy(), seq: ks.seq }),
                    ),
                    broadcast: None,
                };
                st.apply(&ins);
                st.advance_to(ks.seq);
                assert forall|k: Seq<char>| #[trigger] st.log(k) == loaded_log(next, k) by {};
                assert forall|k: Seq<char>| #[trigger] st.has(k) == (st.log(k).len() > 0) by {
                    if k != parts.0 {
                        assert(before.has(k) == (before.log(k).len() > 0));
                    }
                };
            },
        }
        i = i + 1;
    }
    assert(entries@.subrange(0, i as int) =~= entries@);
    Ok(st)
}

/// What a storage op does to a storage that maps text keys to bytes.
pub open spec fn kv_apply(kv: Map<Seq<char>, Seq<u8>>, op: StorageOpModel) -> Map<Seq<char>, Seq<u8>> {
    match op {
        StorageOpModel::DeletePrefix { prefix } => kv.restrict(
            kv.dom().filter(|t: Seq<char>| !is_text_prefix(prefix, t)),
        ),
        StorageOpModel::DeleteRange { prefix, end } => kv.restrict(
            kv.dom().filter(|t: Seq<char>| !(is_text_prefix(prefix, t) && text_less(t, end))),
        ),
        StorageOpModel::Put { key, value } => kv.insert(key, value),
    }
}

/// A storage after the ops, applied in order.
pub open spec fn kv_run(kv: Map<Seq<char>, Seq<u8>>, ops: Seq<StorageOpModel>) -> Map<Seq<char>, Seq<u8>>
    decreases ops.len(),
{
    if ops.len() == 0 {
        kv
    } else {
        kv_apply(kv_run(kv, ops.drop_last()), ops.last())
    }
}

/// Keys whose UTF-8 encoding fits a machine word, as every `String` does.
pub open spec fn fits(k: Seq<char>) -> bool {
    encode_utf8(k).len() <= usize::MAX
}

/// The storage holds, under the storage keys of `k`, exactly the entries
/// of `log`.
pub open spec fn stream_mirrors(kv: Map<Seq<char>, Seq<u8>>, k: Seq<char>, log: Seq<Entry>) -> bool {
    &&& forall|i: int|
        0 <= i < log.len() ==> kv.contains_key(#[trigger] key_and_seq_text(k, log[i].0))
            && kv[key_and_seq_text(k, log[i].0)] == log[i].1
    &&& forall|q: u64|
        #[trigger] kv.contains_key(key_and_seq_text(k, q)) ==> exists|i: int| 0 <= i < log.len() && log[i].0 == q
}

/// The storage holds every stream of `store`, entry for entry.
pub open spec fn mirrors(kv: Map<Seq<char>, Seq<u8>>, store: Store) -> bool {
    forall|k: Seq<char>| fits(k) ==> stream_mirrors(kv, k, #[trigger] store.log(k))
}

proof fn lemma_text_injective(k: Seq<char>, q1: u64, q2: u64)
    requires
        key_and_seq_text(k, q1) == key_and_seq_text(k, q2),
    ensures
        q1 == q2,
{
    lemma_keys_sorted_by_seq(k, q1, q2);
    lemma_keys_sorted_by_seq(k, q2, q1);
    lemma_text_less_irreflexive(key_and_seq_text(k, q1));
}

proof fn lemma_other_stream(k1: Seq<char>, k2: Seq<char>, q1: u64, q2: u64)
    requires
        fits(k1),
        fits(k2),
        k1 != k2,
    ensures
        !is_text_prefix(prefix_text(k1), key_and_seq_text(k2, q2)),
        key_and_seq_text(k1, q1) != key_and_seq_text(k2, q2),
{
    lemma_prefix_unambiguous(k1, k2, q2);
    lemma_prefix_unambiguous(k1, k1, q1);
}

/// A storage that holds a store's streams still holds them after the
/// storage ops of a push are applied to it in order: deleting by prefix or
/// by range and writing by storage key does to the storage what the push
/// did to the logs. The pushed key must fit a machine word.
pub proof fn lemma_storage_replay(
    kv: Map<Seq<char>, Seq<u8>>,
    before: Store,
    after: Store,
    key: Seq<char>,
    value: Seq<u8>,
    action: Action,
    ins: InstructionModel,
)
    requires
        before.valid(),
        pushed(before, after, key, value, action, ins),
        allocates(action) ==> before.last() < u64::MAX,
        fits(key),
        mirrors(kv, before),
    ensures
        mirrors(kv_run(kv, storage_plan(ins)), after),
{
    let out = kv_run(kv, storage_plan(ins));
    assert forall|k: Seq<char>| fits(k) implies stream_mirrors(out, k, #[trigger] after.log(k)) by {
        lemma_stream_after(kv, before, after, key, value, action, ins, k);
    };
}

proof fn lemma_stream_after(
    kv: Map<Seq<char>, Seq<u8>>,
    before: Store,
    after: Store,
    key: Seq<char>,
    value: Seq<u8>,
    action: Action,
    ins: InstructionModel,
    k: Seq<char>,
)
    requires
        before.valid(),
        pushed(before, after, key, value, action, ins),
        allocates(action) ==> before.last() < u64::MAX,
        fits(key),
        fits(k),
        mirrors(kv, before),
    ensures
        stream_mirrors(kv_run(kv, storage_plan(ins)), k, after.log(k)),
{
    let ops = storage_plan(ins);
    let out = kv_run(kv, ops);
    let old_log = before.log(k);
    let new_log = after.log(k);
    assert(stream_mirrors(kv, k, old_log));
    let n = (before.last() + 1) as u64;
    // The storage after the delete of the push, if any.
    let deleted = match ins.delete {
        Some(d) => kv_apply(kv, delete_op(key, d)),
        None => kv,
    };
    match ins.push {
        Some(pm) => {
            let put = put_op(key, pm);
            match ins.delete {
                Some(d) => {
                    assert(ops =~= seq![delete_op(key, d), put]);
                    assert(ops.drop_last() =~= seq![delete_op(key, d)]);
                    assert(ops.drop_last().drop_last() =~= Seq::<StorageOpModel>::empty());
                    reveal_with_fuel(kv_run, 3);
                },
                None => {
                    assert(ops =~= seq![put]);
                    assert(ops.drop_last() =~= Seq::<StorageOpModel>::empty());
                    reveal_with_fuel(kv_run, 2);
                },
            }
            assert(out == kv_apply(deleted, put));
        },
        None => {
            assert(ins.delete is None);
            assert(ops =~= Seq::<StorageOpModel>::empty());
            assert(out == kv);
        },
    }
    let written: u64 = match action {
        Action::Compact { seq } => seq.0,
        _ => n,
    };
    if k != key {
        assert(new_log == old_log);
        assert forall|q: u64| #[trigger] out.contains_key(key_and_seq_text(k, q)) == kv.contains_key(
            key_and_seq_text(k, q),
        ) && (kv.contains_key(key_and_seq_text(k, q)) ==> out[key_and_seq_text(k, q)]
            == kv[key_and_seq_text(k, q)]) by {
            lemma_other_stream(key, k, written, q);
            let t = key_and_seq_text(k, q);
            if let Some(d) = ins.delete {
                assert(deleted.contains_key(t) == kv.contains_key(t));
            }
        };
        assert forall|i: int| 0 <= i < new_log.len() implies out.contains_key(
            #[trigger] key_and_seq_text(k, new_log[i].0),
        ) && out[key_and_seq_text(k, new_log[i].0)] == new_log[i].1 by {
            assert(out.contains_key(key_and_seq_text(k, new_log[i].0)) == kv.contains_key(
                key_and_seq_text(k, new_log[i].0),
            ));
        };
        assert forall|q: u64| #[trigger] out.contains_key(key_and_seq_text(k, q)) implies exists|i: int|
            0 <= i < new_log.len() && new_log[i].0 == q by {
            assert(kv.contains_key(key_and_seq_text(k, q)));
        };
    } else {
        lemma_prefix_unambiguous(key, key, written);
        match action {
            Action::Relay => {},
            Action::Append => {
                assert(new_log == old_log.push((n, value)));
                assert forall|i: int| 0 <= i < new_log.len() implies out.contains_key(
                    #[trigger] key_and_seq_text(k, new_log[i].0),
                ) && out[key_and_seq_text(k, new_log[i].0)] == new_log[i].1 by {
                    if i < old_log.len() {
                        assert(new_log[i] == old_log[i]);
                        assert(old_log[i].0 <= before.last());
                        if key_and_seq_text(k, old_log[i].0) == key_and_seq_text(k, n) {
                            lemma_text_injective(k, old_log[i].0, n);
                        }
                    }
                };
                assert forall|q: u64| #[trigger] out.contains_key(key_and_seq_text(k, q)) implies exists|i: int|
                    0 <= i < new_log.len() && new_log[i].0 == q by {
                    if key_and_seq_text(k, q) == key_and_seq_text(k, n) {
                        lemma_text_injective(k, q, n);
                        assert(new_log[old_log.len() as int].0 == q);
                    } else {
                        assert(kv.contains_key(key_and_seq_text(k, q)));
                        let j = choose|j: int| 0 <= j < old_log.len() && old_log[j].0 == q;
                        assert(new_log[j] == old_log[j]);
                    }
                };
            },
            Action::Replace => {
                assert(new_log == seq![(n, value)]);
                assert forall|q: u64| #[trigger] out.contains_key(key_and_seq_text(k, q)) implies exists|i: int|
                    0 <= i < new_log.len() && new_log[i].0 == q by {
                    lemma_prefix_unambiguous(key, key, q);
                    if key_and_seq_text(k, q) == key_and_seq_text(k, n) {
                        lemma_text_injective(k, q, n);
                    }
                    assert(new_log[0].0 == n);
                };
            },
            Action::Compact { seq } => {
                let s = seq.0;
                let f = delete_up_to(old_log, s);
                assert(new_log == seq![(s, value)] + f);
                // Which of the stream's entries the delete keeps.
                assert forall|q: u64| #[trigger] deleted.contains_key(key_and_seq_text(k, q)) == (
                kv.contains_key(key_and_seq_text(k, q)) && q > s) by {
                    lemma_prefix_unambiguous(key, key, q);
                    if s < u64::MAX {
                        lemma_keys_sorted_by_seq(k, q, (s + 1) as u64);
                    }
                };
                assert forall|i: int| 0 <= i < new_log.len() implies out.contains_key(
                    #[trigger] key_and_seq_text(k, new_log[i].0),
                ) && out[key_and_seq_text(k, new_log[i].0)] == new_log[i].1 by {
                    if i > 0 {
                        assert(new_log[i] == f[i - 1]);
                        old_log.lemma_filter_pred(above(s), i - 1);
                        old_log.lemma_filter_contains_rev(above(s), f[i - 1]);
                        let j = choose|j: int| 0 <= j < old_log.len() && old_log[j] == f[i - 1];
                        assert(kv.contains_key(key_and_seq_text(k, old_log[j].0)));
                        assert(deleted.contains_key(key_and_seq_text(k, old_log[j].0)));
                        if key_and_seq_text(k, old_log[j].0) == key_and_seq_text(k, s) {
                            lemma_text_injective(k, old_log[j].0, s);
                        }
                    }
                };
                assert forall|q: u64| #[trigger] out.contains_key(key_and_seq_text(k, q)) implies exists|i: int|
                    0 <= i < new_log.len() && new_log[i].0 == q by {
                    if key_and_seq_text(k, q) == key_and_seq_text(k, s) {
                        lemma_text_injective(k, q, s);
                        assert(new_log[0].0 == q);
                    } else {
                        assert(deleted.contains_key(key_and_seq_text(k, q)));
                        let j = choose|j: int| 0 <= j < old_log.len() && old_log[j].0 == q;
                        old_log.lemma_filter_contains(above(s), j);
                        let m = choose|m: int| 0 <= m < f.len() && f[m] == old_log[j];
                        assert(new_log[m + 1] == f[m]);
                    }
                };
            },
        }
    }
}

} // verus!
