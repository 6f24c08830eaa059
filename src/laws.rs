//! Laws that relate successive pushes to a store.

use vstd::prelude::*;

use crate::store::{
    above, allocates, delete_up_to, planned, pushed, run_instruction, strictly_increasing, Entry,
    InstructionModel, Store,
};
use crate::types::{Action, SequenceNumber};

verus! {

proof fn lemma_filter_sub(log: Seq<Entry>, s: u64)
    ensures
        forall|i: int|
            0 <= i < delete_up_to(log, s).len() ==> #[trigger] delete_up_to(log, s)[i].0 > s
                && log.contains(delete_up_to(log, s)[i]),
{
    assert forall|i: int| 0 <= i < delete_up_to(log, s).len() implies #[trigger] delete_up_to(
        log,
        s,
    )[i].0 > s && log.contains(delete_up_to(log, s)[i]) by {
        log.lemma_filter_pred(above(s), i);
        log.lemma_filter_contains_rev(above(s), delete_up_to(log, s)[i]);
    };
}

proof fn lemma_filter_increasing(log: Seq<Entry>, s: u64)
    requires
        strictly_increasing(log),
    ensures
        strictly_increasing(delete_up_to(log, s)),
    decreases log.len(),
{
    reveal(Seq::filter);
    if log.len() > 0 {
        let rest = log.drop_last();
        assert(strictly_increasing(rest));
        lemma_filter_increasing(rest, s);
        lemma_filter_sub(rest, s);
        let f = delete_up_to(rest, s);
        assert forall|i: int| 0 <= i < f.len() implies (#[trigger] f[i]).0 < log.last().0 by {
            let j = choose|j: int| 0 <= j < rest.len() && rest[j] == f[i];
        };
    }
}

/// A push keeps every log strictly increasing and within the allocated
/// sequence numbers, as long as a Compact names an already allocated
/// sequence number.
pub proof fn lemma_push_keeps_valid(
    before: Store,
    after: Store,
    key: Seq<char>,
    value: Seq<u8>,
    action: Action,
    ins: InstructionModel,
)
    requires
        before.valid(),
        after.wf(),
        pushed(before, after, key, value, action, ins),
        allocates(action) ==> before.last() < u64::MAX,
        action matches Action::Compact { seq } ==> seq.0 <= before.last(),
    ensures
        after.valid(),
{
    let old_log = before.log(key);
    let new_log = after.log(key);
    assert(strictly_increasing(old_log));
    match action {
        Action::Append => {
            assert(new_log == old_log.push(((before.last() + 1) as u64, value)));
            assert forall|i: int| 0 <= i < new_log.len() implies (#[trigger] new_log[i]).0
                <= after.last() by {
                if i < old_log.len() {
                    assert(new_log[i] == old_log[i]);
                    assert(old_log[i].0 <= before.last());
                }
            };
            assert forall|i: int, j: int| 0 <= i < j < new_log.len() implies (
            #[trigger] new_log[i]).0 < (#[trigger] new_log[j]).0 by {
                assert(new_log[i] == old_log[i]);
                if j == new_log.len() - 1 {
                    assert(old_log[i].0 <= before.last());
                } else {
                    assert(new_log[j] == old_log[j]);
                }
            };
        },
        Action::Replace => {
            assert(new_log == seq![((before.last() + 1) as u64, value)]);
        },
        Action::Relay => {
            assert forall|i: int| 0 <= i < new_log.len() implies (#[trigger] new_log[i]).0
                <= after.last() by {
                assert(old_log[i].0 <= before.last());
            };
        },
        Action::Compact { seq } => {
            lemma_filter_increasing(old_log, seq.0);
            lemma_filter_sub(old_log, seq.0);
            let f = delete_up_to(old_log, seq.0);
            assert(new_log == seq![(seq.0, value)] + f);
            assert(new_log[0] == (seq.0, value));
            assert forall|i: int, j: int| 0 <= i < j < new_log.len() implies (
            #[trigger] new_log[i]).0 < (#[trigger] new_log[j]).0 by {
                if i > 0 {
                    assert(new_log[i] == f[i - 1]);
                }
                assert(new_log[j] == f[j - 1]);
            };
            assert forall|i: int| 0 <= i < new_log.len() implies (#[trigger] new_log[i]).0
                <= after.last() by {
                if i > 0 {
                    assert(new_log[i] == f[i - 1]);
                    let j = choose|j: int| 0 <= j < old_log.len() && old_log[j] == f[i - 1];
                    assert(old_log[j].0 <= before.last());
                }
            };
        },
    }
    assert forall|k: Seq<char>| strictly_increasing(#[trigger] after.log(k)) by {
        if k != key {
            assert(after.log(k) == before.log(k));
        }
    };
    assert forall|k: Seq<char>, i: int| 0 <= i < after.log(k).len() implies (#[trigger] after.log(
        k,
    )[i]).0 <= after.last() by {
        if k != key {
            assert(after.log(k) == before.log(k));
            assert(before.log(k)[i].0 <= before.last());
        } else {
            assert(new_log[i].0 <= after.last());
        }
    };
}


proof fn lemma_filter_all(log: Seq<Entry>, s: u64)
    requires
        forall|i: int| 0 <= i < log.len() ==> (#[trigger] log[i]).0 > s,
    ensures
        delete_up_to(log, s) == log,
    decreases log.len(),
{
    reveal(Seq::filter);
    if log.len() > 0 {
        lemma_filter_all(log.drop_last(), s);
        assert(log.drop_last().push(log.last()) =~= log);
    }
}

/// Compacting a log twice at the same boundary with the same value leaves
/// it as compacting it once.
pub proof fn lemma_compact_idempotent(log: Seq<Entry>, key: Seq<char>, value: Seq<u8>, seq: SequenceNumber, last: u64)
    ensures
        ({
            let ins = planned(key, value, Action::Compact { seq }, last);
            run_instruction(run_instruction(log, ins), ins) == run_instruction(log, ins)
        }),
{
    reveal(Seq::filter);
    let f = delete_up_to(log, seq.0);
    let head: Seq<Entry> = seq![(seq.0, value)];
    lemma_filter_sub(log, seq.0);
    Seq::filter_distributes_over_add(head, f, above(seq.0));
    assert(head.drop_last() =~= Seq::<Entry>::empty());
    assert(delete_up_to(head.drop_last(), seq.0) =~= Seq::<Entry>::empty());
    assert(!(above(seq.0))(head.last()));
    assert(delete_up_to(head, seq.0) =~= Seq::<Entry>::empty());
    lemma_filter_all(f, seq.0);
    assert(delete_up_to(head + f, seq.0) =~= f);
}

/// Compacting a store's stream twice at the same boundary with the same
/// value gives the same log as compacting it once.
pub proof fn lemma_compact_twice(
    s0: Store,
    s1: Store,
    s2: Store,
    key: Seq<char>,
    value: Seq<u8>,
    seq: SequenceNumber,
    ins1: InstructionModel,
    ins2: InstructionModel,
)
    requires
        pushed(s0, s1, key, value, Action::Compact { seq }, ins1),
        pushed(s1, s2, key, value, Action::Compact { seq }, ins2),
    ensures
        ins1 == ins2,
        s2.log(key) == s1.log(key),
        s2.same_logs(&s1),
{
    lemma_compact_idempotent(s0.log(key), key, value, seq, s0.last());
    assert forall|k: Seq<char>| #[trigger] s2.log(k) == s1.log(k) by {};
    assert forall|k: Seq<char>| #[trigger] s2.has(k) == s1.has(k) by {};
}

/// The logs that replaying instructions in order builds under `k`,
/// starting from nothing.
pub open spec fn replay(ins: Seq<InstructionModel>, k: Seq<char>) -> Seq<Entry>
    decreases ins.len(),
{
    if ins.len() == 0 {
        Seq::<Entry>::empty()
    } else if ins.last().key == k {
        run_instruction(replay(ins.drop_last(), k), ins.last())
    } else {
        replay(ins.drop_last(), k)
    }
}

/// A run of pushes: `states[i + 1]` is `states[i]` after the push
/// `pushes[i]`, which was turned into `results[i]`.
pub open spec fn push_run(
    states: Seq<Store>,
    pushes: Seq<(Seq<char>, Seq<u8>, Action)>,
    results: Seq<InstructionModel>,
) -> bool {
    &&& states.len() == pushes.len() + 1
    &&& results.len() == pushes.len()
    &&& forall|i: int|
        0 <= i < pushes.len() ==> pushed(
            #[trigger] states[i],
            states[i + 1],
            pushes[i].0,
            pushes[i].1,
            pushes[i].2,
            results[i],
        )
}

proof fn lemma_replay_prefix(
    states: Seq<Store>,
    pushes: Seq<(Seq<char>, Seq<u8>, Action)>,
    results: Seq<InstructionModel>,
    n: int,
)
    requires
        push_run(states, pushes, results),
        forall|k: Seq<char>| #[trigger] states[0].log(k) == Seq::<Entry>::empty(),
        0 <= n <= pushes.len(),
    ensures
        forall|k: Seq<char>| #[trigger] states[n].log(k) == replay(results.subrange(0, n), k),
    decreases n,
{
    if n > 0 {
        lemma_replay_prefix(states, pushes, results, n - 1);
        let prefix = results.subrange(0, n);
        assert(prefix.drop_last() =~= results.subrange(0, n - 1));
        assert(pushed(states[n - 1], states[n], pushes[n - 1].0, pushes[n - 1].1, pushes[n - 1].2, results[n - 1]));
        assert forall|k: Seq<char>| #[trigger] states[n].log(k) == replay(prefix, k) by {
            assert(states[n - 1].log(k) == replay(results.subrange(0, n - 1), k));
        };
    } else {
        assert forall|k: Seq<char>| #[trigger] states[n].log(k) == replay(results.subrange(0, n), k) by {
            assert(results.subrange(0, 0).len() == 0);
        };
    }
}

/// Replaying the instructions of a run of pushes in order, each delete
/// before its push, starting from nothing, rebuilds the logs of a store
/// that the run built from an empty one.
pub proof fn lemma_replay_equivalence(
    states: Seq<Store>,
    pushes: Seq<(Seq<char>, Seq<u8>, Action)>,
    results: Seq<InstructionModel>,
)
    requires
        push_run(states, pushes, results),
        forall|k: Seq<char>| #[trigger] states[0].log(k) == Seq::<Entry>::empty(),
    ensures
        forall|k: Seq<char>| #[trigger] states.last().log(k) == replay(results, k),
{
    lemma_replay_prefix(states, pushes, results, pushes.len() as int);
    assert(results.subrange(0, pushes.len() as int) =~= results);
}

proof fn lemma_last_grows(
    states: Seq<Store>,
    pushes: Seq<(Seq<char>, Seq<u8>, Action)>,
    results: Seq<InstructionModel>,
    a: int,
    b: int,
)
    requires
        push_run(states, pushes, results),
        forall|i: int| 0 <= i < pushes.len() ==> allocates(#[trigger] pushes[i].2) ==> states[i].last() < u64::MAX,
        0 <= a <= b < states.len(),
    ensures
        states[a].last() <= states[b].last(),
    decreases b - a,
{
    if a < b {
        lemma_last_grows(states, pushes, results, a, b - 1);
        assert(pushed(states[b - 1], states[b], pushes[b - 1].0, pushes[b - 1].1, pushes[b - 1].2, results[b - 1]));
    }
}

/// In a run of pushes, the sequence numbers allocated to different pushes
/// are different: each is larger than every earlier one.
pub proof fn lemma_fresh_sequence_numbers(
    states: Seq<Store>,
    pushes: Seq<(Seq<char>, Seq<u8>, Action)>,
    results: Seq<InstructionModel>,
    i: int,
    j: int,
)
    requires
        push_run(states, pushes, results),
        forall|n: int| 0 <= n < pushes.len() ==> allocates(#[trigger] pushes[n].2) ==> states[n].last() < u64::MAX,
        0 <= i < j < pushes.len(),
        allocates(pushes[i].2),
        allocates(pushes[j].2),
    ensures
        results[i].broadcast matches Some(a) && results[j].broadcast matches Some(b) && a.0 < b.0,
{
    assert(pushed(states[i], states[i + 1], pushes[i].0, pushes[i].1, pushes[i].2, results[i]));
    assert(pushed(states[j], states[j + 1], pushes[j].0, pushes[j].1, pushes[j].2, results[j]));
    lemma_last_grows(states, pushes, results, i + 1, j);
}

proof fn lemma_last_monotone(states: Seq<Store>, a: int, b: int)
    requires
        forall|n: int| 0 <= n < states.len() - 1 ==> (#[trigger] states[n]).last() <= states[n + 1].last(),
        0 <= a <= b < states.len(),
    ensures
        states[a].last() <= states[b].last(),
    decreases b - a,
{
    if a < b {
        lemma_last_monotone(states, a, b - 1);
        assert(states[b - 1].last() <= states[b].last());
    }
}

/// A sequence number is handed out to one caller only. Along any run of
/// store states in which the last allocated number never goes down (no
/// operation of `Store` lowers it), a number allocated at step `i` (the
/// step raised it by one, as `convert_to_instruction` and `apply_action`
/// do for every action but Compact) is below the number allocated at any
/// later step `j`.
pub proof fn lemma_allocations_unique(states: Seq<Store>, i: int, j: int)
    requires
        forall|n: int| 0 <= n < states.len() - 1 ==> (#[trigger] states[n]).last() <= states[n + 1].last(),
        0 <= i < j,
        j + 1 < states.len(),
        states[i + 1].last() == states[i].last() + 1,
        states[j + 1].last() == states[j].last() + 1,
    ensures
        states[i + 1].last() < states[j + 1].last(),
{
    lemma_last_monotone(states, i + 1, j);
}

} // verus!
