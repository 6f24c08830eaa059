use std::collections::VecDeque;
use vstd::prelude::*;

use crate::types::{Action, Key, SequenceNumber, SequenceValue, Value};

verus! {

/// A log entry as contracts see it: its sequence number and payload bytes.
pub type Entry = (u64, Seq<u8>);

/// The entries of a sequence of values, as contracts see them.
pub open spec fn entries(s: Seq<SequenceValue>) -> Seq<Entry> {
    s.map_values(|v: SequenceValue| v@)
}

/// Holds of entries whose sequence number is past `since`.
pub open spec fn above(since: u64) -> spec_fn(Entry) -> bool {
    |e: Entry| e.0 > since
}

/// What removing every entry at or below `s` leaves of a log.
pub open spec fn delete_up_to(log: Seq<Entry>, s: u64) -> Seq<Entry> {
    log.filter(above(s))
}

proof fn lemma_entries_push(s: Seq<SequenceValue>, v: SequenceValue)
    ensures
        entries(s.push(v)) == entries(s).push(v@),
{
    assert(entries(s.push(v)) =~= entries(s).push(v@));
}

proof fn lemma_filter_step(s: Seq<Entry>, i: int, p: spec_fn(Entry) -> bool)
    requires
        0 <= i < s.len(),
    ensures
        s.subrange(0, i + 1).filter(p) == if p(s[i]) {
            s.subrange(0, i).filter(p).push(s[i])
        } else {
            s.subrange(0, i).filter(p)
        },
{
    reveal(Seq::filter);
    assert(s.subrange(0, i + 1).drop_last() =~= s.subrange(0, i));
    assert(s.subrange(0, i + 1).last() == s[i]);
}

/// The history of one stream: entries in the order they were written.
#[derive(Debug, Clone, Default, PartialEq, Eq)]
pub struct ValueLog {
    pub values: VecDeque<SequenceValue>,
}

impl View for ValueLog {
    type V = Seq<Entry>;

    open spec fn view(&self) -> Seq<Entry> {
        entries(self.values@)
    }
}

impl ValueLog {
    pub fn new() -> (r: ValueLog)
        ensures
            r@ == Seq::<Entry>::empty(),
    {
        let r = ValueLog { values: VecDeque::new() };
        assert(r@ =~= Seq::<Entry>::empty());
        r
    }

    pub fn len(&self) -> (r: usize)
        ensures
            r == self@.len(),
    {
        self.values.len()
    }

    pub fn push_back(&mut self, v: SequenceValue)
        ensures
            final(self)@ == old(self)@.push(v@),
    {
        self.values.push_back(v);
        proof {
            lemma_entries_push(old(self).values@, v);
        }
    }

    pub fn push_front(&mut self, v: SequenceValue)
        ensures
            final(self)@ == seq![v@] + old(self)@,
    {
        self.values.push_front(v);
        assert(self@ =~= seq![v@] + old(self)@);
    }

    pub fn clear(&mut self)
        ensures
            final(self)@ == Seq::<Entry>::empty(),
    {
        self.values.clear();
        assert(self@ =~= Seq::<Entry>::empty());
    }

    /// Removes every entry whose sequence number is at or below `seq`,
    /// keeping the order of the others.
    pub fn delete_up_to(&mut self, seq: SequenceNumber)
        ensures
            final(self)@ == delete_up_to(old(self)@, seq.0),
    {
        let ghost start = self@;
        let n = self.values.len();
        let mut i: usize = 0;
        while i < n
            invariant
                0 <= i <= n,
                n == start.len(),
                self@ == start.subrange(i as int, n as int) + start.subrange(0, i as int).filter(
                    above(seq.0),
                ),
            decreases n - i,
        {
            let ghost before = self@;
            assert(before[0] == start[i as int]);
            proof {
                lemma_filter_step(start, i as int, above(seq.0));
            }
            let x = self.values.pop_front();
            match x {
                Some(v) => {
                    assert(v@ == before[0]);
                    let ghost kept = start.subrange(0, i as int).filter(above(seq.0));
                    assert(self@ =~= before.subrange(1, before.len() as int));
                    assert(self@ =~= start.subrange(i + 1, n as int) + kept);
                    if v.seq.0 > seq.0 {
                        let ghost mid = self.values@;
                        self.values.push_back(v);
                        proof {
                            lemma_entries_push(mid, v);
                        }
                        assert(self@ =~= start.subrange(i + 1, n as int) + kept.push(v@));
                    }
                },
                None => {},
            }
            assert(self@ =~= start.subrange(i + 1, n as int) + start.subrange(0, i + 1).filter(
                above(seq.0),
            ));
            i = i + 1;
        }
        assert(start.subrange(0, n as int) =~= start);
        assert(self@ =~= delete_up_to(start, seq.0));
    }

    /// Copies of the entries whose sequence number is past `since`, in order.
    pub fn entries_after(&self, since: SequenceNumber) -> (r: Vec<SequenceValue>)
        ensures
            entries(r@) == self@.filter(above(since.0)),
    {
        let mut out: Vec<SequenceValue> = Vec::new();
        let n = self.values.len();
        let mut i: usize = 0;
        while i < n
            invariant
                0 <= i <= n,
                n == self@.len(),
                entries(out@) == self@.subrange(0, i as int).filter(above(since.0)),
            decreases n - i,
        {
            proof {
                lemma_filter_step(self@, i as int, above(since.0));
            }
            let v = &self.values[i];
            assert(v@ == self@[i as int]);
            if v.seq.0 > since.0 {
                let c = v.copy();
                let ghost mid = out@;
                out.push(c);
                proof {
                    lemma_entries_push(mid, c);
                }
            }
            i = i + 1;
        }
        assert(self@.subrange(0, n as int) =~= self@);
        out
    }

    /// Copies of all entries, in order.
    pub fn to_vec(&self) -> (r: Vec<SequenceValue>)
        ensures
            entries(r@) == self@,
    {
        let mut out: Vec<SequenceValue> = Vec::new();
        let n = self.values.len();
        let mut i: usize = 0;
        while i < n
            invariant
                0 <= i <= n,
                n == self@.len(),
                entries(out@) == self@.subrange(0, i as int),
            decreases n - i,
        {
            let c = self.values[i].copy();
            let ghost mid = out@;
            out.push(c);
            proof {
                lemma_entries_push(mid, c);
            }
            assert(self@.subrange(0, i + 1) =~= self@.subrange(0, i as int).push(self@[i as int]));
            i = i + 1;
        }
        assert(self@.subrange(0, n as int) =~= self@);
        out
    }
}

/// Which entries a mutation removes before it writes.
#[derive(Debug, Clone, Copy, PartialEq, Eq)]
pub enum DeleteInstruction {
    /// Delete all values of the stream.
    Delete,
    /// Delete every value of the stream up to and including the given sequence number.
    DeleteUpTo(SequenceNumber),
}

/// Where a mutation writes its value.
#[derive(Debug, Clone, PartialEq, Eq)]
pub enum PushInstruction {
    /// Push the value at the end of the stream.
    Push(SequenceValue),
    /// Push the value at the start of the stream.
    PushStart(SequenceValue),
}

/// A write as contracts see it.
pub enum PushModel {
    Back(Entry),
    Front(Entry),
}

impl View for PushInstruction {
    type V = PushModel;

    open spec fn view(&self) -> PushModel {
        match self {
            PushInstruction::Push(v) => PushModel::Back(v@),
            PushInstruction::PushStart(v) => PushModel::Front(v@),
        }
    }
}

impl PushInstruction {
    pub fn value(&self) -> (r: &SequenceValue)
        ensures
            self@ == PushModel::Back(r@) || self@ == PushModel::Front(r@),
    {
        match self {
            PushInstruction::Push(v) => v,
            PushInstruction::PushStart(v) => v,
        }
    }
}

/// A mutation as contracts see it.
pub struct InstructionModel {
    pub key: Seq<char>,
    pub delete: Option<DeleteInstruction>,
    pub push: Option<PushModel>,
    pub broadcast: Option<Entry>,
}

impl InstructionModel {
    pub open spec fn mutates(self) -> bool {
        self.delete is Some || self.push is Some
    }
}

/// The outcome of an action: what to remove, what to write and
/// what to broadcast. Applying it to a log is deterministic, so a replica
/// that applies the same instructions in the same order holds the same logs.
#[derive(Debug, Clone, PartialEq, Eq)]
pub struct StoreInstruction {
    pub key: Key,
    /// Optional instruction to remove some or all existing values.
    pub delete_instruction: Option<DeleteInstruction>,
    /// Optional instruction to push a value to the stream.
    pub push_instruction: Option<PushInstruction>,
    /// Optional value to broadcast to subscribers.
    pub broadcast: Option<SequenceValue>,
}

impl View for StoreInstruction {
    type V = InstructionModel;

    open spec fn view(&self) -> InstructionModel {
        InstructionModel {
            key: self.key@,
            delete: self.delete_instruction,
            push: match self.push_instruction {
                Some(p) => Some(p@),
                None => None,
            },
            broadcast: match self.broadcast {
                Some(b) => Some(b@),
                None => None,
            },
        }
    }
}

impl StoreInstruction {
    /// Whether applying this changes the stored logs.
    pub fn mutates(&self) -> (r: bool)
        ensures
            r == self@.mutates(),
    {
        self.delete_instruction.is_some() || self.push_instruction.is_some()
    }
}

/// What a log becomes under an instruction: first the delete, then the push.
pub open spec fn run_instruction(log: Seq<Entry>, ins: InstructionModel) -> Seq<Entry> {
    let kept = match ins.delete {
        None => log,
        Some(DeleteInstruction::Delete) => Seq::<Entry>::empty(),
        Some(DeleteInstruction::DeleteUpTo(s)) => delete_up_to(log, s.0),
    };
    match ins.push {
        None => kept,
        Some(PushModel::Back(e)) => kept.push(e),
        Some(PushModel::Front(e)) => seq![e] + kept,
    }
}

/// Whether an action takes a fresh sequence number.
pub open spec fn allocates(action: Action) -> bool {
    !(action is Compact)
}

/// The instruction for pushing `value` to `key` with `action` in a store
/// whose last allocated sequence number is `last`.
pub open spec fn planned(key: Seq<char>, value: Seq<u8>, action: Action, last: u64) -> InstructionModel {
    let fresh: Entry = ((last + 1) as u64, value);
    match action {
        Action::Append => InstructionModel {
            key,
            delete: None,
            push: Some(PushModel::Back(fresh)),
            broadcast: Some(fresh),
        },
        Action::Replace => InstructionModel {
            key,
            delete: Some(DeleteInstruction::Delete),
            push: Some(PushModel::Back(fresh)),
            broadcast: Some(fresh),
        },
        Action::Compact { seq } => InstructionModel {
            key,
            delete: Some(DeleteInstruction::DeleteUpTo(seq)),
            push: Some(PushModel::Front((seq.0, value))),
            broadcast: None,
        },
        Action::Relay => InstructionModel { key, delete: None, push: None, broadcast: Some(fresh) },
    }
}

/// The logs of a room, one per key, and its sequence number allocator.
#[derive(Debug, Clone, PartialEq, Eq)]
pub struct Store {
    subjects: Vec<(Key, ValueLog)>,
    sequence_number: SequenceNumber,
}

/// Keys that stand at most once in a list of stream logs.
pub open spec fn distinct_keys(s: Seq<(Key, ValueLog)>) -> bool {
    forall|i: int, j: int|
        0 <= i < s.len() && 0 <= j < s.len() && i != j ==> #[trigger] s[i].0@ != #[trigger] s[j].0@
}

/// Sequence numbers strictly increase along the log.
pub open spec fn strictly_increasing(log: Seq<Entry>) -> bool {
    forall|i: int, j: int| 0 <= i < j < log.len() ==> (#[trigger] log[i]).0 < (#[trigger] log[j]).0
}

/// The logs of a list of streams as contracts see them.
pub open spec fn logs_of(s: Seq<(Key, ValueLog)>) -> Seq<(Key, Seq<Entry>)> {
    s.map_values(|p: (Key, ValueLog)| (p.0, p.1@))
}

impl Store {
    /// Each key stands at most once.
    pub closed spec fn wf(&self) -> bool {
        distinct_keys(self.subjects@)
    }

    /// The last sequence number handed out.
    pub closed spec fn last(&self) -> u64 {
        self.sequence_number.0
    }

    pub closed spec fn has(&self, k: Seq<char>) -> bool {
        exists|i: int| 0 <= i < self.subjects@.len() && #[trigger] self.subjects@[i].0@ == k
    }

    /// The log of `k`; a missing key has an empty log.
    pub closed spec fn log(&self, k: Seq<char>) -> Seq<Entry> {
        if self.has(k) {
            let i = choose|i: int| 0 <= i < self.subjects@.len() && #[trigger] self.subjects@[i].0@ == k;
            self.subjects@[i].1@
        } else {
            Seq::<Entry>::empty()
        }
    }

    /// `s` lists exactly the keys of this store, each with its log.
    pub open spec fn listed_by(&self, s: Seq<(Key, Seq<Entry>)>) -> bool {
        &&& forall|i: int|
            0 <= i < s.len() ==> self.has(#[trigger] s[i].0@) && self.log(s[i].0@) == s[i].1
        &&& forall|k: Seq<char>| #[trigger] self.has(k) ==> exists|i: int| 0 <= i < s.len() && #[trigger] s[i].0@ == k
    }

    /// Every log is ordered by strictly increasing sequence numbers, none of
    /// them past the last allocated one.
    pub open spec fn valid(&self) -> bool {
        &&& self.wf()
        &&& forall|k: Seq<char>| strictly_increasing(#[trigger] self.log(k))
        &&& forall|k: Seq<char>, i: int|
            0 <= i < self.log(k).len() ==> (#[trigger] self.log(k)[i]).0 <= self.last()
    }

    /// The same logs under every key.
    pub open spec fn same_logs(&self, other: &Store) -> bool {
        &&& forall|k: Seq<char>| #[trigger] self.log(k) == other.log(k)
        &&& forall|k: Seq<char>| #[trigger] self.has(k) == other.has(k)
    }

    proof fn lemma_log_at(&self, i: int)
        requires
            self.wf(),
            0 <= i < self.subjects@.len(),
        ensures
            self.has(self.subjects@[i].0@),
            self.log(self.subjects@[i].0@) == self.subjects@[i].1@,
    {
        let k = self.subjects@[i].0@;
        assert(self.has(k));
        let j = choose|j: int| 0 <= j < self.subjects@.len() && #[trigger] self.subjects@[j].0@ == k;
        assert(i == j);
    }

    /// A store over the given logs, whose last allocated sequence number is
    /// `sequence_number`.
    pub fn new(subjects: Vec<(Key, ValueLog)>, sequence_number: SequenceNumber) -> (r: Store)
        requires
            distinct_keys(subjects@),
        ensures
            r.wf(),
            r.listed_by(logs_of(subjects@)),
            r.last() == sequence_number.0,
    {
        let r = Store { subjects, sequence_number };
        proof {
            r.lemma_listed();
        }
        r
    }

    /// An empty store whose first allocated sequence number will be 1.
    pub fn empty() -> (r: Store)
        ensures
            r.valid(),
            r.last() == 0,
            forall|k: Seq<char>| !#[trigger] r.has(k),
            forall|k: Seq<char>| #[trigger] r.log(k) == Seq::<Entry>::empty(),
    {
        Store { subjects: Vec::new(), sequence_number: SequenceNumber(0) }
    }

    pub fn subjects(&self) -> (r: &Vec<(Key, ValueLog)>)
        requires
            self.wf(),
        ensures
            self.listed_by(logs_of(r@)),
            distinct_keys(r@),
    {
        proof {
            self.lemma_listed();
        }
        &self.subjects
    }

    proof fn lemma_listed(&self)
        requires
            self.wf(),
        ensures
            self.listed_by(logs_of(self.subjects@)),
    {
        let s = logs_of(self.subjects@);
        assert forall|i: int| 0 <= i < s.len() implies self.has(#[trigger] s[i].0@) && self.log(
            s[i].0@,
        ) == s[i].1 by {
            self.lemma_log_at(i);
        };
        assert forall|k: Seq<char>| #[trigger] self.has(k) implies exists|i: int|
            0 <= i < s.len() && #[trigger] s[i].0@ == k by {
            let j = choose|j: int| 0 <= j < self.subjects@.len() && #[trigger] self.subjects@[j].0@ == k;
            assert(s[j].0@ == k);
        };
    }

    pub fn sequence_number(&self) -> (r: SequenceNumber)
        ensures
            r.0 == self.last(),
    {
        self.sequence_number
    }

    fn find(&self, key: &Key) -> (r: Option<usize>)
        requires
            self.wf(),
        ensures
            match r {
                Some(i) => i < self.subjects@.len() && self.subjects@[i as int].0@ == key@,
                None => !self.has(key@),
            },
    {
        let mut i: usize = 0;
        while i < self.subjects.len()
            invariant
                0 <= i <= self.subjects@.len(),
                forall|j: int| 0 <= j < i ==> #[trigger] self.subjects@[j].0@ != key@,
            decreases self.subjects@.len() - i,
        {
            if self.subjects[i].0.equals(key) {
                return Some(i);
            }
            i = i + 1;
        }
        None
    }

    /// Index of the log of `key`, adding an empty one if there is none.
    fn entry(&mut self, key: &Key) -> (r: usize)
        requires
            old(self).wf(),
        ensures
            final(self).wf(),
            final(self).last() == old(self).last(),
            r < final(self).subjects@.len(),
            final(self).subjects@[r as int].0@ == key@,
            final(self).has(key@),
            final(self).log(key@) == old(self).log(key@),
            forall|k: Seq<char>| k != key@ ==> #[trigger] final(self).log(k) == old(self).log(k),
            forall|k: Seq<char>| k != key@ ==> #[trigger] final(self).has(k) == old(self).has(k),
            forall|j: int|
                0 <= j < old(self).subjects@.len() ==> #[trigger] final(self).subjects@[j]
                    == old(self).subjects@[j],
    {
        match self.find(key) {
            Some(i) => {
                proof {
                    self.lemma_log_at(i as int);
                }
                i
            },
            None => {
                let ghost prev = *self;
                self.subjects.push((key.copy(), ValueLog::new()));
                let n = self.subjects.len() - 1;
                assert forall|k: Seq<char>| k != key@ implies #[trigger] self.has(k) == prev.has(k) by {
                    if self.has(k) {
                        let j = choose|j: int| 0 <= j < self.subjects@.len() && #[trigger] self.subjects@[j].0@ == k;
                        assert(prev.subjects@[j].0@ == k);
                    }
                    if prev.has(k) {
                        let j = choose|j: int| 0 <= j < prev.subjects@.len() && #[trigger] prev.subjects@[j].0@ == k;
                        assert(self.subjects@[j].0@ == k);
                    }
                };
                assert forall|k: Seq<char>| k != key@ implies #[trigger] self.log(k) == prev.log(k) by {
                    if prev.has(k) {
                        let j = choose|j: int| 0 <= j < prev.subjects@.len() && #[trigger] prev.subjects@[j].0@ == k;
                        prev.lemma_log_at(j);
                        self.lemma_log_at(j);
                    }
                };
                proof {
                    self.lemma_log_at(n as int);
                }
                n
            },
        }
    }

    /// Applies an instruction: first its delete, then its push. Returns the
    /// length of the key's log afterwards.
    pub fn apply(&mut self, ins: &StoreInstruction) -> (r: usize)
        requires
            old(self).wf(),
        ensures
            final(self).wf(),
            final(self).last() == old(self).last(),
            final(self).log(ins.key@) == run_instruction(old(self).log(ins.key@), ins@),
            final(self).has(ins.key@) == (old(self).has(ins.key@) || ins@.mutates()),
            forall|k: Seq<char>| k != ins.key@ ==> #[trigger] final(self).log(k) == old(self).log(k),
            forall|k: Seq<char>| k != ins.key@ ==> #[trigger] final(self).has(k) == old(self).has(k),
            r == final(self).log(ins.key@).len(),
    {
        if !ins.mutates() {
            return match self.find(&ins.key) {
                Some(i) => {
                    proof {
                        self.lemma_log_at(i as int);
                    }
                    self.subjects[i].1.len()
                },
                None => 0,
            };
        }
        let i = self.entry(&ins.key);
        let ghost mid = *self;
        proof {
            mid.lemma_log_at(i as int);
        }
        match &ins.delete_instruction {
            Some(DeleteInstruction::Delete) => {
                self.subjects[i].1.clear();
            },
            Some(DeleteInstruction::DeleteUpTo(seq)) => {
                self.subjects[i].1.delete_up_to(*seq);
            },
            None => {},
        }
        match &ins.push_instruction {
            Some(PushInstruction::Push(v)) => {
                self.subjects[i].1.push_back(v.copy());
            },
            Some(PushInstruction::PushStart(v)) => {
                self.subjects[i].1.push_front(v.copy());
            },
            None => {},
        }
        assert(self.subjects@.len() == mid.subjects@.len());
        assert forall|a: int, b: int|
            0 <= a < self.subjects@.len() && 0 <= b < self.subjects@.len() && a != b
            implies #[trigger] self.subjects@[a].0@ != #[trigger] self.subjects@[b].0@ by {
            assert(self.subjects@[a].0@ == mid.subjects@[a].0@);
            assert(self.subjects@[b].0@ == mid.subjects@[b].0@);
        };
        proof {
            self.lemma_log_at(i as int);
        }
        assert forall|k: Seq<char>| k != ins.key@ implies #[trigger] self.has(k) == mid.has(k) by {
            if self.has(k) {
                let j = choose|j: int| 0 <= j < self.subjects@.len() && #[trigger] self.subjects@[j].0@ == k;
                assert(mid.subjects@[j].0@ == k);
            }
            if mid.has(k) {
                let j = choose|j: int| 0 <= j < mid.subjects@.len() && #[trigger] mid.subjects@[j].0@ == k;
                assert(self.subjects@[j].0@ == k);
            }
        };
        assert forall|k: Seq<char>| k != ins.key@ implies #[trigger] self.log(k) == mid.log(k) by {
            if mid.has(k) {
                let j = choose|j: int| 0 <= j < mid.subjects@.len() && #[trigger] mid.subjects@[j].0@ == k;
                mid.lemma_log_at(j);
                self.lemma_log_at(j);
            }
        };
        self.subjects[i].1.len()
    }

    /// Allocates the next sequence number.
    fn next_seq(&mut self) -> (r: SequenceNumber)
        requires
            old(self).last() < u64::MAX,
        ensures
            r.0 == old(self).last() + 1,
            final(self).last() == r.0,
            final(self).subjects == old(self).subjects,
    {
        self.sequence_number = SequenceNumber(self.sequence_number.0 + 1);
        self.sequence_number
    }

    /// Turns an action on `key` into an instruction, allocating a
    /// sequence number for every action but Compact. The logs are left as
    /// they are.
    pub fn convert_to_instruction(&mut self, key: &Key, value: Value, action: &Action) -> (r: StoreInstruction)
        requires
            allocates(*action) ==> old(self).last() < u64::MAX,
        ensures
            r@ == planned(key@, value@, *action, old(self).last()),
            final(self).last() == if allocates(*action) {
                (old(self).last() + 1) as u64
            } else {
                old(self).last()
            },
            final(self).same_logs(old(self)),
            old(self).wf() ==> final(self).wf(),
    {
        match action {
            Action::Append => {
                let seq = self.next_seq();
                let v = SequenceValue { value, seq };
                StoreInstruction {
                    key: key.copy(),
                    delete_instruction: None,
                    push_instruction: Some(PushInstruction::Push(v.copy())),
                    broadcast: Some(v),
                }
            },
            Action::Replace => {
                let seq = self.next_seq();
                let v = SequenceValue { value, seq };
                StoreInstruction {
                    key: key.copy(),
                    delete_instruction: Some(DeleteInstruction::Delete),
                    push_instruction: Some(PushInstruction::Push(v.copy())),
                    broadcast: Some(v),
                }
            },
            Action::Compact { seq } => StoreInstruction {
                key: key.copy(),
                delete_instruction: Some(DeleteInstruction::DeleteUpTo(*seq)),
                push_instruction: Some(PushInstruction::PushStart(SequenceValue { value, seq: *seq })),
                broadcast: None,
            },
            Action::Relay => {
                let seq = self.next_seq();
                StoreInstruction {
                    key: key.copy(),
                    delete_instruction: None,
                    push_instruction: None,
                    broadcast: Some(SequenceValue { value, seq }),
                }
            },
        }
    }

    /// Pushes `value` to `key` with `action`: turns it into an
    /// instruction and applies that.
    pub fn apply_action(&mut self, key: &Key, value: Value, action: &Action) -> (r: ApplyResult)
        requires
            old(self).wf(),
            allocates(*action) ==> old(self).last() < u64::MAX,
        ensures
            final(self).wf(),
            pushed(*old(self), *final(self), key@, value@, *action, r.instruction@),
            r.stream_size == final(self).log(key@).len(),
            *action == Action::Replace ==> final(self).log(key@) == seq![(final(self).last(), value@)],
            *action == Action::Relay ==> final(self).same_logs(old(self)),
            old(self).valid() && (*action matches Action::Compact { seq } ==> seq.0 <= old(self).last())
                ==> final(self).valid(),
    {
        let ghost value_bytes = value@;
        let instruction = self.convert_to_instruction(key, value, action);
        let ghost mid = *self;
        assert(mid.same_logs(old(self)));
        let stream_size = self.apply(&instruction);
        proof {
            reveal(Seq::filter);
        }
        assert(*action == Action::Replace ==> self.log(key@) =~= seq![(self.last(), value_bytes)]);
        proof {
            if old(self).valid() && (*action matches Action::Compact { seq } ==> seq.0 <= old(self).last()) {
                crate::laws::lemma_push_keeps_valid(*old(self), *self, key@, value_bytes, *action, instruction@);
            }
        }
        ApplyResult { instruction, stream_size }
    }

    /// Copies of the entries of `key` whose sequence number is past `since`,
    /// in log order. A missing key gives no entries.
    pub fn get(&self, key: &Key, since: SequenceNumber) -> (r: Vec<SequenceValue>)
        requires
            self.wf(),
        ensures
            entries(r@) == self.log(key@).filter(above(since.0)),
    {
        match self.find(key) {
            Some(i) => {
                proof {
                    self.lemma_log_at(i as int);
                }
                self.subjects[i].1.entries_after(since)
            },
            None => {
                let r: Vec<SequenceValue> = Vec::new();
                proof {
                    reveal(Seq::filter);
                }
                assert(entries(r@) =~= Seq::<Entry>::empty());
                r
            },
        }
    }

    /// A copy of every key with its full log.
    pub fn dump(&self) -> (r: Vec<(Key, Vec<SequenceValue>)>)
        requires
            self.wf(),
        ensures
            self.listed_by(dumped(r@)),
    {
        let mut out: Vec<(Key, Vec<SequenceValue>)> = Vec::new();
        let mut i: usize = 0;
        while i < self.subjects.len()
            invariant
                0 <= i <= self.subjects@.len(),
                dumped(out@) == logs_of(self.subjects@).subrange(0, i as int),
            decreases self.subjects@.len() - i,
        {
            let k = self.subjects[i].0.copy();
            let d = self.subjects[i].1.to_vec();
            let ghost mid = out@;
            out.push((k, d));
            assert(dumped(out@) =~= dumped(mid).push((k, entries(d@))));
            assert(logs_of(self.subjects@).subrange(0, i + 1) =~= logs_of(self.subjects@).subrange(
                0,
                i as int,
            ).push((k, entries(d@))));
            i = i + 1;
        }
        assert(logs_of(self.subjects@).subrange(0, i as int) =~= logs_of(self.subjects@));
        proof {
            self.lemma_listed();
        }
        out
    }

    /// Raises the last allocated sequence number to `seq` if it is below.
    pub(crate) fn advance_to(&mut self, seq: SequenceNumber)
        ensures
            final(self).last() == if seq.0 > old(self).last() {
                seq.0
            } else {
                old(self).last()
            },
            final(self).same_logs(old(self)),
            old(self).wf() ==> final(self).wf(),
    {
        let ghost prev = *self;
        if seq.0 > self.sequence_number.0 {
            self.sequence_number = seq;
        }
        assert(self.subjects == prev.subjects);
        assert forall|k: Seq<char>| #[trigger] self.log(k) == prev.log(k) by {};
        assert forall|k: Seq<char>| #[trigger] self.has(k) == prev.has(k) by {};
    }
}

/// The outcome of pushing to a store: the instruction it was turned into
/// and the length of the key's log afterwards.
#[derive(Debug, Clone, PartialEq, Eq)]
pub struct ApplyResult {
    pub instruction: StoreInstruction,
    pub stream_size: usize,
}

impl ApplyResult {
    /// Whether the push changed the stored logs.
    pub fn mutates(&self) -> (r: bool)
        ensures
            r == self.instruction@.mutates(),
    {
        self.instruction.mutates()
    }
}

/// A dump as contracts see it.
pub open spec fn dumped(s: Seq<(Key, Vec<SequenceValue>)>) -> Seq<(Key, Seq<Entry>)> {
    s.map_values(|p: (Key, Vec<SequenceValue>)| (p.0, entries(p.1@)))
}

/// `after` is `before` once `value` was pushed to `key` with `action`,
/// which was turned into `ins`.
pub open spec fn pushed(
    before: Store,
    after: Store,
    key: Seq<char>,
    value: Seq<u8>,
    action: Action,
    ins: InstructionModel,
) -> bool {
    &&& ins == planned(key, value, action, before.last())
    &&& after.last() == if allocates(action) {
        (before.last() + 1) as u64
    } else {
        before.last()
    }
    &&& after.log(key) == run_instruction(before.log(key), ins)
    &&& after.has(key) == (before.has(key) || ins.mutates())
    &&& forall|k: Seq<char>| k != key ==> #[trigger] after.log(k) == before.log(k)
    &&& forall|k: Seq<char>| k != key ==> #[trigger] after.has(k) == before.has(k)
}

} // verus!
