//! The decisions of a room: which messages a request produces and for
//! whom, and which listeners stay registered. Delivering the messages is
//! left to the caller, which holds each listener as a handle of type `L`.

use vstd::prelude::*;

use crate::store::{above, allocates, distinct_keys, logs_of, planned, pushed, ApplyResult, Store};
use crate::types::{
    Action, Key, MessageFromDatabase, MessageModel, MessageToDatabase, SequenceNumber, Value,
};

verus! {

/// What `keep` leaves of `s`: the items whose flag is set, in order.
pub open spec fn kept<L>(s: Seq<L>, keep: Seq<bool>) -> Seq<L>
    decreases s.len(),
{
    if s.len() == 0 || keep.len() == 0 {
        Seq::<L>::empty()
    } else if keep.last() {
        kept(s.drop_last(), keep.drop_last()).push(s.last())
    } else {
        kept(s.drop_last(), keep.drop_last())
    }
}

proof fn lemma_kept_step<L>(s: Seq<L>, keep: Seq<bool>, i: int)
    requires
        0 <= i < s.len(),
        s.len() == keep.len(),
    ensures
        kept(s.subrange(0, i + 1), keep.subrange(0, i + 1)) == if keep[i] {
            kept(s.subrange(0, i), keep.subrange(0, i)).push(s[i])
        } else {
            kept(s.subrange(0, i), keep.subrange(0, i))
        },
{
    assert(s.subrange(0, i + 1).drop_last() =~= s.subrange(0, i));
    assert(keep.subrange(0, i + 1).drop_last() =~= keep.subrange(0, i));
}

/// Removes from `v` the items whose flag in `keep` is unset.
fn retain_flagged<L>(v: &mut Vec<L>, keep: &Vec<bool>)
    requires
        keep@.len() == old(v)@.len(),
    ensures
        final(v)@ == kept(old(v)@, keep@),
{
    let ghost start = v@;
    let n = keep.len();
    let mut i: usize = 0;
    let mut j: usize = 0;
    while j < n
        invariant
            n == keep@.len(),
            n == start.len(),
            0 <= j <= n,
            i == kept(start.subrange(0, j as int), keep@.subrange(0, j as int)).len(),
            v@ == kept(start.subrange(0, j as int), keep@.subrange(0, j as int)) + start.subrange(
                j as int,
                n as int,
            ),
        decreases n - j,
    {
        proof {
            lemma_kept_step(start, keep@, j as int);
        }
        let ghost pre = kept(start.subrange(0, j as int), keep@.subrange(0, j as int));
        assert(v@[i as int] == start[j as int]);
        let len = v.len();
        assert(i < len);
        if keep[j] {
            i = i + 1;
        } else {
            v.remove(i);
        }
        assert(v@ =~= kept(start.subrange(0, j + 1), keep@.subrange(0, j + 1)) + start.subrange(
            j + 1,
            n as int,
        ));
        j = j + 1;
    }
    assert(start.subrange(0, n as int) =~= start);
    assert(keep@.subrange(0, n as int) =~= keep@);
    assert(v@ =~= kept(start, keep@));
}

/// Keys that stand at most once in a list of subscriptions.
pub open spec fn distinct_subscription_keys<L>(s: Seq<(Key, Vec<L>)>) -> bool {
    forall|i: int, j: int|
        0 <= i < s.len() && 0 <= j < s.len() && i != j ==> #[trigger] s[i].0@ != #[trigger] s[j].0@
}

/// What one request asks the caller to do, in this order: hand `replica`
/// to the replication sink, deliver `debug` to every debug listener,
/// deliver `broadcast` to every subscriber of the key, then hand `reply`
/// to the requesting connection.
#[derive(Debug)]
pub struct Outcome {
    pub replica: Option<ApplyResult>,
    pub debug: Option<MessageFromDatabase>,
    pub broadcast: Option<MessageFromDatabase>,
    pub reply: Option<MessageFromDatabase>,
}

/// Whether `m` is present and seen as `model`.
pub open spec fn message_is(m: Option<MessageFromDatabase>, model: MessageModel) -> bool {
    m matches Some(x) && x@ == model
}

/// What a push must produce: `after` is `before` with the push applied
/// to its store and the same registrations; `r` carries the instruction for
/// the replication sink when the push mutates and a sink is installed, an
/// `Init` of the key's entries past 0 for debug listeners when the push
/// mutates (else a `Push` of the broadcast value), a `Push` for the key's
/// subscribers when there is a broadcast value, and a `StreamSize` for the
/// caller when the key's log holds more than one entry.
pub open spec fn push_outcome<L>(
    before: DatabaseInner<L>,
    after: DatabaseInner<L>,
    key: Seq<char>,
    value: Seq<u8>,
    action: Action,
    r: Outcome,
) -> bool {
    let ins = planned(key, value, action, before.store_model().last());
    let log = after.store_model().log(key);
    &&& pushed(before.store_model(), after.store_model(), key, value, action, ins)
    &&& after.same_listeners(&before)
    &&& (r.replica is Some) == (before.replicating() && ins.mutates())
    &&& (r.replica matches Some(a) ==> a.instruction@ == ins && a.stream_size == log.len())
    &&& (before.debug_listeners().len() == 0 ==> r.debug is None)
    &&& (before.debug_listeners().len() > 0 && ins.mutates() ==> message_is(
        r.debug,
        MessageModel::Init { key, data: log.filter(above(0)) },
    ))
    &&& (before.debug_listeners().len() > 0 && !ins.mutates() ==> match ins.broadcast {
        Some(b) => message_is(r.debug, MessageModel::Push { key, value: b.1, seq: b.0 }),
        None => r.debug is None,
    })
    &&& match ins.broadcast {
        Some(b) => message_is(r.broadcast, MessageModel::Push { key, value: b.1, seq: b.0 }),
        None => r.broadcast is None,
    }
    &&& if log.len() > 1 {
        message_is(r.reply, MessageModel::StreamSize { key, size: log.len() as usize })
    } else {
        r.reply is None
    }
}

/// What handling a request must produce: a push as [`push_outcome`] says;
/// a `Get` subscribes the connection to the key and replies with an `Init`
/// of the entries past the given sequence number, or not at all when none
/// is given; a `Ping` is answered with a `Pong` of the same nonce. Only a
/// push changes the store, and only a `Get` the registrations.
pub open spec fn handled<L>(
    before: DatabaseInner<L>,
    after: DatabaseInner<L>,
    connection: L,
    message: MessageToDatabase,
    r: Outcome,
) -> bool {
    match message {
        MessageToDatabase::Push { key, value, action } => push_outcome(
            before,
            after,
            key@,
            value@,
            action,
            r,
        ),
        MessageToDatabase::Get { key, seq } => {
            &&& after.store_model() == before.store_model()
            &&& after.listeners(key@) == before.listeners(key@).push(connection)
            &&& forall|k: Seq<char>| k != key@ ==> #[trigger] after.listeners(k) == before.listeners(k)
            &&& after.debug_listeners() == before.debug_listeners()
            &&& r.replica is None && r.debug is None && r.broadcast is None
            &&& match seq {
                Some(s) => message_is(
                    r.reply,
                    MessageModel::Init {
                        key: key@,
                        data: before.store_model().log(key@).filter(above(s.0)),
                    },
                ),
                None => r.reply is None,
            }
        },
        MessageToDatabase::Ping { nonce } => {
            &&& after.store_model() == before.store_model()
            &&& after.same_listeners(&before)
            &&& r.replica is None && r.debug is None && r.broadcast is None
            &&& message_is(r.reply, MessageModel::Pong { nonce })
        },
    }
}

/// An `Init` of the full log of `k`.
pub open spec fn init_of(store: Store, k: Seq<char>) -> MessageModel {
    MessageModel::Init { key: k, data: store.log(k) }
}

/// The key of an `Init`.
pub open spec fn init_key(m: MessageModel) -> Seq<char> {
    match m {
        MessageModel::Init { key, .. } => key,
        _ => Seq::<char>::empty(),
    }
}

/// `m` is an `Init` of the full, non-empty log of a key of `store`.
pub open spec fn snapshot_part(store: Store, m: MessageModel) -> bool {
    m matches MessageModel::Init { key, data } && store.has(key) && data == store.log(key)
        && data.len() > 0
}

/// The state of a room: its store, the listeners subscribed to each key,
/// the debug listeners, and whether a replication sink is installed.
pub struct DatabaseInner<L> {
    subscriptions: Vec<(Key, Vec<L>)>,
    debug_connections: Vec<L>,
    replicating: bool,
    store: Store,
}

impl<L> DatabaseInner<L> {
    pub closed spec fn wf(&self) -> bool {
        &&& self.store.wf()
        &&& distinct_subscription_keys(self.subscriptions@)
    }

    pub closed spec fn store_model(&self) -> Store {
        self.store
    }

    pub closed spec fn replicating(&self) -> bool {
        self.replicating
    }

    pub closed spec fn debug_listeners(&self) -> Seq<L> {
        self.debug_connections@
    }

    pub closed spec fn subscribed(&self, k: Seq<char>) -> bool {
        exists|i: int| 0 <= i < self.subscriptions@.len() && #[trigger] self.subscriptions@[i].0@ == k
    }

    /// The listeners subscribed to `k`, in the order they subscribed.
    pub closed spec fn listeners(&self, k: Seq<char>) -> Seq<L> {
        if self.subscribed(k) {
            let i = choose|i: int|
                0 <= i < self.subscriptions@.len() && #[trigger] self.subscriptions@[i].0@ == k;
            self.subscriptions@[i].1@
        } else {
            Seq::<L>::empty()
        }
    }

    /// The same registrations as `other`.
    pub open spec fn same_listeners(&self, other: &Self) -> bool {
        &&& forall|k: Seq<char>| #[trigger] self.listeners(k) == other.listeners(k)
        &&& self.debug_listeners() == other.debug_listeners()
    }

    proof fn lemma_listeners_at(&self, i: int)
        requires
            self.wf(),
            0 <= i < self.subscriptions@.len(),
        ensures
            self.listeners(self.subscriptions@[i].0@) == self.subscriptions@[i].1@,
    {
        let k = self.subscriptions@[i].0@;
        assert(self.subscribed(k));
        let j = choose|j: int|
            0 <= j < self.subscriptions@.len() && #[trigger] self.subscriptions@[j].0@ == k;
        assert(i == j);
    }

    /// A room over `store`, with no listeners and no replication sink.
    pub fn new(store: Store) -> (r: Self)
        requires
            store.wf(),
        ensures
            r.wf(),
            r.store_model() == store,
            !r.replicating(),
            r.debug_listeners() == Seq::<L>::empty(),
            forall|k: Seq<char>| #[trigger] r.listeners(k) == Seq::<L>::empty(),
    {
        DatabaseInner {
            subscriptions: Vec::new(),
            debug_connections: Vec::new(),
            replicating: false,
            store,
        }
    }

    pub fn store(&self) -> (r: &Store)
        ensures
            *r == self.store_model(),
    {
        &self.store
    }

    /// From now on, mutations are handed out for replication.
    pub fn set_replicating(&mut self)
        ensures
            final(self).replicating(),
            final(self).store_model() == old(self).store_model(),
            final(self).same_listeners(old(self)),
            old(self).wf() ==> final(self).wf(),
    {
        let ghost prev = *self;
        self.replicating = true;
        assert(self.subscriptions == prev.subscriptions);
        assert forall|k: Seq<char>| #[trigger] self.listeners(k) == prev.listeners(k) by {};
    }

    fn find(&self, key: &Key) -> (r: Option<usize>)
        requires
            self.wf(),
        ensures
            match r {
                Some(i) => i < self.subscriptions@.len() && self.subscriptions@[i as int].0@ == key@,
                None => !self.subscribed(key@),
            },
    {
        let mut i: usize = 0;
        while i < self.subscriptions.len()
            invariant
                0 <= i <= self.subscriptions@.len(),
                forall|j: int| 0 <= j < i ==> #[trigger] self.subscriptions@[j].0@ != key@,
            decreases self.subscriptions@.len() - i,
        {
            if self.subscriptions[i].0.equals(key) {
                return Some(i);
            }
            i = i + 1;
        }
        None
    }

    /// Registers `connection` as a subscriber of `key`.
    pub fn subscribe(&mut self, key: &Key, connection: L)
        requires
            old(self).wf(),
        ensures
            final(self).wf(),
            final(self).listeners(key@) == old(self).listeners(key@).push(connection),
            forall|k: Seq<char>| k != key@ ==> #[trigger] final(self).listeners(k) == old(self).listeners(k),
            final(self).debug_listeners() == old(self).debug_listeners(),
            final(self).store_model() == old(self).store_model(),
            final(self).replicating() == old(self).replicating(),
    {
        let ghost prev = *self;
        match self.find(key) {
            Some(i) => {
                proof {
                    prev.lemma_listeners_at(i as int);
                }
                self.subscriptions[i].1.push(connection);
                assert forall|a: int, b: int|
                    0 <= a < self.subscriptions@.len() && 0 <= b < self.subscriptions@.len() && a != b
                    implies #[trigger] self.subscriptions@[a].0@ != #[trigger] self.subscriptions@[b].0@ by {
                    assert(self.subscriptions@[a].0@ == prev.subscriptions@[a].0@);
                    assert(self.subscriptions@[b].0@ == prev.subscriptions@[b].0@);
                };
                proof {
                    self.lemma_listeners_at(i as int);
                }
            },
            None => {
                let mut list: Vec<L> = Vec::new();
                list.push(connection);
                self.subscriptions.push((key.copy(), list));
                let n = self.subscriptions.len() - 1;
                proof {
                    self.lemma_listeners_at(n as int);
                }
                assert(prev.listeners(key@) == Seq::<L>::empty());
                assert(list@ =~= Seq::<L>::empty().push(connection));
            },
        }
        assert forall|k: Seq<char>| k != key@ implies #[trigger] self.listeners(k) == prev.listeners(k) by {
            if prev.subscribed(k) {
                let j = choose|j: int|
                    0 <= j < prev.subscriptions@.len() && #[trigger] prev.subscriptions@[j].0@ == k;
                prev.lemma_listeners_at(j);
                self.lemma_listeners_at(j);
            } else if self.subscribed(k) {
                let j = choose|j: int|
                    0 <= j < self.subscriptions@.len() && #[trigger] self.subscriptions@[j].0@ == k;
                assert(prev.subscriptions@[j].0@ == k);
            }
        };
    }

    /// Registers `connection` as a debug listener.
    pub fn add_debug(&mut self, connection: L)
        requires
            old(self).wf(),
        ensures
            final(self).wf(),
            final(self).debug_listeners() == old(self).debug_listeners().push(connection),
            forall|k: Seq<char>| #[trigger] final(self).listeners(k) == old(self).listeners(k),
            final(self).store_model() == old(self).store_model(),
            final(self).replicating() == old(self).replicating(),
    {
        let ghost prev = *self;
        self.debug_connections.push(connection);
        assert(self.subscriptions == prev.subscriptions);
        assert forall|k: Seq<char>| #[trigger] self.listeners(k) == prev.listeners(k) by {};
    }

    /// The subscribers of `key`, in the order they subscribed.
    pub fn subscribers(&self, key: &Key) -> (r: &[L])
        requires
            self.wf(),
        ensures
            r@ == self.listeners(key@),
    {
        match self.find(key) {
            Some(i) => {
                proof {
                    self.lemma_listeners_at(i as int);
                }
                self.subscriptions[i].1.as_slice()
            },
            None => &[],
        }
    }

    /// The debug listeners, in the order they connected.
    pub fn debug_subscribers(&self) -> (r: &[L])
        ensures
            r@ == self.debug_listeners(),
    {
        self.debug_connections.as_slice()
    }

    /// Keeps, of the subscribers of `key`, those whose flag in `alive` is
    /// set; `alive` gives one flag per subscriber, in order.
    pub fn retain_subscribers(&mut self, key: &Key, alive: &Vec<bool>)
        requires
            old(self).wf(),
            alive@.len() == old(self).listeners(key@).len(),
        ensures
            final(self).wf(),
            final(self).listeners(key@) == kept(old(self).listeners(key@), alive@),
            forall|k: Seq<char>| k != key@ ==> #[trigger] final(self).listeners(k) == old(self).listeners(k),
            final(self).debug_listeners() == old(self).debug_listeners(),
            final(self).store_model() == old(self).store_model(),
            final(self).replicating() == old(self).replicating(),
    {
        let ghost prev = *self;
        match self.find(key) {
            Some(i) => {
                proof {
                    prev.lemma_listeners_at(i as int);
                }
                retain_flagged(&mut self.subscriptions[i].1, alive);
                assert forall|a: int, b: int|
                    0 <= a < self.subscriptions@.len() && 0 <= b < self.subscriptions@.len() && a != b
                    implies #[trigger] self.subscriptions@[a].0@ != #[trigger] self.subscriptions@[b].0@ by {
                    assert(self.subscriptions@[a].0@ == prev.subscriptions@[a].0@);
                    assert(self.subscriptions@[b].0@ == prev.subscriptions@[b].0@);
                };
                proof {
                    self.lemma_listeners_at(i as int);
                }
                assert forall|k: Seq<char>| k != key@ implies #[trigger] self.listeners(k) == prev.listeners(k) by {
                    if prev.subscribed(k) {
                        let j = choose|j: int|
                            0 <= j < prev.subscriptions@.len() && #[trigger] prev.subscriptions@[j].0@ == k;
                        prev.lemma_listeners_at(j);
                        self.lemma_listeners_at(j);
                    } else if self.subscribed(k) {
                        let j = choose|j: int|
                            0 <= j < self.subscriptions@.len() && #[trigger] self.subscriptions@[j].0@ == k;
                        assert(prev.subscriptions@[j].0@ == k);
                    }
                };
            },
            None => {
                assert(kept(prev.listeners(key@), alive@) =~= Seq::<L>::empty());
            },
        }
    }

    /// Keeps the debug listeners whose flag in `alive` is set; `alive` gives
    /// one flag per debug listener, in order.
    pub fn retain_debug(&mut self, alive: &Vec<bool>)
        requires
            old(self).wf(),
            alive@.len() == old(self).debug_listeners().len(),
        ensures
            final(self).wf(),
            final(self).debug_listeners() == kept(old(self).debug_listeners(), alive@),
            forall|k: Seq<char>| #[trigger] final(self).listeners(k) == old(self).listeners(k),
            final(self).store_model() == old(self).store_model(),
            final(self).replicating() == old(self).replicating(),
    {
        let ghost prev = *self;
        retain_flagged(&mut self.debug_connections, alive);
        assert(self.subscriptions == prev.subscriptions);
        assert forall|k: Seq<char>| #[trigger] self.listeners(k) == prev.listeners(k) by {};
    }

    /// Pushes `value` to `key` with `action` and says what to deliver.
    pub fn push(&mut self, key: &Key, value: Value, action: &Action) -> (r: Outcome)
        requires
            old(self).wf(),
            allocates(*action) ==> old(self).store_model().last() < u64::MAX,
        ensures
            final(self).wf(),
            final(self).same_listeners(old(self)),
            final(self).replicating() == old(self).replicating(),
            push_outcome(*old(self), *final(self), key@, value@, *action, r),
    {
        let ghost bytes = value@;
        let ghost prev = *self;
        let result = self.store.apply_action(key, value, action);
        assert(self.subscriptions == prev.subscriptions);
        assert forall|k: Seq<char>| #[trigger] self.listeners(k) == prev.listeners(k) by {};
        let ghost ins = planned(key@, bytes, *action, prev.store_model().last());
        let ghost log = self.store_model().log(key@);
        assert(result.instruction@ == ins);
        let mutates = result.mutates();
        let debug = if self.debug_connections.len() == 0 {
            None
        } else if mutates {
            let data = self.store.get(key, SequenceNumber(0));
            Some(MessageFromDatabase::Init { key: key.copy(), data })
        } else {
            match &result.instruction.broadcast {
                Some(b) => Some(
                    MessageFromDatabase::Push { key: key.copy(), value: b.value.copy(), seq: b.seq },
                ),
                None => None,
            }
        };
        let broadcast = match &result.instruction.broadcast {
            Some(b) => Some(
                MessageFromDatabase::Push { key: key.copy(), value: b.value.copy(), seq: b.seq },
            ),
            None => None,
        };
        let reply = if result.stream_size > 1 {
            Some(MessageFromDatabase::StreamSize { key: key.copy(), size: result.stream_size })
        } else {
            None
        };
        let replica = if mutates && self.replicating {
            Some(result)
        } else {
            None
        };
        let r = Outcome { replica, debug, broadcast, reply };
        assert((r.replica is Some) == (prev.replicating() && ins.mutates()));
        assert(prev.debug_listeners().len() > 0 && ins.mutates() ==> message_is(
            r.debug,
            MessageModel::Init { key: key@, data: log.filter(above(0)) },
        ));
        assert(match ins.broadcast {
            Some(b) => message_is(r.broadcast, MessageModel::Push { key: key@, value: b.1, seq: b.0 }),
            None => r.broadcast is None,
        });
        r
    }

    /// An `Init` of the entries of `key` past `seq`.
    pub fn get(&self, key: &Key, seq: SequenceNumber) -> (r: Option<MessageFromDatabase>)
        requires
            self.wf(),
        ensures
            message_is(
                r,
                MessageModel::Init {
                    key: key@,
                    data: self.store_model().log(key@).filter(above(seq.0)),
                },
            ),
    {
        let data = self.store.get(key, seq);
        Some(MessageFromDatabase::Init { key: key.copy(), data })
    }

    /// Handles one request from `connection`: a push, a subscription (with
    /// the entries past the given sequence number when one is given), or a
    /// ping.
    pub fn handle(&mut self, connection: L, message: &MessageToDatabase) -> (r: Outcome)
        requires
            old(self).wf(),
            *message matches MessageToDatabase::Push { action, .. } && allocates(action)
                ==> old(self).store_model().last() < u64::MAX,
        ensures
            final(self).wf(),
            final(self).replicating() == old(self).replicating(),
            handled(*old(self), *final(self), connection, *message, r),
    {
        match message {
            MessageToDatabase::Push { key, value, action } => self.push(key, value.copy(), action),
            MessageToDatabase::Get { key, seq } => {
                self.subscribe(key, connection);
                let reply = match seq {
                    Some(s) => self.get(key, *s),
                    None => None,
                };
                Outcome { replica: None, debug: None, broadcast: None, reply }
            },
            MessageToDatabase::Ping { nonce } => Outcome {
                replica: None,
                debug: None,
                broadcast: None,
                reply: Some(MessageFromDatabase::Pong { nonce: *nonce }),
            },
        }
    }

    /// One `Init` with the full log of each key whose log is not empty.
    pub fn debug_snapshot(&self) -> (r: Vec<MessageFromDatabase>)
        requires
            self.wf(),
        ensures
            forall|i: int| 0 <= i < r@.len() ==> snapshot_part(self.store_model(), (#[trigger] r@[i])@),
            forall|k: Seq<char>|
                #[trigger] self.store_model().has(k) && self.store_model().log(k).len() > 0 ==> exists|i: int|
                    0 <= i < r@.len() && (#[trigger] r@[i])@ == init_of(self.store_model(), k),
            forall|i: int, j: int|
                0 <= i < j < r@.len() ==> init_key((#[trigger] r@[i])@) != init_key((#[trigger] r@[j])@),
    {
        let subjects = self.store.subjects();
        let ghost listed = logs_of(subjects@);
        let mut out: Vec<MessageFromDatabase> = Vec::new();
        let mut i: usize = 0;
        while i < subjects.len()
            invariant
                0 <= i <= subjects@.len(),
                listed == logs_of(subjects@),
                distinct_keys(subjects@),
                self.store_model().listed_by(listed),
                forall|m: int|
                    0 <= m < out@.len() ==> exists|j: int|
                        0 <= j < i && init_key((#[trigger] out@[m])@) == listed[j].0@,
                forall|a: int, b: int|
                    0 <= a < b < out@.len() ==> init_key((#[trigger] out@[a])@) != init_key((#[trigger] out@[b])@),
                forall|j: int| 0 <= j < out@.len() ==> snapshot_part(self.store_model(), (#[trigger] out@[j])@),
                forall|j: int|
                    0 <= j < i && listed[j].1.len() > 0 ==> exists|m: int|
                        0 <= m < out@.len() && (#[trigger] out@[m])@ == init_of(self.store_model(), listed[j].0@),
            decreases subjects@.len() - i,
        {
            let log = &subjects[i].1;
            assert(listed[i as int].1 == log@);
            if log.len() > 0 {
                let data = log.to_vec();
                let msg = MessageFromDatabase::Init { key: subjects[i].0.copy(), data };
                let ghost before = out@;
                out.push(msg);
                assert(out@[out@.len() - 1] == msg);
                assert forall|j: int|
                    0 <= j < i + 1 && listed[j].1.len() > 0 implies exists|m: int|
                        0 <= m < out@.len() && (#[trigger] out@[m])@ == init_of(self.store_model(), listed[j].0@) by {
                    if j < i {
                        let m = choose|m: int|
                            0 <= m < before.len() && (#[trigger] before[m])@ == init_of(self.store_model(), listed[j].0@);
                        assert(out@[m] == before[m]);
                    } else {
                        assert(out@[out@.len() - 1]@ == init_of(self.store_model(), listed[j].0@));
                    }
                };
                assert forall|m: int| 0 <= m < out@.len() implies exists|j: int|
                    0 <= j < i + 1 && init_key((#[trigger] out@[m])@) == listed[j].0@ by {
                    if m < before.len() {
                        assert(out@[m] == before[m]);
                    } else {
                        assert(init_key(out@[m]@) == listed[i as int].0@);
                    }
                };
                assert forall|a: int, b: int|
                    0 <= a < b < out@.len() implies init_key((#[trigger] out@[a])@) != init_key((#[trigger] out@[b])@) by {
                    assert(out@[a] == before[a]);
                    if b < before.len() {
                        assert(out@[b] == before[b]);
                    } else {
                        let j = choose|j: int| 0 <= j < i && init_key((#[trigger] before[a])@) == listed[j].0@;
                        assert(listed[j].0 == subjects@[j].0);
                        assert(listed[i as int].0 == subjects@[i as int].0);
                        assert(subjects@[j].0@ != subjects@[i as int].0@);
                    }
                };
            }
            i = i + 1;
        }
        assert forall|k: Seq<char>|
            #[trigger] self.store_model().has(k) && self.store_model().log(k).len() > 0 implies exists|m: int|
                0 <= m < out@.len() && (#[trigger] out@[m])@ == init_of(self.store_model(), k) by {
            let j = choose|j: int| 0 <= j < listed.len() && #[trigger] listed[j].0@ == k;
            assert(listed[j].1 == self.store_model().log(k));
        };
        out
    }
}

} // verus!
