use std::collections::VecDeque;

use driftdb::{
    Action, ApplyResult, DatabaseInner, Key, MessageFromDatabase, MessageToDatabase,
    SequenceNumber, SequenceValue, Store, Value,
};

/// A room whose listeners are numbered inboxes, delivering as a host would.
struct Room {
    inner: DatabaseInner<usize>,
    inboxes: Vec<VecDeque<MessageFromDatabase>>,
    alive: Vec<bool>,
    replicated: Vec<ApplyResult>,
}

impl Room {
    fn new() -> Room {
        Room {
            inner: DatabaseInner::new(Store::empty()),
            inboxes: Vec::new(),
            alive: Vec::new(),
            replicated: Vec::new(),
        }
    }

    fn connect(&mut self) -> usize {
        self.inboxes.push(VecDeque::new());
        self.alive.push(true);
        self.inboxes.len() - 1
    }

    fn connect_debug(&mut self) -> usize {
        let id = self.connect();
        for message in self.inner.debug_snapshot() {
            self.inboxes[id].push_back(message);
        }
        self.inner.add_debug(id);
        id
    }

    fn drop_connection(&mut self, id: usize) {
        self.alive[id] = false;
    }

    fn deliver(&mut self, ids: Vec<usize>, message: &MessageFromDatabase) -> Vec<bool> {
        ids.into_iter()
            .map(|id| {
                if self.alive[id] {
                    self.inboxes[id].push_back(message.clone());
                    true
                } else {
                    false
                }
            })
            .collect()
    }

    fn send(&mut self, from: usize, message: MessageToDatabase) -> Option<MessageFromDatabase> {
        let outcome = self.inner.handle(from, &message);
        if let Some(result) = outcome.replica {
            self.replicated.push(result);
        }
        if let Some(m) = &outcome.debug {
            let ids = self.inner.debug_subscribers().to_vec();
            let alive = self.deliver(ids, m);
            self.inner.retain_debug(&alive);
        }
        if let Some(m) = &outcome.broadcast {
            if let MessageFromDatabase::Push { key, .. } = m {
                let ids = self.inner.subscribers(key).to_vec();
                let alive = self.deliver(ids, m);
                self.inner.retain_subscribers(key, &alive);
            }
        }
        if let Some(reply) = &outcome.reply {
            self.inboxes[from].push_back(reply.clone());
        }
        outcome.reply
    }

    fn subscribe(&mut self, conn: usize, key: &str) {
        self.send(
            conn,
            MessageToDatabase::Get {
                seq: Some(SequenceNumber::default()),
                key: key.into(),
            },
        );
    }

    fn push(&mut self, conn: usize, key: &str, value: Value, action: Action) {
        self.send(
            conn,
            MessageToDatabase::Push {
                key: key.into(),
                value,
                action,
            },
        );
    }

    fn next(&mut self, conn: usize) -> Option<MessageFromDatabase> {
        self.inboxes[conn].pop_front()
    }
}

/// A one-entry map from text to text, encoded as CBOR.
fn obj(k: &str, v: &str) -> Value {
    map1(k, ciborium::Value::Text(v.to_string()))
}

/// A one-entry map from text to `value`, encoded as CBOR.
fn map1(k: &str, value: ciborium::Value) -> Value {
    encode(ciborium::Value::Map(vec![(ciborium::Value::Text(k.to_string()), value)]))
}

fn encode(value: ciborium::Value) -> Value {
    let mut bytes = Vec::new();
    ciborium::ser::into_writer(&value, &mut bytes).unwrap();
    Value(bytes)
}

fn key(s: &str) -> Key {
    Key::from(s)
}

#[test]
fn test_initialize() {
    let mut db = Room::new();
    let conn = db.connect();

    db.subscribe(conn, "foo");

    assert_eq!(
        Some(MessageFromDatabase::Init {
            data: vec![],
            key: "foo".into()
        }),
        db.next(conn)
    );
}

#[test]
fn test_subscribe_relay() {
    let mut db = Room::new();
    let conn1 = db.connect();
    let conn2 = db.connect();

    db.push(conn2, "foo", obj("bar", "baz"), Action::Relay);

    assert!(
        db.next(conn1).is_none(),
        "conn1 should not receive message because it has not subscribed"
    );

    db.subscribe(conn1, "foo");
    db.push(conn2, "foo", obj("bar", "baz"), Action::Relay);

    assert_eq!(
        Some(MessageFromDatabase::Init {
            key: "foo".into(),
            data: vec![],
        }),
        db.next(conn1)
    );
    assert_eq!(
        Some(MessageFromDatabase::Push {
            key: "foo".into(),
            value: obj("bar", "baz"),
            seq: SequenceNumber(2),
        }),
        db.next(conn1)
    );
}

#[test]
fn test_ephemeral_message() {
    let mut db = Room::new();
    let conn = db.connect();

    db.subscribe(conn, "foo");

    assert_eq!(
        Some(MessageFromDatabase::Init {
            data: vec![],
            key: "foo".into()
        }),
        db.next(conn)
    );

    db.push(conn, "foo", obj("bar", "baz"), Action::Relay);

    assert_eq!(
        Some(MessageFromDatabase::Push {
            key: "foo".into(),
            value: obj("bar", "baz"),
            seq: SequenceNumber(1),
        }),
        db.next(conn)
    );

    db.push(conn, "foo", obj("abc", "def"), Action::Relay);

    assert_eq!(
        Some(MessageFromDatabase::Push {
            key: "foo".into(),
            value: obj("abc", "def"),
            seq: SequenceNumber(2),
        }),
        db.next(conn)
    );
}

#[test]
fn test_ephemeral_message_multiple_connections() {
    let mut db = Room::new();

    let conn1 = db.connect();
    db.subscribe(conn1, "foo");
    assert_eq!(
        Some(MessageFromDatabase::Init {
            data: vec![],
            key: "foo".into()
        }),
        db.next(conn1)
    );

    let conn2 = db.connect();
    db.subscribe(conn2, "foo");
    assert_eq!(
        Some(MessageFromDatabase::Init {
            data: vec![],
            key: "foo".into()
        }),
        db.next(conn2)
    );

    db.push(conn1, "foo", obj("bar", "baz"), Action::Relay);

    assert_eq!(
        Some(MessageFromDatabase::Push {
            key: "foo".into(),
            value: obj("bar", "baz"),
            seq: SequenceNumber(1),
        }),
        db.next(conn1)
    );

    assert_eq!(
        Some(MessageFromDatabase::Push {
            key: "foo".into(),
            value: obj("bar", "baz"),
            seq: SequenceNumber(1),
        }),
        db.next(conn2)
    );
}

#[test]
fn test_durable_message_sent_to_later_connection() {
    let mut db = Room::new();
    let conn = db.connect();

    db.subscribe(conn, "foo");

    assert_eq!(
        Some(MessageFromDatabase::Init {
            data: vec![],
            key: "foo".into()
        }),
        db.next(conn)
    );

    db.push(conn, "foo", obj("bar", "baz"), Action::Replace);

    assert_eq!(
        Some(MessageFromDatabase::Push {
            key: "foo".into(),
            value: obj("bar", "baz"),
            seq: SequenceNumber(1),
        }),
        db.next(conn)
    );

    let conn2 = db.connect();
    db.subscribe(conn2, "foo");

    assert_eq!(
        Some(MessageFromDatabase::Init {
            data: vec![SequenceValue {
                value: obj("bar", "baz"),
                seq: SequenceNumber(1),
            }],
            key: "foo".into()
        }),
        db.next(conn2)
    );
}

#[test]
fn test_ephemeral_message_not_subscribed() {
    let mut db = Room::new();

    let conn1 = db.connect();
    db.subscribe(conn1, "foo");
    assert_eq!(
        Some(MessageFromDatabase::Init {
            data: vec![],
            key: "foo".into()
        }),
        db.next(conn1)
    );

    let conn2 = db.connect();

    db.push(conn1, "foo", obj("bar", "baz"), Action::Relay);

    assert_eq!(
        Some(MessageFromDatabase::Push {
            key: "foo".into(),
            value: obj("bar", "baz"),
            seq: SequenceNumber(1),
        }),
        db.next(conn1)
    );

    assert_eq!(None, db.next(conn2));
}

#[test]
fn test_append() {
    let mut db = Room::new();
    let conn = db.connect();

    db.subscribe(conn, "foo");

    assert_eq!(
        Some(MessageFromDatabase::Init {
            data: vec![],
            key: "foo".into()
        }),
        db.next(conn)
    );

    db.push(conn, "foo", obj("bar", "baz"), Action::Append);

    assert_eq!(
        Some(MessageFromDatabase::Push {
            key: "foo".into(),
            value: obj("bar", "baz"),
            seq: SequenceNumber(1),
        }),
        db.next(conn)
    );

    db.push(conn, "foo", obj("abc", "def"), Action::Append);

    assert_eq!(
        Some(MessageFromDatabase::Push {
            key: "foo".into(),
            value: obj("abc", "def"),
            seq: SequenceNumber(2),
        }),
        db.next(conn)
    );
    assert_eq!(
        Some(MessageFromDatabase::StreamSize {
            key: "foo".into(),
            size: 2,
        }),
        db.next(conn)
    );

    db.push(conn, "foo", obj("boo", "baa"), Action::Append);

    assert_eq!(
        Some(MessageFromDatabase::Push {
            key: "foo".into(),
            value: obj("boo", "baa"),
            seq: SequenceNumber(3),
        }),
        db.next(conn)
    );
    assert_eq!(
        Some(MessageFromDatabase::StreamSize {
            key: "foo".into(),
            size: 3,
        }),
        db.next(conn)
    );

    let conn2 = db.connect();
    db.subscribe(conn2, "foo");

    assert_eq!(
        Some(MessageFromDatabase::Init {
            key: "foo".into(),
            data: vec![
                SequenceValue {
                    value: obj("bar", "baz"),
                    seq: SequenceNumber(1),
                },
                SequenceValue {
                    value: obj("abc", "def"),
                    seq: SequenceNumber(2),
                },
                SequenceValue {
                    value: obj("boo", "baa"),
                    seq: SequenceNumber(3),
                }
            ]
        }),
        db.next(conn2)
    );
}

#[test]
fn test_compact() {
    let mut db = Room::new();
    let conn = db.connect();

    db.subscribe(conn, "foo");

    assert_eq!(
        Some(MessageFromDatabase::Init {
            data: vec![],
            key: "foo".into()
        }),
        db.next(conn)
    );

    db.push(conn, "foo", obj("bar", "baz"), Action::Append);
    db.push(conn, "foo", obj("abc", "def"), Action::Append);
    db.push(conn, "foo", obj("boo", "baa"), Action::Append);
    db.push(
        conn,
        "foo",
        obj("moo", "ram"),
        Action::Compact {
            seq: SequenceNumber(2),
        },
    );

    let conn2 = db.connect();
    db.subscribe(conn2, "foo");

    assert_eq!(
        Some(MessageFromDatabase::Init {
            key: "foo".into(),
            data: vec![
                SequenceValue {
                    value: obj("moo", "ram"),
                    seq: SequenceNumber(2),
                },
                SequenceValue {
                    value: obj("boo", "baa"),
                    seq: SequenceNumber(3),
                }
            ]
        }),
        db.next(conn2)
    );
}

#[test]
fn empty_subscribe_gets_empty_init() {
    let mut db = Room::new();
    let c = db.connect();
    let reply = db.send(
        c,
        MessageToDatabase::Get {
            key: key("foo"),
            seq: Some(SequenceNumber(0)),
        },
    );
    let expected = MessageFromDatabase::Init {
        key: key("foo"),
        data: vec![],
    };
    assert_eq!(Some(expected.clone()), reply);
    assert_eq!(Some(expected), db.next(c));
    assert_eq!(None, db.next(c));
}

#[test]
fn append_sequence_broadcasts_and_reports_size() {
    let mut db = Room::new();
    let c = db.connect();
    db.subscribe(c, "foo");
    db.next(c);
    let a1 = map1("a", ciborium::Value::Integer(1.into()));
    let b2 = map1("b", ciborium::Value::Integer(2.into()));
    db.push(c, "foo", a1.clone(), Action::Append);
    assert_eq!(
        Some(MessageFromDatabase::Push {
            key: key("foo"),
            value: a1,
            seq: SequenceNumber(1)
        }),
        db.next(c)
    );
    assert_eq!(None, db.next(c));
    db.push(c, "foo", b2.clone(), Action::Append);
    assert_eq!(
        Some(MessageFromDatabase::Push {
            key: key("foo"),
            value: b2,
            seq: SequenceNumber(2)
        }),
        db.next(c)
    );
    assert_eq!(
        Some(MessageFromDatabase::StreamSize {
            key: key("foo"),
            size: 2
        }),
        db.next(c)
    );
}

#[test]
fn late_subscriber_sees_replace() {
    let mut db = Room::new();
    let writer = db.connect();
    let x0 = map1("x", ciborium::Value::Integer(0.into()));
    db.push(writer, "k", x0.clone(), Action::Replace);
    let c = db.connect();
    db.subscribe(c, "k");
    assert_eq!(
        Some(MessageFromDatabase::Init {
            key: key("k"),
            data: vec![SequenceValue {
                value: x0,
                seq: SequenceNumber(1)
            }]
        }),
        db.next(c)
    );
}

#[test]
fn compact_replaces_prefix_with_rollup() {
    let mut db = Room::new();
    let w = db.connect();
    db.push(w, "s", obj("v", "1"), Action::Append);
    db.push(w, "s", obj("v", "2"), Action::Append);
    db.push(w, "s", obj("v", "3"), Action::Append);
    let sum = map1("sum", ciborium::Value::Integer(9.into()));
    db.push(
        w,
        "s",
        sum.clone(),
        Action::Compact {
            seq: SequenceNumber(2),
        },
    );
    let c = db.connect();
    db.subscribe(c, "s");
    assert_eq!(
        Some(MessageFromDatabase::Init {
            key: key("s"),
            data: vec![
                SequenceValue {
                    value: sum,
                    seq: SequenceNumber(2)
                },
                SequenceValue {
                    value: obj("v", "3"),
                    seq: SequenceNumber(3)
                },
            ]
        }),
        db.next(c)
    );
}

#[test]
fn relay_is_ephemeral() {
    let mut db = Room::new();
    let c = db.connect();
    db.subscribe(c, "r");
    db.next(c);
    let hi = map1("hi", ciborium::Value::Bool(true));
    db.push(c, "r", hi.clone(), Action::Relay);
    assert_eq!(
        Some(MessageFromDatabase::Push {
            key: key("r"),
            value: hi,
            seq: SequenceNumber(1)
        }),
        db.next(c)
    );
    let late = db.connect();
    db.subscribe(late, "r");
    assert_eq!(
        Some(MessageFromDatabase::Init {
            key: key("r"),
            data: vec![]
        }),
        db.next(late)
    );
    assert!(db.replicated.is_empty());
}

#[test]
fn ping_is_answered_without_fan_out() {
    let mut db = Room::new();
    let c = db.connect();
    let other = db.connect();
    db.subscribe(other, "x");
    db.next(other);
    let debug = db.connect_debug();
    let reply = db.send(c, MessageToDatabase::Ping { nonce: Some(7) });
    assert_eq!(Some(MessageFromDatabase::Pong { nonce: Some(7) }), reply);
    assert_eq!(Some(MessageFromDatabase::Pong { nonce: Some(7) }), db.next(c));
    assert_eq!(None, db.next(other));
    assert_eq!(None, db.next(debug));
}

#[test]
fn dropped_connection_is_reaped() {
    let mut db = Room::new();
    let c1 = db.connect();
    let c2 = db.connect();
    db.subscribe(c1, "x");
    db.subscribe(c2, "x");
    db.next(c1);
    db.next(c2);
    assert_eq!(vec![c1, c2], db.inner.subscribers(&key("x")).to_vec());
    db.drop_connection(c1);
    db.push(c2, "x", obj("a", "b"), Action::Relay);
    assert_eq!(
        Some(MessageFromDatabase::Push {
            key: key("x"),
            value: obj("a", "b"),
            seq: SequenceNumber(1)
        }),
        db.next(c2)
    );
    assert_eq!(None, db.next(c1));
    assert_eq!(vec![c2], db.inner.subscribers(&key("x")).to_vec());
}

#[test]
fn get_without_seq_subscribes_silently() {
    let mut db = Room::new();
    let c = db.connect();
    let reply = db.send(
        c,
        MessageToDatabase::Get {
            key: key("q"),
            seq: None,
        },
    );
    assert_eq!(None, reply);
    assert_eq!(None, db.next(c));
    db.push(c, "q", obj("a", "b"), Action::Append);
    assert_eq!(
        Some(MessageFromDatabase::Push {
            key: key("q"),
            value: obj("a", "b"),
            seq: SequenceNumber(1)
        }),
        db.next(c)
    );
}

#[test]
fn get_since_returns_later_entries_only() {
    let mut db = Room::new();
    let w = db.connect();
    db.push(w, "k", obj("v", "1"), Action::Append);
    db.push(w, "k", obj("v", "2"), Action::Append);
    db.push(w, "k", obj("v", "3"), Action::Append);
    let c = db.connect();
    let reply = db.send(
        c,
        MessageToDatabase::Get {
            key: key("k"),
            seq: Some(SequenceNumber(1)),
        },
    );
    assert_eq!(
        Some(MessageFromDatabase::Init {
            key: key("k"),
            data: vec![
                SequenceValue {
                    value: obj("v", "2"),
                    seq: SequenceNumber(2)
                },
                SequenceValue {
                    value: obj("v", "3"),
                    seq: SequenceNumber(3)
                },
            ]
        }),
        reply
    );
}

#[test]
fn debug_listener_sees_snapshot_and_every_change() {
    let mut db = Room::new();
    let w = db.connect();
    db.push(w, "a", obj("v", "1"), Action::Append);
    db.push(w, "b", obj("v", "2"), Action::Relay);
    let d = db.connect_debug();
    assert_eq!(
        Some(MessageFromDatabase::Init {
            key: key("a"),
            data: vec![SequenceValue {
                value: obj("v", "1"),
                seq: SequenceNumber(1)
            }]
        }),
        db.next(d)
    );
    assert_eq!(None, db.next(d));
    db.push(w, "a", obj("v", "3"), Action::Append);
    assert_eq!(
        Some(MessageFromDatabase::Init {
            key: key("a"),
            data: vec![
                SequenceValue {
                    value: obj("v", "1"),
                    seq: SequenceNumber(1)
                },
                SequenceValue {
                    value: obj("v", "3"),
                    seq: SequenceNumber(3)
                },
            ]
        }),
        db.next(d)
    );
    db.push(w, "c", obj("v", "4"), Action::Relay);
    assert_eq!(
        Some(MessageFromDatabase::Push {
            key: key("c"),
            value: obj("v", "4"),
            seq: SequenceNumber(4)
        }),
        db.next(d)
    );
    db.drop_connection(d);
    db.push(w, "a", obj("v", "5"), Action::Append);
    assert!(db.inner.debug_subscribers().is_empty());
}

#[test]
fn replication_sees_only_mutations() {
    let mut db = Room::new();
    db.inner.set_replicating();
    let w = db.connect();
    db.push(w, "k", obj("v", "1"), Action::Relay);
    assert!(db.replicated.is_empty());
    db.push(w, "k", obj("v", "2"), Action::Append);
    db.push(w, "k", obj("v", "3"), Action::Replace);
    assert_eq!(2, db.replicated.len());
    assert_eq!(1, db.replicated[1].stream_size);
    assert!(db.replicated.iter().all(|r| r.mutates()));
}
