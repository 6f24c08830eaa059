use vstd::prelude::*;
use vstd::string::*;

verus! {

/// The name of a stream within a room.
#[derive(Debug, Clone, Default, PartialEq, Eq, Hash)]
pub struct Key(pub String);

impl View for Key {
    type V = Seq<char>;

    open spec fn view(&self) -> Seq<char> {
        self.0@
    }
}

/// The number of bytes in the UTF-8 encoding of a text, as a machine word.
pub open spec fn byte_len(s: Seq<char>) -> usize {
    vstd::utf8::encode_utf8(s).len() as usize
}

impl Key {
    pub fn new(s: String) -> (r: Key)
        ensures
            r@ == s@,
    {
        Key(s)
    }

    /// Length of the key in bytes (of its UTF-8 encoding).
    pub fn len(&self) -> (r: usize)
        ensures
            r == byte_len(self@),
    {
        self.0.as_str().len()
    }

    pub fn copy(&self) -> (r: Key)
        ensures
            r == *self,
    {
        Key(self.0.clone())
    }

    pub fn equals(&self, other: &Key) -> (r: bool)
        ensures
            r == (self@ == other@),
    {
        self.0 == other.0
    }
}

impl From<&str> for Key {
    fn from(s: &str) -> Key {
        Key(String::from_str(s))
    }
}

impl vstd::std_specs::convert::FromSpecImpl<&str> for Key {
    open spec fn obeys_from_spec() -> bool {
        false
    }

    closed spec fn from_spec(v: &str) -> Key {
        choose|k: Key| k@ == v@
    }
}

/// A position in the total order of a store's mutations.
#[derive(Debug, Clone, Copy, Default, PartialEq, Eq, PartialOrd, Ord, Hash)]
pub struct SequenceNumber(pub u64);

impl SequenceNumber {
    /// The following sequence number.
    pub fn next(&self) -> (r: SequenceNumber)
        requires
            self.0 < u64::MAX,
        ensures
            r.0 == self.0 + 1,
    {
        SequenceNumber(self.0 + 1)
    }
}

/// A pushed payload, held as its encoded bytes. The store never looks
/// inside; it only keeps, copies and compares it.
#[derive(Debug, Clone, Default, PartialEq, Eq, Hash)]
pub struct Value(pub Vec<u8>);

impl View for Value {
    type V = Seq<u8>;

    open spec fn view(&self) -> Seq<u8> {
        self.0@
    }
}

impl Value {
    pub fn copy(&self) -> (r: Value)
        ensures
            r@ == self@,
    {
        let mut out: Vec<u8> = Vec::new();
        let mut i: usize = 0;
        while i < self.0.len()
            invariant
                i <= self.0@.len(),
                out@ == self.0@.subrange(0, i as int),
            decreases self.0@.len() - i,
        {
            out.push(self.0[i]);
            i = i + 1;
            assert(out@ =~= self.0@.subrange(0, i as int));
        }
        assert(out@ =~= self.0@);
        Value(out)
    }
}

/// An entry of a log: a sequence number and a payload.
#[derive(Debug, Clone, PartialEq, Eq)]
pub struct SequenceValue {
    pub value: Value,
    pub seq: SequenceNumber,
}

impl View for SequenceValue {
    type V = (u64, Seq<u8>);

    open spec fn view(&self) -> (u64, Seq<u8>) {
        (self.seq.0, self.value@)
    }
}

impl SequenceValue {
    pub fn copy(&self) -> (r: SequenceValue)
        ensures
            r@ == self@,
    {
        SequenceValue { value: self.value.copy(), seq: self.seq }
    }
}

/// How a pushed value changes the stream it is pushed to.
#[derive(Debug, Clone, Copy, PartialEq, Eq)]
pub enum Action {
    /// Broadcast to subscribers without altering the stream.
    Relay,
    /// Append to the stream.
    Append,
    /// Replace the entire stream.
    Replace,
    /// Replace every entry up to and including `seq` with the pushed value,
    /// placed at `seq` at the head of the stream.
    Compact { seq: SequenceNumber },
}

/// A request from a client.
#[derive(Debug, Clone, PartialEq, Eq)]
pub enum MessageToDatabase {
    Push { key: Key, value: Value, action: Action },
    Get { key: Key, seq: Option<SequenceNumber> },
    Ping { nonce: Option<u64> },
}

/// A message to a client.
#[derive(Debug, Clone, PartialEq, Eq)]
pub enum MessageFromDatabase {
    Push { key: Key, value: Value, seq: SequenceNumber },
    Init { key: Key, data: Vec<SequenceValue> },
    Error { message: String },
    StreamSize { key: Key, size: usize },
    Pong { nonce: Option<u64> },
}

/// A message to a client as contracts see it.
pub enum MessageModel {
    Push { key: Seq<char>, value: Seq<u8>, seq: u64 },
    Init { key: Seq<char>, data: Seq<(u64, Seq<u8>)> },
    Error { message: Seq<char> },
    StreamSize { key: Seq<char>, size: usize },
    Pong { nonce: Option<u64> },
}

impl View for MessageFromDatabase {
    type V = MessageModel;

    open spec fn view(&self) -> MessageModel {
        match self {
            MessageFromDatabase::Push { key, value, seq } => MessageModel::Push {
                key: key@,
                value: value@,
                seq: seq.0,
            },
            MessageFromDatabase::Init { key, data } => MessageModel::Init {
                key: key@,
                data: data@.map_values(|v: SequenceValue| v@),
            },
            MessageFromDatabase::Error { message } => MessageModel::Error { message: message@ },
            MessageFromDatabase::StreamSize { key, size } => MessageModel::StreamSize {
                key: key@,
                size: *size,
            },
            MessageFromDatabase::Pong { nonce } => MessageModel::Pong { nonce: *nonce },
        }
    }
}

/// A path of names, such as `a.b.c`.
#[derive(Debug, Clone, Default, PartialEq, Eq)]
pub struct Subject(pub Vec<String>);

impl View for Subject {
    type V = Seq<Seq<char>>;

    open spec fn view(&self) -> Seq<Seq<char>> {
        self.0@.map_values(|s: String| s@)
    }
}

/// The parts of `s` between dots; a text without dots is one part.
pub open spec fn dot_parts(s: Seq<char>) -> Seq<Seq<char>>
    decreases s.len(),
{
    if s.len() == 0 {
        seq![Seq::<char>::empty()]
    } else {
        let p = dot_parts(s.drop_last());
        if s.last() == '.' {
            p.push(Seq::<char>::empty())
        } else {
            p.update(p.len() - 1, p.last().push(s.last()))
        }
    }
}

proof fn lemma_dot_parts_nonempty(s: Seq<char>)
    ensures
        dot_parts(s).len() >= 1,
    decreases s.len(),
{
    if s.len() > 0 {
        lemma_dot_parts_nonempty(s.drop_last());
    }
}

/// The subject that a dotted text names: no parts for the empty text,
/// else the parts between dots.
pub open spec fn subject_of(s: Seq<char>) -> Seq<Seq<char>> {
    if s.len() == 0 {
        Seq::<Seq<char>>::empty()
    } else {
        dot_parts(s)
    }
}

impl Subject {
    /// The subject named by `s`, with its parts separated by dots.
    pub fn from_dotted(s: &str) -> (r: Subject)
        ensures
            r@ == subject_of(s@),
    {
        let n = s.unicode_len();
        let mut parts: Vec<String> = Vec::new();
        if n == 0 {
            assert(parts@.map_values(|x: String| x@) =~= Seq::<Seq<char>>::empty());
            return Subject(parts);
        }
        let mut cur: Vec<char> = Vec::new();
        let mut i: usize = 0;
        assert(s@.subrange(0, 0) =~= Seq::<char>::empty());
        assert(parts@.map_values(|x: String| x@).push(cur@) =~= dot_parts(s@.subrange(0, 0)));
        while i < n
            invariant
                0 <= i <= n,
                n == s@.len(),
                parts@.map_values(|x: String| x@).push(cur@) == dot_parts(s@.subrange(0, i as int)),
            decreases n - i,
        {
            let c = s.get_char(i);
            let ghost sub = s@.subrange(0, i + 1);
            assert(sub.drop_last() =~= s@.subrange(0, i as int));
            assert(sub.last() == c);
            proof {
                lemma_dot_parts_nonempty(s@.subrange(0, i as int));
            }
            if c == '.' {
                let part = crate::key_seq_pair::string_of(&cur);
                let ghost before = parts@;
                parts.push(part);
                cur = Vec::new();
                assert(parts@.map_values(|x: String| x@) =~= before.map_values(|x: String| x@).push(part@));
                assert(parts@.map_values(|x: String| x@).push(cur@) =~= dot_parts(sub));
            } else {
                let ghost before = cur@;
                cur.push(c);
                assert(parts@.map_values(|x: String| x@).push(cur@) =~= dot_parts(sub));
            }
            i = i + 1;
        }
        let last = crate::key_seq_pair::string_of(&cur);
        let ghost before = parts@;
        parts.push(last);
        assert(s@.subrange(0, n as int) =~= s@);
        assert(parts@.map_values(|x: String| x@) =~= before.map_values(|x: String| x@).push(cur@));
        Subject(parts)
    }

    pub fn equals(&self, other: &Subject) -> (r: bool)
        ensures
            r == (self@ == other@),
    {
        let n = self.0.len();
        if n != other.0.len() {
            assert(self@.len() != other@.len());
            return false;
        }
        let mut i: usize = 0;
        while i < n
            invariant
                0 <= i <= n,
                n == self.0@.len(),
                n == other.0@.len(),
                forall|j: int| 0 <= j < i ==> self@[j] == other@[j],
            decreases n - i,
        {
            if self.0[i] != other.0[i] {
                assert(self@[i as int] != other@[i as int]);
                return false;
            }
            i = i + 1;
        }
        assert(self@ =~= other@);
        true
    }

    /// Whether `prefix` is a leading part of this subject.
    pub fn starts_with(&self, prefix: &Subject) -> (r: bool)
        ensures
            r == (prefix@.len() <= self@.len() && self@.subrange(0, prefix@.len() as int) == prefix@),
    {
        let n = prefix.0.len();
        if n > self.0.len() {
            return false;
        }
        let mut i: usize = 0;
        while i < n
            invariant
                0 <= i <= n,
                n == prefix.0@.len(),
                n <= self.0@.len(),
                forall|j: int| 0 <= j < i ==> self@[j] == prefix@[j],
            decreases n - i,
        {
            if self.0[i] != prefix.0[i] {
                assert(self@.subrange(0, n as int)[i as int] != prefix@[i as int]);
                return false;
            }
            i = i + 1;
        }
        assert(self@.subrange(0, n as int) =~= prefix@);
        true
    }

    /// The first `n` parts of this subject.
    pub fn take(&self, n: usize) -> (r: Subject)
        requires
            n <= self@.len(),
        ensures
            r@ == self@.subrange(0, n as int),
    {
        let mut parts: Vec<String> = Vec::new();
        let mut i: usize = 0;
        while i < n
            invariant
                0 <= i <= n,
                n <= self.0@.len(),
                parts@.map_values(|x: String| x@) == self@.subrange(0, i as int),
            decreases n - i,
        {
            let ghost before = parts@;
            let c = self.0[i].clone();
            assert(c@ == self@[i as int]);
            parts.push(c);
            assert(parts@.map_values(|x: String| x@) =~= before.map_values(|x: String| x@).push(c@));
            assert(parts@.map_values(|x: String| x@) =~= self@.subrange(0, i + 1));
            i = i + 1;
        }
        Subject(parts)
    }

    pub fn len(&self) -> (r: usize)
        ensures
            r == self@.len(),
    {
        self.0.len()
    }

    pub fn copy(&self) -> (r: Subject)
        ensures
            r@ == self@,
    {
        let r = self.take(self.0.len());
        assert(self@.subrange(0, self@.len() as int) =~= self@);
        r
    }
}

} // verus!
