//! Storage keys for stream entries: `"{len}|{key}|{seq:020}"`, where `len`
//! is the key's length in bytes. Keys of one stream share a prefix, and
//! within it sort by sequence number.

use vstd::prelude::*;
use vstd::string::*;
use vstd::utf8::{encode_scalar, encode_utf8};

use crate::types::{byte_len, Key, SequenceNumber};

verus! {

/// The character of a decimal digit.
pub open spec fn digit_char(d: nat) -> char {
    if d == 0 {
        '0'
    } else if d == 1 {
        '1'
    } else if d == 2 {
        '2'
    } else if d == 3 {
        '3'
    } else if d == 4 {
        '4'
    } else if d == 5 {
        '5'
    } else if d == 6 {
        '6'
    } else if d == 7 {
        '7'
    } else if d == 8 {
        '8'
    } else {
        '9'
    }
}

pub open spec fn is_digit(c: char) -> bool {
    '0' <= c <= '9'
}

pub open spec fn digit_value(c: char) -> nat {
    ((c as u32) - 48) as nat
}

/// The number that decimal digits stand for.
pub open spec fn digits_value(cs: Seq<char>) -> nat
    decreases cs.len(),
{
    if cs.len() == 0 {
        0
    } else {
        digits_value(cs.drop_last()) * 10 + digit_value(cs.last())
    }
}

pub open spec fn pow10(w: nat) -> nat
    decreases w,
{
    if w == 0 {
        1
    } else {
        10 * pow10((w - 1) as nat)
    }
}

proof fn lemma_digit_char(d: nat)
    requires
        d < 10,
    ensures
        is_digit(digit_char(d)),
        digit_value(digit_char(d)) == d,
{
}

proof fn lemma_decimal_digits(n: nat)
    ensures
        forall|i: int| 0 <= i < decimal(n).len() ==> is_digit(#[trigger] decimal(n)[i]),
    decreases n,
{
    lemma_digit_char(n % 10);
    if n >= 10 {
        lemma_decimal_digits(n / 10);
        let d = decimal(n);
        assert forall|i: int| 0 <= i < d.len() implies is_digit(#[trigger] d[i]) by {
            if i < d.len() - 1 {
                assert(d[i] == decimal(n / 10)[i]);
            }
        };
    }
}

proof fn lemma_pow10_positive(w: nat)
    ensures
        pow10(w) > 0,
    decreases w,
{
    if w > 0 {
        lemma_pow10_positive((w - 1) as nat);
    }
}

proof fn lemma_padded(n: nat, w: nat)
    ensures
        padded(n, w).len() == w,
        forall|i: int| 0 <= i < w ==> is_digit(#[trigger] padded(n, w)[i]),
        digits_value(padded(n, w)) == n % pow10(w),
    decreases w,
{
    if w > 0 {
        lemma_padded(n / 10, (w - 1) as nat);
        lemma_digit_char(n % 10);
        lemma_pow10_positive((w - 1) as nat);
        let p = padded(n, w);
        assert(p.drop_last() == padded(n / 10, (w - 1) as nat));
        assert forall|i: int| 0 <= i < w implies is_digit(#[trigger] p[i]) by {
            if i < w - 1 {
                assert(p[i] == padded(n / 10, (w - 1) as nat)[i]);
            }
        };
        assert(pow10(w) == 10 * pow10((w - 1) as nat));
        vstd::arithmetic::div_mod::lemma_breakdown(n as int, 10, pow10((w - 1) as nat) as int);
        assert(10 * pow10((w - 1) as nat) == pow10((w - 1) as nat) * 10) by (nonlinear_arith);
    }
}

/// `n` in decimal, without leading zeros.
pub open spec fn decimal(n: nat) -> Seq<char>
    decreases n,
{
    if n < 10 {
        seq![digit_char(n)]
    } else {
        decimal(n / 10).push(digit_char(n % 10))
    }
}

/// The last `w` decimal digits of `n`, zeros in front.
pub open spec fn padded(n: nat, w: nat) -> Seq<char>
    decreases w,
{
    if w == 0 {
        Seq::<char>::empty()
    } else {
        padded(n / 10, (w - 1) as nat).push(digit_char(n % 10))
    }
}

/// The prefix shared by the storage keys of a stream.
pub open spec fn prefix_text(key: Seq<char>) -> Seq<char> {
    decimal(byte_len(key) as nat) + seq!['|'] + key + seq!['|']
}

/// Whether `p` is a leading part of `s`.
pub open spec fn is_text_prefix(p: Seq<char>, s: Seq<char>) -> bool {
    p.len() <= s.len() && s.subrange(0, p.len() as int) == p
}

/// Whether `a` sorts before `b`, comparing character by character.
pub open spec fn text_less(a: Seq<char>, b: Seq<char>) -> bool
    decreases a.len(),
{
    if a.len() == 0 {
        b.len() > 0
    } else if b.len() == 0 {
        false
    } else if a[0] != b[0] {
        a[0] < b[0]
    } else {
        text_less(a.drop_first(), b.drop_first())
    }
}

/// The storage key of an entry.
pub open spec fn key_and_seq_text(key: Seq<char>, seq: u64) -> Seq<char> {
    prefix_text(key) + padded(seq as nat, 20)
}

proof fn lemma_text_shape(k: Seq<char>, q: u64)
    ensures
        ({
            let t = key_and_seq_text(k, q);
            let d = decimal(byte_len(k) as nat);
            &&& t.len() == d.len() + k.len() + 22
            &&& d.len() >= 1
            &&& forall|j: int| 0 <= j < d.len() ==> #[trigger] t[j] != '|'
            &&& t[d.len() as int] == '|'
            &&& t[t.len() - 21] == '|'
            &&& t.subrange(d.len() as int + 1, t.len() - 21) == k
            &&& t.subrange(t.len() - 20, t.len() as int) == padded(q as nat, 20)
            &&& forall|j: int| t.len() - 20 <= j < t.len() ==> is_digit(#[trigger] t[j])
            &&& digits_value(padded(q as nat, 20)) == q
        }),
{
    let t = key_and_seq_text(k, q);
    let d = decimal(byte_len(k) as nat);
    let pd = padded(q as nat, 20);
    lemma_decimal_digits(byte_len(k) as nat);
    lemma_padded(q as nat, 20);
    reveal_with_fuel(decimal, 2);
    assert(t =~= d + seq!['|'] + k + seq!['|'] + pd);
    assert forall|j: int| 0 <= j < d.len() implies #[trigger] t[j] != '|' by {
        assert(t[j] == d[j]);
    };
    assert(t.subrange(d.len() as int + 1, t.len() - 21) =~= k);
    assert(t.subrange(t.len() - 20, t.len() as int) =~= pd);
    assert forall|j: int| t.len() - 20 <= j < t.len() implies is_digit(#[trigger] t[j]) by {
        assert(t[j] == pd[j - (t.len() - 20)]);
    };
    reveal_with_fuel(pow10, 21);
    assert(pow10(20) == 100000000000000000000nat);
    assert(q < pow10(20));
    vstd::arithmetic::div_mod::lemma_small_mod(q as nat, pow10(20));
}

proof fn lemma_first_bar(s: Seq<char>, k: Seq<char>, q: u64, p: int)
    requires
        s == key_and_seq_text(k, q),
        0 <= p < s.len(),
        s[p] == '|',
        forall|j: int| 0 <= j < p ==> s[j] != '|',
    ensures
        p == decimal(byte_len(k) as nat).len(),
{
    lemma_text_shape(k, q);
    let n = decimal(byte_len(k) as nat).len() as int;
    if p < n {
        assert(s[p] != '|');
    } else if p > n {
        assert(s[n] == '|');
    }
}

proof fn lemma_pow10_le(a: nat, b: nat)
    requires
        a <= b,
    ensures
        pow10(a) <= pow10(b),
    decreases b,
{
    if a < b {
        lemma_pow10_le(a, (b - 1) as nat);
        lemma_pow10_positive((b - 1) as nat);
    }
}

pub(crate) fn same_text(a: &str, b: &str) -> (r: bool)
    ensures
        r == (a@ == b@),
{
    let n = a.unicode_len();
    if n != b.unicode_len() {
        return false;
    }
    let mut i: usize = 0;
    while i < n
        invariant
            0 <= i <= n,
            n == a@.len(),
            n == b@.len(),
            forall|j: int| 0 <= j < i ==> a@[j] == b@[j],
        decreases n - i,
    {
        if a.get_char(i) != b.get_char(i) {
            return false;
        }
        i = i + 1;
    }
    assert(a@ =~= b@);
    true
}

proof fn lemma_decimal_value(n: nat)
    ensures
        digits_value(decimal(n)) == n,
    decreases n,
{
    lemma_digit_char(n % 10);
    if n >= 10 {
        lemma_decimal_value(n / 10);
        assert(decimal(n).drop_last() == decimal(n / 10));
        assert(decimal(n).last() == digit_char(n % 10));
        vstd::arithmetic::div_mod::lemma_fundamental_div_mod(n as int, 10);
        assert((n / 10) * 10 == 10 * (n / 10)) by (nonlinear_arith);
    } else {
        assert(decimal(n).drop_last() =~= Seq::<char>::empty());
        assert(decimal(n).last() == digit_char(n));
        assert(digits_value(Seq::<char>::empty()) == 0);
    }
}

proof fn lemma_utf8_concat(a: Seq<char>, b: Seq<char>)
    ensures
        encode_utf8(a + b) == encode_utf8(a) + encode_utf8(b),
    decreases a.len(),
{
    if a.len() == 0 {
        assert(a + b =~= b);
        assert(encode_utf8(a) =~= Seq::<u8>::empty());
        assert(encode_utf8(a) + encode_utf8(b) =~= encode_utf8(b));
    } else {
        lemma_utf8_concat(a.drop_first(), b);
        assert((a + b).drop_first() =~= a.drop_first() + b);
        assert((a + b)[0] == a[0]);
        assert(encode_utf8(a + b) =~= encode_utf8(a) + encode_utf8(b));
    }
}

proof fn lemma_utf8_longer(a: Seq<char>, b: Seq<char>)
    requires
        b.len() > 0,
    ensures
        encode_utf8(a + b).len() > encode_utf8(a).len(),
{
    lemma_utf8_concat(a, b);
    assert(encode_scalar(b[0] as u32).len() >= 1);
}

/// Two texts whose UTF-8 encodings fit a machine word: a shorter one
/// cannot be a proper leading part of a longer one of the same byte length.
proof fn lemma_same_bytes_prefix(short: Seq<char>, long: Seq<char>)
    requires
        short.len() < long.len(),
        long.subrange(0, short.len() as int) == short,
        encode_utf8(short).len() <= usize::MAX,
        encode_utf8(long).len() <= usize::MAX,
    ensures
        byte_len(short) != byte_len(long),
{
    let rest = long.subrange(short.len() as int, long.len() as int);
    assert(short + rest =~= long);
    lemma_utf8_longer(short, rest);
}

/// The prefix of a stream's storage keys starts a storage key exactly when
/// the key was written for that stream, even when keys hold `|`: storage
/// keys of different streams never share the prefix of one of them.
pub proof fn lemma_prefix_unambiguous(k1: Seq<char>, k2: Seq<char>, q: u64)
    requires
        encode_utf8(k1).len() <= usize::MAX,
        encode_utf8(k2).len() <= usize::MAX,
    ensures
        is_text_prefix(prefix_text(k1), key_and_seq_text(k2, q)) <==> k1 == k2,
{
    let p = prefix_text(k1);
    let t = key_and_seq_text(k2, q);
    if k1 == k2 {
        assert(t.subrange(0, p.len() as int) =~= p);
    }
    if is_text_prefix(p, t) {
        let d1 = decimal(byte_len(k1) as nat);
        let d2 = decimal(byte_len(k2) as nat);
        lemma_text_shape(k2, q);
        lemma_decimal_digits(byte_len(k1) as nat);
        reveal_with_fuel(decimal, 2);
        assert(p =~= d1 + seq!['|'] + k1 + seq!['|']);
        assert(d1.len() >= 1);
        assert forall|j: int| 0 <= j < p.len() implies #[trigger] t[j] == p[j] by {
            assert(t.subrange(0, p.len() as int)[j] == t[j]);
        };
        // The first bar stands at the same place in both.
        if d1.len() < d2.len() {
            assert(t[d1.len() as int] == p[d1.len() as int]);
        } else if d1.len() > d2.len() {
            assert(t[d2.len() as int] == p[d2.len() as int]);
            assert(p[d2.len() as int] == d1[d2.len() as int]);
        }
        assert(d1.len() == d2.len());
        assert(d1 =~= d2) by {
            assert forall|j: int| 0 <= j < d1.len() implies d1[j] == d2[j] by {
                assert(p[j] == d1[j]);
                assert(t[j] == d2[j]);
            };
        };
        lemma_decimal_value(byte_len(k1) as nat);
        lemma_decimal_value(byte_len(k2) as nat);
        assert(byte_len(k1) == byte_len(k2));
        let m = d1.len() + 1;
        let tk = t.subrange(m as int, t.len() - 21);
        assert(tk == k2);
        if k1.len() < k2.len() {
            assert forall|j: int| 0 <= j < k1.len() implies k2[j] == k1[j] by {
                assert(p[m + j] == k1[j]);
                assert(t[m + j] == tk[j]);
            };
            assert(k2.subrange(0, k1.len() as int) =~= k1);
            lemma_same_bytes_prefix(k1, k2);
        } else if k1.len() > k2.len() {
            assert forall|j: int| 0 <= j < k2.len() implies k1[j] == k2[j] by {
                assert(p[m + j] == k1[j]);
                assert(t[m + j] == tk[j]);
            };
            assert(k1.subrange(0, k2.len() as int) =~= k2);
            lemma_same_bytes_prefix(k2, k1);
        } else {
            assert forall|j: int| 0 <= j < k1.len() implies k2[j] == k1[j] by {
                assert(p[m + j] == k1[j]);
                assert(t[m + j] == tk[j]);
            };
            assert(k1 =~= k2);
        }
    }
}

proof fn lemma_less_common_prefix(p: Seq<char>, a: Seq<char>, b: Seq<char>)
    ensures
        text_less(p + a, p + b) == text_less(a, b),
    decreases p.len(),
{
    if p.len() == 0 {
        assert(p + a =~= a);
        assert(p + b =~= b);
    } else {
        assert((p + a).drop_first() =~= p.drop_first() + a);
        assert((p + b).drop_first() =~= p.drop_first() + b);
        lemma_less_common_prefix(p.drop_first(), a, b);
    }
}

proof fn lemma_less_push(a: Seq<char>, b: Seq<char>, x: char, y: char)
    requires
        a.len() == b.len(),
    ensures
        text_less(a.push(x), b.push(y)) == (text_less(a, b) || (a == b && x < y)),
    decreases a.len(),
{
    if a.len() == 0 {
        assert(a =~= b);
        assert(a.push(x).drop_first() =~= Seq::<char>::empty());
        assert(b.push(y).drop_first() =~= Seq::<char>::empty());
        assert(a.push(x)[0] == x);
        assert(b.push(y)[0] == y);
        assert(!text_less(Seq::<char>::empty(), Seq::<char>::empty()));
    } else {
        assert(a.push(x).drop_first() =~= a.drop_first().push(x));
        assert(b.push(y).drop_first() =~= b.drop_first().push(y));
        assert(a.push(x)[0] == a[0]);
        assert(b.push(y)[0] == b[0]);
        lemma_less_push(a.drop_first(), b.drop_first(), x, y);
        if a[0] == b[0] && a.drop_first() == b.drop_first() {
            assert forall|i: int| 0 <= i < a.len() implies a[i] == b[i] by {
                if i > 0 {
                    assert(a[i] == a.drop_first()[i - 1]);
                    assert(b[i] == b.drop_first()[i - 1]);
                }
            };
            assert(a =~= b);
        }
        if a == b {
            assert(a.drop_first() == b.drop_first());
        }
    }
}

pub(crate) proof fn lemma_text_less_irreflexive(a: Seq<char>)
    ensures
        !text_less(a, a),
    decreases a.len(),
{
    if a.len() > 0 {
        lemma_text_less_irreflexive(a.drop_first());
    }
}

proof fn lemma_padded_order(n1: nat, n2: nat, w: nat)
    ensures
        text_less(padded(n1, w), padded(n2, w)) == (n1 % pow10(w) < n2 % pow10(w)),
        (padded(n1, w) == padded(n2, w)) == (n1 % pow10(w) == n2 % pow10(w)),
    decreases w,
{
    lemma_padded(n1, w);
    lemma_padded(n2, w);
    if w == 0 {
        assert(padded(n1, w) =~= padded(n2, w));
        lemma_text_less_irreflexive(padded(n1, w));
        assert(n1 % 1 == 0 && n2 % 1 == 0) by (nonlinear_arith);
    } else {
        let v = (w - 1) as nat;
        lemma_padded_order(n1 / 10, n2 / 10, v);
        lemma_pow10_positive(v);
        let p = pow10(v);
        let a1 = (n1 / 10) % p;
        let a2 = (n2 / 10) % p;
        let d1 = n1 % 10;
        let d2 = n2 % 10;
        lemma_digit_char(d1);
        lemma_digit_char(d2);
        let s1 = padded(n1 / 10, v);
        let s2 = padded(n2 / 10, v);
        lemma_padded(n1 / 10, v);
        lemma_padded(n2 / 10, v);
        lemma_less_push(s1, s2, digit_char(d1), digit_char(d2));
        assert((digit_char(d1) < digit_char(d2)) == (d1 < d2));
        assert((digit_char(d1) == digit_char(d2)) == (d1 == d2));
        vstd::arithmetic::div_mod::lemma_breakdown(n1 as int, 10, p as int);
        vstd::arithmetic::div_mod::lemma_breakdown(n2 as int, 10, p as int);
        assert(pow10(w) == 10 * p);
        assert(10 * p == p * 10) by (nonlinear_arith);
        assert(n1 % pow10(w) == 10 * a1 + d1);
        assert(n2 % pow10(w) == 10 * a2 + d2);
        assert((10 * a1 + d1 < 10 * a2 + d2) == (a1 < a2 || (a1 == a2 && d1 < d2))) by (nonlinear_arith)
            requires
                d1 < 10,
                d2 < 10,
        ;
        assert((10 * a1 + d1 == 10 * a2 + d2) == (a1 == a2 && d1 == d2)) by (nonlinear_arith)
            requires
                d1 < 10,
                d2 < 10,
        ;
        if s1 == s2 && d1 == d2 {
            assert(padded(n1, w) =~= padded(n2, w));
        }
        if padded(n1, w) == padded(n2, w) {
            assert(s1 =~= padded(n1, w).drop_last());
            assert(s2 =~= padded(n2, w).drop_last());
            assert(padded(n1, w).last() == padded(n2, w).last());
        }
    }
}

/// The storage keys of one stream sort as their sequence numbers do.
pub proof fn lemma_keys_sorted_by_seq(k: Seq<char>, q1: u64, q2: u64)
    ensures
        text_less(key_and_seq_text(k, q1), key_and_seq_text(k, q2)) == (q1 < q2),
{
    lemma_less_common_prefix(prefix_text(k), padded(q1 as nat, 20), padded(q2 as nat, 20));
    lemma_padded_order(q1 as nat, q2 as nat, 20);
    reveal_with_fuel(pow10, 21);
    assert(pow10(20) == 100000000000000000000nat);
    vstd::arithmetic::div_mod::lemma_small_mod(q1 as nat, pow10(20));
    vstd::arithmetic::div_mod::lemma_small_mod(q2 as nat, pow10(20));
}

fn digit(d: u64) -> (c: char)
    requires
        d < 10,
    ensures
        c == digit_char(d as nat),
{
    match d {
        0 => '0',
        1 => '1',
        2 => '2',
        3 => '3',
        4 => '4',
        5 => '5',
        6 => '6',
        7 => '7',
        8 => '8',
        _ => '9',
    }
}

fn push_decimal(n: u64, out: &mut Vec<char>)
    ensures
        final(out)@ == old(out)@ + decimal(n as nat),
    decreases n,
{
    if n >= 10 {
        push_decimal(n / 10, out);
    }
    out.push(digit(n % 10));
}

fn push_padded(n: u64, w: u64, out: &mut Vec<char>)
    ensures
        final(out)@ == old(out)@ + padded(n as nat, w as nat),
    decreases w,
{
    if w > 0 {
        push_padded(n / 10, w - 1, out);
        out.push(digit(n % 10));
    }
}

/// Relies on `String`'s `FromIterator<char>`: the characters in order.
#[verifier::external_body]
pub(crate) fn string_of(chars: &Vec<char>) -> (r: String)
    ensures
        r@ == chars@,
{
    chars.iter().collect()
}

/// A stream key and a sequence number, written as one storage key.
#[derive(Debug, Clone, PartialEq, Eq, Hash)]
pub struct KeyAndSeq {
    pub key: Key,
    pub seq: SequenceNumber,
}

impl KeyAndSeq {
    pub fn new(key: Key, seq: SequenceNumber) -> (r: KeyAndSeq)
        ensures
            r.key == key,
            r.seq == seq,
    {
        KeyAndSeq { key, seq }
    }

    /// The prefix shared by the storage keys of `key`: `"{len}|{key}|"`.
    pub fn prefix_str(key: &Key) -> (r: String)
        ensures
            r@ == prefix_text(key@),
    {
        let mut digits: Vec<char> = Vec::new();
        push_decimal(key.len() as u64, &mut digits);
        assert(digits@ =~= decimal(byte_len(key@) as nat));
        let mut s = string_of(&digits);
        proof {
            reveal_strlit("|");
        }
        s.append("|");
        s.append(key.0.as_str());
        s.append("|");
        assert(s@ =~= prefix_text(key@));
        s
    }

    /// The storage key: `"{len}|{key}|{seq:020}"`.
    pub fn to_string(&self) -> (r: String)
        ensures
            r@ == key_and_seq_text(self.key@, self.seq.0),
    {
        let mut s = KeyAndSeq::prefix_str(&self.key);
        let mut digits: Vec<char> = Vec::new();
        push_padded(self.seq.0, 20, &mut digits);
        assert(digits@ =~= padded(self.seq.0 as nat, 20));
        let tail = string_of(&digits);
        s.append(tail.as_str());
        s
    }

    /// Reads a storage key back. Succeeds exactly on the text that
    /// `to_string` writes, giving back its key and sequence number.
    pub fn from_str(s: &str) -> (r: Result<KeyAndSeq, &'static str>)
        ensures
            r matches Ok(k) ==> s@ == key_and_seq_text(k.key@, k.seq.0),
            forall|k: Seq<char>, q: u64|
                s@ == #[trigger] key_and_seq_text(k, q) ==> (r matches Ok(x) && x.key@ == k && x.seq.0 == q),
    {
        let n = s.unicode_len();
        let mut p: usize = 0;
        while p < n && s.get_char(p) != '|'
            invariant
                0 <= p <= n,
                n == s@.len(),
                forall|j: int| 0 <= j < p ==> s@[j] != '|',
            decreases n - p,
        {
            p = p + 1;
        }
        if p == n || n - p < 22 {
            assert forall|k: Seq<char>, q: u64| s@ != #[trigger] key_and_seq_text(k, q) by {
                if s@ == key_and_seq_text(k, q) {
                    lemma_text_shape(k, q);
                    let d = decimal(byte_len(k) as nat).len() as int;
                    if p == n {
                        assert(s@[d] == '|');
                    } else {
                        lemma_first_bar(s@, k, q, p as int);
                    }
                }
            };
            return Err("malformed storage key");
        }
        let end = n - 21;
        if s.get_char(end) != '|' {
            assert forall|k: Seq<char>, q: u64| s@ != #[trigger] key_and_seq_text(k, q) by {
                if s@ == key_and_seq_text(k, q) {
                    lemma_text_shape(k, q);
                }
            };
            return Err("malformed storage key");
        }
        let key = Key(s.substring_char(p + 1, end).to_owned());
        let mut v: u128 = 0;
        let mut i: usize = end + 1;
        proof {
            reveal_with_fuel(pow10, 21);
            lemma_pow10_le(0, 20);
            assert(s@.subrange(end + 1, i as int) =~= Seq::<char>::empty());
        }
        while i < n
            invariant
                end + 1 <= i <= n,
                n == s@.len(),
                end == n - 21,
                v == digits_value(s@.subrange(end + 1, i as int)),
                v < pow10((i - end - 1) as nat),
                pow10((i - end - 1) as nat) <= pow10(20),
                pow10(20) == 100000000000000000000nat,
            decreases n - i,
        {
            let c = s.get_char(i);
            if !('0' <= c && c <= '9') {
                assert forall|k: Seq<char>, q: u64| s@ != #[trigger] key_and_seq_text(k, q) by {
                    if s@ == key_and_seq_text(k, q) {
                        lemma_text_shape(k, q);
                    }
                };
                return Err("malformed storage key");
            }
            let ghost w = (i - end - 1) as nat;
            assert(s@.subrange(end + 1, i + 1).drop_last() =~= s@.subrange(end + 1, i as int));
            let d = (c as u32 - 48) as u128;
            proof {
                lemma_pow10_le(w + 1, 20);
                assert(v * 10 + d < pow10(w) * 10) by (nonlinear_arith)
                    requires
                        v < pow10(w),
                        d < 10,
                ;
            }
            v = v * 10 + d;
            i = i + 1;
        }
        if v > u64::MAX as u128 {
            assert forall|k: Seq<char>, q: u64| s@ != #[trigger] key_and_seq_text(k, q) by {
                if s@ == key_and_seq_text(k, q) {
                    lemma_text_shape(k, q);
                }
            };
            return Err("malformed storage key");
        }
        let candidate = KeyAndSeq { key, seq: SequenceNumber(v as u64) };
        let text = candidate.to_string();
        if !same_text(text.as_str(), s) {
            assert forall|k: Seq<char>, q: u64| s@ != #[trigger] key_and_seq_text(k, q) by {
                if s@ == key_and_seq_text(k, q) {
                    lemma_text_shape(k, q);
                    lemma_first_bar(s@, k, q, p as int);
                    assert(s@.subrange(end + 1, n as int) == padded(q as nat, 20));
                }
            };
            return Err("malformed storage key");
        }
        proof {
            assert forall|k: Seq<char>, q: u64|
                s@ == #[trigger] key_and_seq_text(k, q) implies candidate.key@ == k && candidate.seq.0 == q by {
                lemma_text_shape(k, q);
                lemma_first_bar(s@, k, q, p as int);
                assert(s@.subrange(end + 1, n as int) == padded(q as nat, 20));
            };
        }
        Ok(candidate)
    }
}

} // verus!
