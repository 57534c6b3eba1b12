//! Facts about the codec that relate several inputs or calls.

use vstd::prelude::*;

use crate::alphabet::{ascii_lower, digit_of, is_ascii_char, is_symbol, lowered_char};
use crate::codec::{
    base37_value, canonical_key, encoded, key_digits, le_bytes, lowered, padded_key, power,
};

verus! {

proof fn lemma_lowered_ascii(p: Seq<char>)
    requires
        forall|i: int| 0 <= i < p.len() ==> is_ascii_char(#[trigger] p[i]),
    ensures
        lowered(p) == p.map_values(|c: char| ascii_lower(c)),
    decreases p.len(),
{
    if p.len() > 0 {
        lemma_lowered_ascii(p.drop_last());
        assert(lowered(p) =~= p.map_values(|c: char| ascii_lower(c)));
    }
}

/// Two sequences whose characters pairwise lower-case alike, or are ASCII
/// characters whose lower cases have the same digit, lower-case to
/// sequences of one length with the same digits.
proof fn lemma_lowered_digits(p: Seq<char>, q: Seq<char>)
    requires
        p.len() == q.len(),
        forall|i: int|
            0 <= i < p.len() ==> lowered_char(#[trigger] p[i]) == lowered_char(q[i]) || (
            is_ascii_char(p[i]) && is_ascii_char(q[i]) && digit_of(ascii_lower(p[i]))
                == digit_of(ascii_lower(q[i]))),
    ensures
        lowered(p).len() == lowered(q).len(),
        forall|k: int|
            0 <= k < lowered(p).len() ==> digit_of(#[trigger] lowered(p)[k]) == digit_of(
                lowered(q)[k],
            ),
    decreases p.len(),
{
    if p.len() > 0 {
        let n = (p.len() - 1) as int;
        assert(p[n] == p.last() && q[n] == q.last());
        lemma_lowered_digits(p.drop_last(), q.drop_last());
        let lp = lowered(p.drop_last());
        let lq = lowered(q.drop_last());
        assert forall|k: int| 0 <= k < lowered(p).len() implies digit_of(
            #[trigger] lowered(p)[k],
        ) == digit_of(lowered(q)[k]) by {
            if k < lp.len() {
                assert(lowered(p)[k] == lp[k]);
                assert(lowered(q)[k] == lq[k]);
            }
        }
    }
}

proof fn lemma_same_key_digits(s: Seq<char>, t: Seq<char>)
    requires
        s.len() == t.len(),
        forall|i: int|
            0 <= i < s.len() ==> #[trigger] s[i] == t[i] || (is_ascii_char(s[i]) && is_ascii_char(
                t[i],
            ) && digit_of(ascii_lower(s[i])) == digit_of(ascii_lower(t[i]))),
    ensures
        encoded(s) == encoded(t),
{
    let p = padded_key(s);
    let q = padded_key(t);
    assert forall|i: int| 0 <= i < 32 implies lowered_char(#[trigger] p[i]) == lowered_char(q[i])
        || (is_ascii_char(p[i]) && is_ascii_char(q[i]) && digit_of(ascii_lower(p[i])) == digit_of(
        ascii_lower(q[i]),
    )) by {
        if i < s.len() {
            assert(s[i] == t[i] || (is_ascii_char(s[i]) && is_ascii_char(t[i]) && digit_of(
                ascii_lower(s[i]),
            ) == digit_of(ascii_lower(t[i]))));
        }
    }
    lemma_lowered_digits(p, q);
    assert(key_digits(s) =~= key_digits(t));
}

/// A string of at least 32 characters from `0-9` and `a-z` is its own
/// canonical key once cut to 32 characters: lower-casing changes nothing,
/// and its encoding is that of its first 32 characters.
pub proof fn lemma_symbol_key_unchanged(s: Seq<char>)
    requires
        s.len() >= 32,
        forall|i: int| 0 <= i < s.len() ==> is_symbol(#[trigger] s[i]),
    ensures
        canonical_key(s) == s.take(32),
        encoded(s) == encoded(s.take(32)),
{
    assert(padded_key(s) =~= s.take(32));
    assert(padded_key(s.take(32)) =~= s.take(32));
    lemma_lowered_ascii(s.take(32));
    assert(canonical_key(s) =~= s.take(32));
    assert(canonical_key(s.take(32)) =~= s.take(32));
}

proof fn lemma_zero_digits(ds: Seq<nat>)
    requires
        forall|i: int| 0 <= i < ds.len() ==> ds[i] == 0,
    ensures
        base37_value(ds) == 0,
    decreases ds.len(),
{
    if ds.len() > 0 {
        lemma_zero_digits(ds.drop_last());
    }
}

proof fn lemma_power_positive(b: nat, e: nat)
    requires
        b > 0,
    ensures
        power(b, e) > 0,
    decreases e,
{
    if e > 0 {
        lemma_power_positive(b, (e - 1) as nat);
        assert(b * power(b, (e - 1) as nat) > 0) by (nonlinear_arith)
            requires
                b > 0,
                power(b, (e - 1) as nat) > 0,
        ;
    }
}

/// The empty string is encoded as 32 `'0'` characters are: every digit is 0,
/// so all 36 bytes are zero.
pub proof fn lemma_empty_encoding()
    ensures
        canonical_key(Seq::<char>::empty()) == Seq::new(32, |i: int| '0'),
        encoded(Seq::<char>::empty()) == encoded(Seq::new(32, |i: int| '0')),
        encoded(Seq::<char>::empty()) == Seq::new(36, |i: int| 0u8),
{
    let e = Seq::<char>::empty();
    let z = Seq::new(32, |i: int| '0');
    assert(padded_key(e) =~= z);
    assert(padded_key(z) =~= z);
    lemma_lowered_ascii(z);
    assert(canonical_key(e) =~= z);
    assert(canonical_key(z) =~= z);
    let ds = key_digits(e);
    lemma_zero_digits(ds.subrange(0, 16));
    lemma_zero_digits(ds.subrange(16, 32));
    assert forall|i: int| 0 <= i < 12 implies le_bytes(0, 12)[i] == 0u8 by {
        lemma_power_positive(256, i as nat);
    }
    assert(encoded(e) =~= Seq::new(36, |i: int| 0u8));
}

/// Upper- and lower-case spellings of a key encode alike: strings that
/// differ only where both hold ASCII letters of different case have the
/// same encoding.
pub proof fn lemma_case_insensitive(s: Seq<char>, t: Seq<char>)
    requires
        s.len() == t.len(),
        forall|i: int|
            0 <= i < s.len() ==> #[trigger] s[i] == t[i] || (is_ascii_char(s[i]) && is_ascii_char(
                t[i],
            ) && ascii_lower(s[i]) == ascii_lower(t[i])),
    ensures
        encoded(s) == encoded(t),
{
    lemma_same_key_digits(s, t);
}

/// `'='` and an ASCII character outside the alphabet collide: strings that
/// differ only where one holds `'='` and the other an ASCII character that
/// is no symbol once lower-cased have the same encoding.
pub proof fn lemma_sentinel_collision(s: Seq<char>, t: Seq<char>)
    requires
        s.len() == t.len(),
        forall|i: int|
            0 <= i < s.len() ==> #[trigger] s[i] == t[i] || (s[i] == '=' && is_ascii_char(t[i])
                && !is_symbol(ascii_lower(t[i]))),
    ensures
        encoded(s) == encoded(t),
{
    lemma_same_key_digits(s, t);
}

} // verus!
