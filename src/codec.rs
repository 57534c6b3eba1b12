//! Packing canonical keys into fixed-width blobs, and unpacking blobs.

use vstd::prelude::*;

use crate::alphabet::{
    convert_char, deconvert_char, digit_of, lowercase_char, lowered_char, symbol_of,
};

verus! {

/// Number of characters in a canonical key.
pub const KEY_LEN: usize = 32;

/// Number of base-37 digits packed into one chunk.
pub const GROUP_DIGITS: usize = 16;

/// Number of base-37 digits unpacked from one chunk.
pub const UNPACK_DIGITS: usize = 17;

/// Number of bytes in one chunk.
pub const CHUNK_BYTES: usize = 12;

/// `b` raised to the power `e`.
pub open spec fn power(b: nat, e: nat) -> nat
    decreases e,
{
    if e == 0 {
        1
    } else {
        b * power(b, (e - 1) as nat)
    }
}

/// The first 32 characters of `s`, right-padded with `'0'`.
pub open spec fn padded_key(s: Seq<char>) -> Seq<char> {
    Seq::new(32, |i: int| if i < s.len() { s[i] } else { '0' })
}

/// The characters that lower-casing each character of `p` gives, in order.
pub open spec fn lowered(p: Seq<char>) -> Seq<char>
    decreases p.len(),
{
    if p.len() == 0 {
        seq![]
    } else {
        lowered(p.drop_last()) + lowered_char(p.last())
    }
}

/// The canonical key of `s`: its padded key lower-cased character by
/// character, of which the first 32 characters are kept (a character whose
/// lower case has several characters pushes the later ones out), with
/// `'0'` filling any place left short.
pub open spec fn canonical_key(s: Seq<char>) -> Seq<char> {
    let l = lowered(padded_key(s));
    Seq::new(32, |i: int| if i < l.len() { l[i] } else { '0' })
}

/// The digits of the canonical key of `s`.
pub open spec fn key_digits(s: Seq<char>) -> Seq<nat> {
    canonical_key(s).map_values(|c: char| digit_of(c))
}

/// The number that `ds` spells in base 37, most significant digit first.
pub open spec fn base37_value(ds: Seq<nat>) -> nat
    decreases ds.len(),
{
    if ds.len() == 0 {
        0
    } else {
        base37_value(ds.drop_last()) * 37 + ds.last()
    }
}

/// The number of the `g`-th group of 16 digits of the canonical key of `s`.
pub open spec fn group_number(s: Seq<char>, g: int) -> nat {
    base37_value(key_digits(s).subrange(16 * g, 16 * g + 16))
}

/// Byte `i` of `n` in little-endian order.
pub open spec fn le_byte(n: nat, i: nat) -> u8 {
    ((n / power(256, i)) % 256) as u8
}

/// The low `k` bytes of `n`, least significant first.
pub open spec fn le_bytes(n: nat, k: nat) -> Seq<u8> {
    Seq::new(k, |i: int| le_byte(n, i as nat))
}

/// The 12-byte chunks of the numbers `ns`, one after another.
pub open spec fn chunks(ns: Seq<nat>) -> Seq<u8>
    decreases ns.len(),
{
    if ns.len() == 0 {
        seq![]
    } else {
        chunks(ns.drop_last()) + le_bytes(ns.last(), 12)
    }
}

/// What `encode` returns for `s`: the chunks of its two digit groups and a
/// trailing chunk of zero.
pub open spec fn encoded(s: Seq<char>) -> Seq<u8> {
    le_bytes(group_number(s, 0), 12) + le_bytes(group_number(s, 1), 12) + le_bytes(0, 12)
}

/// The number that bytes `s` hold, least significant byte first.
pub open spec fn le_value(s: Seq<u8>) -> nat
    decreases s.len(),
{
    if s.len() == 0 {
        0
    } else {
        s[0] as nat + 256 * le_value(s.drop_first())
    }
}

/// The number of chunk `j` of `b`, chunks being counted from the end of `b`:
/// bytes `len - 12 (j + 1)` up to `len - 12 j`, least significant first.
pub open spec fn chunk_value(b: Seq<u8>, j: int) -> nat {
    le_value(b.subrange(b.len() - 12 * (j + 1), b.len() - 12 * j))
}

/// Digit `k` of `n` in base 37, counted from the least significant one.
pub open spec fn digit_at(n: nat, k: nat) -> nat {
    (n / power(37, k)) % 37
}

/// Character `k` of the stream that `b` unpacks to: 17 digits of each
/// chunk in turn, least significant first.
pub open spec fn unpacked_char(b: Seq<u8>, k: int) -> char {
    symbol_of(digit_at(chunk_value(b, k / 17), (k % 17) as nat))
}

/// What `decode` returns for `b`: the first 32 characters that `b`
/// unpacks to, in reverse order.
pub open spec fn decoded(b: Seq<u8>) -> Seq<char> {
    Seq::new(32, |i: int| unpacked_char(b, 31 - i))
}

proof fn lemma_power_37_bound(e: nat)
    requires
        e <= 16,
    ensures
        0 < power(37, e) <= power(37, 16),
        power(37, 16) == 12337511914217166362274241nat,
    decreases 16 - e,
{
    reveal_with_fuel(power, 17);
    if e < 16 {
        lemma_power_37_bound(e + 1);
    }
}

proof fn lemma_power_256_bound(e: nat)
    requires
        e <= 12,
    ensures
        0 < power(256, e) <= power(256, 12),
        power(256, 12) == 79228162514264337593543950336nat,
    decreases 12 - e,
{
    reveal_with_fuel(power, 13);
    if e < 12 {
        lemma_power_256_bound(e + 1);
    }
}

proof fn lemma_base37_bound(ds: Seq<nat>)
    requires
        forall|i: int| 0 <= i < ds.len() ==> ds[i] < 37,
    ensures
        base37_value(ds) < power(37, ds.len()),
    decreases ds.len(),
{
    if ds.len() > 0 {
        lemma_base37_bound(ds.drop_last());
        let v = base37_value(ds.drop_last());
        let p = power(37, (ds.len() - 1) as nat);
        assert(v * 37 + ds.last() < p * 37) by (nonlinear_arith)
            requires
                v < p,
                ds.last() < 37,
        ;
    }
}

proof fn lemma_div_step(x: nat, b: nat, k: nat)
    requires
        b > 0,
    ensures
        power(b, k) > 0,
        (x / power(b, k)) / b == x / power(b, k + 1),
    decreases k,
{
    if k > 0 {
        lemma_div_step(x, b, (k - 1) as nat);
    }
    let p = power(b, k);
    assert(power(b, k + 1) == b * p);
    assert(p > 0) by (nonlinear_arith)
        requires
            k == 0 ==> p == 1,
            k > 0 ==> p == b * power(b, (k - 1) as nat) && power(b, (k - 1) as nat) > 0,
            b > 0,
    ;
    vstd::arithmetic::div_mod::lemma_div_denominator(x as int, p as int, b as int);
    assert(p * b == b * p) by (nonlinear_arith);
}

/// Appends the 12-byte little-endian chunk of `x` to `out`.
fn push_chunk(out: &mut Vec<u8>, x: u128)
    ensures
        final(out)@ == old(out)@ + le_bytes(x as nat, 12),
{
    let ghost start = old(out)@;
    let mut xx: u128 = x;
    assert(power(256, 0) == 1);
    for k in 0..CHUNK_BYTES
        invariant
            out@ == start + le_bytes(x as nat, k as nat),
            xx == x as nat / power(256, k as nat),
    {
        proof {
            lemma_div_step(x as nat, 256, k as nat);
        }
        out.push((xx % 256) as u8);
        xx = xx / 256;
        assert(out@ =~= start + le_bytes(x as nat, (k + 1) as nat));
    }
    assert(out@ =~= start + le_bytes(x as nat, 12));
}

/// Reads the characters of `s`, pads them with `'0'` and cuts them to 32,
/// lower-cases each, and keeps the first 32 characters of the result.
fn canonical_key_of(s: &str) -> (key: Vec<char>)
    ensures
        key@ == canonical_key(s@),
{
    let mut chars: Vec<char> = Vec::new();
    for c in it: s.chars()
        invariant
            chars@ == it.seq().take(it.index() as int),
    {
        chars.push(c);
        assert(chars@ =~= it.seq().take(it.index() + 1));
    }
    proof {
        broadcast use vstd::string::axiom_spec_iter;
        assert(chars@ =~= s@);
    }
    let mut padded: Vec<char> = Vec::new();
    for idx in 0..KEY_LEN
        invariant
            chars@ == s@,
            padded@ == padded_key(s@).take(idx as int),
    {
        if idx < chars.len() {
            padded.push(chars[idx]);
        } else {
            padded.push('0');
        }
        assert(padded@ =~= padded_key(s@).take(idx + 1));
    }
    assert(padded@ =~= padded_key(s@));
    let mut lower: Vec<char> = Vec::new();
    for idx in 0..KEY_LEN
        invariant
            padded@ == padded_key(s@),
            lower@ == lowered(padded@.take(idx as int)),
    {
        let mut l = lowercase_char(padded[idx]);
        assert(padded@.take(idx + 1).drop_last() =~= padded@.take(idx as int));
        lower.append(&mut l);
    }
    assert(padded@.take(32) =~= padded@);
    let mut key: Vec<char> = Vec::new();
    for idx in 0..KEY_LEN
        invariant
            lower@ == lowered(padded_key(s@)),
            key@ == canonical_key(s@).take(idx as int),
    {
        if idx < lower.len() {
            key.push(lower[idx]);
        } else {
            key.push('0');
        }
        assert(key@ =~= canonical_key(s@).take(idx + 1));
    }
    assert(key@ =~= canonical_key(s@));
    key
}

/// Encodes `s` as a 36-byte blob: the canonical key's two groups of 16
/// base-37 digits, each packed into 12 little-endian bytes, followed by a
/// chunk of zero bytes.
pub fn encode(s: &str) -> (r: Vec<u8>)
    ensures
        r@ == encoded(s@),
        r@.len() == 36,
        forall|i: int| 24 <= i < 36 ==> r@[i] == 0,
{
    let key = canonical_key_of(s);
    let ghost digits = key_digits(s@);
    let mut groups: Vec<u128> = Vec::new();
    let mut i: usize = 0;
    let mut number: u128 = 0;
    for idx in 0..KEY_LEN
        invariant
            key@ == canonical_key(s@),
            digits == key_digits(s@),
            groups@.len() * 16 + i == idx,
            i < 16,
            number == base37_value(digits.subrange(idx - i, idx as int)),
            number < power(37, i as nat),
            forall|j: int| 0 <= j < groups@.len() ==> groups@[j] == group_number(s@, j),
    {
        i += 1;
        let n = convert_char(key[idx]) as u128;
        proof {
            lemma_power_37_bound((i - 1) as nat);
            lemma_power_37_bound(i as nat);
            assert(number * 37 + n < power(37, i as nat)) by (nonlinear_arith)
                requires
                    number < power(37, (i - 1) as nat),
                    power(37, i as nat) == 37 * power(37, (i - 1) as nat),
                    n < 37,
            ;
            assert(digits.subrange(idx + 1 - i, idx + 1).drop_last() =~= digits.subrange(
                idx + 1 - i,
                idx as int,
            ));
        }
        number *= 37;
        number += n;
        if i == GROUP_DIGITS {
            groups.push(number);
            i = 0;
            number = 0;
            assert(digits.subrange(idx + 1, idx + 1) =~= seq![]);
        }
    }
    groups.push(number);
    assert(groups@[2] == 0);

    let mut result: Vec<u8> = Vec::new();
    for g in 0..groups.len()
        invariant
            groups@.len() == 3,
            result@ == chunks(groups@.take(g as int).map_values(|x: u128| x as nat)),
    {
        push_chunk(&mut result, groups[g]);
        assert(groups@.take(g + 1).map_values(|x: u128| x as nat).drop_last() =~= groups@.take(
            g as int,
        ).map_values(|x: u128| x as nat));
    }
    proof {
        let ns = groups@.map_values(|x: u128| x as nat);
        assert(groups@.take(3) =~= groups@);
        let ns1 = ns.drop_last();
        let ns0 = ns1.drop_last();
        assert(ns0.drop_last() =~= seq![]);
        assert(chunks(ns0.drop_last()) =~= seq![]);
        assert(ns0.last() == group_number(s@, 0));
        assert(ns1.last() == group_number(s@, 1));
        assert(chunks(ns0) =~= le_bytes(group_number(s@, 0), 12));
        assert(chunks(ns1) =~= chunks(ns0) + le_bytes(group_number(s@, 1), 12));
        assert(chunks(ns) =~= chunks(ns1) + le_bytes(0, 12));
        assert(result@ =~= encoded(s@));
        assert forall|i: int| 24 <= i < 36 implies result@[i] == 0 by {
            lemma_power_256_bound((i - 24) as nat);
            assert(le_bytes(0, 12)[i - 24] == 0);
        }
    }
    result
}

/// Relies on `String: FromIterator<char>`: collecting characters gives the
/// string of those characters in order.
#[verifier::external_body]
fn string_from_chars(v: Vec<char>) -> (r: String)
    ensures
        r@ == v@,
{
    v.into_iter().collect()
}

/// Decodes a blob into a 32-character string: the blob is cut, from its end,
/// into 12-byte chunks (a shorter remainder at its start is ignored); each
/// chunk, read as a little-endian number, yields 17 base-37 digits, least
/// significant first; the first 32 characters of that stream are returned
/// in reverse order.
pub fn decode(vec: Vec<u8>) -> (r: String)
    requires
        vec@.len() >= 24,
    ensures
        r@ == decoded(vec@),
        r@.len() == 32,
{
    let ghost b = vec@;
    let mut nums: Vec<u128> = Vec::new();
    let mut i: usize = 0;
    let mut num: u128 = 0;
    let mut p: usize = vec.len();
    assert(b.subrange(p as int, p as int) =~= seq![]);
    assert(power(256, 0) == 1);
    while p > 0
        invariant
            vec@ == b,
            p <= b.len(),
            nums@.len() * 12 + i == b.len() - p,
            i < 12,
            num == le_value(b.subrange(p as int, p + i)),
            num < power(256, i as nat),
            forall|j: int| 0 <= j < nums@.len() ==> nums@[j] == chunk_value(b, j),
        decreases p,
    {
        p -= 1;
        let v = vec[p];
        i += 1;
        proof {
            lemma_power_256_bound((i - 1) as nat);
            lemma_power_256_bound(i as nat);
            assert(num * 256 + v < power(256, i as nat)) by (nonlinear_arith)
                requires
                    num < power(256, (i - 1) as nat),
                    power(256, i as nat) == 256 * power(256, (i - 1) as nat),
                    v < 256,
            ;
            assert(b.subrange(p as int, p + i).drop_first() =~= b.subrange(p + 1, p + i));
        }
        num = num * 256;
        num += v as u128;
        if i == CHUNK_BYTES {
            i = 0;
            nums.push(num);
            num = 0;
            assert(b.subrange(p as int, p as int) =~= seq![]);
        }
    }

    let mut result: Vec<char> = Vec::new();
    for g in 0..nums.len()
        invariant
            nums@.len() * 12 + i == b.len(),
            forall|j: int| 0 <= j < nums@.len() ==> nums@[j] == chunk_value(b, j),
            result@.len() == 17 * g,
            forall|k: int|
                0 <= k < result@.len() ==> result@[k] == unpacked_char(b, k),
    {
        let x = nums[g];
        let mut r: u128 = x;
        assert(power(37, 0) == 1);
        assert(x as nat / power(37, 0) == x as nat);
        for t in 0..UNPACK_DIGITS
            invariant
                g < nums@.len(),
                x == nums@[g as int],
                x == chunk_value(b, g as int),
                result@.len() == 17 * g + t,
                r == x as nat / power(37, t as nat),
                forall|k: int|
                    0 <= k < result@.len() ==> result@[k] == unpacked_char(b, k),
        {
            proof {
                lemma_div_step(x as nat, 37, t as nat);
                let k = 17 * g + t;
                assert(k / 17 == g && k % 17 == t) by (nonlinear_arith)
                    requires
                        k == 17 * g + t,
                        0 <= t < 17,
                ;
            }
            let d = (r % 37) as u32;
            result.push(deconvert_char(d));
            r = r / 37;
        }
    }

    let mut result2: Vec<char> = Vec::new();
    for x in 0..KEY_LEN
        invariant
            result@.len() >= 32,
            result2@ == result@.take(x as int),
    {
        result2.push(result[x]);
        assert(result2@ =~= result@.take(x + 1));
    }

    let mut reversed: Vec<char> = Vec::new();
    for t in 0..KEY_LEN
        invariant
            result2@.len() == 32,
            reversed@.len() == t,
            forall|k: int| 0 <= k < t ==> reversed@[k] == result2@[31 - k],
    {
        reversed.push(result2[KEY_LEN - 1 - t]);
    }
    proof {
        assert forall|k: int| 0 <= k < 32 implies reversed@[k] == decoded(b)[k] by {
            assert(result2@[31 - k] == result@[31 - k]);
        }
        assert(reversed@ =~= decoded(b));
    }
    string_from_chars(reversed)
}

} // verus!
