//! The two primitive codecs: the rolling hash in base 36 and the token
//! generator over a three-tier alphabet.
//!
//! The split of the alphabet into tiers of 111, 38 and 3 symbols is part of
//! the format of the records. Tokens made with another split, such as 115,
//! 33 and 3, stand for other numbers and must not occur in the same output.

use vstd::prelude::*;
use vstd::string::*;
use crate::text::string_of;

verus! {

/// The accumulator after one more byte: `(acc << 5) - acc + byte`, which is
/// `31 * acc + byte`, modulo 2^32.
pub open spec fn hash_step(acc: u32, byte: u8) -> u32 {
    ((31 * (acc as int) + (byte as int)) % 0x1_0000_0000) as u32
}

/// The accumulator after all of `bytes`, starting from zero.
pub open spec fn hash_value(bytes: Seq<u8>) -> u32
    decreases bytes.len(),
{
    if bytes.len() == 0 {
        0
    } else {
        hash_step(hash_value(bytes.drop_last()), bytes.last())
    }
}

/// The digit of base 36 with value `d`: `0` to `9`, then `a` to `z`.
pub open spec fn base36_digit(d: int) -> char {
    if d < 10 {
        (48 + d) as char
    } else {
        (87 + d) as char
    }
}

/// `n` in base 36, most significant digit first, with no leading zero; zero
/// is the single digit `0`.
pub open spec fn base36(n: nat) -> Seq<char>
    decreases n,
{
    if n < 36 {
        seq![base36_digit(n as int)]
    } else {
        base36(n / 36).push(base36_digit((n % 36) as int))
    }
}

/// What `hash` returns for a string with these bytes.
pub open spec fn hash_text(bytes: Seq<u8>) -> Seq<char> {
    base36(hash_value(bytes) as nat)
}

proof fn lemma_hash_step(a: u32, b: u8)
    ensures
        (((a << 5u32).wrapping_sub(a)) as u32).wrapping_add(b as u32) == hash_step(a, b),
{
    let s: u32 = a << 5u32;
    assert(s == (32 * (a as int)) % 0x1_0000_0000) by (bit_vector)
        requires
            s == a << 5u32,
    ;
}

fn digit_char(d: u32) -> (c: char)
    requires
        d < 36,
    ensures
        c == base36_digit(d as int),
{
    if d < 10 {
        ((48 + d) as u8) as char
    } else {
        ((87 + d) as u8) as char
    }
}

/// The rolling hash of the bytes of `s`, written in base 36.
pub fn hash(s: &str) -> (r: String)
    ensures
        r@ == hash_text(s.spec_bytes()),
{
    let bytes = s.as_bytes();
    let mut a: u32 = 0;
    let mut i: usize = 0;
    while i < bytes.len()
        invariant
            i <= bytes@.len(),
            a == hash_value(bytes@.take(i as int)),
        decreases bytes@.len() - i,
    {
        let b: u8 = bytes[i];
        proof {
            lemma_hash_step(a, b);
            assert(bytes@.take(i + 1).drop_last() == bytes@.take(i as int));
        }
        a = (a << 5u32).wrapping_sub(a).wrapping_add(b as u32);
        i = i + 1;
    }
    assert(bytes@.take(i as int) == bytes@);
    let ghost whole: nat = a as nat;
    let mut digits: Vec<char> = Vec::new();
    loop
        invariant_except_break
            base36(whole) == base36(a as nat) + digits@,
        ensures
            digits@ == base36(whole),
        decreases a,
    {
        let d: char = digit_char(a % 36);
        digits.insert(0, d);
        if a < 36 {
            assert(digits@ == base36(whole));
            break;
        }
        proof {
            assert(base36(a as nat) == base36((a / 36) as nat).push(d));
            assert(base36(whole) == base36((a / 36) as nat) + digits@);
        }
        a = a / 36;
    }
    string_of(&digits)
}

/// Two numbers that are written alike in base 36 are the same number, so
/// two texts get the same hash exactly if their accumulators are equal.
pub proof fn lemma_base36_injective(a: nat, b: nat)
    requires
        base36(a) == base36(b),
    ensures
        a == b,
    decreases a,
{
    lemma_base36_len(a);
    lemma_base36_len(b);
    if a < 36 && b < 36 {
        assert(base36(a)[0] == base36_digit(a as int));
        assert(base36(b)[0] == base36_digit(b as int));
    } else if a >= 36 && b >= 36 {
        let pa = base36(a / 36);
        let pb = base36(b / 36);
        let da = base36_digit((a % 36) as int);
        let db = base36_digit((b % 36) as int);
        assert(pa.push(da).drop_last() == pa);
        assert(pb.push(db).drop_last() == pb);
        assert(pa.push(da).last() == da);
        assert(pb.push(db).last() == db);
        lemma_base36_injective(a / 36, b / 36);
    } else if a >= 36 {
        lemma_base36_len(a / 36);
    } else {
        lemma_base36_len(b / 36);
    }
}

/// A number in base 36 has at least one digit.
pub proof fn lemma_base36_len(n: nat)
    ensures
        base36(n).len() >= 1,
        n < 36 ==> base36(n).len() == 1,
    decreases n,
{
    if n >= 36 {
        lemma_base36_len(n / 36);
    }
}

/// A number below `36^k` has at most `k` digits in base 36.
pub proof fn lemma_base36_short(n: nat, k: nat, bound: nat)
    requires
        k >= 1,
        bound == vstd::arithmetic::power::pow(36, k),
        n < bound,
    ensures
        base36(n).len() <= k,
    decreases k,
{
    vstd::arithmetic::power::lemma_pow1(36);
    if n >= 36 {
        if k == 1 {
        } else {
            vstd::arithmetic::power::lemma_pow_positive(36, (k - 1) as nat);
            assert(vstd::arithmetic::power::pow(36, k) == 36 * vstd::arithmetic::power::pow(
                36,
                (k - 1) as nat,
            )) by {
                reveal(vstd::arithmetic::power::pow);
            }
            let rest = vstd::arithmetic::power::pow(36, (k - 1) as nat) as nat;
            assert(n / 36 < rest) by (nonlinear_arith)
                requires
                    n < 36 * rest,
            ;
            lemma_base36_short(n / 36, (k - 1) as nat, rest);
        }
    }
}

/// A hash has between one and seven digits.
pub proof fn lemma_hash_text_len(bytes: Seq<u8>)
    ensures
        1 <= hash_text(bytes).len() <= 7,
{
    let n = hash_value(bytes) as nat;
    lemma_base36_len(n);
    assert(vstd::arithmetic::power::pow(36, 7) == 78364164096) by {
        reveal_with_fuel(vstd::arithmetic::power::pow, 8);
    }
    lemma_base36_short(n, 7, 78364164096);
}

/// Different texts can have the same hash: the bytes 1, 0 and the bytes 0, 31
/// both give the accumulator 31.
pub proof fn lemma_hash_collides()
    ensures
        hash_value(seq![1u8, 0u8]) == hash_value(seq![0u8, 31u8]),
        seq![1u8, 0u8] != seq![0u8, 31u8],
{
    let a = seq![1u8, 0u8];
    let b = seq![0u8, 31u8];
    reveal_with_fuel(hash_value, 3);
    assert(a.drop_last() =~= seq![1u8]);
    assert(b.drop_last() =~= seq![0u8]);
    assert(seq![1u8].drop_last() =~= Seq::<u8>::empty());
    assert(seq![0u8].drop_last() =~= Seq::<u8>::empty());
    assert(hash_value(seq![1u8]) == 1);
    assert(hash_value(seq![0u8]) == 0);
    assert(hash_value(a) == 31);
    assert(hash_value(b) == 31);
    assert(a[0] != b[0]);
}

/// How many symbols the token alphabet has.
pub const ALPHABET_LEN: usize = 152;

/// How many symbols of the alphabet serve as the lowest place of a token.
pub const TIER_ONE: usize = 111;

/// How many symbols serve as the middle place.
pub const TIER_TWO: usize = 38;

/// How many symbols serve as the highest place.
pub const TIER_THREE: usize = 3;

/// The first number that has no token: `111 * 38 * 3`.
pub const TOKEN_LIMIT: usize = 12654;

/// The alphabet: the byte values 3 to 7, 14 to 31 and 127 to 255, in
/// ascending order.
pub open spec fn alphabet(i: int) -> u8 {
    if i < 5 {
        (i + 3) as u8
    } else if i < 23 {
        (i + 9) as u8
    } else {
        (i + 104) as u8
    }
}

/// The lowest symbol of the token of `n`, from the first tier.
pub open spec fn low_symbol(n: int) -> char {
    alphabet(n % 111) as char
}

/// The middle symbol of the token of `n`, from the second tier.
pub open spec fn mid_symbol(n: int) -> char {
    alphabet(111 + (n / 111) % 38) as char
}

/// The highest symbol of the token of `n`, from the third tier.
pub open spec fn high_symbol(n: int) -> char {
    alphabet(149 + n / 111 / 38) as char
}

/// The token of `n`, most significant symbol first: one symbol below 111, two
/// below `111 * 38`, three from there to `TOKEN_LIMIT`.
pub open spec fn token(n: int) -> Seq<char> {
    if n < 111 {
        seq![low_symbol(n)]
    } else if n / 111 < 38 {
        seq![mid_symbol(n), low_symbol(n)]
    } else {
        seq![high_symbol(n), mid_symbol(n), low_symbol(n)]
    }
}

fn symbol(i: usize) -> (c: char)
    requires
        i < ALPHABET_LEN,
    ensures
        c == alphabet(i as int) as char,
{
    let b: u8 = if i < 5 {
        (i + 3) as u8
    } else if i < 23 {
        (i + 9) as u8
    } else {
        (i + 104) as u8
    };
    b as char
}

/// The token of `n`.
pub fn n2s(n: usize) -> (r: String)
    requires
        n < TOKEN_LIMIT,
    ensures
        r@ == token(n as int),
{
    let mut out: Vec<char> = Vec::new();
    let q: usize = n / TIER_ONE;
    if q >= TIER_TWO {
        out.push(symbol(TIER_ONE + TIER_TWO + q / TIER_TWO));
    }
    if n >= TIER_ONE {
        out.push(symbol(TIER_ONE + q % TIER_TWO));
    }
    out.push(symbol(n % TIER_ONE));
    assert(out@ == token(n as int));
    string_of(&out)
}

/// A token has one symbol exactly below 111, two from 111 to 4217, and three
/// from 4218 on.
pub proof fn lemma_token_len(n: int)
    requires
        0 <= n < TOKEN_LIMIT,
    ensures
        token(n).len() == 1 <==> n < 111,
        token(n).len() == 2 <==> 111 <= n < 4218,
        token(n).len() == 3 <==> 4218 <= n,
{
}

/// Whether `c` is a symbol of the first tier.
pub open spec fn is_low(c: char) -> bool {
    exists|i: int| 0 <= i < TIER_ONE && c == alphabet(i) as char
}

/// A token ends with a symbol of the first tier and holds no other symbol of
/// that tier, so tokens that are written one after the other can be told
/// apart again.
pub proof fn lemma_token_ends_low(n: int)
    requires
        0 <= n < TOKEN_LIMIT,
    ensures
        is_low(token(n).last()),
        forall|k: int| 0 <= k < token(n).len() - 1 ==> !is_low(#[trigger] token(n)[k]),
{
    let t = token(n);
    assert(t.last() == low_symbol(n));
    assert(low_symbol(n) == alphabet(n % 111) as char);
    assert forall|k: int| 0 <= k < t.len() - 1 implies !is_low(#[trigger] t[k]) by {
        let c = t[k];
        assert(c == mid_symbol(n) || c == high_symbol(n));
        assert(c as int >= alphabet(111) as int);
        assert forall|i: int| 0 <= i < TIER_ONE implies c != alphabet(i) as char by {
            assert((alphabet(i) as int) < (alphabet(111) as int));
        }
    }
}

/// The alphabet repeats no symbol.
pub proof fn lemma_alphabet_injective(i: int, j: int)
    requires
        0 <= i < ALPHABET_LEN,
        0 <= j < ALPHABET_LEN,
        alphabet(i) == alphabet(j),
    ensures
        i == j,
{
}

/// Two numbers below `TOKEN_LIMIT` with the same token are the same number.
pub proof fn lemma_token_injective(a: int, b: int)
    requires
        0 <= a < TOKEN_LIMIT,
        0 <= b < TOKEN_LIMIT,
        token(a) == token(b),
    ensures
        a == b,
{
    lemma_token_len(a);
    lemma_token_len(b);
    let ta = token(a);
    let tb = token(b);
    if ta.len() == 1 {
        assert(ta[0] == low_symbol(a) && tb[0] == low_symbol(b));
    } else if ta.len() == 2 {
        assert(ta[1] == low_symbol(a) && tb[1] == low_symbol(b));
        assert(ta[0] == mid_symbol(a) && tb[0] == mid_symbol(b));
        lemma_alphabet_injective(111 + (a / 111) % 38, 111 + (b / 111) % 38);
    } else {
        assert(ta[2] == low_symbol(a) && tb[2] == low_symbol(b));
        assert(ta[1] == mid_symbol(a) && tb[1] == mid_symbol(b));
        assert(ta[0] == high_symbol(a) && tb[0] == high_symbol(b));
        lemma_alphabet_injective(111 + (a / 111) % 38, 111 + (b / 111) % 38);
        lemma_alphabet_injective(149 + a / 111 / 38, 149 + b / 111 / 38);
    }
    lemma_alphabet_injective(a % 111, b % 111);
}

} // verus!
