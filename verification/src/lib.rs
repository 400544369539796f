//! Bijective base-26 codec.
//!
//! Converts an unsigned integer to a lowercase alphabetic string and back,
//! in the numbering used for spreadsheet columns: `'a'` stands for 1 and
//! `'z'` for 26, so no digit ever plays the role of a leading zero, and
//! every non-negative integer has exactly one representation (0 is the
//! empty string, 1 is `"a"`, 26 is `"z"`, 27 is `"aa"`, 702 is `"zz"`,
//! 703 is `"aaa"`).

use vstd::prelude::*;
use vstd::string::StrSliceExecFns;

verus! {

/// Code point of `'a'`, the letter that stands for digit value 1.
pub open spec fn letter_a() -> int {
    97
}

/// Code point of `'z'`, the letter that stands for digit value 26.
pub open spec fn letter_z() -> int {
    122
}

/// A lowercase ASCII letter, the only characters a valid numeral may hold.
pub open spec fn is_lower(c: char) -> bool {
    letter_a() <= c as int <= letter_z()
}

/// A valid numeral: every character is a lowercase ASCII letter.
pub open spec fn all_lower(s: Seq<char>) -> bool {
    forall|i: int| 0 <= i < s.len() ==> is_lower(#[trigger] s[i])
}

/// The digit value of a letter: 1 for `'a'` up to 26 for `'z'`.
pub open spec fn digit_val(c: char) -> int {
    c as int - letter_a() + 1
}

/// The letter for a digit value shifted down by one: 0 maps to `'a'`,
/// 25 to `'z'`.
pub open spec fn letter_of(d: int) -> char {
    ((letter_a() + d) as u8) as char
}

/// The value of a numeral, read most-significant first: each letter
/// contributes its digit value in positional bijective base 26.
pub open spec fn decode_val(s: Seq<char>) -> int
    decreases s.len(),
{
    if s.len() == 0 {
        0
    } else {
        decode_val(s.drop_last()) * 26 + digit_val(s.last())
    }
}

/// The numeral of a non-negative integer: empty for 0; otherwise the
/// numeral of `(n - 1) / 26` followed by the letter for `(n - 1) % 26`.
pub open spec fn encode_val(n: nat) -> Seq<char>
    decreases n,
{
    if n == 0 {
        Seq::empty()
    } else {
        encode_val(((n - 1) / 26) as nat).push(letter_of((n - 1) % 26))
    }
}

/// Every numeral the codec produces is made of lowercase letters alone:
/// each digit value lies in 1..=26, so no character ever stands for zero.
pub proof fn lemma_encode_all_lower(n: nat)
    ensures
        all_lower(encode_val(n)),
    decreases n,
{
    if n > 0 {
        let q = ((n - 1) / 26) as nat;
        let r = (n - 1) % 26;
        lemma_encode_all_lower(q);
        assert(0 <= r < 26);
        assert(is_lower(letter_of(r)));
        assert(encode_val(n) == encode_val(q).push(letter_of(r)));
        assert forall|i: int| 0 <= i < encode_val(n).len() implies is_lower(
            #[trigger] encode_val(n)[i],
        ) by {
            if i < encode_val(q).len() {
                assert(encode_val(n)[i] == encode_val(q)[i]);
            }
        }
    }
}

/// Decoding inverts encoding: the numeral of `n` reads back as exactly `n`.
pub proof fn lemma_encode_decode(n: nat)
    ensures
        decode_val(encode_val(n)) == n,
    decreases n,
{
    if n > 0 {
        let q = ((n - 1) / 26) as nat;
        let r = (n - 1) % 26;
        lemma_encode_decode(q);
        vstd::arithmetic::div_mod::lemma_fundamental_div_mod(n - 1, 26);
        let e = encode_val(n);
        assert(e == encode_val(q).push(letter_of(r)));
        assert(e.drop_last() =~= encode_val(q));
        assert(e.last() == letter_of(r));
        assert(digit_val(letter_of(r)) == r + 1);
        assert(decode_val(e) == decode_val(encode_val(q)) * 26 + (r + 1));
    }
}

/// Encoding inverts decoding: a string of lowercase letters is exactly the
/// numeral of its own value (and that value is never negative).
pub proof fn lemma_decode_encode(s: Seq<char>)
    requires
        all_lower(s),
    ensures
        decode_val(s) >= 0,
        encode_val(decode_val(s) as nat) == s,
    decreases s.len(),
{
    if s.len() == 0 {
        assert(encode_val(0) =~= s);
    } else {
        let p = s.drop_last();
        let c = s.last();
        assert(all_lower(p)) by {
            assert(forall|i: int| 0 <= i < p.len() ==> p[i] == s[i]);
        }
        lemma_decode_encode(p);
        let m = decode_val(p);
        let v = digit_val(c);
        assert(1 <= v <= 26);
        let n = decode_val(s);
        assert(n == m * 26 + v);
        assert(n >= 1);
        vstd::arithmetic::div_mod::lemma_fundamental_div_mod_converse(n - 1, 26, m, v - 1);
        assert((n - 1) / 26 == m);
        assert((n - 1) % 26 == v - 1);
        assert(letter_of(v - 1) == c);
        assert(encode_val(n as nat) == encode_val(m as nat).push(c));
        assert(encode_val(m as nat).push(c) =~= s);
    }
}

/// A value reduced to the range of `u64`, as the machine's wrapping
/// arithmetic leaves it.
pub open spec fn wrap_u64(x: int) -> u64 {
    (x % 0x1_0000_0000_0000_0000) as u64
}

/// At machine width the round trip is exact: the numeral of a `u64` value
/// reads back as that value, and reduction to `u64` range changes nothing.
pub proof fn lemma_round_trip_u64(n: u64)
    ensures
        wrap_u64(decode_val(encode_val(n as nat))) == n,
{
    lemma_encode_decode(n as nat);
}

/// The value of a valid numeral is never negative.
pub proof fn lemma_decode_nonneg(s: Seq<char>)
    requires
        all_lower(s),
    ensures
        decode_val(s) >= 0,
    decreases s.len(),
{
    if s.len() > 0 {
        let p = s.drop_last();
        assert(all_lower(p)) by {
            assert(forall|i: int| 0 <= i < p.len() ==> p[i] == s[i]);
        }
        lemma_decode_nonneg(p);
    }
}

/// Relies on `String::push`: appends the given character at the end of the
/// string and changes nothing else.
#[verifier::external_body]
fn push_char(s: &mut String, c: char)
    ensures
        final(s)@ == old(s)@.push(c),
{
    s.push(c);
}

/// Encodes a non-negative integer as its bijective base-26 numeral:
/// `0` becomes the empty string, `1` becomes `"a"`, `26` becomes `"z"`,
/// `27` becomes `"aa"`, and so on. Never fails.
pub fn encode(num: u64) -> (r: String)
    ensures
        r@ == encode_val(num as nat),
        all_lower(r@),
{
    let mut n = num;
    let mut digits: Vec<char> = Vec::new();
    while n > 0
        invariant
            encode_val(num as nat) == encode_val(n as nat) + digits@.reverse(),
        decreases n,
    {
        let m = n - 1;
        let d = (m % 26) as u8;
        let c = (97u8 + d) as char;
        n = m / 26;
        proof {
            assert(c == letter_of(m as int % 26));
            assert(encode_val(n as nat) + digits@.push(c).reverse() =~= encode_val(
                n as nat,
            ).push(c) + digits@.reverse());
        }
        digits.push(c);
    }
    let mut r = String::new();
    let mut i = digits.len();
    proof {
        assert(encode_val(num as nat) =~= digits@.reverse());
        assert(r@ =~= digits@.reverse().subrange(0, 0));
    }
    while i > 0
        invariant
            i <= digits.len(),
            encode_val(num as nat) == digits@.reverse(),
            r@ == digits@.reverse().subrange(0, digits@.len() - i),
        decreases i,
    {
        let c = digits[i - 1];
        proof {
            assert(digits@.reverse()[digits@.len() - i] == c);
            assert(r@.push(c) =~= digits@.reverse().subrange(0, digits@.len() - (i - 1)));
        }
        push_char(&mut r, c);
        i = i - 1;
    }
    proof {
        assert(r@ =~= encode_val(num as nat));
        lemma_encode_all_lower(num as nat);
    }
    r
}

/// Decodes a bijective base-26 numeral back to its value. Fails exactly
/// when some character is not a lowercase ASCII letter; the empty string
/// decodes to 0. A value too large for `u64` wraps modulo 2^64, with the
/// machine's unsigned arithmetic.
pub fn decode(s: &str) -> (r: Option<u64>)
    ensures
        r == (if all_lower(s@) {
            Some(wrap_u64(decode_val(s@)))
        } else {
            None::<u64>
        }),
        r is Some <==> all_lower(s@),
{
    let len = s.unicode_len();
    let mut acc: u64 = 0;
    let mut i: usize = 0;
    while i < len
        invariant
            i <= len,
            len == s@.len(),
            all_lower(s@.subrange(0, i as int)),
            acc == wrap_u64(decode_val(s@.subrange(0, i as int))),
        decreases len - i,
    {
        let c = s.get_char(i);
        let v = c as u32;
        if v < 97 || v > 122 {
            proof {
                assert(!is_lower(s@[i as int]));
            }
            return None;
        }
        let d = (v - 96) as u64;
        proof {
            let pre = s@.subrange(0, i as int);
            let ext = s@.subrange(0, i as int + 1);
            assert(ext.drop_last() =~= pre);
            assert(ext.last() == c);
            assert(digit_val(c) == d);
            lemma_decode_nonneg(pre);
            let m = 0x1_0000_0000_0000_0000;
            vstd::arithmetic::div_mod::lemma_mul_mod_noop_left(decode_val(pre), 26, m);
            vstd::arithmetic::div_mod::lemma_add_mod_noop(decode_val(pre) * 26, d as int, m);
            assert(decode_val(ext) == decode_val(pre) * 26 + d);
            assert(all_lower(ext)) by {
                assert(forall|j: int| 0 <= j < pre.len() ==> ext[j] == pre[j]);
            }
        }
        acc = acc.wrapping_mul(26).wrapping_add(d);
        i = i + 1;
    }
    proof {
        assert(s@.subrange(0, len as int) =~= s@);
    }
    Some(acc)
}

/// Lexicographic order on character sequences, by code point; an empty
/// sequence comes first.
pub open spec fn lex_le(a: Seq<char>, b: Seq<char>) -> bool
    decreases a.len(),
{
    if a.len() == 0 {
        true
    } else if b.len() == 0 {
        false
    } else if (a[0] as int) < (b[0] as int) {
        true
    } else if (b[0] as int) < (a[0] as int) {
        false
    } else {
        lex_le(a.drop_first(), b.drop_first())
    }
}

/// Shortlex order: a shorter sequence comes before a longer one, and
/// sequences of equal length are ordered lexicographically.
pub open spec fn shortlex_le(a: Seq<char>, b: Seq<char>) -> bool {
    a.len() < b.len() || (a.len() == b.len() && lex_le(a, b))
}

/// Sequences of equal length that each come lexicographically at or below
/// the other are equal.
proof fn lemma_lex_antisym(a: Seq<char>, b: Seq<char>)
    requires
        a.len() == b.len(),
        lex_le(a, b),
        lex_le(b, a),
    ensures
        a == b,
    decreases a.len(),
{
    if a.len() == 0 {
        assert(a =~= b);
    } else {
        assert(a[0] == b[0]);
        lemma_lex_antisym(a.drop_first(), b.drop_first());
        assert forall|i: int| 0 <= i < a.len() implies a[i] == b[i] by {
            if i > 0 {
                assert(a.drop_first()[i - 1] == b.drop_first()[i - 1]);
            }
        }
        assert(a =~= b);
    }
}

/// Appending one character each to two ordered sequences of equal length
/// keeps the order, as long as the appended characters are ordered too
/// whenever the sequences are equal.
proof fn lemma_lex_push(a: Seq<char>, b: Seq<char>, x: char, y: char)
    requires
        a.len() == b.len(),
        lex_le(a, b),
        lex_le(b, a) ==> x as int <= y as int,
    ensures
        lex_le(a.push(x), b.push(y)),
    decreases a.len(),
{
    let pa = a.push(x);
    let pb = b.push(y);
    if a.len() == 0 {
        assert(pa.len() == 1 && pb.len() == 1);
        assert(pa[0] == x && pb[0] == y);
        assert(x as int <= y as int);
        assert(lex_le(pa.drop_first(), pb.drop_first())) by {
            assert(pa.drop_first().len() == 0);
        }
        assert(lex_le(pa, pb));
    } else {
        assert(pa[0] == a[0] && pb[0] == b[0]);
        if (a[0] as int) < (b[0] as int) {
            assert(lex_le(pa, pb));
        } else {
            assert(a[0] as int == b[0] as int);
            let ta = a.drop_first();
            let tb = b.drop_first();
            assert(lex_le(ta, tb));
            lemma_lex_push(ta, tb, x, y);
            assert(pa.drop_first() =~= ta.push(x));
            assert(pb.drop_first() =~= tb.push(y));
            assert(lex_le(pa, pb));
        }
    }
}

/// Encoding is monotone: a smaller value never encodes to a numeral that
/// comes after the numeral of a larger value, in shortlex order (first by
/// length, then lexicographically).
pub proof fn lemma_encode_monotone(m: nat, n: nat)
    requires
        m <= n,
    ensures
        shortlex_le(encode_val(m), encode_val(n)),
    decreases n,
{
    if m == 0 {
        assert(encode_val(0).len() == 0);
        assert(lex_le(encode_val(0), encode_val(n)));
    } else {
        let qm = ((m - 1) / 26) as nat;
        let rm = (m - 1) % 26;
        let qn = ((n - 1) / 26) as nat;
        let rn = (n - 1) % 26;
        vstd::arithmetic::div_mod::lemma_div_is_ordered(m - 1, n - 1, 26);
        lemma_encode_monotone(qm, qn);
        let a = encode_val(qm);
        let b = encode_val(qn);
        let x = letter_of(rm);
        let y = letter_of(rn);
        assert(encode_val(m) == a.push(x));
        assert(encode_val(n) == b.push(y));
        if a.len() < b.len() {
            assert(encode_val(m).len() < encode_val(n).len());
        } else {
            assert(a.len() == b.len() && lex_le(a, b));
            if lex_le(b, a) {
                lemma_lex_antisym(a, b);
                lemma_encode_decode(qm);
                lemma_encode_decode(qn);
                assert(qm == qn);
                vstd::arithmetic::div_mod::lemma_fundamental_div_mod(m - 1, 26);
                vstd::arithmetic::div_mod::lemma_fundamental_div_mod(n - 1, 26);
                assert(rm <= rn);
                assert(x as int <= y as int);
            }
            lemma_lex_push(a, b, x, y);
        }
    }
}

} // verus!
