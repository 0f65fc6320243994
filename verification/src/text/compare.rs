//! Equality and order of strings, byte by byte.
//!
//! The bytes of UTF-8 are in the order of the code points that they
//! encode: what is compared byte by byte is compared by code point.
use vstd::prelude::*;
use vstd::utf8::*;
use vstd::string::StringSliceAdditionalSpecFns;
use std::cmp::Ordering;
use crate::order::{lemma_lex_order_antisymmetric, lemma_lex_order_equal, lex_order};

verus! {

/// Whether the two string slices are the same text, byte by byte.
pub fn eq_slice(a: &str, b: &str) -> (r: bool)
    ensures
        r == (a@ == b@),
{
    let left = a.as_bytes();
    let right = b.as_bytes();
    proof {
        encode_utf8_decode_utf8(a@);
        encode_utf8_decode_utf8(b@);
    }
    if left.len() != right.len() {
        return false;
    }
    let mut i: usize = 0;
    while i < left.len()
        invariant
            left@ == a.spec_bytes(),
            right@ == b.spec_bytes(),
            left@.len() == right@.len(),
            i <= left@.len(),
            forall|k: int| 0 <= k < i ==> left@[k] == right@[k],
        decreases left@.len() - i,
    {
        if left[i] != right[i] {
            return false;
        }
        i += 1;
    }
    proof {
        assert(left@ =~= right@);
    }
    true
}

/// Whether the two strings are the same text, byte by byte.
pub fn eq(a: &String, b: &String) -> (r: bool)
    ensures
        r == (a@ == b@),
{
    eq_slice(a.as_str(), b.as_str())
}

/// `-1`, `0` or `1` as `a` comes before, is equal to, or comes after `b`
/// in the lexicographic order of bytes.
pub open spec fn byte_order(a: Seq<u8>, b: Seq<u8>) -> int
    decreases a.len(),
{
    if a.len() == 0 {
        if b.len() == 0 {
            0
        } else {
            -1
        }
    } else if b.len() == 0 {
        1
    } else if a[0] < b[0] {
        -1
    } else if a[0] > b[0] {
        1
    } else {
        byte_order(a.drop_first(), b.drop_first())
    }
}

/// Swapping the two byte sequences reverses their order.
pub proof fn lemma_byte_order_antisymmetric(a: Seq<u8>, b: Seq<u8>)
    ensures
        byte_order(a, b) == -byte_order(b, a),
    decreases a.len(),
{
    if a.len() > 0 && b.len() > 0 && a[0] == b[0] {
        lemma_byte_order_antisymmetric(a.drop_first(), b.drop_first());
    }
}

/// A common beginning does not change the order.
pub proof fn lemma_byte_order_prefix(p: Seq<u8>, x: Seq<u8>, y: Seq<u8>)
    ensures
        byte_order(p + x, p + y) == byte_order(x, y),
    decreases p.len(),
{
    if p.len() == 0 {
        assert(p + x =~= x);
        assert(p + y =~= y);
    } else {
        lemma_byte_order_prefix(p.drop_first(), x, y);
        assert((p + x).drop_first() =~= p.drop_first() + x);
        assert((p + y).drop_first() =~= p.drop_first() + y);
        assert((p + x)[0] == (p + y)[0]);
    }
}

/// The first place at which two byte sequences differ decides their
/// order.
pub proof fn lemma_byte_order_decided(a: Seq<u8>, b: Seq<u8>, j: int)
    requires
        0 <= j < a.len(),
        j < b.len(),
        forall|k: int| 0 <= k < j ==> a[k] == b[k],
        a[j] < b[j],
    ensures
        byte_order(a, b) == -1,
    decreases j,
{
    if j > 0 {
        assert(a[0] == b[0]);
        assert forall|k: int| 0 <= k < j - 1 implies a.drop_first()[k] == b.drop_first()[k] by {
            assert(a[k + 1] == b[k + 1]);
        }
        lemma_byte_order_decided(a.drop_first(), b.drop_first(), j - 1);
    }
}

/// The first byte of an encoding tells its width: the longer the
/// encoding, the larger the byte.
proof fn lemma_leading_bytes(s: u32)
    by (bit_vector)
    ensures
        has_width_1_encoding(s) ==> leading_byte_width_1(s) <= 0x7f,
        0xc0 <= leading_byte_width_2(s) <= 0xdf,
        0xe0 <= leading_byte_width_3(s) <= 0xef,
        0xf0 <= leading_byte_width_4(s) <= 0xf7,
{
}

/// One-byte encodings are in the order of their scalars.
proof fn lemma_order_width_1(u: u32, v: u32)
    by (bit_vector)
    requires
        has_width_1_encoding(u),
        has_width_1_encoding(v),
        u < v,
    ensures
        leading_byte_width_1(u) < leading_byte_width_1(v),
{
}

/// Two-byte encodings are in the order of their scalars.
proof fn lemma_order_width_2(u: u32, v: u32)
    by (bit_vector)
    requires
        has_width_2_encoding(u),
        has_width_2_encoding(v),
        u < v,
    ensures
        leading_byte_width_2(u) < leading_byte_width_2(v) || (leading_byte_width_2(u)
            == leading_byte_width_2(v) && last_continuation_byte(u) < last_continuation_byte(v)),
{
}

/// Three-byte encodings are in the order of their scalars.
proof fn lemma_order_width_3(u: u32, v: u32)
    by (bit_vector)
    requires
        has_width_3_encoding(u),
        has_width_3_encoding(v),
        u < v,
    ensures
        leading_byte_width_3(u) < leading_byte_width_3(v) || (leading_byte_width_3(u)
            == leading_byte_width_3(v) && (second_last_continuation_byte(u)
            < second_last_continuation_byte(v) || (second_last_continuation_byte(u)
            == second_last_continuation_byte(v) && last_continuation_byte(u)
            < last_continuation_byte(v)))),
{
}

/// Four-byte encodings are in the order of their scalars.
proof fn lemma_order_width_4(u: u32, v: u32)
    by (bit_vector)
    requires
        has_width_4_encoding(u),
        has_width_4_encoding(v),
        u < v,
    ensures
        leading_byte_width_4(u) < leading_byte_width_4(v) || (leading_byte_width_4(u)
            == leading_byte_width_4(v) && (third_last_continuation_byte(u)
            < third_last_continuation_byte(v) || (third_last_continuation_byte(u)
            == third_last_continuation_byte(v) && (second_last_continuation_byte(u)
            < second_last_continuation_byte(v) || (second_last_continuation_byte(u)
            == second_last_continuation_byte(v) && last_continuation_byte(u)
            < last_continuation_byte(v)))))),
{
}

/// Whatever follows them, the encodings of two scalars are in the order
/// of the scalars.
pub proof fn lemma_scalar_order(u: u32, v: u32, x: Seq<u8>, y: Seq<u8>)
    requires
        is_scalar(u),
        is_scalar(v),
        u < v,
    ensures
        byte_order(encode_scalar(u) + x, encode_scalar(v) + y) == -1,
{
    let eu = encode_scalar(u);
    let ev = encode_scalar(v);
    let a = eu + x;
    let b = ev + y;
    lemma_leading_bytes(u);
    lemma_leading_bytes(v);
    assert(a[0] == eu[0] && b[0] == ev[0]);
    if has_width_1_encoding(v) {
        lemma_order_width_1(u, v);
        lemma_byte_order_decided(a, b, 0);
    } else if has_width_2_encoding(v) {
        if has_width_2_encoding(u) {
            lemma_order_width_2(u, v);
            assert(a[1] == eu[1] && b[1] == ev[1]);
            if eu[0] < ev[0] {
                lemma_byte_order_decided(a, b, 0);
            } else {
                lemma_byte_order_decided(a, b, 1);
            }
        } else {
            lemma_byte_order_decided(a, b, 0);
        }
    } else if has_width_3_encoding(v) {
        if has_width_3_encoding(u) {
            lemma_order_width_3(u, v);
            assert(a[1] == eu[1] && b[1] == ev[1]);
            assert(a[2] == eu[2] && b[2] == ev[2]);
            if eu[0] < ev[0] {
                lemma_byte_order_decided(a, b, 0);
            } else if eu[1] < ev[1] {
                lemma_byte_order_decided(a, b, 1);
            } else {
                lemma_byte_order_decided(a, b, 2);
            }
        } else {
            lemma_byte_order_decided(a, b, 0);
        }
    } else {
        if has_width_4_encoding(u) {
            lemma_order_width_4(u, v);
            assert(a[1] == eu[1] && b[1] == ev[1]);
            assert(a[2] == eu[2] && b[2] == ev[2]);
            assert(a[3] == eu[3] && b[3] == ev[3]);
            if eu[0] < ev[0] {
                lemma_byte_order_decided(a, b, 0);
            } else if eu[1] < ev[1] {
                lemma_byte_order_decided(a, b, 1);
            } else if eu[2] < ev[2] {
                lemma_byte_order_decided(a, b, 2);
            } else {
                lemma_byte_order_decided(a, b, 3);
            }
        } else {
            lemma_byte_order_decided(a, b, 0);
        }
    }
}

/// Characters are in the order of their scalars.
proof fn lemma_char_order(c: char, d: char)
    ensures
        (c < d) == ((c as u32) < (d as u32)),
        (c == d) == ((c as u32) == (d as u32)),
{
}

/// The order of two strings byte by byte is their order by code point.
pub proof fn lemma_byte_order_is_lex_order(a: Seq<char>, b: Seq<char>)
    ensures
        byte_order(encode_utf8(a), encode_utf8(b)) == lex_order(a, b),
    decreases a.len(),
{
    if a.len() == 0 {
        if b.len() > 0 {
            char_is_scalar(b[0]);
            assert(encode_scalar(b[0] as u32).len() > 0);
        }
    } else if b.len() == 0 {
        char_is_scalar(a[0]);
        assert(encode_scalar(a[0] as u32).len() > 0);
    } else {
        let u = a[0] as u32;
        let v = b[0] as u32;
        let x = encode_utf8(a.drop_first());
        let y = encode_utf8(b.drop_first());
        char_is_scalar(a[0]);
        char_is_scalar(b[0]);
        lemma_char_order(a[0], b[0]);
        if a[0] == b[0] {
            lemma_byte_order_prefix(encode_scalar(u), x, y);
            lemma_byte_order_is_lex_order(a.drop_first(), b.drop_first());
        } else if a[0] < b[0] {
            lemma_scalar_order(u, v, x, y);
        } else {
            lemma_scalar_order(v, u, y, x);
            lemma_byte_order_antisymmetric(encode_utf8(a), encode_utf8(b));
        }
    }
}

/// Whether `a` comes before `b`, byte by byte; that is, by code point.
pub fn lt(a: &str, b: &str) -> (r: bool)
    ensures
        r == (lex_order(a@, b@) < 0),
        r == (byte_order(a.spec_bytes(), b.spec_bytes()) < 0),
{
    proof {
        lemma_byte_order_is_lex_order(a@, b@);
    }
    let left = a.as_bytes();
    let right = b.as_bytes();
    let a_len = left.len();
    let b_len = right.len();
    let end = if a_len < b_len {
        a_len
    } else {
        b_len
    };
    let mut i: usize = 0;
    proof {
        assert(left@.skip(0) =~= left@);
        assert(right@.skip(0) =~= right@);
    }
    while i < end
        invariant
            left@ == a.spec_bytes(),
            right@ == b.spec_bytes(),
            a_len == left@.len(),
            b_len == right@.len(),
            end <= a_len,
            end <= b_len,
            end == a_len || end == b_len,
            i <= end,
            byte_order(left@, right@) == byte_order(left@.skip(i as int), right@.skip(i as int)),
            byte_order(left@, right@) == lex_order(a@, b@),
        decreases end - i,
    {
        let c_a = left[i];
        let c_b = right[i];
        proof {
            assert(left@.skip(i as int)[0] == c_a);
            assert(right@.skip(i as int)[0] == c_b);
            assert(left@.skip(i as int).drop_first() =~= left@.skip(i + 1));
            assert(right@.skip(i as int).drop_first() =~= right@.skip(i + 1));
        }
        if c_a < c_b {
            return true;
        }
        if c_a > c_b {
            return false;
        }
        i += 1;
    }
    a_len < b_len
}

/// The order of `a` and `b`, byte by byte; that is, by code point.
pub fn cmp(a: &str, b: &str) -> (r: Ordering)
    ensures
        match r {
            Ordering::Less => lex_order(a@, b@) < 0,
            Ordering::Equal => lex_order(a@, b@) == 0 && a@ == b@,
            Ordering::Greater => lex_order(a@, b@) > 0,
        },
{
    proof {
        lemma_lex_order_antisymmetric(a@, b@);
        lemma_lex_order_equal(a@, b@);
    }
    if lt(a, b) {
        Ordering::Less
    } else if lt(b, a) {
        Ordering::Greater
    } else {
        Ordering::Equal
    }
}

/// Whether `a` is `b` or comes before it, byte by byte; that is, by code
/// point.
pub fn le(a: &str, b: &str) -> (r: bool)
    ensures
        r == (lex_order(a@, b@) <= 0),
        r == (byte_order(a.spec_bytes(), b.spec_bytes()) <= 0),
{
    proof {
        lemma_byte_order_antisymmetric(a.spec_bytes(), b.spec_bytes());
        lemma_lex_order_antisymmetric(a@, b@);
    }
    !lt(b, a)
}

/// Whether `a` is `b` or comes after it, byte by byte; that is, by code
/// point.
pub fn ge(a: &str, b: &str) -> (r: bool)
    ensures
        r == (lex_order(a@, b@) >= 0),
        r == (byte_order(a.spec_bytes(), b.spec_bytes()) >= 0),
{
    !lt(a, b)
}

/// Whether `a` comes after `b`, byte by byte; that is, by code point.
pub fn gt(a: &str, b: &str) -> (r: bool)
    ensures
        r == (lex_order(a@, b@) > 0),
        r == (byte_order(a.spec_bytes(), b.spec_bytes()) > 0),
{
    !le(a, b)
}

} // verus!
