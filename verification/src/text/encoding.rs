//! Valid UTF-8, and the conversion between strings and UTF-16.
use vstd::prelude::*;
use vstd::utf8::*;
use vstd::string::StringSliceAdditionalSpecFns;
use crate::text::{char_range_at, from_chars, len};
use crate::utf8::{char_index, lemma_char_index_ends, lemma_char_index_start, lemma_char_step};

verus! {

/// Whether the bytes of `v` are valid UTF-8: every character is encoded
/// in the shortest way, and none is a surrogate or beyond `U+10FFFF`.
pub fn is_utf8(v: &[u8]) -> (r: bool)
    ensures
        r == valid_utf8(v@),
{
    let total = v.len();
    let mut i: usize = 0;
    proof {
        assert(v@.subrange(0, total as int) =~= v@);
    }
    while i < total
        invariant
            total == v@.len(),
            i <= total,
            valid_utf8(v@) == valid_utf8(v@.subrange(i as int, total as int)),
        decreases total - i,
    {
        let ghost tail = v@.subrange(i as int, total as int);
        proof {
            assert(tail[0] == v@[i as int]);
            assert(tail.len() >= 2 ==> tail[1] == v@[i + 1]);
            assert(tail.len() >= 3 ==> tail[2] == v@[i + 2]);
            assert(tail.len() >= 4 ==> tail[3] == v@[i + 3]);
            assert(valid_utf8(tail) == (valid_first_scalar(tail) && valid_utf8(
                pop_first_scalar(tail),
            )));
        }
        let b0: u8 = v[i];
        let width: usize;
        if b0 <= 0x7f {
            let code: u32 = (b0 & 0x7F) as u32;
            assert(code <= 0x7f) by (bit_vector)
                requires
                    code == (b0 & 0x7F) as u32,
            ;
            width = 1;
        } else if 0xc0 <= b0 && b0 <= 0xdf {
            if total - i < 2 {
                return false;
            }
            let b1: u8 = v[i + 1];
            if !(0x80 <= b1 && b1 <= 0xbf) {
                return false;
            }
            let code: u32 = (((b0 & 0x1F) as u32) << 6) | ((b1 & 0x3f) as u32);
            assert(code <= 0x7ff) by (bit_vector)
                requires
                    code == (((b0 & 0x1F) as u32) << 6) | ((b1 & 0x3f) as u32),
            ;
            if code < 0x80 {
                return false;
            }
            width = 2;
        } else if 0xe0 <= b0 && b0 <= 0xef {
            if total - i < 3 {
                return false;
            }
            let b1: u8 = v[i + 1];
            let b2: u8 = v[i + 2];
            if !(0x80 <= b1 && b1 <= 0xbf) || !(0x80 <= b2 && b2 <= 0xbf) {
                return false;
            }
            let code: u32 = (((b0 & 0x0F) as u32) << 12) | (((b1 & 0x3f) as u32) << 6) | ((b2
                & 0x3f) as u32);
            if code < 0x800 || (0xD800 <= code && code <= 0xDFFF) {
                return false;
            }
            width = 3;
        } else if 0xf0 <= b0 && b0 <= 0xf7 {
            if total - i < 4 {
                return false;
            }
            let b1: u8 = v[i + 1];
            let b2: u8 = v[i + 2];
            let b3: u8 = v[i + 3];
            if !(0x80 <= b1 && b1 <= 0xbf) || !(0x80 <= b2 && b2 <= 0xbf) || !(0x80 <= b3 && b3
                <= 0xbf) {
                return false;
            }
            let code: u32 = (((b0 & 0x07) as u32) << 18) | (((b1 & 0x3f) as u32) << 12) | (((b2
                & 0x3f) as u32) << 6) | ((b3 & 0x3f) as u32);
            if code < 0x10000 || code > 0x10ffff {
                return false;
            }
            width = 4;
        } else {
            return false;
        }
        proof {
            assert(valid_first_scalar(tail));
            assert(pop_first_scalar(tail) =~= v@.subrange(i + width, total as int));
        }
        i += width;
    }
    proof {
        assert(v@.subrange(total as int, total as int) =~= Seq::<u8>::empty());
    }
    true
}

/// Whether the unit `u` is the first half of a surrogate pair.
pub open spec fn is_lead_surrogate(u: u16) -> bool {
    0xD800 <= u <= 0xDBFF
}

/// Whether the unit `u` is the second half of a surrogate pair.
pub open spec fn is_trail_surrogate(u: u16) -> bool {
    0xDC00 <= u <= 0xDFFF
}

/// The UTF-16 units of the character `c`: itself below `U+10000`, a
/// surrogate pair from there on.
pub open spec fn utf16_of_char(c: char) -> Seq<u16> {
    let v = c as u32 as int;
    if v < 0x10000 {
        seq![v as u16]
    } else {
        seq![(0xD800 + (v - 0x10000) / 0x400) as u16, (0xDC00 + (v - 0x10000) % 0x400) as u16]
    }
}

/// The UTF-16 units of the characters of `s`, one after the other.
pub open spec fn utf16_of(s: Seq<char>) -> Seq<u16>
    decreases s.len(),
{
    if s.len() == 0 {
        Seq::<u16>::empty()
    } else {
        utf16_of(s.drop_last()) + utf16_of_char(s.last())
    }
}

/// Whether `v` is valid UTF-16: every surrogate is half of a pair, the
/// first half first.
pub open spec fn valid_utf16(v: Seq<u16>) -> bool
    decreases v.len(),
{
    if v.len() == 0 {
        true
    } else if !is_lead_surrogate(v[0]) && !is_trail_surrogate(v[0]) {
        valid_utf16(v.skip(1))
    } else {
        is_lead_surrogate(v[0]) && v.len() >= 2 && is_trail_surrogate(v[1]) && valid_utf16(
            v.skip(2),
        )
    }
}

/// The characters that valid UTF-16 encodes.
pub open spec fn chars_of_utf16(v: Seq<u16>) -> Seq<char>
    recommends
        valid_utf16(v),
    decreases v.len(),
{
    if v.len() == 0 {
        Seq::<char>::empty()
    } else if !is_lead_surrogate(v[0]) && !is_trail_surrogate(v[0]) {
        seq![(v[0] as u32) as char] + chars_of_utf16(v.skip(1))
    } else if v.len() >= 2 {
        seq![((0x10000 + (v[0] - 0xD800) * 0x400 + (v[1] - 0xDC00)) as u32) as char]
            + chars_of_utf16(v.skip(2))
    } else {
        Seq::<char>::empty()
    }
}

/// The units of `v` before the first zero, or all if there is none.
pub open spec fn until_nul(v: Seq<u16>) -> Seq<u16>
    decreases v.len(),
{
    if v.len() == 0 || v[0] == 0 {
        Seq::<u16>::empty()
    } else {
        seq![v[0]] + until_nul(v.skip(1))
    }
}

/// The units of one character are valid UTF-16 and encode that
/// character, and none of them is zero unless the character is.
pub proof fn lemma_utf16_of_char(c: char)
    ensures
        valid_utf16(utf16_of_char(c)),
        chars_of_utf16(utf16_of_char(c)) == seq![c],
        c != '\0' ==> forall|k: int|
            0 <= k < utf16_of_char(c).len() ==> #[trigger] utf16_of_char(c)[k] != 0,
{
    let v = c as u32 as int;
    let units = utf16_of_char(c);
    char_is_scalar(c);
    if v < 0x10000 {
        assert(units.skip(1) =~= Seq::<u16>::empty());
        assert(valid_utf16(units.skip(1)));
        assert(chars_of_utf16(units.skip(1)) =~= Seq::<char>::empty());
        char_u32_cast(c, units[0] as u32);
        assert(chars_of_utf16(units) =~= seq![c]);
    } else {
        let rest = v - 0x10000;
        assert(units.skip(2) =~= Seq::<u16>::empty());
        assert(valid_utf16(units.skip(2)));
        assert(chars_of_utf16(units.skip(2)) =~= Seq::<char>::empty());
        assert(is_lead_surrogate(units[0]));
        assert(is_trail_surrogate(units[1]));
        assert(0x10000 + (units[0] - 0xD800) * 0x400 + (units[1] - 0xDC00) == v);
        char_u32_cast(c, v as u32);
        assert(chars_of_utf16(units) =~= seq![c]);
    }
}

/// Valid UTF-16 after valid UTF-16 is valid, and encodes the characters
/// of both.
pub proof fn lemma_utf16_concat(a: Seq<u16>, b: Seq<u16>)
    requires
        valid_utf16(a),
        valid_utf16(b),
    ensures
        valid_utf16(a + b),
        chars_of_utf16(a + b) == chars_of_utf16(a) + chars_of_utf16(b),
    decreases a.len(),
{
    if a.len() == 0 {
        assert(a + b =~= b);
        assert(chars_of_utf16(a) + chars_of_utf16(b) =~= chars_of_utf16(b));
    } else if !is_lead_surrogate(a[0]) && !is_trail_surrogate(a[0]) {
        lemma_utf16_concat(a.skip(1), b);
        assert((a + b).skip(1) =~= a.skip(1) + b);
        assert(chars_of_utf16(a + b) =~= chars_of_utf16(a) + chars_of_utf16(b));
    } else {
        lemma_utf16_concat(a.skip(2), b);
        assert((a + b).skip(2) =~= a.skip(2) + b);
        assert((a + b)[1] == a[1]);
        assert(chars_of_utf16(a + b) =~= chars_of_utf16(a) + chars_of_utf16(b));
    }
}

/// Units without a zero are all before the first zero.
pub proof fn lemma_until_nul_whole(v: Seq<u16>)
    requires
        forall|k: int| 0 <= k < v.len() ==> #[trigger] v[k] != 0,
    ensures
        until_nul(v) == v,
    decreases v.len(),
{
    if v.len() > 0 {
        lemma_until_nul_whole(v.skip(1));
        assert(v =~= seq![v[0]] + v.skip(1));
    } else {
        assert(v =~= Seq::<u16>::empty());
    }
}

/// No unit before the first zero is zero.
pub proof fn lemma_until_nul_no_zero(v: Seq<u16>, k: int)
    requires
        0 <= k < until_nul(v).len(),
    ensures
        until_nul(v)[k] != 0,
    decreases v.len(),
{
    if k > 0 {
        lemma_until_nul_no_zero(v.skip(1), k - 1);
    }
}

/// The units of a string are valid UTF-16 and encode the string; if no
/// character of the string is zero, none of the units is.
pub proof fn lemma_utf16_round_trip(s: Seq<char>)
    ensures
        valid_utf16(utf16_of(s)),
        chars_of_utf16(utf16_of(s)) == s,
        (forall|k: int| 0 <= k < s.len() ==> #[trigger] s[k] != '\0') ==> until_nul(utf16_of(s))
            == utf16_of(s),
    decreases s.len(),
{
    if s.len() > 0 {
        let head = s.drop_last();
        lemma_utf16_round_trip(head);
        lemma_utf16_of_char(s.last());
        lemma_utf16_concat(utf16_of(head), utf16_of_char(s.last()));
        assert(s =~= head + seq![s.last()]);
        if forall|k: int| 0 <= k < s.len() ==> #[trigger] s[k] != '\0' {
            assert forall|k: int| 0 <= k < head.len() implies #[trigger] head[k] != '\0' by {
                assert(head[k] == s[k]);
            }
            assert(s.last() == s[s.len() - 1]);
            let all = utf16_of(s);
            assert forall|k: int| 0 <= k < all.len() implies #[trigger] all[k] != 0 by {
                if k < utf16_of(head).len() {
                    assert(all[k] == utf16_of(head)[k]);
                    assert(until_nul(utf16_of(head))[k] != 0) by {
                        lemma_until_nul_no_zero(utf16_of(head), k);
                    }
                } else {
                    assert(all[k] == utf16_of_char(s.last())[k - utf16_of(head).len()]);
                }
            }
            lemma_until_nul_whole(all);
        }
    } else {
        assert(chars_of_utf16(utf16_of(s)) =~= s);
    }
}

/// Whether the units of `v` are valid UTF-16.
pub fn is_utf16(v: &[u16]) -> (r: bool)
    ensures
        r == valid_utf16(v@),
{
    let len = v.len();
    let mut i: usize = 0;
    proof {
        assert(v@.skip(0) =~= v@);
    }
    while i < len
        invariant
            len == v@.len(),
            i <= len,
            valid_utf16(v@) == valid_utf16(v@.skip(i as int)),
        decreases len - i,
    {
        let u = v[i];
        proof {
            assert(v@.skip(i as int)[0] == u);
            assert(v@.skip(i as int).skip(1) =~= v@.skip(i + 1));
            if len - i >= 2 {
                assert(v@.skip(i as int).skip(2) =~= v@.skip(i + 2));
            }
        }
        if u <= 0xD7FF || u >= 0xE000 {
            i += 1;
        } else {
            if len - i < 2 {
                return false;
            }
            let u2 = v[i + 1];
            proof {
                assert(v@.skip(i as int)[1] == u2);
            }
            if u < 0xD800 || u > 0xDBFF {
                return false;
            }
            if u2 < 0xDC00 || u2 > 0xDFFF {
                return false;
            }
            i += 2;
        }
    }
    true
}

/// The UTF-16 units of `s`.
pub fn to_utf16(s: &str) -> (r: Vec<u16>)
    ensures
        r@ == utf16_of(s@),
{
    let mut u: Vec<u16> = Vec::new();
    let n = len(s);
    let mut i: usize = 0;
    proof {
        lemma_char_index_start(s@);
        assert(s@.take(0) =~= Seq::<char>::empty());
    }
    while i < n
        invariant
            n == s.spec_bytes().len(),
            i <= n,
            vstd::utf8::is_char_boundary(s.spec_bytes(), i as int),
            u@ == utf16_of(s@.take(char_index(s@, i as int))),
        decreases n - i,
    {
        proof {
            lemma_char_step(s@, i as int);
            let k = char_index(s@, i as int);
            assert(s@.take(k + 1).last() == s@[k]);
            assert(s@.take(k + 1).drop_last() =~= s@.take(k));
        }
        let range = char_range_at(s, i);
        let ch: u32 = range.ch as u32;
        proof {
            char_is_scalar(range.ch);
        }
        let ghost before = u@;
        if ch < 0x10000 {
            // The basic plane is written as it is.
            u.push(ch as u16);
            proof {
                assert(u@ =~= before + utf16_of_char(range.ch));
            }
        } else {
            // The other planes break into surrogates.
            let rest: u32 = ch - 0x10000;
            let w1: u16 = (0xD800 + rest / 0x400) as u16;
            let w2: u16 = (0xDC00 + rest % 0x400) as u16;
            u.push(w1);
            u.push(w2);
            proof {
                assert(u@ =~= before + utf16_of_char(range.ch));
            }
        }
        i = range.next;
    }
    proof {
        lemma_char_index_ends(s@, i as int);
        assert(s@.take(s@.len() as int) =~= s@);
    }
    u
}

/// The characters that the units of `v` before the first zero encode.
fn decode_utf16(v: &[u16]) -> (r: Vec<char>)
    requires
        valid_utf16(until_nul(v@)),
    ensures
        r@ == chars_of_utf16(until_nul(v@)),
{
    let len = v.len();
    let mut chars: Vec<char> = Vec::new();
    let mut i: usize = 0;
    proof {
        assert(v@.skip(0) =~= v@);
    }
    while i < len && v[i] != 0
        invariant
            len == v@.len(),
            i <= len,
            valid_utf16(until_nul(v@.skip(i as int))),
            chars@ + chars_of_utf16(until_nul(v@.skip(i as int))) == chars_of_utf16(
                until_nul(v@),
            ),
        decreases len - i,
    {
        let u = v[i];
        let ghost rest = v@.skip(i as int);
        let ghost before = chars@;
        proof {
            assert(rest[0] == u);
            assert(rest.skip(1) =~= v@.skip(i + 1));
            assert(until_nul(rest) =~= seq![u] + until_nul(rest.skip(1)));
            assert(until_nul(rest).skip(1) =~= until_nul(rest.skip(1)));
        }
        if u <= 0xD7FF || u >= 0xE000 {
            let c = char::from_u32(u as u32).unwrap();
            chars.push(c);
            proof {
                assert(chars@ + chars_of_utf16(until_nul(v@.skip(i + 1))) =~= before
                    + chars_of_utf16(until_nul(rest)));
            }
            i += 1;
        } else {
            proof {
                assert(until_nul(rest).len() >= 2);
                assert(rest.skip(1).len() > 0 && rest.skip(1)[0] != 0);
                assert(rest.skip(1).skip(1) =~= v@.skip(i + 2));
                assert(until_nul(rest.skip(1)) =~= seq![rest[1]] + until_nul(v@.skip(i + 2)));
                assert(until_nul(rest).skip(2) =~= until_nul(v@.skip(i + 2)));
                assert(until_nul(rest)[1] == rest[1]);
            }
            let u2 = v[i + 1];
            let code: u32 = 0x10000 + (u - 0xD800) as u32 * 0x400 + (u2 - 0xDC00) as u32;
            let c = char::from_u32(code).unwrap();
            chars.push(c);
            proof {
                assert(chars@ + chars_of_utf16(until_nul(v@.skip(i + 2))) =~= before
                    + chars_of_utf16(until_nul(rest)));
            }
            i += 2;
        }
    }
    proof {
        assert(until_nul(v@.skip(i as int)) =~= Seq::<u16>::empty());
        assert(chars@ + Seq::<char>::empty() =~= chars@);
    }
    chars
}

/// Calls `f` on every character that the units of `v` before the first
/// zero encode, in order.
pub fn utf16_chars<F: Fn(char)>(v: &[u16], f: F)
    requires
        valid_utf16(until_nul(v@)),
        forall|c: char| f.requires((c,)),
    ensures
        forall|k: int|
            0 <= k < chars_of_utf16(until_nul(v@)).len() ==> f.ensures(
                (chars_of_utf16(until_nul(v@))[k],),
                (),
            ),
{
    let chars = decode_utf16(v);
    let mut k: usize = 0;
    while k < chars.len()
        invariant
            k <= chars@.len(),
            forall|c: char| f.requires((c,)),
            forall|j: int| 0 <= j < k ==> f.ensures((chars@[j],), ()),
        decreases chars@.len() - k,
    {
        f(chars[k]);
        k += 1;
    }
}

/// The string that the units of `v` before the first zero encode.
pub fn from_utf16(v: &[u16]) -> (r: String)
    requires
        valid_utf16(until_nul(v@)),
    ensures
        r@ == chars_of_utf16(until_nul(v@)),
{
    let chars = decode_utf16(v);
    from_chars(chars.as_slice())
}

} // verus!
