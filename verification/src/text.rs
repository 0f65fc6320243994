//! Strings over UTF-8 text.
//!
//! This module holds the primitives: how a string is walked character by
//! character and cut at byte indices, and how strings are built. What
//! else is done to strings stands in the modules below it, and is named
//! here again.
use vstd::prelude::*;
use vstd::utf8::*;
use vstd::string::StringSliceAdditionalSpecFns;
use vstd::string::StringExecFns;
use crate::forest::flat;
use crate::utf8::{
    bytes_of_chars, char_index, chars_between, is_char_range, lemma_boundary_in_range,
    lemma_char_count, lemma_char_index_ends, lemma_char_index_start, lemma_char_step,
    lemma_chars_split, lemma_first_char, lemma_next_within, lemma_range_bytes, lemma_whole_range,
};

pub mod compare;
pub mod search;
pub mod trim;
pub mod encoding;
pub mod escape;
pub use self::compare::{
    byte_order, cmp, eq, eq_slice, ge, gt, le, lemma_byte_order_antisymmetric, lt,
};
pub use self::encoding::{
    chars_of_utf16, from_utf16, is_lead_surrogate, is_trail_surrogate, is_utf16, is_utf8, to_utf16,
    until_nul, utf16_chars, utf16_of, utf16_of_char, valid_utf16,
};
pub use self::escape::{
    escape_default, escape_unicode, escaped_default, escaped_default_char, escaped_unicode,
    escaped_unicode_char, hex_number, spec_hex_digit,
};
pub use self::search::{
    contains, contains_char, ends_with, find_str, find_str_between, match_at, starts_with,
};
pub use self::trim::{
    is_whitespace, to_trim, trim, trim_chars, trim_left, trim_left_chars, trim_right,
    trim_right_chars, trimmed_left, trimmed_right, white_space,
};

verus! {

/// A character of a string and the byte index at which the next one starts.
pub struct CharRange {
    /// The character.
    pub ch: char,
    /// The byte index after the character.
    pub next: usize,
}

/// `char::from_u32` of the standard library: a scalar value converts to the
/// character with that value, anything else (a surrogate, a value above
/// `0x10FFFF`) to `None`.
pub assume_specification[ char::from_u32 ](u: u32) -> (r: Option<char>)
    ensures
        is_scalar(u) ==> r == Some(u as char),
        !is_scalar(u) ==> r is None,
;

/// `String::push` of the standard library: appends one character.
pub assume_specification[ String::push ](s: &mut String, c: char)
    ensures
        final(s)@ == old(s)@.push(c),
;

/// The number of bytes of `s`.
pub fn len(s: &str) -> (n: usize)
    ensures
        n == s.spec_bytes().len(),
{
    s.as_bytes().len()
}

/// The number of bytes that a character starting with byte `b` takes
/// (five or six for the long forms that UTF-8 once had), or `0` if `b`
/// cannot start one.
pub fn utf8_char_width(b: u8) -> (w: usize)
    ensures
        w == if b < 128 {
            1int
        } else if b < 192 {
            0
        } else if b < 224 {
            2
        } else if b < 240 {
            3
        } else if b < 248 {
            4
        } else if b < 252 {
            5
        } else {
            6
        },
{
    if b < 128 {
        1
    } else if b < 192 {
        0
    } else if b < 224 {
        2
    } else if b < 240 {
        3
    } else if b < 248 {
        4
    } else if b < 252 {
        5
    } else {
        6
    }
}

/// Whether `index` is the end of `s` or the first byte of a character.
pub fn is_char_boundary(s: &str, index: usize) -> (r: bool)
    requires
        index <= s.spec_bytes().len(),
    ensures
        r == vstd::utf8::is_char_boundary(s.spec_bytes(), index as int),
{
    proof {
        encode_utf8_valid_utf8(s@);
        is_char_boundary_start_end_of_seq(s.spec_bytes());
    }
    if index == len(s) {
        return true;
    }
    let b: u8 = s.as_bytes()[index];
    proof {
        is_char_boundary_iff_not_is_continuation_byte(s.spec_bytes(), index as int);
    }
    b < 128 || b >= 192
}

/// The character that starts at byte `i` of `s`, and where the next starts.
pub fn char_range_at(s: &str, i: usize) -> (r: CharRange)
    requires
        i < s.spec_bytes().len(),
        vstd::utf8::is_char_boundary(s.spec_bytes(), i as int),
    ensures
        i < r.next <= s.spec_bytes().len(),
        r.next == i + length_of_first_scalar(
            s.spec_bytes().subrange(i as int, s.spec_bytes().len() as int),
        ),
        r.ch == decode_first_scalar(
            s.spec_bytes().subrange(i as int, s.spec_bytes().len() as int),
        ) as char,
        vstd::utf8::is_char_boundary(s.spec_bytes(), r.next as int),
        chars_between(s.spec_bytes(), i as int, r.next as int) == seq![r.ch],
{
    let bytes: &[u8] = s.as_bytes();
    let ghost tail = bytes@.subrange(i as int, bytes@.len() as int);
    proof {
        encode_utf8_valid_utf8(s@);
        lemma_first_char(bytes@, i as int);
        assert(tail[0] == bytes@[i as int]);
        assert(tail.len() >= 2 ==> tail[1] == bytes@[i + 1]);
        assert(tail.len() >= 3 ==> tail[2] == bytes@[i + 2]);
        assert(tail.len() >= 4 ==> tail[3] == bytes@[i + 3]);
    }
    let b0: u8 = bytes[i];
    if b0 <= 0x7f {
        let v: u32 = (b0 & 0x7F) as u32;
        assert(v <= 0x7f) by (bit_vector)
            requires
                v == (b0 & 0x7F) as u32,
        ;
        CharRange { ch: char::from_u32(v).unwrap(), next: i + 1 }
    } else if b0 <= 0xdf {
        let b1: u8 = bytes[i + 1];
        let v: u32 = (((b0 & 0x1F) as u32) << 6) | ((b1 & 0x3f) as u32);
        assert(v <= 0x7ff) by (bit_vector)
            requires
                v == (((b0 & 0x1F) as u32) << 6) | ((b1 & 0x3f) as u32),
        ;
        CharRange { ch: char::from_u32(v).unwrap(), next: i + 2 }
    } else if b0 <= 0xef {
        let b1: u8 = bytes[i + 1];
        let b2: u8 = bytes[i + 2];
        let v: u32 = (((b0 & 0x0F) as u32) << 12) | (((b1 & 0x3f) as u32) << 6) | ((b2
            & 0x3f) as u32);
        assert(v <= 0xffff) by (bit_vector)
            requires
                v == (((b0 & 0x0F) as u32) << 12) | (((b1 & 0x3f) as u32) << 6) | ((b2
                    & 0x3f) as u32),
        ;
        CharRange { ch: char::from_u32(v).unwrap(), next: i + 3 }
    } else {
        let b1: u8 = bytes[i + 1];
        let b2: u8 = bytes[i + 2];
        let b3: u8 = bytes[i + 3];
        let v: u32 = (((b0 & 0x07) as u32) << 18) | (((b1 & 0x3f) as u32) << 12) | (((b2
            & 0x3f) as u32) << 6) | ((b3 & 0x3f) as u32);
        CharRange { ch: char::from_u32(v).unwrap(), next: i + 4 }
    }
}

/// The character that starts at byte `i` of `s`.
pub fn char_at(s: &str, i: usize) -> (c: char)
    requires
        i < s.spec_bytes().len(),
        vstd::utf8::is_char_boundary(s.spec_bytes(), i as int),
    ensures
        c == decode_first_scalar(
            s.spec_bytes().subrange(i as int, s.spec_bytes().len() as int),
        ) as char,
{
    char_range_at(s, i).ch
}

/// The number of characters of `s` between the byte indices `start` and `end`.
pub fn count_chars(s: &str, start: usize, end: usize) -> (n: usize)
    requires
        is_char_range(s.spec_bytes(), start as int, end as int),
    ensures
        n == chars_between(s.spec_bytes(), start as int, end as int).len(),
{
    let mut i: usize = start;
    let mut len: usize = 0;
    proof {
        encode_utf8_valid_utf8(s@);
        assert(s.spec_bytes().subrange(start as int, start as int) =~= Seq::<u8>::empty());
    }
    while i < end
        invariant
            valid_utf8(s.spec_bytes()),
            is_char_range(s.spec_bytes(), start as int, i as int),
            is_char_range(s.spec_bytes(), i as int, end as int),
            len == chars_between(s.spec_bytes(), start as int, i as int).len(),
            len <= i - start,
        decreases end - i,
    {
        let next = char_range_at(s, i).next;
        proof {
            lemma_next_within(s.spec_bytes(), i as int, end as int);
            lemma_chars_split(s.spec_bytes(), start as int, i as int, next as int);
        }
        len += 1;
        i = next;
    }
    len
}

/// The number of bytes that the first `n` characters of `s` after the byte
/// index `start` take.
pub fn count_bytes(s: &str, start: usize, n: usize) -> (len: usize)
    requires
        is_char_range(s.spec_bytes(), start as int, s.spec_bytes().len() as int),
        n <= chars_between(s.spec_bytes(), start as int, s.spec_bytes().len() as int).len(),
    ensures
        is_char_range(s.spec_bytes(), start as int, start + len),
        chars_between(s.spec_bytes(), start as int, start + len) == chars_between(
            s.spec_bytes(),
            start as int,
            s.spec_bytes().len() as int,
        ).take(n as int),
        len == bytes_of_chars(s.spec_bytes(), start as int, n as int),
        start + len <= usize::MAX,
{
    let mut end: usize = start;
    let mut cnt: usize = n;
    let l: usize = len(s);
    let ghost bytes = s.spec_bytes();
    proof {
        encode_utf8_valid_utf8(s@);
        assert(bytes.subrange(start as int, start as int) =~= Seq::<u8>::empty());
    }
    while cnt > 0
        invariant
            bytes == s.spec_bytes(),
            l == bytes.len(),
            valid_utf8(bytes),
            is_char_range(bytes, start as int, end as int),
            is_char_range(bytes, end as int, l as int),
            cnt <= n,
            chars_between(bytes, start as int, end as int).len() == n - cnt,
            n <= chars_between(bytes, start as int, l as int).len(),
        decreases cnt,
    {
        proof {
            lemma_chars_split(bytes, start as int, end as int, l as int);
            if end == l {
                assert(bytes.subrange(l as int, l as int) =~= Seq::<u8>::empty());
            }
        }
        let next = char_range_at(s, end).next;
        proof {
            lemma_chars_split(bytes, start as int, end as int, next as int);
        }
        cnt -= 1;
        end = next;
    }
    proof {
        lemma_chars_split(bytes, start as int, end as int, l as int);
        let whole = chars_between(bytes, start as int, l as int);
        let head = chars_between(bytes, start as int, end as int);
        assert(whole.take(n as int) =~= head);
        lemma_range_bytes(bytes, start as int, end as int);
    }
    end - start
}

/// The number of characters of `s`.
pub fn char_len(s: &str) -> (n: usize)
    ensures
        n == s@.len(),
{
    proof {
        lemma_whole_range(s@);
    }
    count_chars(s, 0, len(s))
}

/// The part of `s` between the byte indices `begin` and `end`.
pub fn slice(s: &str, begin: usize, end: usize) -> (r: &str)
    requires
        is_char_range(s.spec_bytes(), begin as int, end as int),
    ensures
        r@ == chars_between(s.spec_bytes(), begin as int, end as int),
        r.spec_bytes() == s.spec_bytes().subrange(begin as int, end as int),
{
    proof {
        encode_utf8_valid_utf8(s@);
        lemma_boundary_in_range(s.spec_bytes(), 0, begin as int, end as int);
        valid_utf8_split(s.spec_bytes(), end as int);
    }
    let (head, _) = s.split_at(end);
    let (_, r) = head.split_at(begin);
    proof {
        assert(r.spec_bytes() =~= s.spec_bytes().subrange(begin as int, end as int));
        encode_utf8_decode_utf8(r@);
    }
    r
}

/// The part of `s` that holds `n` characters from the byte index `begin`
/// on.
pub fn substr(s: &str, begin: usize, n: usize) -> (r: &str)
    requires
        is_char_range(s.spec_bytes(), begin as int, s.spec_bytes().len() as int),
        n <= chars_between(s.spec_bytes(), begin as int, s.spec_bytes().len() as int).len(),
    ensures
        r@ == chars_between(s.spec_bytes(), begin as int, s.spec_bytes().len() as int).take(
            n as int,
        ),
{
    let taken = count_bytes(s, begin, n);
    slice(s, begin, begin + taken)
}

/// The string of one character.
pub fn from_char(ch: char) -> (r: String)
    ensures
        r@ == seq![ch],
{
    let mut buf = String::new();
    buf.push(ch);
    proof {
        assert(buf@ =~= seq![ch]);
    }
    buf
}

/// The string of the characters of `chs`.
pub fn from_chars(chs: &[char]) -> (r: String)
    ensures
        r@ == chs@,
{
    let mut buf = String::new();
    let mut i: usize = 0;
    while i < chs.len()
        invariant
            i <= chs@.len(),
            buf@ == chs@.take(i as int),
        decreases chs@.len() - i,
    {
        buf.push(chs[i]);
        proof {
            assert(chs@.take(i as int).push(chs@[i as int]) =~= chs@.take(i + 1));
        }
        i += 1;
    }
    proof {
        assert(chs@.take(chs@.len() as int) =~= chs@);
    }
    buf
}

/// The characters of `s`.
pub fn to_chars(s: &str) -> (r: Vec<char>)
    ensures
        r@ == s@,
{
    let mut chars: Vec<char> = Vec::new();
    let n = len(s);
    let mut i: usize = 0;
    proof {
        lemma_char_index_start(s@);
    }
    while i < n
        invariant
            n == s.spec_bytes().len(),
            i <= n,
            vstd::utf8::is_char_boundary(s.spec_bytes(), i as int),
            chars@ == s@.take(char_index(s@, i as int)),
        decreases n - i,
    {
        proof {
            lemma_char_step(s@, i as int);
        }
        let range = char_range_at(s, i);
        chars.push(range.ch);
        proof {
            let k = char_index(s@, i as int);
            assert(s@.take(k).push(s@[k]) =~= s@.take(k + 1));
        }
        i = range.next;
    }
    proof {
        lemma_char_index_ends(s@, i as int);
        assert(s@.take(s@.len() as int) =~= s@);
    }
    chars
}

/// The string `lhs` with `rhs` at its end.
pub fn append(lhs: String, rhs: &str) -> (r: String)
    ensures
        r@ == lhs@ + rhs@,
{
    let mut v = lhs;
    v.append(rhs);
    v
}

/// Puts the character `ch` at the beginning of `s`.
pub fn unshift_char(s: &mut String, ch: char)
    ensures
        final(s)@ == seq![ch] + old(s)@,
{
    let mut new_str = String::new();
    new_str.push(ch);
    new_str.append(s.as_str());
    proof {
        assert(new_str@ =~= seq![ch] + s@);
    }
    *s = new_str;
}

/// The texts of the strings of a list.
pub open spec fn texts_of(v: Seq<String>) -> Seq<Seq<char>> {
    Seq::new(v.len(), |k: int| v[k]@)
}

/// The texts of the string slices of a list.
pub open spec fn texts_of_slices(v: Seq<&str>) -> Seq<Seq<char>> {
    Seq::new(v.len(), |k: int| v[k]@)
}

/// The first `n` of `texts`, with `sep` between each two neighbours.
pub open spec fn joined(texts: Seq<Seq<char>>, sep: Seq<char>, n: int) -> Seq<char>
    decreases n,
{
    if n <= 0 {
        Seq::<char>::empty()
    } else if n == 1 {
        texts[0]
    } else {
        joined(texts, sep, n - 1) + sep + texts[n - 1]
    }
}

/// The strings of `v`, one after the other.
pub fn concat(v: &[String]) -> (r: String)
    ensures
        r@ == flat(texts_of(v@), 0, v@.len() as int),
{
    let mut s = String::new();
    let mut i: usize = 0;
    while i < v.len()
        invariant
            i <= v@.len(),
            s@ == flat(texts_of(v@), 0, i as int),
        decreases v@.len() - i,
    {
        s.append(v[i].as_str());
        i += 1;
    }
    s
}

/// The string slices of `v`, one after the other.
pub fn concat_slices(v: &[&str]) -> (r: String)
    ensures
        r@ == flat(texts_of_slices(v@), 0, v@.len() as int),
{
    let mut s = String::new();
    let mut i: usize = 0;
    while i < v.len()
        invariant
            i <= v@.len(),
            s@ == flat(texts_of_slices(v@), 0, i as int),
        decreases v@.len() - i,
    {
        s.append(v[i]);
        i += 1;
    }
    s
}

/// The strings of `v`, one after the other, with `sep` between each two.
pub fn connect(v: &[String], sep: &str) -> (r: String)
    ensures
        r@ == joined(texts_of(v@), sep@, v@.len() as int),
{
    let mut s = String::new();
    let mut i: usize = 0;
    while i < v.len()
        invariant
            i <= v@.len(),
            s@ == joined(texts_of(v@), sep@, i as int),
        decreases v@.len() - i,
    {
        if i > 0 {
            s.append(sep);
        }
        s.append(v[i].as_str());
        proof {
            if i == 0 {
                assert(s@ =~= texts_of(v@)[0]);
            }
        }
        i += 1;
    }
    s
}

/// The string slices of `v`, one after the other, with `sep` between
/// each two.
pub fn connect_slices(v: &[&str], sep: &str) -> (r: String)
    ensures
        r@ == joined(texts_of_slices(v@), sep@, v@.len() as int),
{
    let mut s = String::new();
    let mut i: usize = 0;
    while i < v.len()
        invariant
            i <= v@.len(),
            s@ == joined(texts_of_slices(v@), sep@, i as int),
        decreases v@.len() - i,
    {
        if i > 0 {
            s.append(sep);
        }
        s.append(v[i]);
        proof {
            if i == 0 {
                assert(s@ =~= texts_of_slices(v@)[0]);
            }
        }
        i += 1;
    }
    s
}

/// The string of the characters that `ff` makes of those of `ss`.
pub fn map<F: Fn(char) -> char>(ss: &str, ff: F) -> (r: String)
    requires
        forall|c: char| ff.requires((c,)),
    ensures
        r@.len() == ss@.len(),
        forall|k: int| 0 <= k < ss@.len() ==> ff.ensures((ss@[k],), r@[k]),
{
    let mut result = String::new();
    let n = len(ss);
    let mut i: usize = 0;
    proof {
        lemma_char_index_start(ss@);
    }
    while i < n
        invariant
            n == ss.spec_bytes().len(),
            i <= n,
            vstd::utf8::is_char_boundary(ss.spec_bytes(), i as int),
            result@.len() == char_index(ss@, i as int),
            forall|k: int| 0 <= k < result@.len() ==> ff.ensures((ss@[k],), result@[k]),
            forall|c: char| ff.requires((c,)),
        decreases n - i,
    {
        proof {
            lemma_char_step(ss@, i as int);
        }
        let range = char_range_at(ss, i);
        let mapped = ff(range.ch);
        result.push(mapped);
        i = range.next;
    }
    proof {
        lemma_char_index_ends(ss@, i as int);
    }
    result
}

/// `it` may answer `true` on every one of `items`.
pub open spec fn passes<T, F: Fn(T) -> bool>(it: F, items: Seq<T>) -> bool {
    forall|k: int| 0 <= k < items.len() ==> it.ensures((items[k],), true)
}

/// `it` may answer `false` on `items[k]` after `true` on all before it.
pub open spec fn stops_at<T, F: Fn(T) -> bool>(it: F, items: Seq<T>, k: int) -> bool {
    &&& 0 <= k < items.len()
    &&& it.ensures((items[k],), false)
    &&& forall|j: int| 0 <= j < k ==> it.ensures((items[j],), true)
}

/// What passes on two lists passes on them together.
pub proof fn lemma_passes_both<T, F: Fn(T) -> bool>(it: F, a: Seq<T>, b: Seq<T>)
    requires
        passes(it, a),
        passes(it, b),
    ensures
        passes(it, a + b),
{
    assert forall|k: int| 0 <= k < (a + b).len() implies it.ensures(((a + b)[k],), true) by {
        if k < a.len() {
            assert((a + b)[k] == a[k]);
        } else {
            assert((a + b)[k] == b[k - a.len()]);
        }
    }
}

/// What passes on `a` and stops at place `k` of `b` stops at place
/// `a.len() + k` of both together.
pub proof fn lemma_stops_later<T, F: Fn(T) -> bool>(it: F, a: Seq<T>, b: Seq<T>, k: int)
    requires
        passes(it, a),
        stops_at(it, b, k),
    ensures
        stops_at(it, a + b, a.len() + k),
{
    assert((a + b)[a.len() + k] == b[k]);
    assert forall|j: int| 0 <= j < a.len() + k implies it.ensures(((a + b)[j],), true) by {
        if j < a.len() {
            assert((a + b)[j] == a[j]);
        } else {
            assert((a + b)[j] == b[j - a.len()]);
        }
    }
}

/// What stops at a place of `a` stops there whatever follows `a`.
pub proof fn lemma_stops_within<T, F: Fn(T) -> bool>(it: F, a: Seq<T>, b: Seq<T>, k: int)
    requires
        stops_at(it, a, k),
    ensures
        stops_at(it, a + b, k),
{
    assert((a + b)[k] == a[k]);
    assert forall|j: int| 0 <= j < k implies it.ensures(((a + b)[j],), true) by {
        assert((a + b)[j] == a[j]);
    }
}

/// Calls `it` on the characters of `s` between the bytes `start` and
/// `end`, in order, until `it` answers `false`; the result is `false` if
/// it did, else `true`.
pub fn all_between<F: Fn(char) -> bool>(s: &str, start: usize, end: usize, it: &F) -> (r: bool)
    requires
        is_char_range(s.spec_bytes(), start as int, end as int),
        forall|c: char| it.requires((c,)),
    ensures
        r ==> passes(*it, chars_between(s.spec_bytes(), start as int, end as int)),
        !r ==> exists|k: int|
            stops_at(*it, chars_between(s.spec_bytes(), start as int, end as int), k),
{
    let ghost bytes = s.spec_bytes();
    let ghost whole = chars_between(bytes, start as int, end as int);
    let mut i: usize = start;
    proof {
        encode_utf8_valid_utf8(s@);
        assert(bytes.subrange(start as int, start as int) =~= Seq::<u8>::empty());
        lemma_chars_split(bytes, start as int, start as int, end as int);
    }
    while i < end
        invariant
            bytes == s.spec_bytes(),
            valid_utf8(bytes),
            whole == chars_between(bytes, start as int, end as int),
            is_char_range(bytes, start as int, i as int),
            is_char_range(bytes, i as int, end as int),
            whole == chars_between(bytes, start as int, i as int) + chars_between(
                bytes,
                i as int,
                end as int,
            ),
            forall|c: char| it.requires((c,)),
            passes(*it, chars_between(bytes, start as int, i as int)),
        decreases end - i,
    {
        let range = char_range_at(s, i);
        let ghost seen = chars_between(bytes, start as int, i as int);
        proof {
            lemma_next_within(bytes, i as int, end as int);
            lemma_chars_split(bytes, start as int, i as int, range.next as int);
            lemma_chars_split(bytes, i as int, range.next as int, end as int);
            assert(whole =~= (seen + seq![range.ch]) + chars_between(
                bytes,
                range.next as int,
                end as int,
            ));
        }
        if !it(range.ch) {
            proof {
                assert(stops_at(*it, seq![range.ch], 0));
                lemma_stops_later(*it, seen, seq![range.ch], 0);
                lemma_stops_within(
                    *it,
                    seen + seq![range.ch],
                    chars_between(bytes, range.next as int, end as int),
                    seen.len() as int,
                );
            }
            return false;
        }
        proof {
            assert(passes(*it, seq![range.ch]));
            lemma_passes_both(*it, seen, seq![range.ch]);
        }
        i = range.next;
    }
    proof {
        assert(bytes.subrange(end as int, end as int) =~= Seq::<u8>::empty());
        assert(whole =~= chars_between(bytes, start as int, end as int) + Seq::<char>::empty());
    }
    true
}

/// Whether `it` answers `true` on a character of `s` between the bytes
/// `start` and `end`; `it` is called on them in order until it does.
pub fn any_between<F: Fn(char) -> bool>(s: &str, start: usize, end: usize, it: &F) -> (r: bool)
    requires
        is_char_range(s.spec_bytes(), start as int, end as int),
        forall|c: char| it.requires((c,)),
    ensures
        r ==> exists|k: int|
            0 <= k < chars_between(s.spec_bytes(), start as int, end as int).len() && it.ensures(
                (chars_between(s.spec_bytes(), start as int, end as int)[k],),
                true,
            ),
        !r ==> forall|k: int|
            0 <= k < chars_between(s.spec_bytes(), start as int, end as int).len() ==> it.ensures(
                (chars_between(s.spec_bytes(), start as int, end as int)[k],),
                false,
            ),
{
    let ghost bytes = s.spec_bytes();
    let ghost whole = chars_between(bytes, start as int, end as int);
    let mut i: usize = start;
    proof {
        encode_utf8_valid_utf8(s@);
        assert(bytes.subrange(start as int, start as int) =~= Seq::<u8>::empty());
        lemma_chars_split(bytes, start as int, start as int, end as int);
    }
    while i < end
        invariant
            bytes == s.spec_bytes(),
            valid_utf8(bytes),
            whole == chars_between(bytes, start as int, end as int),
            is_char_range(bytes, start as int, i as int),
            is_char_range(bytes, i as int, end as int),
            whole == chars_between(bytes, start as int, i as int) + chars_between(
                bytes,
                i as int,
                end as int,
            ),
            forall|c: char| it.requires((c,)),
            forall|k: int|
                0 <= k < chars_between(bytes, start as int, i as int).len() ==> it.ensures(
                    (whole[k],),
                    false,
                ),
        decreases end - i,
    {
        let range = char_range_at(s, i);
        let ghost seen = chars_between(bytes, start as int, i as int);
        proof {
            lemma_next_within(bytes, i as int, end as int);
            lemma_chars_split(bytes, start as int, i as int, range.next as int);
            lemma_chars_split(bytes, i as int, range.next as int, end as int);
            assert(whole =~= (seen + seq![range.ch]) + chars_between(
                bytes,
                range.next as int,
                end as int,
            ));
            assert(whole[seen.len() as int] == range.ch);
        }
        if it(range.ch) {
            return true;
        }
        i = range.next;
    }
    proof {
        assert(bytes.subrange(end as int, end as int) =~= Seq::<u8>::empty());
    }
    false
}

/// Whether `s` has no character.
pub fn is_empty(s: &str) -> (r: bool)
    ensures
        r == (s@.len() == 0),
{
    proof {
        lemma_whole_range(s@);
        lemma_char_count(s.spec_bytes());
    }
    len(s) == 0
}

/// Lists of strings that can be written out as one string.
pub trait StrVector {
    /// The texts of the strings of the list.
    spec fn texts(&self) -> Seq<Seq<char>>;

    /// The strings of the list, one after the other.
    fn concat(&self) -> (r: String)
        ensures
            r@ == flat(self.texts(), 0, self.texts().len() as int),
    ;

    /// The strings of the list, one after the other, with `sep` between
    /// each two.
    fn connect(&self, sep: &str) -> (r: String)
        ensures
            r@ == joined(self.texts(), sep@, self.texts().len() as int),
    ;
}

impl<'a> StrVector for &'a [String] {
    open spec fn texts(&self) -> Seq<Seq<char>> {
        texts_of(self@)
    }

    fn concat(&self) -> (r: String) {
        crate::text::concat(*self)
    }

    fn connect(&self, sep: &str) -> (r: String) {
        crate::text::connect(*self, sep)
    }
}

impl<'a, 'b> StrVector for &'a [&'b str] {
    open spec fn texts(&self) -> Seq<Seq<char>> {
        texts_of_slices(self@)
    }

    fn concat(&self) -> (r: String) {
        concat_slices(*self)
    }

    fn connect(&self, sep: &str) -> (r: String) {
        connect_slices(*self, sep)
    }
}

/// Strings that can grow at their end.
pub trait OwnedStr {
    /// The text of the string.
    spec fn text(&self) -> Seq<char>;

    /// Appends the string slice `v`.
    fn push_str(&mut self, v: &str)
        ensures
            final(self).text() == old(self).text() + v@,
    ;

    /// Appends the character `c`.
    fn push_char(&mut self, c: char)
        ensures
            final(self).text() == old(self).text().push(c),
    ;
}

impl OwnedStr for String {
    open spec fn text(&self) -> Seq<char> {
        self@
    }

    fn push_str(&mut self, v: &str) {
        self.append(v);
    }

    fn push_char(&mut self, c: char) {
        self.push(c);
    }
}

/// What decides, character by character, where a string is split.
pub trait StrCharSplitSeparator {
    /// Whether the string is to be split at the character `c`.
    spec fn splits_at(&self, c: char) -> bool;

    /// Whether the string is to be split at the character `c`.
    fn should_split(&self, c: char) -> (r: bool)
        ensures
            r == self.splits_at(c),
    ;

    /// Whether the string is split at ASCII characters only; if so, the
    /// bytes of the string can be searched without decoding them.
    fn only_ascii(&self) -> (r: bool)
        ensures
            r ==> forall|c: char| self.splits_at(c) ==> (c as u32) < 128,
    ;
}

impl StrCharSplitSeparator for char {
    open spec fn splits_at(&self, c: char) -> bool {
        *self == c
    }

    fn should_split(&self, c: char) -> (r: bool) {
        *self == c
    }

    fn only_ascii(&self) -> (r: bool)
        ensures
            r == ((*self as u32) < 128),
    {
        (*self as u32) < 128
    }
}

} // verus!
