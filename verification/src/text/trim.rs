//! Whitespace, and strings without what stands at their ends.
use vstd::prelude::*;
use vstd::utf8::*;
use vstd::string::StringSliceAdditionalSpecFns;
use crate::text::{char_range_at, len, slice};
use crate::utf8::{
    char_index, chars_between, lemma_char_index_ends, lemma_char_index_start, lemma_char_step,
};

verus! {

/// Whether the character `c` has the Unicode property White_Space, as
/// the standard library's tables have it.
pub uninterp spec fn white_space(c: char) -> bool;

/// `char::is_whitespace` of the standard library: whether the character
/// has the Unicode property White_Space.
pub assume_specification[ std::primitive::char::is_whitespace ](c: char) -> (r: bool)
    ensures
        r == white_space(c),
;

/// Whether all characters of `s` are whitespace.
pub fn is_whitespace(s: &str) -> (r: bool)
    ensures
        r == forall|k: int| 0 <= k < s@.len() ==> white_space(s@[k]),
{
    let n = len(s);
    let mut i: usize = 0;
    proof {
        lemma_char_index_start(s@);
    }
    while i < n
        invariant
            n == s.spec_bytes().len(),
            i <= n,
            vstd::utf8::is_char_boundary(s.spec_bytes(), i as int),
            forall|k: int| 0 <= k < char_index(s@, i as int) ==> white_space(s@[k]),
        decreases n - i,
    {
        proof {
            lemma_char_step(s@, i as int);
        }
        let range = char_range_at(s, i);
        if !range.ch.is_whitespace() {
            return false;
        }
        i = range.next;
    }
    proof {
        lemma_char_index_ends(s@, i as int);
    }
    true
}

/// Whether trimming takes the character `c` away: `c` is one of `chars`,
/// or whitespace is trimmed and `c` is whitespace.
pub open spec fn to_trim(c: char, chars: Seq<char>, white: bool) -> bool {
    chars.contains(c) || (white && white_space(c))
}

/// `s` without the characters to trim at its beginning.
pub open spec fn trimmed_left(s: Seq<char>, chars: Seq<char>, white: bool) -> Seq<char>
    decreases s.len(),
{
    if s.len() > 0 && to_trim(s[0], chars, white) {
        trimmed_left(s.drop_first(), chars, white)
    } else {
        s
    }
}

/// `s` without the characters to trim at its end.
pub open spec fn trimmed_right(s: Seq<char>, chars: Seq<char>, white: bool) -> Seq<char>
    decreases s.len(),
{
    if s.len() > 0 && to_trim(s.last(), chars, white) {
        trimmed_right(s.drop_last(), chars, white)
    } else {
        s
    }
}

/// Whether trimming takes the character `c` away.
fn must_trim(c: char, chars: &[char], white: bool) -> (r: bool)
    ensures
        r == to_trim(c, chars@, white),
{
    let mut k: usize = 0;
    while k < chars.len()
        invariant
            k <= chars@.len(),
            forall|j: int| 0 <= j < k ==> chars@[j] != c,
        decreases chars@.len() - k,
    {
        if chars[k] == c {
            return true;
        }
        k += 1;
    }
    white && c.is_whitespace()
}

/// `s` from its first character on that trimming leaves.
fn trim_left_by<'a>(s: &'a str, chars: &[char], white: bool) -> (r: &'a str)
    ensures
        r@ == trimmed_left(s@, chars@, white),
{
    let n = len(s);
    let mut i: usize = 0;
    proof {
        lemma_char_index_start(s@);
        assert(s@.skip(0) =~= s@);
    }
    while i < n
        invariant
            n == s.spec_bytes().len(),
            i <= n,
            vstd::utf8::is_char_boundary(s.spec_bytes(), i as int),
            vstd::utf8::is_char_boundary(s.spec_bytes(), n as int),
            trimmed_left(s@, chars@, white) == trimmed_left(
                s@.skip(char_index(s@, i as int)),
                chars@,
                white,
            ),
        decreases n - i,
    {
        proof {
            lemma_char_step(s@, i as int);
            lemma_char_index_ends(s@, i as int);
            let k = char_index(s@, i as int);
            assert(s@.skip(k)[0] == s@[k]);
            assert(s@.skip(k).drop_first() =~= s@.skip(k + 1));
        }
        let range = char_range_at(s, i);
        if !must_trim(range.ch, chars, white) {
            return slice(s, i, n);
        }
        i = range.next;
    }
    proof {
        lemma_char_index_ends(s@, i as int);
    }
    slice(s, n, n)
}

/// `s` up to its last character that trimming leaves.
fn trim_right_by<'a>(s: &'a str, chars: &[char], white: bool) -> (r: &'a str)
    ensures
        r@ == trimmed_right(s@, chars@, white),
{
    let n = len(s);
    let mut i: usize = 0;
    let mut end: usize = 0;
    proof {
        lemma_char_index_start(s@);
        lemma_char_index_ends(s@, 0);
    }
    while i < n
        invariant
            n == s.spec_bytes().len(),
            end <= i <= n,
            vstd::utf8::is_char_boundary(s.spec_bytes(), i as int),
            vstd::utf8::is_char_boundary(s.spec_bytes(), end as int),
            chars_between(s.spec_bytes(), 0, end as int) == trimmed_right(
                s@.take(char_index(s@, i as int)),
                chars@,
                white,
            ),
        decreases n - i,
    {
        proof {
            lemma_char_step(s@, i as int);
            let k = char_index(s@, i as int);
            assert(s@.take(k + 1).last() == s@[k]);
            assert(s@.take(k + 1).drop_last() =~= s@.take(k));
        }
        let range = char_range_at(s, i);
        if !must_trim(range.ch, chars, white) {
            end = range.next;
            proof {
                lemma_char_index_ends(s@, end as int);
            }
        }
        i = range.next;
    }
    proof {
        lemma_char_index_ends(s@, i as int);
        assert(s@.take(s@.len() as int) =~= s@);
    }
    slice(s, 0, end)
}

/// `s` without the characters of `chars_to_trim` at its beginning.
pub fn trim_left_chars<'a>(s: &'a str, chars_to_trim: &[char]) -> (r: &'a str)
    ensures
        r@ == trimmed_left(s@, chars_to_trim@, false),
{
    trim_left_by(s, chars_to_trim, false)
}

/// `s` without the characters of `chars_to_trim` at its end.
pub fn trim_right_chars<'a>(s: &'a str, chars_to_trim: &[char]) -> (r: &'a str)
    ensures
        r@ == trimmed_right(s@, chars_to_trim@, false),
{
    trim_right_by(s, chars_to_trim, false)
}

/// `s` without the characters of `chars_to_trim` at its beginning and at
/// its end.
pub fn trim_chars<'a>(s: &'a str, chars_to_trim: &[char]) -> (r: &'a str)
    ensures
        r@ == trimmed_left(
            trimmed_right(s@, chars_to_trim@, false),
            chars_to_trim@,
            false,
        ),
{
    trim_left_chars(trim_right_chars(s, chars_to_trim), chars_to_trim)
}

/// `s` without the whitespace at its beginning.
pub fn trim_left<'a>(s: &'a str) -> (r: &'a str)
    ensures
        r@ == trimmed_left(s@, Seq::<char>::empty(), true),
{
    let none: [char; 0] = [];
    let chars = none.as_slice();
    proof {
        assert(chars@ =~= Seq::<char>::empty());
    }
    trim_left_by(s, chars, true)
}

/// `s` without the whitespace at its end.
pub fn trim_right<'a>(s: &'a str) -> (r: &'a str)
    ensures
        r@ == trimmed_right(s@, Seq::<char>::empty(), true),
{
    let none: [char; 0] = [];
    let chars = none.as_slice();
    proof {
        assert(chars@ =~= Seq::<char>::empty());
    }
    trim_right_by(s, chars, true)
}

/// `s` without the whitespace at its beginning and at its end.
pub fn trim<'a>(s: &'a str) -> (r: &'a str)
    ensures
        r@ == trimmed_left(
            trimmed_right(s@, Seq::<char>::empty(), true),
            Seq::<char>::empty(),
            true,
        ),
{
    trim_left(trim_right(s))
}

} // verus!
