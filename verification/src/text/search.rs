//! Looking for characters and strings in a string.
use vstd::prelude::*;
use vstd::utf8::*;
use vstd::string::StringSliceAdditionalSpecFns;
use crate::text::{char_range_at, len};
use crate::utf8::{
    char_index, lemma_char_count, lemma_char_index_ends, lemma_char_index_start, lemma_char_step,
    lemma_occurs_in_bytes, lemma_occurs_in_chars, lemma_whole_range, occurs_at,
};

verus! {

/// Whether `haystack` holds the character `needle`.
pub fn contains_char(haystack: &str, needle: char) -> (r: bool)
    ensures
        r == haystack@.contains(needle),
{
    let n = len(haystack);
    let mut i: usize = 0;
    proof {
        lemma_char_index_start(haystack@);
    }
    while i < n
        invariant
            n == haystack.spec_bytes().len(),
            i <= n,
            vstd::utf8::is_char_boundary(haystack.spec_bytes(), i as int),
            forall|k: int| 0 <= k < char_index(haystack@, i as int) ==> haystack@[k] != needle,
        decreases n - i,
    {
        proof {
            lemma_char_step(haystack@, i as int);
        }
        let range = char_range_at(haystack, i);
        if range.ch == needle {
            return true;
        }
        i = range.next;
    }
    proof {
        lemma_char_index_ends(haystack@, i as int);
    }
    false
}

/// Whether the bytes of `needle` stand in `haystack` from byte `at` on.
pub fn match_at(haystack: &str, needle: &str, at: usize) -> (r: bool)
    requires
        at + needle.spec_bytes().len() <= haystack.spec_bytes().len(),
    ensures
        r == occurs_at(haystack.spec_bytes(), needle.spec_bytes(), at as int),
{
    let hay = haystack.as_bytes();
    let small = needle.as_bytes();
    let mut i: usize = at;
    let mut k: usize = 0;
    while k < small.len()
        invariant
            hay@ == haystack.spec_bytes(),
            small@ == needle.spec_bytes(),
            at + small@.len() <= hay@.len(),
            k <= small@.len(),
            i == at + k,
            forall|j: int| 0 <= j < k ==> hay@[at + j] == small@[j],
        decreases small@.len() - k,
    {
        if hay[i] != small[k] {
            proof {
                assert(hay@.subrange(at as int, at + small@.len())[k as int] == hay@[at + k]);
            }
            return false;
        }
        i += 1;
        k += 1;
    }
    proof {
        assert(hay@.subrange(at as int, at + small@.len()) =~= small@);
    }
    true
}

/// The byte index of the first place between the bytes `start` and `end`
/// of `haystack` at which `needle` stands, if there is one.
pub fn find_str_between(haystack: &str, needle: &str, start: usize, end: usize) -> (r: Option<
    usize,
>)
    requires
        start <= end <= haystack.spec_bytes().len(),
    ensures
        match r {
            Some(at) => {
                &&& start <= at
                &&& at + needle.spec_bytes().len() <= end || needle.spec_bytes().len() == 0
                &&& occurs_at(haystack.spec_bytes(), needle.spec_bytes(), at as int)
                &&& forall|j: int|
                    start <= j < at ==> !occurs_at(haystack.spec_bytes(), needle.spec_bytes(), j)
            },
            None => forall|j: int|
                start <= j && j + needle.spec_bytes().len() <= end ==> !occurs_at(
                    haystack.spec_bytes(),
                    needle.spec_bytes(),
                    j,
                ),
        },
{
    let needle_len = len(needle);
    if needle_len == 0 {
        proof {
            assert(haystack.spec_bytes().subrange(start as int, start as int)
                =~= needle.spec_bytes());
        }
        return Some(start);
    }
    if needle_len > end {
        return None;
    }
    let mut i: usize = start;
    let e: usize = end - needle_len;
    while i <= e
        invariant
            needle_len == needle.spec_bytes().len(),
            needle_len > 0,
            e == end - needle_len,
            start <= i,
            start <= end <= haystack.spec_bytes().len(),
            forall|j: int|
                start <= j < i ==> !occurs_at(haystack.spec_bytes(), needle.spec_bytes(), j),
        decreases e + 1 - i,
    {
        if match_at(haystack, needle, i) {
            return Some(i);
        }
        i += 1;
    }
    None
}

/// The byte index of the first place of `haystack` at which `needle`
/// stands, if there is one.
pub fn find_str(haystack: &str, needle: &str) -> (r: Option<usize>)
    ensures
        match r {
            Some(at) => {
                &&& occurs_at(haystack.spec_bytes(), needle.spec_bytes(), at as int)
                &&& forall|j: int|
                    0 <= j < at ==> !occurs_at(haystack.spec_bytes(), needle.spec_bytes(), j)
            },
            None => forall|j: int| !occurs_at(haystack.spec_bytes(), needle.spec_bytes(), j),
        },
{
    find_str_between(haystack, needle, 0, len(haystack))
}

/// Whether `needle` stands somewhere in `haystack`.
pub fn contains(haystack: &str, needle: &str) -> (r: bool)
    ensures
        r == exists|i: int| occurs_at(haystack@, needle@, i),
{
    let found = find_str(haystack, needle);
    proof {
        match found {
            Some(at) => {
                if needle@.len() == 0 {
                    assert(haystack@.subrange(0, 0) =~= needle@);
                    assert(occurs_at(haystack@, needle@, 0));
                } else {
                    lemma_occurs_in_bytes(haystack@, needle@, at as int);
                }
            },
            None => {
                assert forall|i: int| !occurs_at(haystack@, needle@, i) by {
                    if occurs_at(haystack@, needle@, i) {
                        lemma_occurs_in_chars(haystack@, needle@, i);
                        let at = encode_utf8(haystack@.take(i)).len() as int;
                        assert(occurs_at(haystack.spec_bytes(), needle.spec_bytes(), at));
                        assert(false);
                    }
                }
            },
        }
    }
    found.is_some()
}

/// Whether `haystack` begins with `needle`.
pub fn starts_with(haystack: &str, needle: &str) -> (r: bool)
    ensures
        r == occurs_at(haystack@, needle@, 0),
{
    let haystack_len = len(haystack);
    let needle_len = len(needle);
    proof {
        lemma_whole_range(needle@);
        lemma_char_count(needle.spec_bytes());
        if occurs_at(haystack@, needle@, 0) {
            lemma_occurs_in_chars(haystack@, needle@, 0);
        }
    }
    if needle_len == 0 {
        proof {
            assert(haystack@.subrange(0, 0) =~= needle@);
        }
        true
    } else if needle_len > haystack_len {
        false
    } else {
        let r = match_at(haystack, needle, 0);
        proof {
            if r {
                lemma_occurs_in_bytes(haystack@, needle@, 0);
            }
        }
        r
    }
}

/// Whether `haystack` ends with `needle`.
pub fn ends_with(haystack: &str, needle: &str) -> (r: bool)
    ensures
        r == occurs_at(haystack@, needle@, haystack@.len() - needle@.len()),
{
    let haystack_len = len(haystack);
    let needle_len = len(needle);
    proof {
        lemma_whole_range(needle@);
        lemma_char_count(needle.spec_bytes());
        if occurs_at(haystack@, needle@, haystack@.len() - needle@.len()) {
            lemma_occurs_in_chars(haystack@, needle@, haystack@.len() - needle@.len());
        }
    }
    if needle_len == 0 {
        proof {
            assert(haystack@.subrange(haystack@.len() as int, haystack@.len() as int)
                =~= needle@);
        }
        true
    } else if needle_len > haystack_len {
        false
    } else {
        let r = match_at(haystack, needle, haystack_len - needle_len);
        proof {
            if r {
                lemma_occurs_in_bytes(haystack@, needle@, haystack_len - needle_len);
            }
        }
        r
    }
}

} // verus!
