//! What holds of the operations on ropes, and on strings, taken together.
//!
//! Each law is stated of the results that the operations may return, as
//! their contracts describe them, and proved from these contracts alone.
use std::sync::Arc;
use vstd::prelude::*;
use vstd::utf8::encode_utf8;
use crate::node::char_iterator::CharIterator;
use crate::node::{bounded, MAX_BALANCED_CHAR_LEN};
use crate::order::{
    decides_less, lemma_lex_order_antisymmetric, lemma_lex_order_less, lemma_lex_order_transitive,
};
use crate::text::encoding::lemma_utf16_round_trip;
use crate::text::{from_utf16, to_utf16};
use crate::rope::{append_rope, bal, byte_len, char_len, cmp, of_str, sub_chars, to_string, Rope};

verus! {

/// Adopting a string and writing the rope out again gives the string back.
pub proof fn law_round_trip(s: Arc<String>, rope: Rope, out: String)
    requires
        call_ensures(of_str, (s,), rope),
        call_ensures(to_string, (&rope,), out),
    ensures
        out@ == s@,
{
}

/// The character length of a rope is the number of characters that a
/// traversal of the rope yields, and its byte length the number of bytes
/// that these characters take.
pub proof fn law_lengths(rope: Rope, chars: usize, bytes: usize, it: CharIterator)
    requires
        rope.wf(),
        call_ensures(char_len, (&rope,), chars),
        call_ensures(byte_len, (&rope,), bytes),
        call_ensures(crate::iterator::character::start, (&rope,), it),
    ensures
        chars == it.remaining().len(),
        bytes == encode_utf8(it.remaining()).len(),
{
}

/// However three ropes are joined, first the left two or first the right
/// two, the text is the same.
pub proof fn law_append_associative(
    a: Rope,
    b: Rope,
    c: Rope,
    ab: Rope,
    ab_c: Rope,
    bc: Rope,
    a_bc: Rope,
)
    requires
        call_ensures(append_rope, (&a, &b), ab),
        call_ensures(append_rope, (&ab, &c), ab_c),
        call_ensures(append_rope, (&b, &c), bc),
        call_ensures(append_rope, (&a, &bc), a_bc),
    ensures
        ab_c.text() == a_bc.text(),
{
    assert((a.text() + b.text()) + c.text() =~= a.text() + (b.text() + c.text()));
}

/// The part of a rope between two positions has the characters of the
/// rope between these positions.
pub proof fn law_sub_chars(rope: Rope, char_offset: usize, char_len: usize, part: Rope)
    requires
        rope.wf(),
        char_offset + char_len <= rope.text().len(),
        call_ensures(sub_chars, (&rope, char_offset, char_len), part),
    ensures
        part.text() == rope.text().subrange(char_offset as int, char_offset + char_len),
{
    if char_len == 0 {
        assert(part.text() =~= rope.text().subrange(char_offset as int, char_offset as int));
    }
}

/// Balancing keeps the text.
pub proof fn law_balance_text(rope: Rope, balanced: Rope)
    requires
        rope.wf(),
        call_ensures(bal, (&rope,), balanced),
    ensures
        balanced.wf(),
        balanced.text() == rope.text(),
{
}

/// Balancing does not make a rope higher, if none of its leaves has more
/// than `MAX_LEAF_CHAR_LEN` characters or if it has no more than
/// `MAX_BALANCED_CHAR_LEN` characters in all.
pub proof fn law_balance_height(rope: Rope, balanced: Rope)
    requires
        rope.wf(),
        bounded(rope.leaves()) || rope.text().len() <= MAX_BALANCED_CHAR_LEN,
        call_ensures(bal, (&rope,), balanced),
    ensures
        balanced.spec_height() <= rope.spec_height(),
{
    rope.lemma_wf();
}

/// Two ropes compare as equal exactly when they have the same text.
pub proof fn law_order_equal(a: Rope, b: Rope, r: isize)
    requires
        a.wf(),
        b.wf(),
        call_ensures(cmp, (&a, &b), r),
    ensures
        r == 0 <==> a.text() == b.text(),
{
}

/// Comparing two ropes the other way round gives the opposite answer.
pub proof fn law_order_antisymmetric(a: Rope, b: Rope, ab: isize, ba: isize)
    requires
        a.wf(),
        b.wf(),
        call_ensures(cmp, (&a, &b), ab),
        call_ensures(cmp, (&b, &a), ba),
    ensures
        ab == -ba,
        ab == -1 || ab == 0 || ab == 1,
{
    lemma_lex_order_antisymmetric(a.text(), b.text());
    crate::order::lemma_lex_order_range(a.text(), b.text());
}

/// If `a` is not after `b` and `b` not after `c`, then `a` is not after
/// `c`; and `a` is before `c` if one of the two is strict.
pub proof fn law_order_transitive(a: Rope, b: Rope, c: Rope, ab: isize, bc: isize, ac: isize)
    requires
        a.wf(),
        b.wf(),
        c.wf(),
        call_ensures(cmp, (&a, &b), ab),
        call_ensures(cmp, (&b, &c), bc),
        call_ensures(cmp, (&a, &c), ac),
        ab <= 0,
        bc <= 0,
    ensures
        ac <= 0,
        ab < 0 || bc < 0 ==> ac < 0,
{
    lemma_lex_order_transitive(a.text(), b.text(), c.text());
}

/// The order is the lexicographic one by code point: `a` is before `b`
/// exactly when, after a common beginning, either `a` ends and `b` goes
/// on, or `a` has the smaller character.
pub proof fn law_order_lexicographic(a: Rope, b: Rope, r: isize)
    requires
        a.wf(),
        b.wf(),
        call_ensures(cmp, (&a, &b), r),
    ensures
        r < 0 <==> exists|i: int| decides_less(a.text(), b.text(), i),
{
    lemma_lex_order_less(a.text(), b.text());
}

/// The UTF-16 units of a string without a zero character may be given
/// to `from_utf16`, which gives the string back.
pub proof fn law_utf16_round_trip(s: &str, units: Vec<u16>, given: &[u16], back: String)
    requires
        forall|k: int| 0 <= k < s@.len() ==> #[trigger] s@[k] != '\0',
        call_ensures(to_utf16, (s,), units),
        given@ == units@,
        call_ensures(from_utf16, (given,), back),
    ensures
        call_requires(from_utf16, (given,)),
        back@ == s@,
{
    lemma_utf16_round_trip(s@);
}

/// Two ropes are in the order in which their texts, written out as
/// strings, are byte by byte.
pub proof fn law_order_of_strings(
    a: Rope,
    b: Rope,
    a_out: &str,
    b_out: &str,
    ropes_before: bool,
    strings_before: bool,
)
    requires
        a.wf(),
        b.wf(),
        a_out@ == a.text(),
        b_out@ == b.text(),
        call_ensures(crate::rope::lt, (&a, &b), ropes_before),
        call_ensures(crate::text::lt, (a_out, b_out), strings_before),
    ensures
        ropes_before == strings_before,
{
}

} // verus!
