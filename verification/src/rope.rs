//! Ropes: text as a tree of slices of shared, immutable strings.
//!
//! Where a string is one buffer, a rope is a tree whose leaves are slices
//! of strings that are never changed. Joining two ropes, or taking a part
//! of one, builds a few new nodes over the same leaves and copies no
//! text; the ropes that went in stay as they were.
use std::sync::Arc;
use vstd::prelude::*;
use vstd::utf8::*;
use crate::forest::{
    ceil_log2, flat, lemma_carry_last, lemma_flat_frame, lemma_max_of, lemma_merge_pair,
    lemma_pair_bytes, max_of, paired, tournament,
};
use crate::node::{
    as_trees, bounded, chunk_count, contiguous, is_chunking, join_trees, lemma_bounded_halves,
    lemma_within_bounded, within, Leaf, Root, MAX_BALANCED_CHAR_LEN, MAX_NODE_HEIGHT,
};
use crate::order::{lemma_lex_order_equal, lex_order};
use crate::text::{from_char, len, passes, stops_at};
use crate::utf8::{chars_between, is_char_range, lemma_range_bytes, lemma_whole_range};

verus! {

/// The type of ropes.
pub type Rope = Root;

/// The texts of the ropes of a list.
pub open spec fn texts_of(ropes: Seq<Rope>) -> Seq<Seq<char>> {
    Seq::new(ropes.len(), |k: int| ropes[k].text())
}

/// The heights of the ropes of a list.
pub open spec fn heights_of(ropes: Seq<Rope>) -> Seq<nat> {
    Seq::new(ropes.len(), |k: int| ropes[k].spec_height())
}

/// The rope of the text of `left` and then that of `right`: the other one
/// if one is empty, else the two trees under one new node.
pub open spec fn joined(left: Rope, right: Rope) -> Rope {
    match (left, right) {
        (Root::Empty, _) => right,
        (_, Root::Empty) => left,
        (Root::Content(l), Root::Content(r)) => Root::Content(crate::node::joined(l, r)),
    }
}

/// `joined`, as what a tournament of ropes goes by.
pub open spec fn join_ropes() -> spec_fn(Rope, Rope) -> Rope {
    |left: Rope, right: Rope| joined(left, right)
}

/// The rope without text.
pub fn empty() -> (r: Rope)
    ensures
        r is Empty,
        r.wf(),
        r.text() == Seq::<char>::empty(),
{
    Root::Empty
}

/// Adopts a string as a rope. The string is shared, not copied.
pub fn of_str(s: Arc<String>) -> (r: Rope)
    ensures
        r.wf(),
        r.text() == s@,
        r is Empty <==> s@.len() == 0,
        is_chunking(r.leaves(), s, s@.len()),
        s@.len() > 0 ==> contiguous(r.leaves(), 0, encode_utf8(s@).len() as int),
        r.spec_height() == ceil_log2(chunk_count(s@.len())),
        r matches Root::Content(tree) ==> tree == tournament(as_trees(r.leaves()), join_trees()),
        bounded(r.leaves()),
{
    proof {
        lemma_whole_range(s@);
        encode_utf8_decode_utf8(s@);
    }
    let n = len(s.as_str());
    let r = of_substr(s, 0, n);
    proof {
        r.lemma_wf();
        if n == 0 {
            assert(decode_utf8(encode_utf8(s@)).len() == 0);
            assert(ceil_log2(0) == 0);
        }
    }
    r
}

/// Adopts `byte_len` bytes of a string, from byte `byte_offset` on, as a
/// rope. The string is shared, not copied.
pub fn of_substr(s: Arc<String>, byte_offset: usize, byte_len: usize) -> (r: Rope)
    requires
        byte_len == 0 || is_char_range(
            encode_utf8(s@),
            byte_offset as int,
            byte_offset + byte_len,
        ),
    ensures
        r.wf(),
        byte_len == 0 ==> r is Empty,
        byte_len > 0 ==> r.text() == chars_between(
            encode_utf8(s@),
            byte_offset as int,
            byte_offset + byte_len,
        ),
        r.spec_byte_len() == byte_len,
        is_chunking(r.leaves(), s, r.text().len()),
        byte_len > 0 ==> contiguous(r.leaves(), byte_offset as int, byte_offset + byte_len),
        r.spec_height() == ceil_log2(chunk_count(r.text().len())),
        r matches Root::Content(tree) ==> tree == tournament(as_trees(r.leaves()), join_trees()),
        bounded(r.leaves()),
{
    if byte_len == 0 {
        assert(ceil_log2(0) == 0);
        return Root::Empty;
    }
    let r = Root::Content(crate::node::of_substr(s, byte_offset, byte_len));
    proof {
        r.lemma_wf();
        encode_utf8_valid_utf8(s@);
        lemma_range_bytes(encode_utf8(s@), byte_offset as int, byte_offset + byte_len);
    }
    r
}

/// The rope `rope` with the character `c` at its end.
pub fn append_char(rope: &Rope, c: char) -> (r: Rope)
    requires
        rope.wf(),
        rope.spec_byte_len() + encode_utf8(seq![c]).len() <= usize::MAX,
    ensures
        r.wf(),
        r.text() == rope.text().push(c),
        bounded(rope.leaves()) ==> bounded(r.leaves()),
{
    let s = from_char(c);
    proof {
        assert(rope.text() + seq![c] =~= rope.text().push(c));
    }
    append_str(rope, Arc::new(s))
}

/// The rope `rope` with the string `s` at its end.
pub fn append_str(rope: &Rope, s: Arc<String>) -> (r: Rope)
    requires
        rope.wf(),
        rope.spec_byte_len() + encode_utf8(s@).len() <= usize::MAX,
    ensures
        r.wf(),
        r.text() == rope.text() + s@,
        bounded(rope.leaves()) ==> bounded(r.leaves()),
{
    let right = of_str(s);
    proof {
        right.lemma_wf();
    }
    append_rope(rope, &right)
}

/// The rope `rope` with the character `c` at its beginning.
pub fn prepend_char(rope: &Rope, c: char) -> (r: Rope)
    requires
        rope.wf(),
        rope.spec_byte_len() + encode_utf8(seq![c]).len() <= usize::MAX,
    ensures
        r.wf(),
        r.text() == seq![c] + rope.text(),
        bounded(rope.leaves()) ==> bounded(r.leaves()),
{
    prepend_str(rope, Arc::new(from_char(c)))
}

/// The rope `rope` with the string `s` at its beginning.
pub fn prepend_str(rope: &Rope, s: Arc<String>) -> (r: Rope)
    requires
        rope.wf(),
        rope.spec_byte_len() + encode_utf8(s@).len() <= usize::MAX,
    ensures
        r.wf(),
        r.text() == s@ + rope.text(),
        bounded(rope.leaves()) ==> bounded(r.leaves()),
{
    let left = of_str(s);
    proof {
        left.lemma_wf();
    }
    append_rope(&left, rope)
}

/// The rope that holds the text of `left` and then that of `right`.
///
/// Nothing is copied and nothing is balanced: an empty rope gives the
/// other one back, and two ropes with text become the children of one
/// new node.
pub fn append_rope(left: &Rope, right: &Rope) -> (r: Rope)
    requires
        left.wf(),
        right.wf(),
        left.spec_byte_len() + right.spec_byte_len() <= usize::MAX,
    ensures
        r.wf(),
        r == joined(*left, *right),
        r.text() == left.text() + right.text(),
        r.leaves() == left.leaves() + right.leaves(),
        bounded(left.leaves()) && bounded(right.leaves()) ==> bounded(r.leaves()),
        r.spec_char_len() == left.spec_char_len() + right.spec_char_len(),
        r.spec_byte_len() == left.spec_byte_len() + right.spec_byte_len(),
        left is Content && right is Content ==> r.spec_height() == 1 + if left.spec_height()
            >= right.spec_height() {
            left.spec_height()
        } else {
            right.spec_height()
        },
{
    proof {
        lemma_bounded_halves(left.leaves(), right.leaves());
    }
    match left {
        Root::Empty => {
            proof {
                assert(left.text() + right.text() =~= right.text());
                assert(left.leaves() + right.leaves() =~= right.leaves());
            }
            right.clone()
        },
        Root::Content(left_content) => {
            match right {
                Root::Empty => {
                    proof {
                        assert(left.text() + right.text() =~= left.text());
                        assert(left.leaves() + right.leaves() =~= left.leaves());
                    }
                    left.clone()
                },
                Root::Content(right_content) => {
                    proof {
                        left_content.lemma_wf();
                        right_content.lemma_wf();
                    }
                    Root::Content(
                        crate::node::concat2(left_content.clone(), right_content.clone()),
                    )
                },
            }
        },
    }
}

/// The rope that holds the texts of all ropes of `v`, in order.
///
/// The ropes are joined pairwise, round after round: if they are all
/// balanced and of one height, so is the result. Nothing else is done to
/// balance it.
#[verifier::rlimit(50)]
pub fn concat(v: &[Rope]) -> (r: Rope)
    requires
        forall|k: int| 0 <= k < v@.len() ==> (#[trigger] v@[k]).wf(),
        encode_utf8(flat(texts_of(v@), 0, v@.len() as int)).len() <= usize::MAX,
    ensures
        r.wf(),
        r == if v@.len() == 0 {
            Root::Empty
        } else {
            tournament(v@, join_ropes())
        },
        r.text() == flat(texts_of(v@), 0, v@.len() as int),
        r.spec_height() <= max_of(heights_of(v@)) + ceil_log2(v@.len()),
        (forall|k: int| 0 <= k < v@.len() ==> bounded((#[trigger] v@[k]).leaves())) ==> bounded(
            r.leaves(),
        ),
{
    // Copy `v` into a vector that can be rewritten.
    let mut len: usize = v.len();
    if len == 0 {
        return Root::Empty;
    }
    let ghost whole = flat(texts_of(v@), 0, v@.len() as int);
    let ghost base = max_of(heights_of(v@));
    let ghost count = v@.len();
    let ghost healthy = forall|k: int| 0 <= k < v@.len() ==> bounded((#[trigger] v@[k]).leaves());
    let ghost mut rounds: nat = 0;
    proof {
        lemma_max_of(heights_of(v@), 0);
        assert forall|k: int| 0 <= k < v@.len() implies (#[trigger] v@[k]).spec_height()
            <= base by {
            assert(heights_of(v@)[k] == v@[k].spec_height());
        }
    }
    let mut ropes: Vec<Rope> = Vec::with_capacity(len);
    let mut i: usize = 0;
    while i < len
        invariant
            len == v@.len(),
            i <= len,
            ropes@.len() == i,
            forall|k: int| 0 <= k < i ==> ropes@[k] == v@[k],
            forall|k: int| 0 <= k < v@.len() ==> (#[trigger] v@[k]).spec_height() <= base,
        decreases len - i,
    {
        ropes.push(v[i].clone());
        i += 1;
    }
    proof {
        lemma_flat_frame(texts_of(v@), texts_of(ropes@), 0, len as int);
        assert(ropes@.take(len as int) =~= v@);
    }
    // Merge progressively.
    while len > 1
        invariant
            1 <= len <= ropes@.len(),
            forall|k: int| 0 <= k < len ==> (#[trigger] ropes@[k]).wf(),
            forall|k: int| 0 <= k < len ==> (#[trigger] ropes@[k]).spec_height() <= base + rounds,
            healthy ==> forall|k: int| 0 <= k < len ==> bounded((#[trigger] ropes@[k]).leaves()),
            flat(texts_of(ropes@), 0, len as int) == whole,
            encode_utf8(whole).len() <= usize::MAX,
            rounds + ceil_log2(len as nat) == ceil_log2(count),
            tournament(ropes@.take(len as int), join_ropes()) == tournament(v@, join_ropes()),
        decreases len,
    {
        let ghost round = ropes@.take(len as int);
        i = 0;
        proof {
            assert(flat(texts_of(ropes@), 0, 0) + flat(texts_of(ropes@), 0, len as int)
                =~= whole);
        }
        while i + 1 < len
            invariant
                2 <= len <= ropes@.len(),
                i % 2 == 0,
                i <= len,
                forall|k: int| 0 <= k < i / 2 ==> (#[trigger] ropes@[k]).wf(),
                forall|k: int| i <= k < len ==> (#[trigger] ropes@[k]).wf(),
                forall|k: int|
                    0 <= k < i / 2 ==> (#[trigger] ropes@[k]).spec_height() <= base + rounds + 1,
                forall|k: int|
                    i <= k < len ==> (#[trigger] ropes@[k]).spec_height() <= base + rounds,
                healthy ==> forall|k: int|
                    0 <= k < i / 2 ==> bounded((#[trigger] ropes@[k]).leaves()),
                healthy ==> forall|k: int|
                    i <= k < len ==> bounded((#[trigger] ropes@[k]).leaves()),
                flat(texts_of(ropes@), 0, i as int / 2) + flat(
                    texts_of(ropes@),
                    i as int,
                    len as int,
                ) == whole,
                encode_utf8(whole).len() <= usize::MAX,
                round.len() == len,
                forall|k: int|
                    0 <= k < i / 2 ==> (#[trigger] ropes@[k]) == paired(round, join_ropes())[k],
                forall|k: int| i <= k < len ==> (#[trigger] ropes@[k]) == round[k],
            decreases len - i,
        {
            let ghost before = ropes@;
            proof {
                assert(before[i as int].wf() && before[i + 1].wf());
                before[i as int].lemma_wf();
                before[i + 1].lemma_wf();
                lemma_pair_bytes(texts_of(before), i as int / 2, i as int, len as int);
                lemma_merge_pair(texts_of(before), i as int / 2, i as int, len as int);
            }
            let joined = append_rope(&ropes[i], &ropes[i + 1]);
            ropes.set(i / 2, joined);
            proof {
                assert(texts_of(ropes@) =~= texts_of(before).update(
                    i as int / 2,
                    texts_of(before)[i as int] + texts_of(before)[i + 1],
                ));
            }
            i += 2;
        }
        if i + 1 == len {
            let last = ropes[i].clone();
            let ghost before = ropes@;
            proof {
                lemma_carry_last(texts_of(before), i as int / 2, len as int);
            }
            ropes.set(i / 2, last);
            proof {
                assert(texts_of(ropes@) =~= texts_of(before).update(
                    i as int / 2,
                    texts_of(before)[len - 1],
                ));
            }
        } else {
            proof {
                assert(flat(texts_of(ropes@), i as int, len as int) =~= Seq::<char>::empty());
                assert(flat(texts_of(ropes@), 0, i as int / 2) =~= whole);
            }
        }
        len = len / 2 + len % 2;
        proof {
            rounds = rounds + 1;
            assert(ropes@.take(len as int) =~= paired(round, join_ropes()));
        }
    }
    // Return the final rope.
    let r = ropes[0].clone();
    proof {
        assert(ropes@.take(1)[0] == ropes@[0]);
        assert(flat(texts_of(ropes@), 0, 0) =~= Seq::<char>::empty());
        assert(flat(texts_of(ropes@), 0, 1) =~= ropes@[0].text());
    }
    r
}

/// A rope with the text of `rope`, balanced if `rope` has reached
/// `MAX_NODE_HEIGHT`, and `rope` itself otherwise.
pub fn bal(rope: &Rope) -> (r: Rope)
    requires
        rope.wf(),
    ensures
        r.wf(),
        r.text() == rope.text(),
        rope.spec_height() < MAX_NODE_HEIGHT ==> r == *rope,
        bounded(rope.leaves()) ==> bounded(r.leaves()),
        bounded(rope.leaves()) || rope.spec_char_len() <= MAX_BALANCED_CHAR_LEN
            ==> r.spec_height() <= rope.spec_height(),
        rope.spec_height() >= MAX_NODE_HEIGHT && (bounded(rope.leaves()) || rope.spec_char_len()
            <= MAX_BALANCED_CHAR_LEN) ==> r.spec_height() <= ceil_log2(rope.leaves().len()),
{
    match rope {
        Root::Empty => rope.clone(),
        Root::Content(x) => {
            match crate::node::bal(x) {
                None => rope.clone(),
                Some(y) => Root::Content(y),
            }
        },
    }
}

/// The part of `rope` that holds `char_len` characters from character
/// `char_offset` on. No text is copied.
pub fn sub_chars(rope: &Rope, char_offset: usize, char_len: usize) -> (r: Rope)
    requires
        rope.wf(),
        char_len == 0 || char_offset + char_len <= rope.spec_char_len(),
    ensures
        r.wf(),
        char_len == 0 ==> r is Empty,
        char_len > 0 ==> r.text() == rope.text().subrange(
            char_offset as int,
            char_offset + char_len,
        ),
        r.spec_char_len() == char_len,
        r.spec_height() <= rope.spec_height(),
        within(r.leaves(), rope.leaves()),
        bounded(rope.leaves()) ==> bounded(r.leaves()),
        char_offset == 0 && char_len == rope.spec_char_len() ==> r == *rope,
{
    if char_len == 0 {
        proof {
            if rope.wf() {
                rope.lemma_wf();
            }
        }
        return Root::Empty;
    }
    match rope {
        Root::Empty => vstd::pervasive::unreached(),
        Root::Content(node) => {
            let part = crate::node::sub_chars(node, char_offset, char_len);
            proof {
                if bounded(node.leaves()) {
                    lemma_within_bounded(part.leaves(), node.leaves());
                }
            }
            Root::Content(part)
        },
    }
}

/// The part of `rope` that holds `byte_len` bytes from byte `byte_offset`
/// on. No text is copied.
pub fn sub_bytes(rope: &Rope, byte_offset: usize, byte_len: usize) -> (r: Rope)
    requires
        rope.wf(),
        byte_len == 0 || is_char_range(
            encode_utf8(rope.text()),
            byte_offset as int,
            byte_offset + byte_len,
        ),
    ensures
        r.wf(),
        byte_len == 0 ==> r is Empty,
        byte_len > 0 ==> r.text() == chars_between(
            encode_utf8(rope.text()),
            byte_offset as int,
            byte_offset + byte_len,
        ),
        r.spec_byte_len() == byte_len,
        r.spec_height() <= rope.spec_height(),
        within(r.leaves(), rope.leaves()),
        bounded(rope.leaves()) ==> bounded(r.leaves()),
        byte_offset == 0 && byte_len == rope.spec_byte_len() ==> r == *rope,
{
    if byte_len == 0 {
        proof {
            if rope.wf() {
                rope.lemma_wf();
            }
        }
        return Root::Empty;
    }
    match rope {
        Root::Empty => vstd::pervasive::unreached(),
        Root::Content(node) => {
            let part = crate::node::sub_bytes(node, byte_offset, byte_len);
            proof {
                if bounded(node.leaves()) {
                    lemma_within_bounded(part.leaves(), node.leaves());
                }
            }
            Root::Content(part)
        },
    }
}

/// Compares two ropes by code point: `-1`, `0` or `1` as the text of
/// `left` comes before, is equal to, or comes after that of `right`.
///
/// Only the texts count, not the shapes of the trees nor the buffers.
pub fn cmp(left: &Rope, right: &Rope) -> (r: isize)
    requires
        left.wf(),
        right.wf(),
    ensures
        r == lex_order(left.text(), right.text()),
        r == 0 <==> left.text() == right.text(),
{
    proof {
        left.lemma_wf();
        right.lemma_wf();
        lemma_lex_order_equal(left.text(), right.text());
    }
    match (left, right) {
        (Root::Empty, Root::Empty) => 0,
        (Root::Empty, _) => -1,
        (_, Root::Empty) => 1,
        (Root::Content(a), Root::Content(b)) => crate::node::cmp(a, b),
    }
}

/// Whether the two ropes have the same text.
pub fn eq(left: &Rope, right: &Rope) -> (r: bool)
    requires
        left.wf(),
        right.wf(),
    ensures
        r == (left.text() == right.text()),
{
    cmp(left, right) == 0
}

/// Whether the text of `left` is that of `right` or comes before it.
pub fn le(left: &Rope, right: &Rope) -> (r: bool)
    requires
        left.wf(),
        right.wf(),
    ensures
        r == (lex_order(left.text(), right.text()) <= 0),
{
    cmp(left, right) <= 0
}

/// Whether the text of `left` comes before that of `right`.
pub fn lt(left: &Rope, right: &Rope) -> (r: bool)
    requires
        left.wf(),
        right.wf(),
    ensures
        r == (lex_order(left.text(), right.text()) < 0),
{
    cmp(left, right) < 0
}

/// Whether the text of `left` is that of `right` or comes after it.
pub fn ge(left: &Rope, right: &Rope) -> (r: bool)
    requires
        left.wf(),
        right.wf(),
    ensures
        r == (lex_order(left.text(), right.text()) >= 0),
{
    cmp(left, right) >= 0
}

/// Whether the text of `left` comes after that of `right`.
pub fn gt(left: &Rope, right: &Rope) -> (r: bool)
    requires
        left.wf(),
        right.wf(),
    ensures
        r == (lex_order(left.text(), right.text()) > 0),
{
    cmp(left, right) > 0
}

/// Calls `it` on the characters of the rope, in order, until `it` answers
/// `false`; the result is `false` if it did, else `true`.
pub fn loop_chars<F: Fn(char) -> bool>(rope: &Rope, it: F) -> (r: bool)
    requires
        rope.wf(),
        forall|c: char| it.requires((c,)),
    ensures
        r ==> passes(it, rope.text()),
        !r ==> exists|k: int| stops_at(it, rope.text(), k),
{
    match rope {
        Root::Empty => true,
        Root::Content(x) => {
            let r = crate::node::loop_chars(x, it);
            assert(x.text() == rope.text());
            r
        },
    }
}

/// Calls `it` on every character of the rope, in order.
pub fn iter_chars<F: Fn(char)>(rope: &Rope, it: F)
    requires
        rope.wf(),
        forall|c: char| it.requires((c,)),
    ensures
        forall|k: int| 0 <= k < rope.text().len() ==> it.ensures((rope.text()[k],), ()),
{
    let mut chars = crate::iterator::character::start(rope);
    let ghost text = rope.text();
    let ghost mut done: int = 0;
    loop
        invariant
            chars.wf(),
            text == rope.text(),
            0 <= done <= text.len(),
            chars.remaining() == text.subrange(done, text.len() as int),
            forall|c: char| it.requires((c,)),
            forall|j: int| 0 <= j < done ==> it.ensures((text[j],), ()),
        decreases text.len() - done,
    {
        match crate::iterator::character::next(&mut chars) {
            None => {
                return ;
            },
            Some(c) => {
                proof {
                    assert(c == text[done]);
                    assert(chars.remaining() =~= text.subrange(done + 1, text.len() as int));
                }
                it(c);
                proof {
                    done = done + 1;
                }
            },
        }
    }
}

/// Calls `it` on the leaves of the rope, from left to right, until `it`
/// answers `false`; the result is `false` if it did, else `true`.
pub fn loop_leaves<F: Fn(Leaf) -> bool>(rope: &Rope, it: F) -> (r: bool)
    requires
        rope.wf(),
        forall|l: Leaf| l.wf() ==> it.requires((l,)),
    ensures
        r ==> passes(it, rope.leaves()),
        !r ==> exists|k: int| stops_at(it, rope.leaves(), k),
{
    match rope {
        Root::Empty => true,
        Root::Content(x) => {
            let r = crate::node::loop_leaves(x, it);
            assert(x.leaves() == rope.leaves());
            r
        },
    }
}

/// The text of the rope, copied into one new string.
pub fn to_string(rope: &Rope) -> (r: String)
    requires
        rope.wf(),
    ensures
        r@ == rope.text(),
{
    match rope {
        Root::Empty => String::new(),
        Root::Content(x) => crate::node::serialize_node(x),
    }
}

/// The height of the rope: the longest way from its root to a leaf.
pub fn height(rope: &Rope) -> (h: usize)
    ensures
        h == rope.spec_height(),
{
    match rope {
        Root::Empty => 0,
        Root::Content(x) => crate::node::height(x),
    }
}

/// The number of characters of the rope.
pub fn char_len(rope: &Rope) -> (n: usize)
    ensures
        n == rope.spec_char_len(),
        rope.wf() ==> n == rope.text().len(),
{
    proof {
        if rope.wf() {
            rope.lemma_wf();
        }
    }
    match rope {
        Root::Empty => 0,
        Root::Content(x) => crate::node::char_len(x),
    }
}

/// The number of bytes of the rope.
pub fn byte_len(rope: &Rope) -> (n: usize)
    ensures
        n == rope.spec_byte_len(),
        rope.wf() ==> n == encode_utf8(rope.text()).len(),
{
    proof {
        if rope.wf() {
            rope.lemma_wf();
        }
    }
    match rope {
        Root::Empty => 0,
        Root::Content(x) => crate::node::byte_len(x),
    }
}

/// The character at position `pos` of the rope.
pub fn char_at(rope: &Rope, pos: usize) -> (c: char)
    requires
        rope.wf(),
        pos < rope.spec_char_len(),
    ensures
        c == rope.text()[pos as int],
{
    match rope {
        Root::Empty => vstd::pervasive::unreached(),
        Root::Content(x) => crate::node::char_at(x, pos),
    }
}

} // verus!
