//! Walks through a tree: to one character, through all of them, through
//! the leaves, and through two trees in step.
use std::sync::Arc;
use vstd::prelude::*;
use vstd::utf8::*;
use crate::node::{char_len, text_of_leaves, Leaf, Node};
use crate::order::{lemma_lex_order_equal, lex_order};
use crate::text::{
    all_between, count_bytes, lemma_passes_both, lemma_stops_later, lemma_stops_within, len, passes,
    stops_at,
};
use crate::utf8::{chars_between, lemma_chars_split};

verus! {

/// The character at position `pos` of the text of `node`.
pub fn char_at(node: &Arc<Node>, pos: usize) -> (c: char)
    requires
        node.wf(),
        pos < node.spec_char_len(),
    ensures
        c == node.text()[pos as int],
{
    let mut current: &Arc<Node> = node;
    let mut index: usize = pos;
    proof {
        node.lemma_wf();
    }
    let ghost target = current.text()[index as int];
    loop
        invariant
            target == node.text()[pos as int],
            current.wf(),
            index < current.spec_char_len(),
            current.text()[index as int] == target,
        decreases current.spec_height(),
    {
        proof {
            current.lemma_wf();
        }
        match &**current {
            Node::Leaf(x) => {
                let ghost buffer = x.buffer();
                let ghost begin = x.byte_offset as int;
                let ghost end = x.byte_offset + x.byte_len;
                let total = len(x.content.as_str());
                proof {
                    encode_utf8_valid_utf8(x.content@);
                    is_char_boundary_start_end_of_seq(buffer);
                    lemma_chars_split(buffer, begin, end, total as int);
                }
                let skipped = count_bytes(x.content.as_str(), x.byte_offset, index);
                let start = x.byte_offset + skipped;
                proof {
                    lemma_chars_split(buffer, begin, start as int, total as int);
                    if start == total {
                        assert(buffer.subrange(start as int, start as int) =~= Seq::<u8>::empty());
                    }
                }
                let range = crate::text::char_range_at(x.content.as_str(), start);
                proof {
                    lemma_chars_split(buffer, start as int, range.next as int, total as int);
                    let from_begin = chars_between(buffer, begin, total as int);
                    let from_start = chars_between(buffer, start as int, total as int);
                    assert(from_begin.take(index as int).len() == index);
                    assert(from_begin[index as int] == from_start[0]);
                    assert(from_start[0] == range.ch);
                    assert(from_begin[index as int] == x.text()[index as int]);
                }
                return range.ch;
            },
            Node::Concat(x) => {
                proof {
                    x.left.lemma_wf();
                    x.right.lemma_wf();
                }
                let left_len = char_len(&x.left);
                if left_len > index {
                    current = &x.left;
                } else {
                    index -= left_len;
                    current = &x.right;
                }
            },
        }
    }
}

/// Compares the texts of two trees by code point: `-1`, `0` or `1` as
/// the text of `a` comes before, is equal to, or comes after that of `b`.
///
/// The two texts are walked in step; how they are cut into leaves, and in
/// which buffers these lie, does not matter.
pub fn cmp(a: &Arc<Node>, b: &Arc<Node>) -> (result: isize)
    requires
        a.wf(),
        b.wf(),
    ensures
        result == lex_order(a.text(), b.text()),
        result == 0 <==> a.text() == b.text(),
{
    let mut ita = crate::node::char_iterator::start(a);
    let mut itb = crate::node::char_iterator::start(b);
    let mut result: isize = 0;
    proof {
        lemma_lex_order_equal(a.text(), b.text());
    }
    while result == 0
        invariant
            ita.wf(),
            itb.wf(),
            result == 0 ==> lex_order(ita.remaining(), itb.remaining()) == lex_order(
                a.text(),
                b.text(),
            ),
            result != 0 ==> result == lex_order(a.text(), b.text()),
        decreases
                (if result == 0 {
                    ita.remaining().len() + 1
                } else {
                    0
                }),
    {
        let next_a = crate::node::char_iterator::next(&mut ita);
        let next_b = crate::node::char_iterator::next(&mut itb);
        match (next_a, next_b) {
            (None, None) => {
                proof {
                    lemma_lex_order_equal(a.text(), b.text());
                }
                return 0;
            },
            (Some(chara), Some(charb)) => {
                if chara < charb {
                    result = -1;
                } else if chara > charb {
                    result = 1;
                }
            },
            (Some(_), None) => {
                result = 1;
            },
            (None, Some(_)) => {
                result = -1;
            },
        }
    }
    proof {
        lemma_lex_order_equal(a.text(), b.text());
    }
    result
}

/// Calls `it` on the characters of the text of `node`, in order, until
/// `it` answers `false`; the result is `false` if it did, else `true`.
///
/// The text is walked leaf by leaf, and each leaf in its buffer.
pub fn loop_chars<F: Fn(char) -> bool>(node: &Arc<Node>, it: F) -> (r: bool)
    requires
        node.wf(),
        forall|c: char| it.requires((c,)),
    ensures
        r ==> passes(it, node.text()),
        !r ==> exists|k: int| stops_at(it, node.text(), k),
{
    let mut leaves = crate::node::leaf_iterator::start(node);
    let ghost text = node.text();
    let ghost mut done: Seq<char> = Seq::empty();
    proof {
        node.lemma_leaves();
        assert(done + text_of_leaves(leaves.remaining()) =~= text);
    }
    loop
        invariant
            leaves.wf(),
            text == node.text(),
            done + text_of_leaves(leaves.remaining()) == text,
            forall|c: char| it.requires((c,)),
            passes(it, done),
        decreases leaves.remaining().len(),
    {
        let ghost pending = leaves.remaining();
        match crate::node::leaf_iterator::next(&mut leaves) {
            None => {
                proof {
                    assert(text_of_leaves(pending) =~= Seq::<char>::empty());
                    assert(done =~= text);
                }
                return true;
            },
            Some(x) => {
                proof {
                    encode_utf8_valid_utf8(x.content@);
                    assert(text =~= (done + x.text()) + text_of_leaves(pending.drop_first()));
                }
                let go_on = all_between(
                    x.content.as_str(),
                    x.byte_offset,
                    x.byte_offset + x.byte_len,
                    &it,
                );
                proof {
                    if go_on {
                        lemma_passes_both(it, done, x.text());
                    } else {
                        let k = choose|k: int| stops_at(it, x.text(), k);
                        lemma_stops_later(it, done, x.text(), k);
                        lemma_stops_within(
                            it,
                            done + x.text(),
                            text_of_leaves(pending.drop_first()),
                            done.len() + k,
                        );
                    }
                }
                if !go_on {
                    return false;
                }
                proof {
                    done = done + x.text();
                }
            },
        }
    }
}

/// Calls `it` on the leaves of `node`, from left to right, until `it`
/// answers `false`; the result is `false` if it did, else `true`.
pub fn loop_leaves<F: Fn(Leaf) -> bool>(node: &Arc<Node>, it: F) -> (r: bool)
    requires
        node.wf(),
        forall|l: Leaf| l.wf() ==> it.requires((l,)),
    ensures
        r ==> passes(it, node.leaves()),
        !r ==> exists|k: int| stops_at(it, node.leaves(), k),
{
    let mut leaves = crate::node::leaf_iterator::start(node);
    let ghost all = node.leaves();
    let ghost mut done: int = 0;
    loop
        invariant
            leaves.wf(),
            all == node.leaves(),
            0 <= done <= all.len(),
            leaves.remaining() == all.subrange(done, all.len() as int),
            forall|l: Leaf| l.wf() ==> it.requires((l,)),
            forall|j: int| 0 <= j < done ==> it.ensures((all[j],), true),
        decreases all.len() - done,
    {
        match crate::node::leaf_iterator::next(&mut leaves) {
            None => {
                return true;
            },
            Some(x) => {
                proof {
                    assert(x == all[done]);
                    assert(leaves.remaining() =~= all.subrange(done + 1, all.len() as int));
                }
                if !it(x) {
                    assert(stops_at(it, all, done));
                    return false;
                }
                proof {
                    done = done + 1;
                }
            },
        }
    }
}

} // verus!
