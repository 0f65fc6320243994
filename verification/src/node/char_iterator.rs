//! A traversal of the characters of a tree, from first to last.
//!
//! It walks the leaves with a [`LeafIterator`] and decodes one character
//! at a time from the leaf it is in.
use std::sync::Arc;
use vstd::prelude::*;
use vstd::utf8::*;
use crate::node::leaf_iterator::LeafIterator;
use crate::node::{text_of_leaves, Leaf, Node};
use crate::text::char_range_at;
use crate::utf8::{chars_between, lemma_chars_split, lemma_next_within};

verus! {

/// The state of a traversal.
pub struct CharIterator {
    /// The leaves after the current one.
    pub leaf_iterator: LeafIterator,
    /// The leaf that the traversal is in, if any.
    pub leaf: Option<Leaf>,
    /// The number of bytes of the current leaf already decoded.
    pub leaf_byte_pos: usize,
}

impl CharIterator {
    /// The characters of the current leaf that are still to come.
    pub open spec fn rest_of_leaf(&self) -> Seq<char> {
        match self.leaf {
            Some(l) => chars_between(
                l.buffer(),
                l.byte_offset + self.leaf_byte_pos,
                l.byte_offset + l.byte_len,
            ),
            None => Seq::<char>::empty(),
        }
    }

    /// The characters that the traversal has yet to yield, in order.
    pub open spec fn remaining(&self) -> Seq<char> {
        self.rest_of_leaf() + text_of_leaves(self.leaf_iterator.remaining())
    }

    /// The leaf traversal is well formed, and so is the current leaf, in
    /// which the cursor stands between two characters.
    pub open spec fn wf(&self) -> bool {
        &&& self.leaf_iterator.wf()
        &&& match self.leaf {
            Some(l) => {
                &&& l.wf()
                &&& self.leaf_byte_pos <= l.byte_len
                &&& is_char_boundary(l.buffer(), l.byte_offset + self.leaf_byte_pos)
            },
            None => true,
        }
    }
}

/// A traversal of the characters of `node`.
pub fn start(node: &Arc<Node>) -> (it: CharIterator)
    requires
        node.wf(),
    ensures
        it.wf(),
        it.remaining() == node.text(),
{
    proof {
        node.lemma_leaves();
        assert(Seq::<char>::empty() + node.text() =~= node.text());
    }
    CharIterator {
        leaf_iterator: crate::node::leaf_iterator::start(node),
        leaf: None,
        leaf_byte_pos: 0,
    }
}

/// A traversal that yields nothing.
pub fn empty() -> (it: CharIterator)
    ensures
        it.wf(),
        it.remaining() == Seq::<char>::empty(),
{
    let it = CharIterator {
        leaf_iterator: crate::node::leaf_iterator::empty(),
        leaf: None,
        leaf_byte_pos: 0,
    };
    proof {
        assert(it.remaining() =~= Seq::<char>::empty());
    }
    it
}

/// The next character of the traversal, if there is one.
pub fn next(it: &mut CharIterator) -> (r: Option<char>)
    requires
        old(it).wf(),
    ensures
        final(it).wf(),
        match r {
            None => old(it).remaining().len() == 0 && final(it).remaining().len() == 0,
            Some(c) => {
                &&& old(it).remaining().len() > 0
                &&& c == old(it).remaining()[0]
                &&& final(it).remaining() == old(it).remaining().drop_first()
            },
        },
{
    loop
        invariant
            it.wf(),
            it.remaining() == old(it).remaining(),
        decreases
                it.leaf_iterator.remaining().len(),
                (if it.leaf is Some {
                    1nat
                } else {
                    0nat
                }),
    {
        let ghost had_leaf = it.leaf is Some;
        match get_current_or_next_leaf(it) {
            None => {
                return None;
            },
            Some(_) => {
                let ghost before = it.remaining();
                let next_char = get_next_char_in_leaf(it);
                match next_char {
                    None => {
                        assert(had_leaf);
                        continue ;
                    },
                    Some(_) => {
                        return next_char;
                    },
                }
            },
        }
    }
}

/// The leaf that the traversal is in; if it is in none, the traversal
/// enters the next leaf, if there is one.
pub fn get_current_or_next_leaf(it: &mut CharIterator) -> (r: Option<Leaf>)
    requires
        old(it).wf(),
    ensures
        final(it).wf(),
        final(it).remaining() == old(it).remaining(),
        r == final(it).leaf,
        r is None ==> final(it).remaining().len() == 0,
        old(it).leaf is Some ==> *final(it) == *old(it),
        old(it).leaf is None && r is Some ==> final(it).leaf_byte_pos == 0
            && final(it).leaf_iterator.remaining().len() < old(
            it,
        ).leaf_iterator.remaining().len(),
{
    match &it.leaf {
        Some(l) => {
            return Some(l.clone());
        },
        None => {},
    }
    let ghost leaves = it.leaf_iterator.remaining();
    let next = crate::node::leaf_iterator::next(&mut it.leaf_iterator);
    match next {
        None => {
            proof {
                assert(text_of_leaves(it.leaf_iterator.remaining()) =~= Seq::<char>::empty());
                assert(it.remaining() =~= Seq::<char>::empty());
                assert(text_of_leaves(leaves) =~= Seq::<char>::empty());
            }
            None
        },
        Some(l) => {
            proof {
                encode_utf8_valid_utf8(l.content@);
                assert(text_of_leaves(leaves) == l.text() + text_of_leaves(leaves.drop_first()));
            }
            it.leaf = Some(l.clone());
            it.leaf_byte_pos = 0;
            Some(l)
        },
    }
}

/// The next character of the current leaf, if the traversal is in a leaf
/// and has not reached its end; at its end, the traversal leaves the leaf.
pub fn get_next_char_in_leaf(it: &mut CharIterator) -> (r: Option<char>)
    requires
        old(it).wf(),
    ensures
        final(it).wf(),
        final(it).leaf_iterator == old(it).leaf_iterator,
        r is None <==> (old(it).leaf matches Some(l) ==> old(it).leaf_byte_pos >= l.byte_len),
        match r {
            None => final(it).leaf is None && final(it).remaining() == old(it).remaining(),
            Some(c) => {
                &&& old(it).remaining().len() > 0
                &&& c == old(it).remaining()[0]
                &&& final(it).remaining() == old(it).remaining().drop_first()
            },
        },
{
    let current: Option<Leaf> = match &it.leaf {
        Some(l) => Some(l.clone()),
        None => None,
    };
    match current {
        None => None,
        Some(aleaf) => {
            let ghost bytes = aleaf.buffer();
            let ghost end = aleaf.byte_offset + aleaf.byte_len;
            proof {
                encode_utf8_valid_utf8(aleaf.content@);
            }
            if it.leaf_byte_pos >= aleaf.byte_len {
                // The traversal is past the end of the leaf.
                proof {
                    assert(bytes.subrange(end, end) =~= Seq::<u8>::empty());
                    assert(it.rest_of_leaf() =~= Seq::<char>::empty());
                }
                it.leaf = None;
                None
            } else {
                let ghost at = aleaf.byte_offset + it.leaf_byte_pos;
                let ghost before = it.remaining();
                let range = char_range_at(
                    aleaf.content.as_str(),
                    it.leaf_byte_pos + aleaf.byte_offset,
                );
                proof {
                    lemma_next_within(bytes, at, end);
                    lemma_chars_split(bytes, at, range.next as int, end);
                }
                it.leaf_byte_pos = range.next - aleaf.byte_offset;
                proof {
                    assert(it.remaining() =~= before.drop_first());
                }
                Some(range.ch)
            }
        },
    }
}

} // verus!
