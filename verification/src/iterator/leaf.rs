//! A traversal of the leaves of a rope, from left to right.
use vstd::prelude::*;
use crate::node::leaf_iterator::LeafIterator;
use crate::node::{Leaf, Root};

verus! {

/// A traversal of the leaves of `rope`.
pub fn start(rope: &Root) -> (it: LeafIterator)
    requires
        rope.wf(),
    ensures
        it.wf(),
        it.remaining() == rope.leaves(),
{
    match rope {
        Root::Empty => crate::node::leaf_iterator::empty(),
        Root::Content(x) => crate::node::leaf_iterator::start(x),
    }
}

/// The next leaf of the traversal, if there is one.
pub fn next(it: &mut LeafIterator) -> (r: Option<Leaf>)
    requires
        old(it).wf(),
    ensures
        final(it).wf(),
        match r {
            None => old(it).remaining().len() == 0 && final(it).remaining().len() == 0,
            Some(leaf) => {
                &&& old(it).remaining().len() > 0
                &&& leaf == old(it).remaining()[0]
                &&& leaf.wf()
                &&& final(it).remaining() == old(it).remaining().drop_first()
            },
        },
{
    crate::node::leaf_iterator::next(it)
}

} // verus!
