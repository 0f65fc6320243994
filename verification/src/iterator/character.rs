//! A traversal of the characters of a rope, from first to last.
use vstd::prelude::*;
use crate::node::char_iterator::CharIterator;
use crate::node::Root;

verus! {

/// A traversal of the characters of `rope`.
pub fn start(rope: &Root) -> (it: CharIterator)
    requires
        rope.wf(),
    ensures
        it.wf(),
        it.remaining() == rope.text(),
{
    match rope {
        Root::Empty => crate::node::char_iterator::empty(),
        Root::Content(x) => crate::node::char_iterator::start(x),
    }
}

/// The next character of the traversal, if there is one.
pub fn next(it: &mut CharIterator) -> (r: Option<char>)
    requires
        old(it).wf(),
    ensures
        final(it).wf(),
        match r {
            None => old(it).remaining().len() == 0 && final(it).remaining().len() == 0,
            Some(c) => {
                &&& old(it).remaining().len() > 0
                &&& c == old(it).remaining()[0]
                &&& final(it).remaining() == old(it).remaining().drop_first()
            },
        },
{
    crate::node::char_iterator::next(it)
}

} // verus!
