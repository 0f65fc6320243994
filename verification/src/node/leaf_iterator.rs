//! A traversal of the leaves of a tree, from left to right.
//!
//! The iterator keeps the subtrees that are still to be visited on a stack
//! of fixed size: one place more than the tree is high is always enough.
use std::sync::Arc;
use vstd::prelude::*;
use crate::node::{height, Leaf, Node};

verus! {

/// The state of a traversal.
pub struct LeafIterator {
    /// The subtrees still to be visited, the next one last.
    pub stack: Vec<Arc<Node>>,
    /// The number of places of the stack in use; `0` when nothing is left.
    pub stackpos: usize,
}

/// The leaves of the subtrees on the first `count` places, in the order in
/// which the traversal yields them: the last place first.
pub open spec fn pending_leaves(stack: Seq<Arc<Node>>, count: int) -> Seq<Leaf>
    decreases count,
{
    if count <= 0 {
        Seq::<Leaf>::empty()
    } else {
        stack[count - 1].leaves() + pending_leaves(stack, count - 1)
    }
}

/// Places from `count` on do not matter.
pub proof fn lemma_pending_frame(a: Seq<Arc<Node>>, b: Seq<Arc<Node>>, count: int)
    requires
        forall|k: int| 0 <= k < count ==> a[k] == b[k],
    ensures
        pending_leaves(a, count) == pending_leaves(b, count),
    decreases count,
{
    if count > 0 {
        lemma_pending_frame(a, b, count - 1);
    }
}

/// While all pending subtrees are well formed, so are their leaves, and
/// there is one at least unless the stack is empty.
pub proof fn lemma_pending_wf(stack: Seq<Arc<Node>>, count: int)
    requires
        count <= stack.len(),
        forall|k: int| 0 <= k < count ==> (#[trigger] stack[k]).wf(),
    ensures
        forall|k: int|
            0 <= k < pending_leaves(stack, count).len() ==> (#[trigger] pending_leaves(
                stack,
                count,
            )[k]).wf(),
        count > 0 ==> pending_leaves(stack, count).len() > 0,
    decreases count,
{
    if count > 0 {
        lemma_pending_wf(stack, count - 1);
        let top = stack[count - 1];
        assert(top.wf());
        top.lemma_leaves();
        top.lemma_wf();
        let below = pending_leaves(stack, count - 1);
        assert forall|k: int| 0 <= k < pending_leaves(stack, count).len() implies (
        #[trigger] pending_leaves(stack, count)[k]).wf() by {
            if k < top.leaves().len() {
                assert(pending_leaves(stack, count)[k] == top.leaves()[k]);
            } else {
                assert(pending_leaves(stack, count)[k] == below[k - top.leaves().len()]);
            }
        }
    }
}

impl LeafIterator {
    /// The leaves that the traversal has yet to yield, in order.
    pub open spec fn remaining(&self) -> Seq<Leaf> {
        pending_leaves(self.stack@, self.stackpos as int)
    }

    /// Every pending subtree is well formed, and the higher a subtree lies
    /// on the stack, the lower it is: the stack cannot overflow.
    pub open spec fn wf(&self) -> bool {
        &&& self.stackpos <= self.stack@.len()
        &&& forall|k: int|
            0 <= k < self.stackpos ==> {
                &&& (#[trigger] self.stack@[k]).wf()
                &&& self.stack@[k].spec_height() + k < self.stack@.len()
            }
    }
}

/// A traversal that yields nothing.
pub fn empty() -> (it: LeafIterator)
    ensures
        it.wf(),
        it.remaining() == Seq::<Leaf>::empty(),
{
    let stack: Vec<Arc<Node>> = Vec::new();
    LeafIterator { stack, stackpos: 0 }
}

/// A traversal of the leaves of `node`.
pub fn start(node: &Arc<Node>) -> (it: LeafIterator)
    requires
        node.wf(),
    ensures
        it.wf(),
        it.remaining() == node.leaves(),
        it.stack@.len() == node.spec_height() + 1,
{
    proof {
        node.lemma_wf();
    }
    let size: usize = height(node) + 1;
    let mut stack: Vec<Arc<Node>> = Vec::with_capacity(size);
    let mut i: usize = 0;
    while i < size
        invariant
            i <= size,
            stack@.len() == i,
            forall|k: int| 0 <= k < i ==> stack@[k] == *node,
        decreases size - i,
    {
        stack.push(node.clone());
        i += 1;
    }
    proof {
        assert(pending_leaves(stack@, 0) =~= Seq::<Leaf>::empty());
        assert(pending_leaves(stack@, 1) =~= node.leaves());
    }
    LeafIterator { stack, stackpos: 1 }
}

/// The next leaf of the traversal, if there is one.
pub fn next(it: &mut LeafIterator) -> (r: Option<Leaf>)
    requires
        old(it).wf(),
    ensures
        final(it).wf(),
        final(it).stack@.len() == old(it).stack@.len(),
        match r {
            None => old(it).remaining().len() == 0 && final(it).remaining().len() == 0,
            Some(leaf) => {
                &&& old(it).remaining().len() > 0
                &&& leaf == old(it).remaining()[0]
                &&& leaf.wf()
                &&& final(it).remaining() == old(it).remaining().drop_first()
            },
        },
{
    proof {
        lemma_pending_wf(it.stack@, it.stackpos as int);
    }
    if it.stackpos == 0 {
        return None;
    }
    loop
        invariant
            it.wf(),
            it.stackpos > 0,
            it.stack@.len() == old(it).stack@.len(),
            it.remaining() == old(it).remaining(),
            old(it).remaining().len() > 0,
            forall|k: int|
                0 <= k < old(it).remaining().len() ==> (#[trigger] old(it).remaining()[k]).wf(),
        decreases it.stack@[it.stackpos - 1].spec_height(),
    {
        let top: usize = it.stackpos - 1;
        let current = it.stack[top].clone();
        let ghost before = it.stack@;
        assert(before[top as int].wf());
        it.stackpos -= 1;
        match &*current {
            Node::Concat(x) => {
                it.stack.set(top, x.right.clone());
                it.stackpos += 1;
                it.stack.set(top + 1, x.left.clone());
                assert(top + 2 <= it.stack.len());
                it.stackpos += 1;
                proof {
                    lemma_pending_frame(before, it.stack@, top as int);
                    assert(pending_leaves(it.stack@, top + 1) =~= x.right.leaves()
                        + pending_leaves(before, top as int));
                    assert(pending_leaves(it.stack@, top + 2) =~= x.left.leaves()
                        + pending_leaves(it.stack@, top + 1));
                    assert(it.remaining() =~= current.leaves() + pending_leaves(
                        before,
                        top as int,
                    ));
                }
            },
            Node::Leaf(x) => {
                proof {
                    assert(old(it).remaining() =~= seq![*x] + pending_leaves(
                        before,
                        top as int,
                    ));
                    assert(old(it).remaining().drop_first() =~= pending_leaves(
                        before,
                        top as int,
                    ));
                }
                return Some(x.clone());
            },
        }
    }
}

} // verus!
