//! Flattening and balancing: trees rebuilt from their leaves.
use std::sync::Arc;
use vstd::prelude::*;
use vstd::string::StringExecFns;
use vstd::utf8::*;
use crate::forest::{
    ceil_log2, flat, lemma_carry_last, lemma_ceil_log2_65536, lemma_flat_frame, lemma_max_of,
    lemma_merge_pair, lemma_pair_bytes, max_of, tournament,
};
use crate::node::{
    as_trees, bounded, byte_len, char_len, chunk_count, concat2, contiguous, height,
    is_chunking, join_trees, lemma_bounded_halves, of_substr_unsafer, text_of_leaves, texts_of,
    Leaf, Node, MAX_BALANCED_CHAR_LEN, MAX_LEAF_CHAR_LEN, MAX_NODE_HEIGHT,
};
use crate::text::slice;
use crate::utf8::lemma_whole_range;

verus! {

/// The heights of the trees of a list.
pub open spec fn heights_of(nodes: Seq<Arc<Node>>) -> Seq<nat> {
    Seq::new(nodes.len(), |k: int| nodes[k].spec_height())
}

/// No tree of the list has a leaf of more than `MAX_LEAF_CHAR_LEN`
/// characters.
pub open spec fn all_bounded(nodes: Seq<Arc<Node>>) -> bool {
    forall|k: int| 0 <= k < nodes.len() ==> bounded((#[trigger] nodes[k]).leaves())
}

/// The text of a tree, copied into one new string.
pub fn serialize_node(node: &Arc<Node>) -> (r: String)
    requires
        node.wf(),
    ensures
        r@ == node.text(),
{
    let mut buf = String::new();
    let mut it = crate::node::leaf_iterator::start(node);
    proof {
        node.lemma_leaves();
        assert(buf@ + text_of_leaves(it.remaining()) =~= node.text());
    }
    loop
        invariant
            it.wf(),
            buf@ + text_of_leaves(it.remaining()) == node.text(),
        decreases it.remaining().len(),
    {
        let ghost leaves = it.remaining();
        match crate::node::leaf_iterator::next(&mut it) {
            None => {
                proof {
                    assert(text_of_leaves(leaves) =~= Seq::<char>::empty());
                    assert(buf@ + text_of_leaves(leaves) =~= buf@);
                }
                return buf;
            },
            Some(x) => {
                proof {
                    encode_utf8_valid_utf8(x.content@);
                    assert(buf@ + text_of_leaves(leaves) =~= (buf@ + x.text()) + text_of_leaves(
                        leaves.drop_first(),
                    ));
                }
                let piece = slice(x.content.as_str(), x.byte_offset, x.byte_offset + x.byte_len);
                buf.append(piece);
            },
        }
    }
}

/// A single leaf with the text of `node`: `node` itself if it is a leaf,
/// else a leaf over a new buffer into which the text is copied.
pub fn flatten(node: &Arc<Node>) -> (r: Arc<Node>)
    requires
        node.wf(),
    ensures
        r.wf(),
        r.text() == node.text(),
        (*r) is Leaf,
        (**node) is Leaf ==> r == *node,
        (**node) is Concat ==> (*r)->Leaf_0.byte_offset == 0 && (*r)->Leaf_0.content@
            == node.text(),
        r.spec_char_len() == node.spec_char_len(),
        r.spec_byte_len() == node.spec_byte_len(),
{
    match &**node {
        Node::Leaf(_) => node.clone(),
        Node::Concat(x) => {
            let content = Arc::new(serialize_node(node));
            proof {
                node.lemma_wf();
                lemma_whole_range(node.text());
            }
            Arc::new(
                Node::Leaf(
                    Leaf { byte_offset: 0, byte_len: x.byte_len, char_len: x.char_len, content },
                ),
            )
        },
    }
}

/// Whether a tree is flattened before it is joined with a neighbour:
/// the two together, of `joint_len` characters, would exceed
/// `MAX_LEAF_CHAR_LEN`, and `node` alone does not.
pub open spec fn is_to_flatten(node: Arc<Node>, joint_len: usize) -> bool {
    joint_len > MAX_LEAF_CHAR_LEN && node.spec_char_len() <= MAX_LEAF_CHAR_LEN
}

/// `leaf` is `node` flattened: `node` itself if it is a leaf, else one
/// leaf that holds the text of `node` from the first byte of a buffer of
/// its own.
pub open spec fn is_flat_of(leaf: Arc<Node>, node: Arc<Node>) -> bool {
    &&& (*leaf) is Leaf
    &&& (*node) is Leaf ==> leaf == node
    &&& (*node) is Concat ==> (*leaf)->Leaf_0.byte_offset == 0 && (*leaf)->Leaf_0.content@
        == node.text()
    &&& leaf.spec_char_len() == node.spec_char_len()
    &&& leaf.spec_byte_len() == node.spec_byte_len()
}

/// `tree` is `node` adopted anew: its leaves are cut from one buffer that
/// holds the text of `node` and nothing else, and are joined pairwise
/// into a tree of minimal height.
pub open spec fn is_adopted_anew(tree: Arc<Node>, node: Arc<Node>) -> bool {
    &&& tree.leaves().len() > 0
    &&& tree.leaves()[0].content@ == node.text()
    &&& is_chunking(tree.leaves(), tree.leaves()[0].content, node.spec_char_len())
    &&& contiguous(tree.leaves(), 0, node.spec_byte_len() as int)
    &&& tree.spec_height() == ceil_log2(chunk_count(node.spec_char_len()))
    &&& tree == tournament(as_trees(tree.leaves()), join_trees())
}

/// The tree `node` made ready to be joined with a neighbour, where
/// `joint_len` is the number of characters of both together.
///
/// If the two would exceed `MAX_LEAF_CHAR_LEN` and `node` alone does
/// not, `node` is flattened into one leaf. Else, if it has reached
/// `MAX_NODE_HEIGHT`, its text is copied into a new buffer and adopted
/// again. Else it is left as it is.
fn settle(node: Arc<Node>, joint_len: usize) -> (r: Arc<Node>)
    requires
        node.wf(),
    ensures
        r.wf(),
        r.text() == node.text(),
        is_to_flatten(node, joint_len) ==> is_flat_of(r, node),
        !is_to_flatten(node, joint_len) && node.spec_height() >= MAX_NODE_HEIGHT
            ==> is_adopted_anew(r, node),
        !is_to_flatten(node, joint_len) && node.spec_height() < MAX_NODE_HEIGHT ==> r == node,
        bounded(node.leaves()) ==> bounded(r.leaves()),
        bounded(node.leaves()) || node.spec_char_len() <= MAX_BALANCED_CHAR_LEN
            ==> r.spec_height() <= node.spec_height(),
        node.spec_height() < MAX_NODE_HEIGHT ==> r.spec_height() <= node.spec_height(),
{
    let mut node = node;
    let ghost given = node;
    let len = char_len(&node);
    let mut node_height = height(&node);
    if joint_len > MAX_LEAF_CHAR_LEN {
        if len <= MAX_LEAF_CHAR_LEN {
            node = flatten(&node);
            node_height = height(&node);
            proof {
                assert(node.leaves()[0] == (*node)->Leaf_0);
            }
        }
    }
    if node_height >= MAX_NODE_HEIGHT {
        proof {
            node.lemma_wf();
            lemma_whole_range(node.text());
            if bounded(given.leaves()) {
                given.lemma_bounded();
            } else if given.spec_char_len() <= MAX_BALANCED_CHAR_LEN {
                lemma_ceil_log2_65536(chunk_count(len as nat));
            }
        }
        node = of_substr_unsafer(Arc::new(serialize_node(&node)), 0, byte_len(&node), len);
        proof {
            node.lemma_wf();
        }
    }
    node
}

/// Joins a list of trees into one, pairwise and round after round.
///
/// Before two neighbours are joined, each is made ready: one that is too
/// small to stay in pieces, beside a partner with which it would exceed
/// `MAX_LEAF_CHAR_LEN`, is flattened, and one that has reached
/// `MAX_NODE_HEIGHT` is copied into a new buffer and adopted again. The
/// list is used up.
#[verifier::rlimit(50)]
pub fn tree_from_forest_destructive(forest: Vec<Arc<Node>>) -> (r: Arc<Node>)
    requires
        forest@.len() >= 1,
        forall|k: int| 0 <= k < forest@.len() ==> (#[trigger] forest@[k]).wf(),
        encode_utf8(flat(texts_of(forest@), 0, forest@.len() as int)).len() <= usize::MAX,
    ensures
        r.wf(),
        r.text() == flat(texts_of(forest@), 0, forest@.len() as int),
        all_bounded(forest@) ==> bounded(r.leaves()),
        all_bounded(forest@) || r.text().len() <= MAX_BALANCED_CHAR_LEN ==> r.spec_height()
            <= max_of(heights_of(forest@)) + ceil_log2(forest@.len()),
{
    let ghost whole = flat(texts_of(forest@), 0, forest@.len() as int);
    let ghost healthy = all_bounded(forest@);
    let ghost fine = healthy || whole.len() <= MAX_BALANCED_CHAR_LEN;
    let ghost base = max_of(heights_of(forest@));
    let ghost count = forest@.len();
    let ghost mut rounds: nat = 0;
    proof {
        lemma_max_of(heights_of(forest@), 0);
        assert forall|k: int| 0 <= k < forest@.len() implies (#[trigger] forest@[k]).spec_height()
            <= base by {
            assert(heights_of(forest@)[k] == forest@[k].spec_height());
        }
    }
    let mut forest = forest;
    let mut i: usize;
    let mut len: usize = forest.len();
    while len > 1
        invariant
            1 <= len <= forest@.len(),
            forall|k: int| 0 <= k < len ==> (#[trigger] forest@[k]).wf(),
            flat(texts_of(forest@), 0, len as int) == whole,
            encode_utf8(whole).len() <= usize::MAX,
            fine == (healthy || whole.len() <= MAX_BALANCED_CHAR_LEN),
            healthy ==> forall|k: int| 0 <= k < len ==> bounded((#[trigger] forest@[k]).leaves()),
            fine ==> forall|k: int|
                0 <= k < len ==> (#[trigger] forest@[k]).spec_height() <= base + rounds,
            rounds + ceil_log2(len as nat) == ceil_log2(count),
        decreases len,
    {
        i = 0;
        proof {
            assert(flat(texts_of(forest@), 0, 0) + flat(texts_of(forest@), 0, len as int)
                =~= whole);
        }
        while i + 1 < len
            invariant
                2 <= len <= forest@.len(),
                i % 2 == 0,
                i <= len,
                forall|k: int| 0 <= k < i / 2 ==> (#[trigger] forest@[k]).wf(),
                forall|k: int| i <= k < len ==> (#[trigger] forest@[k]).wf(),
                fine == (healthy || whole.len() <= MAX_BALANCED_CHAR_LEN),
                healthy ==> forall|k: int|
                    0 <= k < i / 2 ==> bounded((#[trigger] forest@[k]).leaves()),
                healthy ==> forall|k: int|
                    i <= k < len ==> bounded((#[trigger] forest@[k]).leaves()),
                fine ==> forall|k: int|
                    0 <= k < i / 2 ==> (#[trigger] forest@[k]).spec_height() <= base + rounds + 1,
                fine ==> forall|k: int|
                    i <= k < len ==> (#[trigger] forest@[k]).spec_height() <= base + rounds,
                flat(texts_of(forest@), 0, i as int / 2) + flat(
                    texts_of(forest@),
                    i as int,
                    len as int,
                ) == whole,
                encode_utf8(whole).len() <= usize::MAX,
            decreases len - i,
        {
            let left = forest[i].clone();
            let right = forest[i + 1].clone();
            let ghost before = forest@;
            proof {
                assert(before[i as int].wf() && before[i + 1].wf());
                left.lemma_wf();
                right.lemma_wf();
                lemma_pair_bytes(texts_of(before), i as int / 2, i as int, len as int);
                lemma_merge_pair(texts_of(before), i as int / 2, i as int, len as int);
            }
            let joint_len = char_len(&left) + char_len(&right);
            let left = settle(left, joint_len);
            let right = settle(right, joint_len);
            proof {
                left.lemma_wf();
                right.lemma_wf();
                lemma_bounded_halves(left.leaves(), right.leaves());
            }
            let joined = concat2(left, right);
            forest.set(i / 2, joined);
            proof {
                assert(texts_of(forest@) =~= texts_of(before).update(
                    i as int / 2,
                    texts_of(before)[i as int] + texts_of(before)[i + 1],
                ));
            }
            i += 2;
        }
        if i + 1 == len {
            // The last tree had no partner: it moves up as it is.
            let last = forest[i].clone();
            let ghost before = forest@;
            proof {
                lemma_carry_last(texts_of(before), i as int / 2, len as int);
            }
            forest.set(i / 2, last);
            proof {
                assert(texts_of(forest@) =~= texts_of(before).update(
                    i as int / 2,
                    texts_of(before)[len - 1],
                ));
            }
        } else {
            proof {
                assert(flat(texts_of(forest@), i as int, len as int) =~= Seq::<char>::empty());
                assert(flat(texts_of(forest@), 0, i as int / 2) =~= whole);
            }
        }
        len = len / 2 + len % 2;
        proof {
            rounds = rounds + 1;
        }
    }
    let r = forest[0].clone();
    proof {
        assert(flat(texts_of(forest@), 0, 0) =~= Seq::<char>::empty());
        assert(flat(texts_of(forest@), 0, 1) =~= forest@[0].text());
    }
    r
}

/// A balanced tree with the text of `node`, unless `node` is lower than
/// `MAX_NODE_HEIGHT` and is left as it is.
///
/// The leaves of `node` are gathered and joined again by
/// [`tree_from_forest_destructive`].
#[verifier::rlimit(50)]
pub fn bal(node: &Arc<Node>) -> (r: Option<Arc<Node>>)
    requires
        node.wf(),
    ensures
        r is None <==> node.spec_height() < MAX_NODE_HEIGHT,
        r matches Some(balanced) ==> balanced.wf() && balanced.text() == node.text(),
        r matches Some(balanced) ==> (bounded(node.leaves()) ==> bounded(balanced.leaves())),
        r matches Some(balanced) ==> (bounded(node.leaves()) || node.spec_char_len()
            <= MAX_BALANCED_CHAR_LEN ==> balanced.spec_height() <= ceil_log2(node.leaves().len())
            <= node.spec_height()),
{
    if height(node) < MAX_NODE_HEIGHT {
        return None;
    }
    // First, gather all leaves.
    let mut forest: Vec<Arc<Node>> = Vec::new();
    let mut it = crate::node::leaf_iterator::start(node);
    proof {
        node.lemma_leaves();
        node.lemma_wf();
        assert(flat(texts_of(forest@), 0, 0) + text_of_leaves(it.remaining()) =~= node.text());
        assert(it.remaining() =~= node.leaves().subrange(0, node.leaves().len() as int));
    }
    loop
        invariant
            it.wf(),
            forall|k: int| 0 <= k < forest@.len() ==> (#[trigger] forest@[k]).wf(),
            forall|k: int| 0 <= k < forest@.len() ==> (#[trigger] forest@[k]).spec_height() == 0,
            forall|k: int|
                0 <= k < forest@.len() ==> (#[trigger] forest@[k]).leaves() == seq![
                    node.leaves()[k],
                ],
            flat(texts_of(forest@), 0, forest@.len() as int) + text_of_leaves(it.remaining())
                == node.text(),
            forest@.len() <= node.leaves().len(),
            it.remaining() == node.leaves().subrange(
                forest@.len() as int,
                node.leaves().len() as int,
            ),
            node.wf(),
            node.spec_height() >= MAX_NODE_HEIGHT,
        decreases it.remaining().len(),
    {
        let ghost leaves = it.remaining();
        let ghost before = forest@;
        match crate::node::leaf_iterator::next(&mut it) {
            None => {
                proof {
                    node.lemma_wf();
                    assert(text_of_leaves(leaves) =~= Seq::<char>::empty());
                    assert(flat(texts_of(forest@), 0, forest@.len() as int) =~= node.text());
                    if forest@.len() == 0 {
                        assert(node.text().len() == 0);
                    }
                    assert forall|k: int| 0 <= k < forest@.len() implies (#[trigger] heights_of(
                        forest@,
                    )[k]) <= 0 by {
                        assert(forest@[k].spec_height() == 0);
                    }
                    lemma_max_of(heights_of(forest@), 0);
                    node.lemma_leaf_count();
                    if bounded(node.leaves()) {
                        assert forall|k: int| 0 <= k < forest@.len() implies bounded(
                            (#[trigger] forest@[k]).leaves(),
                        ) by {
                            assert(forest@[k].leaves()[0] == node.leaves()[k]);
                        }
                    }
                }
                // Then, join them again.
                return Some(tree_from_forest_destructive(forest));
            },
            Some(x) => {
                forest.push(Arc::new(Node::Leaf(x)));
                proof {
                    assert(leaves[0] == node.leaves()[before.len() as int]);
                    assert(leaves.drop_first() =~= node.leaves().subrange(
                        before.len() as int + 1,
                        node.leaves().len() as int,
                    ));
                    lemma_flat_frame(texts_of(before), texts_of(forest@), 0, before.len() as int);
                    assert(texts_of(forest@)[before.len() as int] == x.text());
                    assert(flat(texts_of(forest@), 0, forest@.len() as int) + text_of_leaves(
                        leaves.drop_first(),
                    ) =~= flat(texts_of(before), 0, before.len() as int) + text_of_leaves(
                        leaves,
                    ));
                }
            },
        }
    }
}

} // verus!
