//! Parts of a tree: the subtree between two positions, over the same
//! buffers.
use std::sync::Arc;
use vstd::prelude::*;
use vstd::utf8::*;
use crate::node::{bounded, concat2, Leaf, Node, MAX_LEAF_CHAR_LEN};
use crate::text::{count_bytes, count_chars, len};
use crate::utf8::{
    chars_between, is_char_range, lemma_boundary_concat, lemma_boundary_in_range, lemma_chars_split,
    lemma_encode_concat, lemma_range_bytes, lemma_range_char_count, lemma_whole_range,
};

verus! {

/// The leaf `part` is a slice of the slice that `whole` is, in the same
/// buffer.
pub open spec fn lies_in(part: Leaf, whole: Leaf) -> bool {
    &&& part.content == whole.content
    &&& whole.byte_offset <= part.byte_offset
    &&& part.byte_offset + part.byte_len <= whole.byte_offset + whole.byte_len
    &&& part.char_len <= whole.char_len
}

/// The leaf `part` is a slice of one of the leaves `whole`.
pub open spec fn held_by(part: Leaf, whole: Seq<Leaf>) -> bool {
    exists|j: int| 0 <= j < whole.len() && lies_in(part, #[trigger] whole[j])
}

/// Every one of the leaves `part` is a slice of one of the leaves
/// `whole`: `part` holds no text of its own.
pub open spec fn within(part: Seq<Leaf>, whole: Seq<Leaf>) -> bool {
    forall|k: int| 0 <= k < part.len() ==> held_by(#[trigger] part[k], whole)
}

/// Slices of bounded leaves are bounded.
pub proof fn lemma_within_bounded(part: Seq<Leaf>, whole: Seq<Leaf>)
    requires
        within(part, whole),
        bounded(whole),
    ensures
        bounded(part),
{
    assert forall|k: int| 0 <= k < part.len() implies (#[trigger] part[k]).char_len
        <= MAX_LEAF_CHAR_LEN by {
        assert(held_by(part[k], whole));
        let j = choose|j: int| 0 <= j < whole.len() && lies_in(part[k], #[trigger] whole[j]);
        assert(whole[j].char_len <= MAX_LEAF_CHAR_LEN);
    }
}

/// Leaves are slices of themselves.
pub proof fn lemma_within_itself(leaves: Seq<Leaf>)
    ensures
        within(leaves, leaves),
{
    assert forall|k: int| 0 <= k < leaves.len() implies held_by(#[trigger] leaves[k], leaves) by {
        assert(lies_in(leaves[k], leaves[k]));
    }
}

/// A slice of a slice is a slice.
pub proof fn lemma_within_within(a: Seq<Leaf>, b: Seq<Leaf>, c: Seq<Leaf>)
    requires
        within(a, b),
        within(b, c),
    ensures
        within(a, c),
{
    assert forall|k: int| 0 <= k < a.len() implies held_by(#[trigger] a[k], c) by {
        assert(held_by(a[k], b));
        let j = choose|j: int| 0 <= j < b.len() && lies_in(a[k], #[trigger] b[j]);
        assert(held_by(b[j], c));
        let i = choose|i: int| 0 <= i < c.len() && lies_in(b[j], #[trigger] c[i]);
        assert(lies_in(a[k], c[i]));
    }
}

/// Both halves of a list of leaves are within the list, and two lists
/// within a third are so together.
pub proof fn lemma_within_halves(a: Seq<Leaf>, b: Seq<Leaf>, c: Seq<Leaf>)
    ensures
        within(a, a + b),
        within(b, a + b),
        within(a, c) && within(b, c) ==> within(a + b, c),
{
    assert forall|k: int| 0 <= k < a.len() implies held_by(#[trigger] a[k], a + b) by {
        assert(lies_in(a[k], (a + b)[k]));
    }
    assert forall|k: int| 0 <= k < b.len() implies held_by(#[trigger] b[k], a + b) by {
        assert(lies_in(b[k], (a + b)[a.len() + k]));
    }
    if within(a, c) && within(b, c) {
        assert forall|k: int| 0 <= k < (a + b).len() implies held_by(#[trigger] (a + b)[k], c) by {
            if k < a.len() {
                assert(held_by(a[k], c));
            } else {
                assert(held_by(b[k - a.len()], c));
            }
        }
    }
}

/// Parts of two neighbouring lists of leaves are, together, within
/// whatever the two lists are within.
pub proof fn lemma_within_joined(
    left_part: Seq<Leaf>,
    right_part: Seq<Leaf>,
    left: Seq<Leaf>,
    right: Seq<Leaf>,
    whole: Seq<Leaf>,
)
    requires
        within(left_part, left),
        within(right_part, right),
        within(left + right, whole),
    ensures
        within(left_part + right_part, whole),
{
    lemma_within_halves(left, right, whole);
    lemma_within_within(left_part, left, left + right);
    lemma_within_within(right_part, right, left + right);
    lemma_within_within(left_part, left + right, whole);
    lemma_within_within(right_part, left + right, whole);
    lemma_within_halves(left_part, right_part, whole);
}

/// The part of a leaf that holds `byte_len` bytes from byte `byte_offset`
/// of the leaf on, as a leaf over the same buffer.
fn slice_leaf_bytes(x: &Leaf, byte_offset: usize, byte_len: usize) -> (part: Leaf)
    requires
        x.wf(),
        byte_len > 0,
        is_char_range(encode_utf8(x.text()), byte_offset as int, byte_offset + byte_len),
    ensures
        part.wf(),
        part.text() == chars_between(
            encode_utf8(x.text()),
            byte_offset as int,
            byte_offset + byte_len,
        ),
        part.byte_len == byte_len,
        lies_in(part, *x),
{
    let ghost buffer = x.buffer();
    proof {
        encode_utf8_valid_utf8(x.content@);
        lemma_range_bytes(buffer, x.byte_offset as int, x.byte_offset + x.byte_len);
        lemma_boundary_in_range(
            buffer,
            x.byte_offset as int,
            x.byte_offset + byte_offset,
            x.byte_offset + x.byte_len,
        );
        lemma_boundary_in_range(
            buffer,
            x.byte_offset as int,
            x.byte_offset + byte_offset + byte_len,
            x.byte_offset + x.byte_len,
        );
        assert(buffer.subrange(x.byte_offset as int, x.byte_offset + x.byte_len).subrange(
            byte_offset as int,
            byte_offset + byte_len,
        ) =~= buffer.subrange(
            x.byte_offset + byte_offset,
            x.byte_offset + byte_offset + byte_len,
        ));
    }
    let start = x.byte_offset + byte_offset;
    let char_len = count_chars(x.content.as_str(), start, start + byte_len);
    proof {
        lemma_chars_split(
            buffer,
            x.byte_offset as int,
            start as int,
            x.byte_offset + x.byte_len,
        );
        lemma_chars_split(buffer, start as int, start + byte_len, x.byte_offset + x.byte_len);
    }
    Leaf { byte_offset: start, byte_len, char_len, content: x.content.clone() }
}

/// The part of a leaf that holds `char_len` characters from character
/// `char_offset` of the leaf on, as a leaf over the same buffer.
fn slice_leaf_chars(x: &Leaf, char_offset: usize, char_len: usize) -> (part: Leaf)
    requires
        x.wf(),
        char_len > 0,
        char_offset + char_len <= x.char_len,
    ensures
        part.wf(),
        part.text() == x.text().subrange(char_offset as int, char_offset + char_len),
        part.char_len == char_len,
        lies_in(part, *x),
{
    let ghost buffer = x.buffer();
    let ghost begin = x.byte_offset as int;
    let ghost end = x.byte_offset + x.byte_len;
    let total = len(x.content.as_str());
    proof {
        encode_utf8_valid_utf8(x.content@);
        is_char_boundary_start_end_of_seq(buffer);
        lemma_chars_split(buffer, begin, end, total as int);
    }
    let skipped = count_bytes(x.content.as_str(), x.byte_offset, char_offset);
    let start = x.byte_offset + skipped;
    let ghost from_begin = chars_between(buffer, begin, total as int);
    let ghost from_start = chars_between(buffer, start as int, total as int);
    proof {
        lemma_chars_split(buffer, begin, start as int, total as int);
        assert(from_begin.len() >= x.text().len());
        assert(from_begin.take(char_offset as int).len() == char_offset);
        assert(from_begin.len() == char_offset + from_start.len());
        if start > end {
            lemma_chars_split(buffer, begin, end, start as int);
            lemma_range_char_count(buffer, end, start as int);
            assert(false);
        }
        lemma_chars_split(buffer, begin, start as int, end);
    }
    let byte_len = count_bytes(x.content.as_str(), start, char_len);
    proof {
        assert(from_start =~= from_begin.skip(char_offset as int));
        assert(from_start.take(char_len as int) =~= x.text().subrange(
            char_offset as int,
            char_offset + char_len,
        ));
        if byte_len == 0 {
            assert(buffer.subrange(start as int, start as int) =~= Seq::<u8>::empty());
        }
        if start + byte_len > end {
            lemma_chars_split(buffer, start as int, end, start + byte_len);
            lemma_range_char_count(buffer, end, start + byte_len);
            assert(false);
        }
    }
    Leaf { byte_offset: start, byte_len, char_len, content: x.content.clone() }
}

/// The part of a tree that holds `byte_len` bytes from byte `byte_offset`
/// on, as a tree over the same buffers.
///
/// The walk goes down to the lowest subtree that holds the whole range;
/// only where the range straddles both children of a node are the two
/// parts taken separately and joined.
#[verifier::rlimit(50)]
pub fn sub_bytes(node: &Arc<Node>, byte_offset: usize, byte_len: usize) -> (r: Arc<Node>)
    requires
        node.wf(),
        byte_len > 0,
        is_char_range(
            encode_utf8(node.text()),
            byte_offset as int,
            byte_offset + byte_len,
        ),
    ensures
        r.wf(),
        r.text() == chars_between(
            encode_utf8(node.text()),
            byte_offset as int,
            byte_offset + byte_len,
        ),
        r.spec_byte_len() == byte_len,
        r.spec_height() <= node.spec_height(),
        within(r.leaves(), node.leaves()),
        byte_offset == 0 && byte_len == node.spec_byte_len() ==> r == *node,
    decreases node.spec_height(),
{
    let mut current: &Arc<Node> = node;
    let mut offset: usize = byte_offset;
    let ghost target = chars_between(
        encode_utf8(current.text()),
        offset as int,
        offset + byte_len,
    );
    let ghost top_height = current.spec_height();
    proof {
        lemma_within_itself(node.leaves());
    }
    loop
        invariant
            target == chars_between(
                encode_utf8(node.text()),
                byte_offset as int,
                byte_offset + byte_len,
            ),
            top_height == node.spec_height(),
            within(current.leaves(), node.leaves()),
            *current == *node || !(byte_offset == 0 && byte_len == node.spec_byte_len()),
            current.wf(),
            byte_len > 0,
            current.spec_height() <= top_height,
            is_char_range(encode_utf8(current.text()), offset as int, offset + byte_len),
            chars_between(encode_utf8(current.text()), offset as int, offset + byte_len)
                == target,
        decreases current.spec_height(),
    {
        let ghost bytes = encode_utf8(current.text());
        proof {
            current.lemma_wf();
            encode_utf8_valid_utf8(current.text());
            lemma_range_bytes(bytes, offset as int, offset + byte_len);
        }
        if offset == 0 && byte_len == crate::node::byte_len(current) {
            proof {
                lemma_whole_range(current.text());
            }
            return current.clone();
        }
        match &**current {
            Node::Leaf(x) => {
                let part = slice_leaf_bytes(x, offset, byte_len);
                proof {
                    assert(current.leaves()[0] == *x);
                    lemma_within_within(seq![part], current.leaves(), node.leaves());
                }
                return Arc::new(Node::Leaf(part));
            },
            Node::Concat(x) => {
                let left_len: usize = crate::node::byte_len(&x.left);
                let ghost a = encode_utf8(x.left.text());
                let ghost b = encode_utf8(x.right.text());
                proof {
                    x.left.lemma_wf();
                    x.right.lemma_wf();
                    lemma_encode_concat(x.left.text(), x.right.text());
                    encode_utf8_valid_utf8(x.left.text());
                    encode_utf8_valid_utf8(x.right.text());
                    lemma_boundary_concat(a, b, offset as int);
                    lemma_boundary_concat(a, b, offset + byte_len);
                    lemma_boundary_concat(a, b, left_len as int);
                    is_char_boundary_start_end_of_seq(a);
                    is_char_boundary_start_end_of_seq(b);
                }
                if offset + byte_len <= left_len {
                    // Everything is in the left child.
                    proof {
                        assert((a + b).subrange(offset as int, offset + byte_len)
                            =~= a.subrange(offset as int, offset + byte_len));
                    }
                    proof {
                        lemma_within_halves(x.left.leaves(), x.right.leaves(), node.leaves());
                        lemma_within_within(x.left.leaves(), current.leaves(), node.leaves());
                    }
                    current = &x.left;
                } else if offset >= left_len {
                    // Everything is in the right child.
                    proof {
                        assert((a + b).subrange(offset as int, offset + byte_len)
                            =~= b.subrange(
                            offset - left_len,
                            offset - left_len + byte_len,
                        ));
                    }
                    offset -= left_len;
                    proof {
                        lemma_within_halves(x.left.leaves(), x.right.leaves(), node.leaves());
                        lemma_within_within(x.right.leaves(), current.leaves(), node.leaves());
                    }
                    current = &x.right;
                } else {
                    // An end of the left child and a beginning of the right.
                    proof {
                        lemma_chars_split(
                            a + b,
                            offset as int,
                            left_len as int,
                            offset + byte_len,
                        );
                        assert((a + b).subrange(offset as int, left_len as int)
                            =~= a.subrange(offset as int, left_len as int));
                        assert((a + b).subrange(left_len as int, offset + byte_len)
                            =~= b.subrange(0, offset + byte_len - left_len));
                    }
                    let left_result = sub_bytes(&x.left, offset, left_len - offset);
                    let right_result = sub_bytes(
                        &x.right,
                        0,
                        byte_len - (left_len - offset),
                    );
                    proof {
                        lemma_within_joined(
                            left_result.leaves(),
                            right_result.leaves(),
                            x.left.leaves(),
                            x.right.leaves(),
                            node.leaves(),
                        );
                    }
                    return concat2(left_result, right_result);
                }
            },
        }
    }
}

/// The part of a tree that holds `char_len` characters from character
/// `char_offset` on, as a tree over the same buffers.
///
/// The walk is that of [`sub_bytes`], counted in characters.
#[verifier::rlimit(50)]
pub fn sub_chars(node: &Arc<Node>, char_offset: usize, char_len: usize) -> (r: Arc<Node>)
    requires
        node.wf(),
        char_len > 0,
        char_offset + char_len <= node.spec_char_len(),
    ensures
        r.wf(),
        r.text() == node.text().subrange(char_offset as int, char_offset + char_len),
        r.spec_char_len() == char_len,
        r.spec_height() <= node.spec_height(),
        within(r.leaves(), node.leaves()),
        char_offset == 0 && char_len == node.spec_char_len() ==> r == *node,
    decreases node.spec_height(),
{
    let mut current: &Arc<Node> = node;
    let mut offset: usize = char_offset;
    proof {
        node.lemma_wf();
    }
    let ghost target = current.text().subrange(offset as int, offset + char_len);
    let ghost top_height = current.spec_height();
    proof {
        lemma_within_itself(node.leaves());
    }
    loop
        invariant
            target == node.text().subrange(char_offset as int, char_offset + char_len),
            top_height == node.spec_height(),
            within(current.leaves(), node.leaves()),
            *current == *node || !(char_offset == 0 && char_len == node.spec_char_len()),
            current.wf(),
            char_len > 0,
            current.spec_height() <= top_height,
            offset + char_len <= current.spec_char_len(),
            current.text().subrange(offset as int, offset + char_len) == target,
        decreases current.spec_height(),
    {
        proof {
            current.lemma_wf();
        }
        match &**current {
            Node::Leaf(x) => {
                if offset == 0 && char_len == x.char_len {
                    proof {
                        assert(current.text().subrange(0, char_len as int) =~= current.text());
                    }
                    return current.clone();
                }
                let part = slice_leaf_chars(x, offset, char_len);
                proof {
                    assert(current.leaves()[0] == *x);
                    lemma_within_within(seq![part], current.leaves(), node.leaves());
                }
                return Arc::new(Node::Leaf(part));
            },
            Node::Concat(x) => {
                if offset == 0 && char_len == x.char_len {
                    proof {
                        assert(current.text().subrange(0, char_len as int) =~= current.text());
                    }
                    return current.clone();
                }
                let left_len: usize = crate::node::char_len(&x.left);
                let ghost a = x.left.text();
                let ghost b = x.right.text();
                proof {
                    x.left.lemma_wf();
                    x.right.lemma_wf();
                }
                if offset + char_len <= left_len {
                    // Everything is in the left child.
                    proof {
                        assert((a + b).subrange(offset as int, offset + char_len)
                            =~= a.subrange(offset as int, offset + char_len));
                    }
                    proof {
                        lemma_within_halves(x.left.leaves(), x.right.leaves(), node.leaves());
                        lemma_within_within(x.left.leaves(), current.leaves(), node.leaves());
                    }
                    current = &x.left;
                } else if offset >= left_len {
                    // Everything is in the right child.
                    proof {
                        assert((a + b).subrange(offset as int, offset + char_len)
                            =~= b.subrange(
                            offset - left_len,
                            offset - left_len + char_len,
                        ));
                    }
                    offset -= left_len;
                    proof {
                        lemma_within_halves(x.left.leaves(), x.right.leaves(), node.leaves());
                        lemma_within_within(x.right.leaves(), current.leaves(), node.leaves());
                    }
                    current = &x.right;
                } else {
                    // An end of the left child and a beginning of the right.
                    proof {
                        assert((a + b).subrange(offset as int, offset + char_len)
                            =~= a.subrange(offset as int, left_len as int) + b.subrange(
                            0,
                            offset + char_len - left_len,
                        ));
                    }
                    let left_result = sub_chars(&x.left, offset, left_len - offset);
                    let right_result = sub_chars(
                        &x.right,
                        0,
                        char_len - (left_len - offset),
                    );
                    proof {
                        left_result.lemma_wf();
                        right_result.lemma_wf();
                        lemma_encode_concat(left_result.text(), right_result.text());
                        lemma_encode_concat(
                            left_result.text() + right_result.text(),
                            current.text().subrange(
                                offset + char_len,
                                current.text().len() as int,
                            ),
                        );
                        lemma_encode_concat(
                            current.text().subrange(0, offset as int),
                            (left_result.text() + right_result.text()) + current.text().subrange(
                                offset + char_len,
                                current.text().len() as int,
                            ),
                        );
                        assert(current.text() =~= current.text().subrange(0, offset as int) + ((
                        left_result.text() + right_result.text()) + current.text().subrange(
                            offset + char_len,
                            current.text().len() as int,
                        )));
                        lemma_within_joined(
                            left_result.leaves(),
                            right_result.leaves(),
                            x.left.leaves(),
                            x.right.leaves(),
                            node.leaves(),
                        );
                    }
                    return concat2(left_result, right_result);
                }
            },
        }
    }
}

} // verus!
