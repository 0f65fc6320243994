//! The tree behind a rope: leaves that slice shared buffers, and
//! concatenation nodes that cache the size and height of what is below.
//!
//! This module holds the tree and how it is built from a buffer. What is
//! done to a tree stands in the modules below it, and is named here
//! again.
use std::sync::Arc;
use vstd::prelude::*;
use vstd::utf8::*;
use crate::forest::{
    ceil_log2, flat, lemma_carry_last, lemma_ceil_log2_monotonic, lemma_ceil_log2_pow2,
    lemma_flat_frame, lemma_flat_singletons, lemma_merge_pair, lemma_pair_bytes,
    lemma_pow2_monotonic, paired, pow2, tournament,
};
use crate::text::{count_bytes, count_chars, len};
use crate::utf8::{
    chars_between, is_char_range, lemma_chars_split, lemma_encode_concat, lemma_range_bytes,
    lemma_range_char_count, lemma_whole_range,
};

pub mod balance;
pub mod char_iterator;
pub mod leaf_iterator;
pub mod part;
pub mod walk;
pub use self::balance::{
    all_bounded, bal, flatten, heights_of, is_adopted_anew, is_flat_of, is_to_flatten,
    serialize_node, tree_from_forest_destructive,
};
pub use self::part::{
    held_by, lemma_within_bounded, lemma_within_halves, lemma_within_itself, lemma_within_joined,
    lemma_within_within, lies_in, sub_bytes, sub_chars, within,
};
pub use self::walk::{char_at, cmp, loop_chars, loop_leaves};

verus! {

/// The number of characters that a single leaf should not exceed.
///
/// This is a hint: a leaf built by flattening may be longer.
pub const MAX_LEAF_CHAR_LEN: usize = 256;

/// The height that a tree should not exceed.
///
/// This is a hint: only balancing brings a tree back under it.
pub const MAX_NODE_HEIGHT: usize = 16;

/// The number of characters up to which balancing is sure not to make a
/// tree higher: `MAX_LEAF_CHAR_LEN` times two to the power
/// `MAX_NODE_HEIGHT`.
///
/// A tree that has reached `MAX_NODE_HEIGHT` is adopted anew from a copy
/// of its text, in leaves of `MAX_LEAF_CHAR_LEN` characters; up to this
/// length the new tree is no higher than `MAX_NODE_HEIGHT`.
pub const MAX_BALANCED_CHAR_LEN: usize = 16777216;

/// A slice of a shared, immutable buffer.
pub struct Leaf {
    /// The number of bytes of `content` before the slice.
    pub byte_offset: usize,
    /// The number of bytes of the slice.
    pub byte_len: usize,
    /// The number of characters of the slice.
    pub char_len: usize,
    /// The buffer; several leaves and several ropes may share it.
    pub content: Arc<String>,
}

/// The concatenation of two trees.
pub struct Concat {
    /// The tree that holds the beginning of the text.
    pub left: Arc<Node>,
    /// The tree that holds the end of the text.
    pub right: Arc<Node>,
    /// The number of characters in all leaves below.
    pub char_len: usize,
    /// The number of bytes in all leaves below.
    pub byte_len: usize,
    /// The length of the longest path to a leaf.
    pub height: usize,
}

/// A tree of text.
pub enum Node {
    /// A slice of a buffer.
    Leaf(Leaf),
    /// The concatenation of two trees.
    Concat(Concat),
}

impl Leaf {
    /// The bytes of the whole buffer.
    pub open spec fn buffer(&self) -> Seq<u8> {
        encode_utf8(self.content@)
    }

    /// The characters of the slice.
    pub open spec fn text(&self) -> Seq<char> {
        chars_between(
            self.buffer(),
            self.byte_offset as int,
            self.byte_offset + self.byte_len,
        )
    }

    /// The slice is not empty, lies in the buffer between two characters,
    /// its end is a `usize`, and `char_len` counts its characters.
    pub open spec fn wf(&self) -> bool {
        &&& self.byte_len > 0
        &&& self.byte_offset + self.byte_len <= usize::MAX
        &&& is_char_range(
            self.buffer(),
            self.byte_offset as int,
            self.byte_offset + self.byte_len,
        )
        &&& self.char_len == self.text().len()
    }
}

/// A rope: nothing, or a tree of text.
pub enum Root {
    /// The rope without text.
    Empty,
    /// A rope with text; the tree is never empty.
    Content(Arc<Node>),
}

impl Clone for Root {
    /// A second handle on the same tree.
    fn clone(&self) -> (r: Self)
        ensures
            r == *self,
    {
        match self {
            Root::Empty => Root::Empty,
            Root::Content(x) => Root::Content(x.clone()),
        }
    }
}

impl Root {
    /// The text of the rope.
    pub open spec fn text(&self) -> Seq<char> {
        match self {
            Root::Empty => Seq::<char>::empty(),
            Root::Content(x) => x.text(),
        }
    }

    /// The leaves of the rope, from left to right.
    pub open spec fn leaves(&self) -> Seq<Leaf> {
        match self {
            Root::Empty => Seq::<Leaf>::empty(),
            Root::Content(x) => x.leaves(),
        }
    }

    /// The tree of a rope with text is well formed; so it has text.
    pub open spec fn wf(&self) -> bool {
        match self {
            Root::Empty => true,
            Root::Content(x) => x.wf(),
        }
    }

    /// The number of characters that the rope records.
    pub open spec fn spec_char_len(&self) -> nat {
        match self {
            Root::Empty => 0,
            Root::Content(x) => x.spec_char_len(),
        }
    }

    /// The number of bytes that the rope records.
    pub open spec fn spec_byte_len(&self) -> nat {
        match self {
            Root::Empty => 0,
            Root::Content(x) => x.spec_byte_len(),
        }
    }

    /// The height that the rope records.
    pub open spec fn spec_height(&self) -> nat {
        match self {
            Root::Empty => 0,
            Root::Content(x) => x.spec_height(),
        }
    }

    /// What the recorded numbers of a well-formed rope mean: the lengths
    /// are those of the text and of its encoding, and only the empty rope
    /// has no text.
    pub proof fn lemma_wf(&self)
        requires
            self.wf(),
        ensures
            self.text().len() == self.spec_char_len(),
            encode_utf8(self.text()).len() == self.spec_byte_len(),
            self.spec_char_len() <= self.spec_byte_len(),
            self.spec_height() <= self.spec_byte_len(),
            *self is Empty <==> self.text().len() == 0,
            text_of_leaves(self.leaves()) == self.text(),
    {
        match self {
            Root::Empty => {},
            Root::Content(x) => {
                x.lemma_wf();
                x.lemma_leaves();
            },
        }
    }
}

impl View for Root {
    type V = Seq<char>;

    /// A rope is seen as its text.
    open spec fn view(&self) -> Seq<char> {
        self.text()
    }
}

impl Clone for Leaf {
    /// A second handle on the same slice of the same buffer.
    fn clone(&self) -> (r: Self)
        ensures
            r == *self,
    {
        Leaf {
            byte_offset: self.byte_offset,
            byte_len: self.byte_len,
            char_len: self.char_len,
            content: self.content.clone(),
        }
    }
}

/// None of the leaves has more than `MAX_LEAF_CHAR_LEN` characters.
pub open spec fn bounded(leaves: Seq<Leaf>) -> bool {
    forall|k: int| 0 <= k < leaves.len() ==> (#[trigger] leaves[k]).char_len <= MAX_LEAF_CHAR_LEN
}

/// Two lists of leaves are bounded exactly when they are so together.
pub proof fn lemma_bounded_halves(a: Seq<Leaf>, b: Seq<Leaf>)
    ensures
        bounded(a + b) <==> bounded(a) && bounded(b),
{
    if bounded(a + b) {
        assert forall|k: int| 0 <= k < a.len() implies (#[trigger] a[k]).char_len
            <= MAX_LEAF_CHAR_LEN by {
            assert(a[k] == (a + b)[k]);
        }
        assert forall|k: int| 0 <= k < b.len() implies (#[trigger] b[k]).char_len
            <= MAX_LEAF_CHAR_LEN by {
            assert(b[k] == (a + b)[a.len() + k]);
        }
    }
    if bounded(a) && bounded(b) {
        assert forall|k: int| 0 <= k < (a + b).len() implies (#[trigger] (a + b)[k]).char_len
            <= MAX_LEAF_CHAR_LEN by {
            if k < a.len() {
                assert((a + b)[k] == a[k]);
            } else {
                assert((a + b)[k] == b[k - a.len()]);
            }
        }
    }
}

/// The characters of a list of leaves, in order.
pub open spec fn text_of_leaves(leaves: Seq<Leaf>) -> Seq<char>
    decreases leaves.len(),
{
    if leaves.len() == 0 {
        Seq::<char>::empty()
    } else {
        leaves[0].text() + text_of_leaves(leaves.drop_first())
    }
}

/// The characters of two lists of leaves, one after the other.
pub proof fn lemma_text_of_leaves_concat(a: Seq<Leaf>, b: Seq<Leaf>)
    ensures
        text_of_leaves(a + b) == text_of_leaves(a) + text_of_leaves(b),
    decreases a.len(),
{
    if a.len() == 0 {
        assert(a + b =~= b);
        assert(text_of_leaves(a) + text_of_leaves(b) =~= text_of_leaves(b));
    } else {
        lemma_text_of_leaves_concat(a.drop_first(), b);
        assert((a + b).drop_first() =~= a.drop_first() + b);
        assert(text_of_leaves(a + b) =~= text_of_leaves(a) + text_of_leaves(b));
    }
}

impl Node {
    /// The text of the tree: that of its leaves, from left to right.
    pub open spec fn text(&self) -> Seq<char>
        decreases self,
    {
        match self {
            Node::Leaf(l) => l.text(),
            Node::Concat(c) => c.left.text() + c.right.text(),
        }
    }

    /// The leaves of the tree, from left to right.
    pub open spec fn leaves(&self) -> Seq<Leaf>
        decreases self,
    {
        match self {
            Node::Leaf(l) => seq![*l],
            Node::Concat(c) => c.left.leaves() + c.right.leaves(),
        }
    }

    /// The number of characters that the node records.
    pub open spec fn spec_char_len(&self) -> nat {
        match self {
            Node::Leaf(l) => l.char_len as nat,
            Node::Concat(c) => c.char_len as nat,
        }
    }

    /// The number of bytes that the node records.
    pub open spec fn spec_byte_len(&self) -> nat {
        match self {
            Node::Leaf(l) => l.byte_len as nat,
            Node::Concat(c) => c.byte_len as nat,
        }
    }

    /// The height that the node records; a leaf has height `0`.
    pub open spec fn spec_height(&self) -> nat {
        match self {
            Node::Leaf(l) => 0,
            Node::Concat(c) => c.height as nat,
        }
    }

    /// Every leaf is well formed, and every concatenation records the sums
    /// of its children's lengths and one more than the larger height.
    pub open spec fn wf(&self) -> bool
        decreases self,
    {
        match self {
            Node::Leaf(l) => l.wf(),
            Node::Concat(c) => {
                &&& c.left.wf()
                &&& c.right.wf()
                &&& c.char_len == c.left.spec_char_len() + c.right.spec_char_len()
                &&& c.byte_len == c.left.spec_byte_len() + c.right.spec_byte_len()
                &&& c.height == 1 + if c.left.spec_height() >= c.right.spec_height() {
                    c.left.spec_height()
                } else {
                    c.right.spec_height()
                }
            },
        }
    }

    /// The leaves of a well-formed tree are well formed, and their
    /// characters are the text of the tree.
    pub proof fn lemma_leaves(&self)
        requires
            self.wf(),
        ensures
            forall|k: int| 0 <= k < self.leaves().len() ==> (#[trigger] self.leaves()[k]).wf(),
            text_of_leaves(self.leaves()) == self.text(),
        decreases self,
    {
        match self {
            Node::Leaf(l) => {
                assert(self.leaves().drop_first() =~= Seq::<Leaf>::empty());
                assert(text_of_leaves(self.leaves().drop_first()) =~= Seq::<char>::empty());
                assert(text_of_leaves(self.leaves()) =~= l.text());
            },
            Node::Concat(c) => {
                c.left.lemma_leaves();
                c.right.lemma_leaves();
                lemma_text_of_leaves_concat(c.left.leaves(), c.right.leaves());
            },
        }
    }

    /// A tree of height `h` has at most two to the power `h` leaves.
    pub proof fn lemma_leaf_count(&self)
        requires
            self.wf(),
        ensures
            1 <= self.leaves().len() <= pow2(self.spec_height()),
            ceil_log2(self.leaves().len()) <= self.spec_height(),
        decreases self,
    {
        match self {
            Node::Leaf(l) => {
                assert(pow2(0) == 1);
                assert(ceil_log2(1) == 0);
            },
            Node::Concat(c) => {
                c.left.lemma_leaf_count();
                c.right.lemma_leaf_count();
                lemma_pow2_monotonic(c.left.spec_height(), (c.height - 1) as nat);
                lemma_pow2_monotonic(c.right.spec_height(), (c.height - 1) as nat);
                assert(pow2(c.height as nat) == 2 * pow2((c.height - 1) as nat));
                lemma_ceil_log2_monotonic(self.leaves().len(), pow2(self.spec_height()));
                lemma_ceil_log2_pow2(self.spec_height());
            },
        }
    }

    /// A tree with bounded leaves, adopted anew from its text, would have
    /// no more leaves than it has, and would be no higher than it is.
    pub proof fn lemma_bounded(&self)
        requires
            self.wf(),
            bounded(self.leaves()),
        ensures
            self.spec_char_len() <= MAX_LEAF_CHAR_LEN * self.leaves().len(),
            chunk_count(self.spec_char_len()) <= self.leaves().len(),
            ceil_log2(chunk_count(self.spec_char_len())) <= self.spec_height(),
        decreases self,
    {
        match self {
            Node::Leaf(l) => {
                assert(self.leaves()[0] == *l);
            },
            Node::Concat(c) => {
                lemma_bounded_halves(c.left.leaves(), c.right.leaves());
                c.left.lemma_bounded();
                c.right.lemma_bounded();
            },
        }
        self.lemma_leaf_count();
        lemma_ceil_log2_monotonic(chunk_count(self.spec_char_len()), self.leaves().len());
    }

    /// What the recorded numbers of a well-formed tree mean: the lengths
    /// are those of the text and of its encoding, and the tree is lower
    /// than it has bytes.
    pub proof fn lemma_wf(&self)
        requires
            self.wf(),
        ensures
            self.text().len() == self.spec_char_len(),
            encode_utf8(self.text()).len() == self.spec_byte_len(),
            self.spec_height() < self.spec_byte_len(),
            0 < self.spec_char_len() <= self.spec_byte_len(),
            self.leaves().len() > 0,
        decreases self,
    {
        match self {
            Node::Leaf(l) => {
                encode_utf8_valid_utf8(l.content@);
                lemma_range_bytes(l.buffer(), l.byte_offset as int, l.byte_offset + l.byte_len);
                lemma_range_char_count(
                    l.buffer(),
                    l.byte_offset as int,
                    l.byte_offset + l.byte_len,
                );
            },
            Node::Concat(c) => {
                c.left.lemma_wf();
                c.right.lemma_wf();
                lemma_encode_concat(c.left.text(), c.right.text());
            },
        }
    }
}

/// The number of bytes of the text of `node`.
pub fn byte_len(node: &Node) -> (n: usize)
    ensures
        n == node.spec_byte_len(),
{
    match node {
        Node::Leaf(y) => y.byte_len,
        Node::Concat(y) => y.byte_len,
    }
}

/// The number of characters of the text of `node`.
pub fn char_len(node: &Node) -> (n: usize)
    ensures
        n == node.spec_char_len(),
{
    match node {
        Node::Leaf(y) => y.char_len,
        Node::Concat(y) => y.char_len,
    }
}

/// The height of `node`.
pub fn height(node: &Node) -> (h: usize)
    ensures
        h == node.spec_height(),
{
    match node {
        Node::Leaf(_) => 0,
        Node::Concat(x) => x.height,
    }
}

/// The node over `left` and `right`: it records the sums of their
/// lengths and one more than the larger of their heights.
pub open spec fn joined(left: Arc<Node>, right: Arc<Node>) -> Arc<Node> {
    Arc::new(
        Node::Concat(
            Concat {
                left,
                right,
                char_len: (left.spec_char_len() + right.spec_char_len()) as usize,
                byte_len: (left.spec_byte_len() + right.spec_byte_len()) as usize,
                height: (1 + if left.spec_height() >= right.spec_height() {
                    left.spec_height()
                } else {
                    right.spec_height()
                }) as usize,
            },
        ),
    )
}

/// `joined`, as what a tournament of trees goes by.
pub open spec fn join_trees() -> spec_fn(Arc<Node>, Arc<Node>) -> Arc<Node> {
    |left: Arc<Node>, right: Arc<Node>| joined(left, right)
}

/// The leaves, each as a tree of its own.
pub open spec fn as_trees(leaves: Seq<Leaf>) -> Seq<Arc<Node>> {
    Seq::new(leaves.len(), |k: int| Arc::new(Node::Leaf(leaves[k])))
}

/// The concatenation of two trees, in one new node.
pub fn concat2(left: Arc<Node>, right: Arc<Node>) -> (r: Arc<Node>)
    requires
        left.wf(),
        right.wf(),
        left.spec_byte_len() + right.spec_byte_len() <= usize::MAX,
    ensures
        r.wf(),
        r == joined(left, right),
        r.text() == left.text() + right.text(),
        r.leaves() == left.leaves() + right.leaves(),
{
    proof {
        left.lemma_wf();
        right.lemma_wf();
    }
    let char_len = char_len(&left) + char_len(&right);
    let byte_len = byte_len(&left) + byte_len(&right);
    let hl = height(&left);
    let hr = height(&right);
    let height = if hl >= hr {
        hl + 1
    } else {
        hr + 1
    };
    Arc::new(Node::Concat(Concat { left, right, char_len, byte_len, height }))
}

/// The texts of the trees of a list.
pub open spec fn texts_of(nodes: Seq<Arc<Node>>) -> Seq<Seq<char>> {
    Seq::new(nodes.len(), |k: int| nodes[k].text())
}

/// The leaves of the trees of a list.
pub open spec fn leaves_of(nodes: Seq<Arc<Node>>) -> Seq<Seq<Leaf>> {
    Seq::new(nodes.len(), |k: int| nodes[k].leaves())
}

/// The number of leaves into which a text of `char_len` characters is cut.
pub open spec fn chunk_count(char_len: nat) -> nat {
    (char_len + MAX_LEAF_CHAR_LEN - 1) as nat / (MAX_LEAF_CHAR_LEN as nat)
}

/// The number of characters of the first of these leaves: it takes what
/// the others, all full, leave over.
pub open spec fn first_chunk_len(char_len: nat) -> nat {
    if char_len % (MAX_LEAF_CHAR_LEN as nat) == 0 {
        MAX_LEAF_CHAR_LEN as nat
    } else {
        char_len % (MAX_LEAF_CHAR_LEN as nat)
    }
}

/// The leaves are those into which `char_len` characters of `buffer` are
/// cut: as many as `chunk_count` says, all over `buffer`, the first of
/// `first_chunk_len` characters and the others of `MAX_LEAF_CHAR_LEN`.
pub open spec fn is_chunking(leaves: Seq<Leaf>, buffer: Arc<String>, char_len: nat) -> bool {
    &&& leaves.len() == chunk_count(char_len)
    &&& forall|k: int|
        0 <= k < leaves.len() ==> (#[trigger] leaves[k]).content == buffer && leaves[k].char_len
            == if k == 0 {
            first_chunk_len(char_len)
        } else {
            MAX_LEAF_CHAR_LEN as nat
        }
}

/// The leaves lie one after the other in their buffer, from byte `start`
/// to byte `end`.
pub open spec fn contiguous(leaves: Seq<Leaf>, start: int, end: int) -> bool {
    &&& leaves.len() > 0
    &&& leaves[0].byte_offset == start
    &&& forall|j: int, k: int|
        0 <= j && k == j + 1 && k < leaves.len() ==> (#[trigger] leaves[k]).byte_offset == (
        #[trigger] leaves[j]).byte_offset + leaves[j].byte_len
    &&& leaves.last().byte_offset + leaves.last().byte_len == end
}

/// Adopts a slice of a buffer as a tree, given the number of its characters.
///
/// A slice of at most `MAX_LEAF_CHAR_LEN` characters becomes one leaf. A
/// longer one is cut into leaves of `MAX_LEAF_CHAR_LEN` characters, the
/// first one shorter if need be, which are then joined pairwise, round
/// after round, into a tree of minimal height. The buffer is shared, not
/// copied.
#[verifier::rlimit(50)]
pub fn of_substr_unsafer(
    buffer: Arc<String>,
    byte_start: usize,
    byte_len: usize,
    char_len: usize,
) -> (r: Arc<Node>)
    requires
        byte_len > 0,
        is_char_range(encode_utf8(buffer@), byte_start as int, byte_start + byte_len),
        char_len == chars_between(
            encode_utf8(buffer@),
            byte_start as int,
            byte_start + byte_len,
        ).len(),
    ensures
        r.wf(),
        r.text() == chars_between(encode_utf8(buffer@), byte_start as int, byte_start + byte_len),
        is_chunking(r.leaves(), buffer, char_len as nat),
        contiguous(r.leaves(), byte_start as int, byte_start + byte_len),
        r.spec_height() == ceil_log2(chunk_count(char_len as nat)),
        r == tournament(as_trees(r.leaves()), join_trees()),
{
    let ghost bytes = encode_utf8(buffer@);
    let ghost end = byte_start + byte_len;
    let ghost whole = chars_between(bytes, byte_start as int, end);
    let total: usize = len(buffer.as_str());
    proof {
        encode_utf8_valid_utf8(buffer@);
        lemma_range_char_count(bytes, byte_start as int, end);
        lemma_range_bytes(bytes, byte_start as int, end);
    }
    if char_len <= MAX_LEAF_CHAR_LEN {
        let candidate = Leaf { byte_offset: byte_start, byte_len, char_len, content: buffer };
        let r = Arc::new(Node::Leaf(candidate));
        assert(ceil_log2(1) == 0);
        assert(as_trees(r.leaves())[0] == r);
        return r;
    }
    let mut leaves: usize = char_len / MAX_LEAF_CHAR_LEN + if char_len % MAX_LEAF_CHAR_LEN == 0 {
        0
    } else {
        1
    };
    let first_leaf_char_len: usize = if char_len % MAX_LEAF_CHAR_LEN == 0 {
        MAX_LEAF_CHAR_LEN
    } else {
        char_len % MAX_LEAF_CHAR_LEN
    };
    let mut nodes: Vec<Arc<Node>> = Vec::new();
    let mut i: usize = 0;
    let mut offset: usize = byte_start;
    proof {
        assert(bytes.subrange(byte_start as int, byte_start as int) =~= Seq::<u8>::empty());
    }
    let ghost mut starts: Seq<int> = seq![byte_start as int];
    // First, cut the slice into leaves.
    while i < leaves
        invariant
            bytes == encode_utf8(buffer@),
            valid_utf8(bytes),
            bytes.len() == total,
            end == byte_start + byte_len,
            whole == chars_between(bytes, byte_start as int, end),
            char_len == whole.len(),
            char_len > MAX_LEAF_CHAR_LEN,
            leaves == chunk_count(char_len as nat),
            first_leaf_char_len == first_chunk_len(char_len as nat),
            i <= leaves,
            nodes@.len() == i,
            is_char_range(bytes, byte_start as int, offset as int),
            is_char_range(bytes, offset as int, end),
            chars_between(bytes, byte_start as int, offset as int).len() == if i == 0 {
                0
            } else {
                first_leaf_char_len + (i - 1) * MAX_LEAF_CHAR_LEN
            },
            flat(texts_of(nodes@), 0, i as int) == chars_between(
                bytes,
                byte_start as int,
                offset as int,
            ),
            forall|k: int|
                0 <= k < i ==> {
                    &&& (#[trigger] nodes@[k]).wf()
                    &&& (*nodes@[k]) is Leaf
                    &&& (*nodes@[k])->Leaf_0.content == buffer
                    &&& (*nodes@[k])->Leaf_0.char_len == if k == 0 {
                        first_leaf_char_len
                    } else {
                        MAX_LEAF_CHAR_LEN
                    }
                    &&& (*nodes@[k])->Leaf_0.byte_offset == starts[k]
                    &&& (*nodes@[k])->Leaf_0.byte_offset + (*nodes@[k])->Leaf_0.byte_len
                        == starts[k + 1]
                },
            starts.len() == i + 1,
            starts[0] == byte_start,
            starts[i as int] == offset,
        decreases leaves - i,
    {
        let chunk_char_len: usize = if i == 0 {
            first_leaf_char_len
        } else {
            MAX_LEAF_CHAR_LEN
        };
        proof {
            lemma_chars_split(bytes, byte_start as int, offset as int, end);
            is_char_boundary_start_end_of_seq(bytes);
            lemma_chars_split(bytes, offset as int, end, bytes.len() as int);
        }
        let chunk_byte_len = count_bytes(buffer.as_str(), offset, chunk_char_len);
        proof {
            let next = offset + chunk_byte_len;
            if next > end {
                lemma_chars_split(bytes, offset as int, end, next);
                lemma_range_char_count(bytes, end, next);
                assert(false);
            }
            lemma_chars_split(bytes, byte_start as int, offset as int, next);
            lemma_range_char_count(bytes, offset as int, next);
        }
        let leaf = Leaf {
            byte_offset: offset,
            byte_len: chunk_byte_len,
            char_len: chunk_char_len,
            content: buffer.clone(),
        };
        let ghost before = nodes@;
        nodes.push(Arc::new(Node::Leaf(leaf)));
        proof {
            lemma_flat_frame(texts_of(before), texts_of(nodes@), 0, i as int);
            assert(texts_of(nodes@)[i as int] == leaf.text());
        }
        offset += chunk_byte_len;
        i += 1;
        proof {
            starts = starts.push(offset as int);
        }
    }
    let ghost all_leaves = flat(leaves_of(nodes@), 0, leaves as int);
    let ghost count = leaves;
    proof {
        if offset < end {
            lemma_chars_split(bytes, byte_start as int, offset as int, end);
            lemma_range_char_count(bytes, offset as int, end);
            assert(false);
        }
        assert forall|k: int| 0 <= k < leaves implies (#[trigger] leaves_of(nodes@)[k]).len()
            == 1 by {
            assert(nodes@[k].wf());
        }
        lemma_flat_singletons(leaves_of(nodes@), leaves as int);
        assert forall|k: int| 0 <= k < leaves implies (#[trigger] all_leaves[k]).content
            == buffer && all_leaves[k].char_len == if k == 0 {
            first_leaf_char_len
        } else {
            MAX_LEAF_CHAR_LEN
        } by {
            assert(nodes@[k].wf());
            assert(leaves_of(nodes@)[k][0] == (*nodes@[k])->Leaf_0);
        }
        assert(contiguous(all_leaves, byte_start as int, end)) by {
            assert forall|k: int| 0 <= k < leaves implies (#[trigger] all_leaves[k])
                == (*nodes@[k])->Leaf_0 by {
                assert(nodes@[k].wf());
                assert(leaves_of(nodes@)[k][0] == (*nodes@[k])->Leaf_0);
            }
            assert(nodes@[0].wf());
            assert(nodes@[leaves - 1].wf());
            assert forall|j: int, k: int| 0 <= j && k == j + 1 && k < all_leaves.len() implies (
            #[trigger] all_leaves[k]).byte_offset == (#[trigger] all_leaves[j]).byte_offset
                + all_leaves[j].byte_len by {
                assert(nodes@[j].wf());
                assert(nodes@[k].wf());
            }
        }
        assert(nodes@.take(leaves as int) =~= as_trees(all_leaves)) by {
            assert forall|k: int| 0 <= k < leaves implies nodes@[k] == #[trigger] as_trees(
                all_leaves,
            )[k] by {
                assert(nodes@[k].wf());
                assert(leaves_of(nodes@)[k][0] == (*nodes@[k])->Leaf_0);
            }
        }
    }
    // Then, join the leaves pairwise until one tree is left.
    let ghost mut rounds: nat = 0;
    while leaves > 1
        invariant
            1 <= leaves <= nodes@.len(),
            forall|k: int| 0 <= k < leaves ==> (#[trigger] nodes@[k]).wf(),
            forall|k: int| 0 <= k < leaves ==> (#[trigger] nodes@[k]).spec_height() <= rounds,
            nodes@[0].spec_height() == rounds,
            flat(texts_of(nodes@), 0, leaves as int) == whole,
            flat(leaves_of(nodes@), 0, leaves as int) == all_leaves,
            encode_utf8(whole).len() <= usize::MAX,
            rounds + ceil_log2(leaves as nat) == ceil_log2(count as nat),
            tournament(nodes@.take(leaves as int), join_trees()) == tournament(
                as_trees(all_leaves),
                join_trees(),
            ),
        decreases leaves,
    {
        let ghost round = nodes@.take(leaves as int);
        i = 0;
        proof {
            assert(flat(texts_of(nodes@), 0, 0) + flat(texts_of(nodes@), 0, leaves as int)
                =~= whole);
            assert(flat(leaves_of(nodes@), 0, 0) + flat(leaves_of(nodes@), 0, leaves as int)
                =~= all_leaves);
        }
        while i + 1 < leaves
            invariant
                2 <= leaves <= nodes@.len(),
                i % 2 == 0,
                i <= leaves,
                forall|k: int| 0 <= k < i / 2 ==> (#[trigger] nodes@[k]).wf(),
                forall|k: int|
                    0 <= k < i / 2 ==> (#[trigger] nodes@[k]).spec_height() <= rounds + 1,
                forall|k: int| i <= k < leaves ==> (#[trigger] nodes@[k]).wf(),
                forall|k: int| i <= k < leaves ==> (#[trigger] nodes@[k]).spec_height() <= rounds,
                nodes@[0].spec_height() == if i == 0 {
                    rounds
                } else {
                    rounds + 1
                },
                flat(texts_of(nodes@), 0, i as int / 2) + flat(
                    texts_of(nodes@),
                    i as int,
                    leaves as int,
                ) == whole,
                flat(leaves_of(nodes@), 0, i as int / 2) + flat(
                    leaves_of(nodes@),
                    i as int,
                    leaves as int,
                ) == all_leaves,
                encode_utf8(whole).len() <= usize::MAX,
                round.len() == leaves,
                forall|k: int|
                    0 <= k < i / 2 ==> (#[trigger] nodes@[k]) == paired(round, join_trees())[k],
                forall|k: int| i <= k < leaves ==> (#[trigger] nodes@[k]) == round[k],
            decreases leaves - i,
        {
            let left = nodes[i].clone();
            let right = nodes[i + 1].clone();
            let ghost before = nodes@;
            proof {
                assert(before[i as int].wf() && before[i + 1].wf());
                left.lemma_wf();
                right.lemma_wf();
                lemma_pair_bytes(texts_of(before), i as int / 2, i as int, leaves as int);
                lemma_merge_pair(texts_of(before), i as int / 2, i as int, leaves as int);
                lemma_merge_pair(leaves_of(before), i as int / 2, i as int, leaves as int);
            }
            let joined = concat2(left, right);
            nodes.set(i / 2, joined);
            proof {
                assert(texts_of(nodes@) =~= texts_of(before).update(
                    i as int / 2,
                    texts_of(before)[i as int] + texts_of(before)[i + 1],
                ));
                assert(leaves_of(nodes@) =~= leaves_of(before).update(
                    i as int / 2,
                    leaves_of(before)[i as int] + leaves_of(before)[i + 1],
                ));
            }
            i += 2;
        }
        if i + 1 == leaves {
            // The last leaf had no partner: it moves up as it is.
            let last = nodes[i].clone();
            let ghost before = nodes@;
            proof {
                lemma_carry_last(texts_of(before), i as int / 2, leaves as int);
                lemma_carry_last(leaves_of(before), i as int / 2, leaves as int);
            }
            nodes.set(i / 2, last);
            proof {
                assert(texts_of(nodes@) =~= texts_of(before).update(
                    i as int / 2,
                    texts_of(before)[leaves - 1],
                ));
                assert(leaves_of(nodes@) =~= leaves_of(before).update(
                    i as int / 2,
                    leaves_of(before)[leaves - 1],
                ));
            }
        } else {
            proof {
                assert(flat(texts_of(nodes@), i as int, leaves as int) =~= Seq::<char>::empty());
                assert(flat(leaves_of(nodes@), i as int, leaves as int) =~= Seq::<Leaf>::empty());
                assert(flat(texts_of(nodes@), 0, i as int / 2) =~= whole);
                assert(flat(leaves_of(nodes@), 0, i as int / 2) =~= all_leaves);
            }
        }
        leaves = leaves / 2 + leaves % 2;
        proof {
            rounds = rounds + 1;
            assert(nodes@.take(leaves as int) =~= paired(round, join_trees()));
        }
    }
    let r = nodes[0].clone();
    proof {
        assert(nodes@.take(1)[0] == nodes@[0]);
        assert(flat(texts_of(nodes@), 0, 0) =~= Seq::<char>::empty());
        assert(flat(leaves_of(nodes@), 0, 0) =~= Seq::<Leaf>::empty());
        assert(flat(texts_of(nodes@), 0, 1) =~= nodes@[0].text());
        assert(flat(leaves_of(nodes@), 0, 1) =~= nodes@[0].leaves());
    }
    r
}

/// Adopts a slice of a buffer as a tree, counting its characters first.
pub fn of_substr(buffer: Arc<String>, byte_start: usize, byte_len: usize) -> (r: Arc<Node>)
    requires
        byte_len > 0,
        is_char_range(encode_utf8(buffer@), byte_start as int, byte_start + byte_len),
    ensures
        r.wf(),
        r.text() == chars_between(encode_utf8(buffer@), byte_start as int, byte_start + byte_len),
        is_chunking(r.leaves(), buffer, r.text().len()),
        contiguous(r.leaves(), byte_start as int, byte_start + byte_len),
        r.spec_height() == ceil_log2(chunk_count(r.text().len())),
        r == tournament(as_trees(r.leaves()), join_trees()),
{
    let total: usize = len(buffer.as_str());
    assert(byte_start + byte_len <= total);
    let char_len = count_chars(buffer.as_str(), byte_start, byte_start + byte_len);
    of_substr_unsafer(buffer, byte_start, byte_len, char_len)
}

/// Adopts a whole buffer, which is not empty, as a tree.
pub fn of_str(buffer: Arc<String>) -> (r: Arc<Node>)
    requires
        buffer@.len() > 0,
    ensures
        r.wf(),
        r.text() == buffer@,
        is_chunking(r.leaves(), buffer, buffer@.len()),
        contiguous(r.leaves(), 0, encode_utf8(buffer@).len() as int),
        r.spec_height() == ceil_log2(chunk_count(buffer@.len())),
        r == tournament(as_trees(r.leaves()), join_trees()),
{
    proof {
        lemma_whole_range(buffer@);
        vstd::utf8::encode_utf8_decode_utf8(buffer@);
        if encode_utf8(buffer@).len() == 0 {
            assert(decode_utf8(encode_utf8(buffer@)).len() == 0);
        }
    }
    let n = len(buffer.as_str());
    of_substr(buffer, 0, n)
}

} // verus!
