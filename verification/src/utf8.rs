//! Character boundaries and byte ranges of UTF-8 buffers.
//!
//! Everything here is stated over `vstd::utf8`: a buffer is a `Seq<u8>` that
//! satisfies `valid_utf8`, and a position is an index between `0` and the
//! buffer's length at which `is_char_boundary` holds.
use vstd::prelude::*;
use vstd::utf8::*;

verus! {

/// The characters encoded by the bytes of `bytes` in `[start, end)`.
pub open spec fn chars_between(bytes: Seq<u8>, start: int, end: int) -> Seq<char> {
    decode_utf8(bytes.subrange(start, end))
}

/// `[start, end)` lies inside `bytes` and neither end cuts a character.
pub open spec fn is_char_range(bytes: Seq<u8>, start: int, end: int) -> bool {
    &&& 0 <= start <= end <= bytes.len()
    &&& is_char_boundary(bytes, start)
    &&& is_char_boundary(bytes, end)
}

/// The number of bytes that the first `n` characters after `start` occupy.
pub open spec fn bytes_of_chars(bytes: Seq<u8>, start: int, n: int) -> int {
    encode_utf8(chars_between(bytes, start, bytes.len() as int).take(n)).len() as int
}

/// The encoding of a concatenation is the concatenation of the encodings.
pub proof fn lemma_encode_concat(a: Seq<char>, b: Seq<char>)
    ensures
        encode_utf8(a + b) == encode_utf8(a) + encode_utf8(b),
    decreases a.len(),
{
    if a.len() == 0 {
        assert(a + b =~= b);
        assert(encode_utf8(a) + encode_utf8(b) =~= encode_utf8(b));
    } else {
        lemma_encode_concat(a.drop_first(), b);
        assert((a + b).drop_first() =~= a.drop_first() + b);
        assert(encode_utf8(a + b) =~= encode_utf8(a) + encode_utf8(b));
    }
}

/// A range between two boundaries of a valid buffer is itself valid UTF-8.
pub proof fn lemma_range_valid(bytes: Seq<u8>, start: int, end: int)
    requires
        valid_utf8(bytes),
        is_char_range(bytes, start, end),
    ensures
        valid_utf8(bytes.subrange(start, end)),
{
    valid_utf8_split(bytes, end);
    let head = bytes.subrange(0, end);
    if start == end {
        is_char_boundary_start_end_of_seq(head);
    } else {
        is_char_boundary_iff_not_is_continuation_byte(head, start);
        is_char_boundary_iff_not_is_continuation_byte(bytes, start);
        assert(head[start] == bytes[start]);
    }
    valid_utf8_split(head, start);
    assert(head.subrange(start, head.len() as int) =~= bytes.subrange(start, end));
}

/// Inside a range, the boundaries are those of the whole buffer.
pub proof fn lemma_boundary_in_range(bytes: Seq<u8>, start: int, mid: int, end: int)
    requires
        valid_utf8(bytes),
        is_char_range(bytes, start, end),
        start <= mid <= end,
    ensures
        is_char_boundary(bytes.subrange(start, end), mid - start) <==> is_char_boundary(
            bytes,
            mid,
        ),
{
    lemma_range_valid(bytes, start, end);
    let sub = bytes.subrange(start, end);
    if mid == end {
        is_char_boundary_start_end_of_seq(sub);
    } else {
        is_char_boundary_iff_not_is_continuation_byte(sub, mid - start);
        is_char_boundary_iff_not_is_continuation_byte(bytes, mid);
        assert(sub[mid - start] == bytes[mid]);
    }
}

/// The characters of two adjacent ranges are those of their union.
pub proof fn lemma_chars_split(bytes: Seq<u8>, start: int, mid: int, end: int)
    requires
        valid_utf8(bytes),
        is_char_range(bytes, start, mid),
        is_char_range(bytes, mid, end),
    ensures
        chars_between(bytes, start, end) == chars_between(bytes, start, mid) + chars_between(
            bytes,
            mid,
            end,
        ),
{
    lemma_range_valid(bytes, start, end);
    lemma_boundary_in_range(bytes, start, mid, end);
    let sub = bytes.subrange(start, end);
    decode_utf8_split(sub, mid - start);
    assert(sub.subrange(0, mid - start) =~= bytes.subrange(start, mid));
    assert(sub.subrange(mid - start, sub.len() as int) =~= bytes.subrange(mid, end));
}

/// Encoding the characters of a range gives back its bytes.
pub proof fn lemma_range_bytes(bytes: Seq<u8>, start: int, end: int)
    requires
        valid_utf8(bytes),
        is_char_range(bytes, start, end),
    ensures
        encode_utf8(chars_between(bytes, start, end)) == bytes.subrange(start, end),
{
    lemma_range_valid(bytes, start, end);
    decode_utf8_encode_utf8(bytes.subrange(start, end));
}

/// A valid buffer has at most as many characters as bytes, and at least one
/// character if it has a byte.
pub proof fn lemma_char_count(bytes: Seq<u8>)
    requires
        valid_utf8(bytes),
    ensures
        decode_utf8(bytes).len() <= bytes.len(),
        bytes.len() > 0 ==> decode_utf8(bytes).len() > 0,
    decreases bytes.len(),
{
    if bytes.len() > 0 {
        lemma_char_count(pop_first_scalar(bytes));
    }
}

/// The same for a range of a valid buffer.
pub proof fn lemma_range_char_count(bytes: Seq<u8>, start: int, end: int)
    requires
        valid_utf8(bytes),
        is_char_range(bytes, start, end),
    ensures
        chars_between(bytes, start, end).len() <= end - start,
        start < end ==> chars_between(bytes, start, end).len() > 0,
{
    lemma_range_valid(bytes, start, end);
    lemma_char_count(bytes.subrange(start, end));
}

/// At a boundary before the end of a valid buffer one character starts; it
/// takes between one and four bytes, and the next boundary follows it.
pub proof fn lemma_first_char(bytes: Seq<u8>, i: int)
    requires
        valid_utf8(bytes),
        0 <= i < bytes.len(),
        is_char_boundary(bytes, i),
    ensures
        ({
            let tail = bytes.subrange(i, bytes.len() as int);
            let k = length_of_first_scalar(tail);
            &&& valid_first_scalar(tail)
            &&& 1 <= k <= 4
            &&& i + k <= bytes.len()
            &&& is_char_boundary(bytes, i + k)
            &&& chars_between(bytes, i, i + k) == seq![decode_first_scalar(tail) as char]
        }),
{
    let n = bytes.len() as int;
    let tail = bytes.subrange(i, n);
    let k = length_of_first_scalar(tail);
    is_char_boundary_start_end_of_seq(bytes);
    lemma_range_valid(bytes, i, n);
    assert(valid_first_scalar(tail) && valid_utf8(pop_first_scalar(tail)));
    let rest = pop_first_scalar(tail);
    assert(rest =~= bytes.subrange(i + k, n));
    if i + k < n {
        assert(valid_first_scalar(rest));
        assert(rest[0] == bytes[i + k]);
        is_char_boundary_iff_not_is_continuation_byte(bytes, i + k);
    }
    let one = bytes.subrange(i, i + k);
    lemma_range_valid(bytes, i, i + k);
    assert(one[0] == tail[0]);
    assert(k >= 2 ==> one[1] == tail[1]);
    assert(k >= 3 ==> one[2] == tail[2]);
    assert(k >= 4 ==> one[3] == tail[3]);
    assert(pop_first_scalar(one) =~= Seq::<u8>::empty());
    assert(decode_utf8(pop_first_scalar(one)) =~= Seq::<char>::empty());
    assert(decode_utf8(one) =~= seq![decode_first_scalar(tail) as char]);
}

/// A character that starts before a boundary ends at or before it.
pub proof fn lemma_next_within(bytes: Seq<u8>, i: int, end: int)
    requires
        valid_utf8(bytes),
        is_char_range(bytes, i, end),
        i < end,
    ensures
        i + length_of_first_scalar(bytes.subrange(i, bytes.len() as int)) <= end,
{
    let n = bytes.len() as int;
    let k = length_of_first_scalar(bytes.subrange(i, n));
    lemma_first_char(bytes, i);
    lemma_range_valid(bytes, i, end);
    let sub = bytes.subrange(i, end);
    let tail = bytes.subrange(i, n);
    assert(valid_first_scalar(sub));
    assert(sub[0] == tail[0]);
    assert(length_of_first_scalar(sub) == k);
}

/// Where two valid buffers are joined, the boundaries are those of the
/// two buffers.
pub proof fn lemma_boundary_concat(a: Seq<u8>, b: Seq<u8>, p: int)
    requires
        valid_utf8(a),
        valid_utf8(b),
        0 <= p <= a.len() + b.len(),
    ensures
        valid_utf8(a + b),
        p <= a.len() ==> (is_char_boundary(a + b, p) <==> is_char_boundary(a, p)),
        p >= a.len() ==> (is_char_boundary(a + b, p) <==> is_char_boundary(b, p - a.len())),
{
    let ab = a + b;
    valid_utf8_concat(a, b);
    is_char_boundary_start_end_of_seq(a);
    is_char_boundary_start_end_of_seq(b);
    is_char_boundary_start_end_of_seq(ab);
    if p < a.len() {
        is_char_boundary_iff_not_is_continuation_byte(ab, p);
        is_char_boundary_iff_not_is_continuation_byte(a, p);
        assert(ab[p] == a[p]);
    } else if p < ab.len() {
        is_char_boundary_iff_not_is_continuation_byte(ab, p);
        is_char_boundary_iff_not_is_continuation_byte(b, p - a.len());
        assert(ab[p] == b[p - a.len()]);
    }
}

/// A whole string is the range from `0` to its length.
pub proof fn lemma_whole_range(chars: Seq<char>)
    ensures
        valid_utf8(encode_utf8(chars)),
        is_char_range(encode_utf8(chars), 0, encode_utf8(chars).len() as int),
        chars_between(encode_utf8(chars), 0, encode_utf8(chars).len() as int) == chars,
{
    let bytes = encode_utf8(chars);
    encode_utf8_valid_utf8(chars);
    encode_utf8_decode_utf8(chars);
    is_char_boundary_start_end_of_seq(bytes);
    assert(bytes.subrange(0, bytes.len() as int) =~= bytes);
}

/// The number of characters of the string `s` that end at or before byte
/// `i` of its encoding.
pub open spec fn char_index(s: Seq<char>, i: int) -> int {
    chars_between(encode_utf8(s), 0, i).len() as int
}

/// Decoding at a boundary of the encoding of `s` gives the character of
/// `s` whose index is the number of characters before the boundary, and
/// leads to the boundary before the next character.
pub proof fn lemma_char_step(s: Seq<char>, i: int)
    requires
        0 <= i < encode_utf8(s).len(),
        is_char_boundary(encode_utf8(s), i),
    ensures
        ({
            let bytes = encode_utf8(s);
            let tail = bytes.subrange(i, bytes.len() as int);
            let next = i + length_of_first_scalar(tail);
            &&& 0 <= char_index(s, i) < s.len()
            &&& decode_first_scalar(tail) as char == s[char_index(s, i)]
            &&& i < next <= bytes.len()
            &&& is_char_boundary(bytes, next)
            &&& char_index(s, next) == char_index(s, i) + 1
            &&& chars_between(bytes, 0, i) == s.take(char_index(s, i))
            &&& chars_between(bytes, next, bytes.len() as int) == s.skip(char_index(s, i) + 1)
        }),
{
    let bytes = encode_utf8(s);
    let n = bytes.len() as int;
    let tail = bytes.subrange(i, n);
    let next = i + length_of_first_scalar(tail);
    lemma_whole_range(s);
    lemma_first_char(bytes, i);
    lemma_chars_split(bytes, 0, i, next);
    lemma_chars_split(bytes, 0, next, n);
    lemma_chars_split(bytes, 0, i, n);
    let before = chars_between(bytes, 0, i);
    let after = chars_between(bytes, next, n);
    let c = decode_first_scalar(tail) as char;
    assert(s =~= (before + seq![c]) + after);
    assert(s[before.len() as int] == c);
    assert(s.take(before.len() as int) =~= before);
    assert(s.skip(before.len() as int + 1) =~= after);
}

/// The encoding of a string is valid, begins and ends at a boundary, and
/// no character ends before its first byte.
pub proof fn lemma_char_index_start(s: Seq<char>)
    ensures
        valid_utf8(encode_utf8(s)),
        is_char_boundary(encode_utf8(s), 0),
        is_char_boundary(encode_utf8(s), encode_utf8(s).len() as int),
        char_index(s, 0) == 0,
{
    lemma_whole_range(s);
    assert(encode_utf8(s).subrange(0, 0) =~= Seq::<u8>::empty());
}

/// The first boundary is before the first character, the last one after
/// the last, and only there are all characters before the boundary.
pub proof fn lemma_char_index_ends(s: Seq<char>, i: int)
    requires
        0 <= i <= encode_utf8(s).len(),
        is_char_boundary(encode_utf8(s), i),
    ensures
        char_index(s, 0) == 0,
        char_index(s, encode_utf8(s).len() as int) == s.len(),
        0 <= char_index(s, i) <= s.len(),
        char_index(s, i) == s.len() <==> i == encode_utf8(s).len(),
        chars_between(encode_utf8(s), 0, i) == s.take(char_index(s, i)),
        chars_between(encode_utf8(s), i, encode_utf8(s).len() as int) == s.skip(
            char_index(s, i),
        ),
{
    let bytes = encode_utf8(s);
    let n = bytes.len() as int;
    lemma_whole_range(s);
    assert(bytes.subrange(0, 0) =~= Seq::<u8>::empty());
    lemma_chars_split(bytes, 0, i, n);
    lemma_range_char_count(bytes, i, n);
    let before = chars_between(bytes, 0, i);
    let after = chars_between(bytes, i, n);
    assert(s =~= before + after);
    assert(s.take(before.len() as int) =~= before);
    assert(s.skip(before.len() as int) =~= after);
    if i == n {
        assert(bytes.subrange(n, n) =~= Seq::<u8>::empty());
    }
}

/// A beginning of a valid buffer that is valid by itself ends at a
/// boundary.
pub proof fn lemma_valid_prefix_boundary(bytes: Seq<u8>, p: int)
    requires
        valid_utf8(bytes),
        0 <= p <= bytes.len(),
        valid_utf8(bytes.subrange(0, p)),
    ensures
        is_char_boundary(bytes, p),
    decreases bytes.len(),
{
    if p > 0 {
        let head = bytes.subrange(0, p);
        assert(valid_first_scalar(head) && valid_utf8(pop_first_scalar(head)));
        assert(valid_first_scalar(bytes) && valid_utf8(pop_first_scalar(bytes)));
        assert(head[0] == bytes[0]);
        let k = length_of_first_scalar(bytes);
        assert(length_of_first_scalar(head) == k);
        assert(k <= p);
        assert(pop_first_scalar(head) =~= pop_first_scalar(bytes).subrange(0, p - k));
        lemma_valid_prefix_boundary(pop_first_scalar(bytes), p - k);
    } else {
        is_char_boundary_start_end_of_seq(bytes);
    }
}

/// `needle` stands in `hay` from place `i` on.
pub open spec fn occurs_at<T>(hay: Seq<T>, needle: Seq<T>, i: int) -> bool {
    &&& 0 <= i
    &&& i + needle.len() <= hay.len()
    &&& hay.subrange(i, i + needle.len()) == needle
}

/// Where the encoding of `needle` stands in that of `hay`, `needle`
/// stands in `hay`: at its beginning if the bytes stand at the beginning,
/// at its end if they stand at the end.
pub proof fn lemma_occurs_in_bytes(hay: Seq<char>, needle: Seq<char>, j: int)
    requires
        needle.len() > 0,
        occurs_at(encode_utf8(hay), encode_utf8(needle), j),
    ensures
        is_char_boundary(encode_utf8(hay), j),
        occurs_at(hay, needle, char_index(hay, j)),
        j == 0 ==> char_index(hay, j) == 0,
        j + encode_utf8(needle).len() == encode_utf8(hay).len() ==> char_index(hay, j)
            + needle.len() == hay.len(),
{
    let big = encode_utf8(hay);
    let small = encode_utf8(needle);
    let n = big.len() as int;
    let m = small.len() as int;
    lemma_whole_range(hay);
    lemma_whole_range(needle);
    lemma_char_count(small);
    assert(valid_first_scalar(small));
    assert(big[j] == big.subrange(j, j + m)[0]);
    is_char_boundary_iff_not_is_continuation_byte(big, j);
    let tail = big.subrange(j, n);
    lemma_range_valid(big, j, n);
    assert(tail.subrange(0, m) =~= small);
    lemma_valid_prefix_boundary(tail, m);
    lemma_boundary_in_range(big, j, j + m, n);
    lemma_chars_split(big, 0, j, n);
    lemma_chars_split(big, j, j + m, n);
    assert(big.subrange(0, 0) =~= Seq::<u8>::empty());
    if j + m == n {
        assert(big.subrange(n, n) =~= Seq::<u8>::empty());
    }
    let before = chars_between(big, 0, j);
    let after = chars_between(big, j + m, n);
    encode_utf8_decode_utf8(needle);
    assert(big.subrange(j, j + m) == small);
    assert(chars_between(big, j, j + m) == needle);
    assert(hay =~= before + (needle + after));
    assert(hay.subrange(before.len() as int, (before.len() + needle.len()) as int) =~= needle);
}

/// Where `needle` stands in `hay`, the encoding of `needle` stands in
/// that of `hay`, after the bytes of the characters before.
pub proof fn lemma_occurs_in_chars(hay: Seq<char>, needle: Seq<char>, i: int)
    requires
        occurs_at(hay, needle, i),
    ensures
        occurs_at(encode_utf8(hay), encode_utf8(needle), encode_utf8(hay.take(i)).len() as int),
        i == 0 ==> encode_utf8(hay.take(i)).len() == 0,
        i + needle.len() == hay.len() ==> encode_utf8(hay.take(i)).len() + encode_utf8(
            needle,
        ).len() == encode_utf8(hay).len(),
{
    let before = hay.take(i);
    let after = hay.skip(i + needle.len());
    assert(hay =~= (before + needle) + after);
    lemma_encode_concat(before + needle, after);
    lemma_encode_concat(before, needle);
    let j = encode_utf8(before).len() as int;
    assert(encode_utf8(hay).subrange(j, j + encode_utf8(needle).len()) =~= encode_utf8(needle));
    if i == 0 {
        assert(before =~= Seq::<char>::empty());
    }
    if i + needle.len() == hay.len() {
        assert(after =~= Seq::<char>::empty());
    }
}

} // verus!
