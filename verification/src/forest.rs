//! Ordered lists of pieces and what their concatenation is.
//!
//! The tree-building loops of this crate all work on a list of pieces that
//! is merged pairwise in place; the lemmas here say that such a merge keeps
//! the concatenation of the pieces, and how many rounds of it there are.
use vstd::prelude::*;
use vstd::utf8::*;
use crate::utf8::lemma_encode_concat;

verus! {

/// The concatenation of `texts[lo]`, ..., `texts[hi - 1]`.
pub open spec fn flat<T>(texts: Seq<Seq<T>>, lo: int, hi: int) -> Seq<T>
    decreases hi - lo,
{
    if lo >= hi {
        Seq::<T>::empty()
    } else {
        flat(texts, lo, hi - 1) + texts[hi - 1]
    }
}

/// One round of pairing: the first piece joined with the second, the
/// third with the fourth, and so on; a last piece without partner stays as
/// it is.
pub open spec fn paired<T>(items: Seq<T>, join: spec_fn(T, T) -> T) -> Seq<T> {
    Seq::new(
        ((items.len() + 1) / 2) as nat,
        |k: int|
            if 2 * k + 1 < items.len() {
                join(items[2 * k], items[2 * k + 1])
            } else {
                items[2 * k]
            },
    )
}

/// The one piece that is left when rounds of pairing have used up the
/// list.
pub open spec fn tournament<T>(items: Seq<T>, join: spec_fn(T, T) -> T) -> T
    recommends
        items.len() >= 1,
    decreases items.len(),
{
    if items.len() <= 1 {
        items[0]
    } else {
        tournament(paired(items, join), join)
    }
}

/// The smallest `k` with `n <= 2^k`: the number of halving rounds that
/// reduce `n` pieces to one.
pub open spec fn ceil_log2(n: nat) -> nat
    decreases n,
{
    if n <= 1 {
        0
    } else {
        1 + ceil_log2(((n + 1) / 2) as nat)
    }
}

/// Two to the power `k`.
pub open spec fn pow2(k: nat) -> nat
    decreases k,
{
    if k == 0 {
        1
    } else {
        2 * pow2((k - 1) as nat)
    }
}

/// The largest of `values`; `0` if there is none.
pub open spec fn max_of(values: Seq<nat>) -> nat
    decreases values.len(),
{
    if values.len() == 0 {
        0
    } else {
        let rest = max_of(values.drop_last());
        if values.last() >= rest {
            values.last()
        } else {
            rest
        }
    }
}

/// None of `values` is larger than `max_of` says, and `max_of` is no more
/// than a bound on them all.
pub proof fn lemma_max_of(values: Seq<nat>, bound: nat)
    ensures
        forall|k: int| 0 <= k < values.len() ==> (#[trigger] values[k]) <= max_of(values),
        (forall|k: int| 0 <= k < values.len() ==> (#[trigger] values[k]) <= bound) ==> max_of(
            values,
        ) <= bound,
    decreases values.len(),
{
    if values.len() > 0 {
        let rest = values.drop_last();
        lemma_max_of(rest, bound);
        assert forall|k: int| 0 <= k < values.len() implies (#[trigger] values[k]) <= max_of(
            values,
        ) by {
            if k < values.len() - 1 {
                assert(values[k] == rest[k]);
            }
        }
        if forall|k: int| 0 <= k < values.len() ==> (#[trigger] values[k]) <= bound {
            assert forall|k: int| 0 <= k < rest.len() implies (#[trigger] rest[k]) <= bound by {
                assert(rest[k] == values[k]);
            }
            assert(values.last() == values[values.len() - 1]);
        }
    }
}

/// `pow2` does not decrease when its argument grows.
pub proof fn lemma_pow2_monotonic(a: nat, b: nat)
    requires
        a <= b,
    ensures
        pow2(a) <= pow2(b),
        pow2(a) >= 1,
    decreases b,
{
    if a < b {
        lemma_pow2_monotonic(a, (b - 1) as nat);
    } else if a > 0 {
        lemma_pow2_monotonic((a - 1) as nat, (a - 1) as nat);
    }
}

/// A concatenation can be split off at its first piece as well.
pub proof fn lemma_flat_front<T>(texts: Seq<Seq<T>>, lo: int, hi: int)
    requires
        lo < hi,
    ensures
        flat(texts, lo, hi) == texts[lo] + flat(texts, lo + 1, hi),
    decreases hi - lo,
{
    if lo + 1 == hi {
        assert(flat(texts, lo, lo) =~= Seq::<T>::empty());
        assert(flat(texts, lo + 1, hi) =~= Seq::<T>::empty());
        assert(flat(texts, lo, hi) =~= texts[lo] + flat(texts, lo + 1, hi));
    } else {
        lemma_flat_front(texts, lo, hi - 1);
        assert(flat(texts, lo, hi) =~= texts[lo] + flat(texts, lo + 1, hi));
    }
}

/// Only the pieces between `lo` and `hi` matter.
pub proof fn lemma_flat_frame<T>(a: Seq<Seq<T>>, b: Seq<Seq<T>>, lo: int, hi: int)
    requires
        forall|k: int| lo <= k < hi ==> a[k] == b[k],
    ensures
        flat(a, lo, hi) == flat(b, lo, hi),
    decreases hi - lo,
{
    if lo < hi {
        lemma_flat_frame(a, b, lo, hi - 1);
    }
}

/// Writing the merge of the pieces `i` and `i + 1` to place `j` moves both
/// from the unread part of the list to the part already merged.
pub proof fn lemma_merge_pair<T>(texts: Seq<Seq<T>>, j: int, i: int, len: int)
    requires
        0 <= j <= i,
        i + 2 <= len <= texts.len(),
    ensures
        flat(texts.update(j, texts[i] + texts[i + 1]), 0, j + 1) + flat(
            texts.update(j, texts[i] + texts[i + 1]),
            i + 2,
            len,
        ) == flat(texts, 0, j) + flat(texts, i, len),
        texts[i].len() + texts[i + 1].len() <= (flat(texts, 0, j) + flat(texts, i, len)).len(),
{
    let merged = texts.update(j, texts[i] + texts[i + 1]);
    lemma_flat_frame(texts, merged, 0, j);
    lemma_flat_frame(texts, merged, i + 2, len);
    lemma_flat_front(texts, i, len);
    lemma_flat_front(texts, i + 1, len);
    assert(flat(merged, 0, j + 1) + flat(merged, i + 2, len) =~= flat(texts, 0, j) + flat(
        texts,
        i,
        len,
    ));
}

/// Two adjacent pieces take no more bytes than the whole list.
pub proof fn lemma_pair_bytes(texts: Seq<Seq<char>>, j: int, i: int, len: int)
    requires
        0 <= j <= i,
        i + 2 <= len <= texts.len(),
    ensures
        encode_utf8(texts[i]).len() + encode_utf8(texts[i + 1]).len() <= encode_utf8(
            flat(texts, 0, j) + flat(texts, i, len),
        ).len(),
{
    lemma_flat_front(texts, i, len);
    lemma_flat_front(texts, i + 1, len);
    let head = flat(texts, 0, j);
    let rest = flat(texts, i + 2, len);
    assert(head + flat(texts, i, len) =~= (head + (texts[i] + texts[i + 1])) + rest);
    lemma_encode_concat(head + (texts[i] + texts[i + 1]), rest);
    lemma_encode_concat(head, texts[i] + texts[i + 1]);
    lemma_encode_concat(texts[i], texts[i + 1]);
}

/// A list of pieces of one element each concatenates to those elements.
pub proof fn lemma_flat_singletons<T>(pieces: Seq<Seq<T>>, n: int)
    requires
        0 <= n <= pieces.len(),
        forall|k: int| 0 <= k < n ==> (#[trigger] pieces[k]).len() == 1,
    ensures
        flat(pieces, 0, n).len() == n,
        forall|k: int| 0 <= k < n ==> (#[trigger] flat(pieces, 0, n)[k]) == pieces[k][0],
    decreases n,
{
    if n > 0 {
        lemma_flat_singletons(pieces, n - 1);
    }
}

/// Writing the last, unpaired piece to place `j` moves it to the merged part.
pub proof fn lemma_carry_last<T>(texts: Seq<Seq<T>>, j: int, len: int)
    requires
        0 <= j < len <= texts.len(),
    ensures
        flat(texts.update(j, texts[len - 1]), 0, j + 1) == flat(texts, 0, j) + flat(
            texts,
            len - 1,
            len,
        ),
{
    let moved = texts.update(j, texts[len - 1]);
    lemma_flat_frame(texts, moved, 0, j);
    lemma_flat_front(texts, len - 1, len);
    assert(flat(texts, len, len) =~= Seq::<T>::empty());
    assert(flat(moved, 0, j + 1) =~= flat(texts, 0, j) + flat(texts, len - 1, len));
}

/// `ceil_log2` does not decrease when its argument grows.
pub proof fn lemma_ceil_log2_monotonic(a: nat, b: nat)
    requires
        a <= b,
    ensures
        ceil_log2(a) <= ceil_log2(b),
    decreases b,
{
    if a > 1 {
        lemma_ceil_log2_monotonic(((a + 1) / 2) as nat, ((b + 1) / 2) as nat);
    }
}

/// Sixteen halving rounds reduce up to 65536 pieces to one.
pub proof fn lemma_ceil_log2_65536(n: nat)
    requires
        n <= 65536,
    ensures
        ceil_log2(n) <= 16,
{
    lemma_ceil_log2_monotonic(n, 65536);
    reveal_with_fuel(ceil_log2, 18);
    assert(ceil_log2(65536) == 16);
}

/// `ceil_log2` undoes `pow2`.
pub proof fn lemma_ceil_log2_pow2(k: nat)
    ensures
        ceil_log2(pow2(k)) == k,
        pow2(k) >= 1,
    decreases k,
{
    if k > 0 {
        lemma_ceil_log2_pow2((k - 1) as nat);
        assert((pow2(k) + 1) / 2 == pow2((k - 1) as nat));
    }
}

} // verus!
