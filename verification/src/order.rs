//! The lexicographic order of texts by code point.
use vstd::prelude::*;

verus! {

/// `-1`, `0` or `1` as `a` comes before, is equal to, or comes after `b`:
/// the first position at which the two differ decides, and a text comes
/// before every text that it begins.
pub open spec fn lex_order(a: Seq<char>, b: Seq<char>) -> int
    decreases a.len(),
{
    if a.len() == 0 {
        if b.len() == 0 {
            0
        } else {
            -1
        }
    } else if b.len() == 0 {
        1
    } else if a[0] < b[0] {
        -1
    } else if a[0] > b[0] {
        1
    } else {
        lex_order(a.drop_first(), b.drop_first())
    }
}

/// `a` and `b` agree before position `i`, where either `a` ends and `b`
/// goes on, or both go on and `a` has the smaller character.
pub open spec fn decides_less(a: Seq<char>, b: Seq<char>, i: int) -> bool {
    &&& 0 <= i <= a.len()
    &&& i <= b.len()
    &&& a.subrange(0, i) == b.subrange(0, i)
    &&& if i == a.len() {
        i < b.len()
    } else {
        i < b.len() && a[i] < b[i]
    }
}

/// The order has three values.
pub proof fn lemma_lex_order_range(a: Seq<char>, b: Seq<char>)
    ensures
        -1 <= lex_order(a, b) <= 1,
    decreases a.len(),
{
    if a.len() > 0 && b.len() > 0 && a[0] == b[0] {
        lemma_lex_order_range(a.drop_first(), b.drop_first());
    }
}

/// Two texts are in neither order exactly when they are the same text.
pub proof fn lemma_lex_order_equal(a: Seq<char>, b: Seq<char>)
    ensures
        lex_order(a, b) == 0 <==> a == b,
    decreases a.len(),
{
    if a.len() > 0 && b.len() > 0 && a[0] == b[0] {
        lemma_lex_order_equal(a.drop_first(), b.drop_first());
        if a.drop_first() == b.drop_first() {
            assert(a =~= seq![a[0]] + a.drop_first());
            assert(b =~= seq![b[0]] + b.drop_first());
        }
    } else if a.len() == 0 && b.len() == 0 {
        assert(a =~= b);
    }
}

/// Swapping the two texts reverses the order.
pub proof fn lemma_lex_order_antisymmetric(a: Seq<char>, b: Seq<char>)
    ensures
        lex_order(a, b) == -lex_order(b, a),
    decreases a.len(),
{
    if a.len() > 0 && b.len() > 0 && a[0] == b[0] {
        lemma_lex_order_antisymmetric(a.drop_first(), b.drop_first());
    }
}

/// The order is transitive.
pub proof fn lemma_lex_order_transitive(a: Seq<char>, b: Seq<char>, c: Seq<char>)
    requires
        lex_order(a, b) <= 0,
        lex_order(b, c) <= 0,
    ensures
        lex_order(a, c) <= 0,
        lex_order(a, b) < 0 || lex_order(b, c) < 0 ==> lex_order(a, c) < 0,
    decreases a.len(),
{
    if a.len() > 0 && b.len() > 0 && c.len() > 0 && a[0] == b[0] && b[0] == c[0] {
        lemma_lex_order_transitive(a.drop_first(), b.drop_first(), c.drop_first());
    }
}

/// `a` comes before `b` exactly when some position decides so.
pub proof fn lemma_lex_order_less(a: Seq<char>, b: Seq<char>)
    ensures
        lex_order(a, b) < 0 <==> exists|i: int| decides_less(a, b, i),
    decreases a.len(),
{
    if a.len() == 0 {
        if b.len() > 0 {
            assert(a.subrange(0, 0) =~= b.subrange(0, 0));
            assert(decides_less(a, b, 0));
        }
    } else if b.len() == 0 {
    } else if a[0] < b[0] {
        assert(a.subrange(0, 0) =~= b.subrange(0, 0));
        assert(decides_less(a, b, 0));
    } else if a[0] > b[0] {
        assert forall|i: int| !decides_less(a, b, i) by {
            if decides_less(a, b, i) && i > 0 {
                assert(a.subrange(0, i)[0] == b.subrange(0, i)[0]);
            }
        }
    } else {
        let ta = a.drop_first();
        let tb = b.drop_first();
        lemma_lex_order_less(ta, tb);
        if lex_order(ta, tb) < 0 {
            let i = choose|i: int| decides_less(ta, tb, i);
            assert(a.subrange(0, i + 1) =~= seq![a[0]] + ta.subrange(0, i));
            assert(b.subrange(0, i + 1) =~= seq![b[0]] + tb.subrange(0, i));
            assert(decides_less(a, b, i + 1));
        } else {
            assert forall|i: int| !decides_less(a, b, i) by {
                if decides_less(a, b, i) {
                    assert(i > 0);
                    assert(ta.subrange(0, i - 1) =~= a.subrange(0, i).drop_first());
                    assert(tb.subrange(0, i - 1) =~= b.subrange(0, i).drop_first());
                    assert(decides_less(ta, tb, i - 1));
                }
            }
        }
    }
}

} // verus!
