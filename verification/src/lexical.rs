//! Lexicographic order on text: character by character, a character standing
//! before another where its Unicode scalar value is the smaller. `str` and
//! `String` compare in this order.

use vstd::prelude::*;
use vstd::std_specs::iter::IteratorSpec;

verus! {

broadcast use vstd::string::group_string_axioms;

/// `a` comes strictly before `b`: at the first position where they differ `a`
/// holds the smaller character, or `a` is a proper prefix of `b`.
pub open spec fn lex_lt(a: Seq<char>, b: Seq<char>) -> bool {
    exists|k: int| #[trigger] differ_at(a, b, k)
}

/// `a` and `b` agree before position `k`, and at `k` either `a` ends while `b`
/// goes on, or `a` holds the smaller character.
pub open spec fn differ_at(a: Seq<char>, b: Seq<char>, k: int) -> bool {
    &&& 0 <= k <= a.len()
    &&& k <= b.len()
    &&& a.take(k) == b.take(k)
    &&& if k == a.len() {
        k < b.len()
    } else {
        k < b.len() && a[k] < b[k]
    }
}

/// `part` stands somewhere in `text`, in one piece.
pub open spec fn part_of(part: Seq<char>, text: Seq<char>) -> bool {
    exists|from: int, to: int|
        0 <= from <= to <= text.len() && part == #[trigger] text.subrange(from, to)
}

/// Where two texts stand relative to each other.
#[derive(Clone, Copy, Debug, PartialEq, Eq, Structural)]
pub enum Order {
    Before,
    Same,
    After,
}

/// What `lex_order` returns for two texts.
pub open spec fn order_of(a: Seq<char>, b: Seq<char>) -> Order {
    if a == b {
        Order::Same
    } else if lex_lt(a, b) {
        Order::Before
    } else {
        Order::After
    }
}

/// No text comes before itself.
pub proof fn lemma_lex_irreflexive(a: Seq<char>)
    ensures
        !lex_lt(a, a),
{
}

/// Of two texts at most one comes before the other.
pub proof fn lemma_lex_asymmetric(a: Seq<char>, b: Seq<char>)
    requires
        lex_lt(a, b),
    ensures
        !lex_lt(b, a),
        a != b,
{
    let k = choose|k: int| differ_at(a, b, k);
    if lex_lt(b, a) {
        let j = choose|j: int| differ_at(b, a, j);
        if j < k {
            assert(a.take(k)[j] == b.take(k)[j]);
        } else if k < j {
            assert(a.take(j)[k] == b.take(j)[k]);
        }
    }
}

/// Two different texts are ordered one way or the other.
pub proof fn lemma_lex_total(a: Seq<char>, b: Seq<char>)
    ensures
        a == b || lex_lt(a, b) || lex_lt(b, a),
{
    assert(a.take(0) == b.take(0));
    lemma_common_prefix(a, b, 0);
}

/// From a position up to which two texts agree, they are equal or one comes
/// before the other.
proof fn lemma_common_prefix(a: Seq<char>, b: Seq<char>, k: int)
    requires
        0 <= k <= a.len(),
        k <= b.len(),
        a.take(k) == b.take(k),
    ensures
        a == b || lex_lt(a, b) || lex_lt(b, a),
    decreases a.len() - k,
{
    if k == a.len() {
        if k == b.len() {
            assert(a.take(k) == a);
            assert(b.take(k) == b);
        } else {
            assert(differ_at(a, b, k));
        }
    } else if k == b.len() {
        assert(differ_at(b, a, k));
    } else if a[k] == b[k] {
        assert(a.take(k + 1) == a.take(k).push(a[k]));
        assert(b.take(k + 1) == b.take(k).push(b[k]));
        lemma_common_prefix(a, b, k + 1);
    } else if a[k] < b[k] {
        assert(differ_at(a, b, k));
    } else {
        assert(differ_at(b, a, k));
    }
}

/// The order is transitive.
pub proof fn lemma_lex_transitive(a: Seq<char>, b: Seq<char>, c: Seq<char>)
    requires
        lex_lt(a, b),
        lex_lt(b, c),
    ensures
        lex_lt(a, c),
{
    let i = choose|i: int| differ_at(a, b, i);
    let j = choose|j: int| differ_at(b, c, j);
    let k = if i <= j { i } else { j };
    assert(a.take(k) == c.take(k)) by {
        assert(a.take(k) == a.take(i).take(k));
        assert(b.take(k) == b.take(i).take(k));
        assert(b.take(k) == b.take(j).take(k));
        assert(c.take(k) == c.take(j).take(k));
    }
    if i < j {
        assert(b.take(j)[i] == c.take(j)[i]);
    } else if j < i {
        assert(a.take(i)[j] == b.take(i)[j]);
    }
    assert(differ_at(a, c, k));
}

/// Compares two texts character by character.
pub fn lex_order(a: &str, b: &str) -> (r: Order)
    ensures
        r == order_of(a@, b@),
{
    let mut rest_a = a.chars();
    let mut rest_b = b.chars();
    let ghost mut k: int = 0;
    loop
        invariant
            0 <= k <= a@.len(),
            k <= b@.len(),
            a@.take(k) == b@.take(k),
            rest_a.remaining() == a@.skip(k),
            rest_b.remaining() == b@.skip(k),
        decreases a@.len() - k,
    {
        let next_a = rest_a.next();
        let next_b = rest_b.next();
        match (next_a, next_b) {
            (None, None) => {
                proof {
                    assert(a@.take(k) == a@);
                    assert(b@.take(k) == b@);
                }
                return Order::Same;
            },
            (None, Some(_)) => {
                proof {
                    assert(differ_at(a@, b@, k));
                    lemma_lex_asymmetric(a@, b@);
                }
                return Order::Before;
            },
            (Some(_), None) => {
                proof {
                    assert(differ_at(b@, a@, k));
                    lemma_lex_asymmetric(b@, a@);
                }
                return Order::After;
            },
            (Some(x), Some(y)) => {
                assert(x == a@[k] && y == b@[k]);
                if x < y {
                    proof {
                        assert(differ_at(a@, b@, k));
                        lemma_lex_asymmetric(a@, b@);
                    }
                    return Order::Before;
                } else if y < x {
                    proof {
                        assert(differ_at(b@, a@, k));
                        lemma_lex_asymmetric(b@, a@);
                    }
                    return Order::After;
                }
                proof {
                    assert(a@.take(k + 1) == a@.take(k).push(a@[k]));
                    assert(b@.take(k + 1) == b@.take(k).push(b@[k]));
                    assert(a@.skip(k).drop_first() == a@.skip(k + 1));
                    assert(b@.skip(k).drop_first() == b@.skip(k + 1));
                    k = k + 1;
                }
            },
        }
    }
}

} // verus!
