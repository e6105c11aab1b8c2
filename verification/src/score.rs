//! Similarity of two skill sets and the composite score built on it.
//!
//! Nothing here is approximate: a similarity is a pair of counts, a score is a
//! whole number of hundredths of a point, and rounding is done on integers.

use crate::skill_set::{ascending, strictly_ascending, SkillSet};
use vstd::prelude::*;
use vstd::string::StringExecFns;

verus! {

/// Weight of the skill similarity in the composite score, in percent.
pub const WEIGHT_SKILL: u128 = 60;

/// Weight of the experience signal in the composite score, in percent.
pub const WEIGHT_EXPERIENCE: u128 = 25;

/// Weight of the remaining signal in the composite score, in percent.
pub const WEIGHT_OTHER: u128 = 15;

/// The largest denominator that a `Ratio` holds (2 to the 100th): scaled
/// arithmetic on a ratio then stays within `u128`.
pub const MAX_DENOMINATOR: u128 = 0x10_0000_0000_0000_0000_0000_0000;

/// The largest composite score, 100.00 points, in hundredths.
pub const MAX_SCORE: u32 = 10_000;

/// A part of a whole as two counts: `num` out of `den`.
pub ghost struct Fraction {
    pub num: int,
    pub den: int,
}

impl Fraction {
    /// A value between 0 and 1 with a denominator that can be divided by.
    pub open spec fn proper(self) -> bool {
        0 < self.den && 0 <= self.num <= self.den
    }
}

/// `num / den` rounded to the nearest whole number, a half going up.
pub open spec fn round_half_up(num: int, den: int) -> int {
    (2 * num + den) / (2 * den)
}

/// Jaccard similarity: the share of the tokens of either set that both hold.
/// Two empty sets have nothing that one holds and the other lacks, and count
/// as a full match.
pub open spec fn jaccard(a: Set<Seq<char>>, b: Set<Seq<char>>) -> Fraction {
    if a.is_empty() && b.is_empty() {
        Fraction { num: 1, den: 1 }
    } else {
        Fraction { num: a.intersect(b).len() as int, den: a.union(b).len() as int }
    }
}

/// The weighted sum of the three signals in points, as the numerator of a
/// fraction over `1000 * similarity.den`. `experience` and `other` are in
/// thousandths.
pub open spec fn weighted_sum(similarity: Fraction, experience: int, other: int) -> int {
    WEIGHT_SKILL * 1000 * similarity.num + (WEIGHT_EXPERIENCE * experience + WEIGHT_OTHER * other)
        * similarity.den
}

/// The composite score in hundredths of a point, on a scale from 0 to 100
/// points: the weighted sum of the three signals, rounded to two decimal
/// places, a half going up. `experience` and `other` are in thousandths.
pub open spec fn composite(similarity: Fraction, experience: int, other: int) -> int {
    round_half_up(100 * weighted_sum(similarity, experience, other), 1000 * similarity.den)
}

/// A similarity in thousandths, a half going up.
pub open spec fn thousandths(similarity: Fraction) -> int {
    round_half_up(1000 * similarity.num, similarity.den)
}

/// Rounding goes to the nearest whole number: the result is within one half of
/// `num / den`, and a value that ends in one half goes up.
pub proof fn lemma_round_half_up(num: int, den: int)
    requires
        num >= 0,
        den > 0,
    ensures
        2 * den * round_half_up(num, den) <= 2 * num + den,
        2 * num + den < 2 * den * (round_half_up(num, den) + 1),
{
    let x = 2 * num + den;
    let y = 2 * den;
    vstd::arithmetic::div_mod::lemma_fundamental_div_mod(x, y);
    vstd::arithmetic::div_mod::lemma_mod_bound(x, y);
    assert(y * (x / y + 1) == y * (x / y) + y) by (nonlinear_arith);
}

/// A whole number rounds to itself.
pub proof fn lemma_round_whole(whole: int, den: int)
    requires
        whole >= 0,
        den > 0,
    ensures
        round_half_up(whole * den, den) == whole,
{
    let x = 2 * (whole * den) + den;
    let y = 2 * den;
    assert(x == whole * y + den) by (nonlinear_arith)
        requires
            x == 2 * (whole * den) + den,
            y == 2 * den,
    ;
    vstd::arithmetic::div_mod::lemma_fundamental_div_mod_converse(x, y, whole, den);
}

/// Rounding keeps the order of the values rounded.
pub proof fn lemma_round_monotonic(low: int, high: int, den: int)
    requires
        den > 0,
        low <= high,
    ensures
        round_half_up(low, den) <= round_half_up(high, den),
{
    vstd::arithmetic::div_mod::lemma_div_is_ordered(2 * low + den, 2 * high + den, 2 * den);
}

/// The similarity of two finite sets lies between 0 and 1.
pub proof fn lemma_jaccard_bounds(a: Set<Seq<char>>, b: Set<Seq<char>>)
    requires
        a.finite(),
        b.finite(),
    ensures
        jaccard(a, b).proper(),
{
    if !(a.is_empty() && b.is_empty()) {
        // The union is not empty, and holds whatever the intersection holds.
        vstd::set_lib::lemma_set_union_finite_iff(a, b);
        vstd::set_lib::lemma_set_empty_equivalency_len(a.union(b));
        assert(!(a.union(b) =~= Set::<Seq<char>>::empty())) by {
            if a.union(b) =~= Set::<Seq<char>>::empty() {
                assert(a =~= Set::<Seq<char>>::empty());
                assert(b =~= Set::<Seq<char>>::empty());
            }
        }
        vstd::set_lib::lemma_len_subset(a.intersect(b), a.union(b));
    }
}

/// Every finite set is fully similar to itself, the empty one too.
pub proof fn lemma_jaccard_self(a: Set<Seq<char>>)
    requires
        a.finite(),
    ensures
        jaccard(a, a).num == jaccard(a, a).den,
{
    assert(a.intersect(a) =~= a);
    assert(a.union(a) =~= a);
}

/// Similarity does not depend on which set is named first.
pub proof fn lemma_jaccard_symmetric(a: Set<Seq<char>>, b: Set<Seq<char>>)
    ensures
        jaccard(a, b) == jaccard(b, a),
{
    assert(a.intersect(b) =~= b.intersect(a));
    assert(a.union(b) =~= b.union(a));
}

/// What two sets share is the intersection of the two, and so lies in each.
pub proof fn lemma_matched_subset(a: Set<Seq<char>>, b: Set<Seq<char>>)
    ensures
        a.intersect(b).subset_of(a),
        a.intersect(b).subset_of(b),
        forall|t: Seq<char>| a.intersect(b).contains(t) <==> a.contains(t) && b.contains(t),
{
}

/// The composite score never leaves the scale from 0 to 100 points.
pub proof fn lemma_composite_bounds(similarity: Fraction, experience: int, other: int)
    requires
        similarity.proper(),
        0 <= experience <= 1000,
        0 <= other <= 1000,
    ensures
        composite(similarity, experience, other) <= MAX_SCORE,
{
    let n = similarity.num;
    let d = similarity.den;
    let side = WEIGHT_EXPERIENCE * experience + WEIGHT_OTHER * other;
    assert(side * d <= 40_000 * d) by (nonlinear_arith)
        requires
            side <= 40_000,
            d >= 0,
    ;
    let blend = 100 * (WEIGHT_SKILL * 1000 * n + side * d);
    assert(WEIGHT_SKILL * 1000 * n == 60_000 * n) by (nonlinear_arith);
    assert(blend <= 10_000 * (1000 * d));
    lemma_round_monotonic(blend, 10_000 * (1000 * d), 1000 * d);
    lemma_round_whole(10_000, 1000 * d);
}

/// With no experience and no other signal the composite score is sixty times
/// the similarity, in points, rounded to two decimal places.
pub proof fn lemma_composite_of_similarity(similarity: Fraction)
    requires
        similarity.den > 0,
    ensures
        composite(similarity, 0, 0) == round_half_up(6000 * similarity.num, similarity.den),
{
    let n = similarity.num;
    let d = similarity.den;
    let x = 2 * (6000 * n) + d;
    let y = 2 * d;
    // Both quotients are taken of the same value: numerator and denominator
    // of the first are one thousand times those of the second.
    assert(0 * d == 0) by (nonlinear_arith);
    assert(WEIGHT_SKILL * 1000 * n == 60_000 * n) by (nonlinear_arith);
    assert(WEIGHT_EXPERIENCE * 0 + WEIGHT_OTHER * 0 == 0);
    let big_x = 2 * (100 * (WEIGHT_SKILL * 1000 * n + 0 * d)) + 1000 * d;
    let big_y = 2 * (1000 * d);
    assert(big_x == 1000 * x);
    assert(big_y == 1000 * y);
    vstd::arithmetic::div_mod::lemma_fundamental_div_mod(x, y);
    vstd::arithmetic::div_mod::lemma_mod_bound(x, y);
    let q = x / y;
    let r = x % y;
    assert(1000 * x == q * (1000 * y) + 1000 * r) by (nonlinear_arith)
        requires
            x == y * q + r,
    ;
    vstd::arithmetic::div_mod::lemma_fundamental_div_mod_converse(big_x, big_y, q, 1000 * r);
}

/// A signal between 0 and 1, in thousandths.
#[derive(Clone, Copy, Debug)]
pub struct Permille {
    value: u16,
}

impl View for Permille {
    type V = int;

    closed spec fn view(&self) -> int {
        self.value as int
    }
}

impl Permille {
    #[verifier::type_invariant]
    spec fn in_range(self) -> bool {
        self.value <= 1000
    }

    /// The signal of `value` thousandths, if that is at most one whole.
    pub fn new(value: u16) -> (r: Option<Permille>)
        ensures
            match r {
                Some(signal) => value <= 1000 && signal@ == value,
                None => value > 1000,
            },
    {
        if value <= 1000 {
            Some(Permille { value })
        } else {
            None
        }
    }

    /// The signal for which there is no data.
    pub fn zero() -> (signal: Permille)
        ensures
            signal@ == 0,
    {
        Permille { value: 0 }
    }

    /// The signal in thousandths.
    pub fn value(&self) -> (v: u16)
        ensures
            v == self@,
            v <= 1000,
    {
        proof {
            use_type_invariant(self);
        }
        self.value
    }
}

/// A value between 0 and 1 as two counts.
#[derive(Clone, Copy, Debug)]
pub struct Ratio {
    num: u128,
    den: u128,
}

impl View for Ratio {
    type V = Fraction;

    closed spec fn view(&self) -> Fraction {
        Fraction { num: self.num as int, den: self.den as int }
    }
}

impl Ratio {
    #[verifier::type_invariant]
    spec fn in_range(self) -> bool {
        0 < self.den <= MAX_DENOMINATOR && self.num <= self.den
    }

    /// `num` out of `den`, if that is a value between 0 and 1 whose
    /// denominator is not zero and not above `MAX_DENOMINATOR`.
    pub fn new(num: u128, den: u128) -> (r: Option<Ratio>)
        ensures
            match r {
                Some(ratio) => ratio@ == (Fraction { num: num as int, den: den as int })
                    && ratio@.proper() && den <= MAX_DENOMINATOR,
                None => den == 0 || num > den || den > MAX_DENOMINATOR,
            },
    {
        if 0 < den && den <= MAX_DENOMINATOR && num <= den {
            Some(Ratio { num, den })
        } else {
            None
        }
    }

    /// The count of the part.
    pub fn numerator(&self) -> (n: u128)
        ensures
            n == self@.num,
            self@.proper(),
    {
        proof {
            use_type_invariant(self);
        }
        self.num
    }

    /// The count of the whole.
    pub fn denominator(&self) -> (d: u128)
        ensures
            d == self@.den,
            self@.proper(),
            d <= MAX_DENOMINATOR,
    {
        proof {
            use_type_invariant(self);
        }
        self.den
    }
}

/// Jaccard similarity of two skill sets.
pub fn jaccard_similarity(a: &SkillSet, b: &SkillSet) -> (similarity: Ratio)
    ensures
        similarity@ == jaccard(a@, b@),
        similarity@.proper(),
{
    if a.is_empty() && b.is_empty() {
        return Ratio { num: 1, den: 1 };
    }
    let size_a = a.len();
    let size_b = b.len();
    let shared = a.intersection(b).len();
    proof {
        lemma_jaccard_bounds(a@, b@);
        vstd::set_lib::lemma_set_intersect_union_lens(a@, b@);
    }
    let either: u128 = size_a as u128 + size_b as u128 - shared as u128;
    Ratio { num: shared as u128, den: either }
}

/// The composite score of three signals, in hundredths of a point.
pub fn composite_score(similarity: &Ratio, experience: Permille, other: Permille) -> (score: u32)
    ensures
        score == composite(similarity@, experience@, other@),
        score <= MAX_SCORE,
{
    let n = similarity.numerator();
    let d = similarity.denominator();
    let side: u128 = WEIGHT_EXPERIENCE * (experience.value() as u128) + WEIGHT_OTHER * (
    other.value() as u128);
    proof {
        lemma_composite_bounds(similarity@, experience@, other@);
        assert(side * d <= 40_000 * d) by (nonlinear_arith)
            requires
                side <= 40_000,
        ;
        assert(WEIGHT_SKILL * 1000 * n == 60_000 * n) by (nonlinear_arith);
    }
    let blend: u128 = 100 * (WEIGHT_SKILL * 1000 * n + side * d);
    let whole: u128 = 1000 * d;
    let rounded: u128 = (2 * blend + whole) / (2 * whole);
    rounded as u32
}

/// What scoring a candidate against a job gives.
#[derive(Debug)]
pub struct Scored {
    /// Jaccard similarity of the two skill sets.
    pub similarity: Ratio,
    /// Composite score in hundredths of a point.
    pub composite: u32,
    /// The skills that both sets hold, in lexicographic order.
    pub matched: Vec<String>,
}

/// Scores a candidate's skills against a job's. No experience and no other
/// signal is known yet: both count as zero.
pub fn score(candidate: &SkillSet, job: &SkillSet) -> (scored: Scored)
    ensures
        scored.similarity@ == jaccard(candidate@, job@),
        scored.composite == composite(jaccard(candidate@, job@), 0, 0),
        scored.composite <= MAX_SCORE,
        scored.matched.deep_view() == ascending(candidate@.intersect(job@)),
        strictly_ascending(scored.matched.deep_view()),
        scored.matched.deep_view().to_set() == candidate@.intersect(job@),
{
    let similarity = jaccard_similarity(candidate, job);
    let composite = composite_score(&similarity, Permille::zero(), Permille::zero());
    let matched = candidate.intersection(job).into_vec();
    Scored { similarity, composite, matched }
}

/// The ten decimal digits.
pub open spec fn digits() -> Seq<char> {
    seq!['0', '1', '2', '3', '4', '5', '6', '7', '8', '9']
}

/// A number of thousandths, from 0 to 9999, written with three decimal
/// places: 1000 is written `1.000`.
pub open spec fn decimal3(value: int) -> Seq<char> {
    seq![
        digits()[value / 1000],
        '.',
        digits()[value / 100 % 10],
        digits()[value / 10 % 10],
        digits()[value % 10],
    ]
}

/// What an explanation starts with, before the figure.
pub const EXPLANATION_LABEL: &'static str = "skill_jaccard=";

/// The explanation of a score: the similarity that went into it, to three
/// decimal places.
pub open spec fn explanation_text(similarity: Fraction) -> Seq<char> {
    EXPLANATION_LABEL@ + decimal3(thousandths(similarity))
}

/// One decimal digit as text.
fn digit_text(digit: u16) -> (text: &'static str)
    requires
        digit < 10,
    ensures
        text@ == seq![digits()[digit as int]],
{
    proof {
        reveal_strlit("0");
        reveal_strlit("1");
        reveal_strlit("2");
        reveal_strlit("3");
        reveal_strlit("4");
        reveal_strlit("5");
        reveal_strlit("6");
        reveal_strlit("7");
        reveal_strlit("8");
        reveal_strlit("9");
    }
    let text = if digit == 0 {
        "0"
    } else if digit == 1 {
        "1"
    } else if digit == 2 {
        "2"
    } else if digit == 3 {
        "3"
    } else if digit == 4 {
        "4"
    } else if digit == 5 {
        "5"
    } else if digit == 6 {
        "6"
    } else if digit == 7 {
        "7"
    } else if digit == 8 {
        "8"
    } else {
        "9"
    };
    assert(text@ =~= seq![digits()[digit as int]]);
    text
}

/// A similarity in thousandths lies between 0 and 1000.
pub proof fn lemma_thousandths_bounds(similarity: Fraction)
    requires
        similarity.proper(),
    ensures
        0 <= thousandths(similarity) <= 1000,
{
    let n = similarity.num;
    let d = similarity.den;
    lemma_round_monotonic(0, 1000 * n, d);
    lemma_round_whole(0, d);
    assert(0 * d == 0) by (nonlinear_arith);
    lemma_round_monotonic(1000 * n, 1000 * d, d);
    lemma_round_whole(1000, d);
}

/// The similarity in thousandths, a half going up.
pub fn in_thousandths(similarity: &Ratio) -> (value: u16)
    ensures
        value == thousandths(similarity@),
        value <= 1000,
{
    let n = similarity.numerator();
    let d = similarity.denominator();
    proof {
        lemma_thousandths_bounds(similarity@);
    }
    let value: u128 = (2 * (1000 * n) + d) / (2 * d);
    value as u16
}

/// Writes the explanation of a score built on `similarity`.
pub fn explain(similarity: &Ratio) -> (text: String)
    ensures
        text@ == explanation_text(similarity@),
{
    let value = in_thousandths(similarity);
    let mut text = String::from_str(EXPLANATION_LABEL);
    text.append(digit_text(value / 1000));
    proof {
        reveal_strlit(".");
    }
    text.append(".");
    text.append(digit_text(value / 100 % 10));
    text.append(digit_text(value / 10 % 10));
    text.append(digit_text(value % 10));
    assert(text@ =~= explanation_text(similarity@));
    text
}

} // verus!
