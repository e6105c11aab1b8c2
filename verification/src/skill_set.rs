//! Sets of skill tokens, held in lexicographic order without repetition.

use crate::lexical::{
    lemma_lex_asymmetric, lemma_lex_irreflexive, lemma_lex_total, lemma_lex_transitive, lex_lt,
    lex_order, Order,
};
use vstd::prelude::*;

verus! {

/// Each token comes strictly before every later one.
pub open spec fn strictly_ascending(tokens: Seq<Seq<char>>) -> bool {
    forall|i: int, j: int|
        0 <= i < j < tokens.len() ==> lex_lt(#[trigger] tokens[i], #[trigger] tokens[j])
}

/// The tokens of a set in lexicographic order: the one strictly ascending
/// sequence that holds exactly the members of `set`.
pub open spec fn ascending(set: Set<Seq<char>>) -> Seq<Seq<char>> {
    choose|tokens: Seq<Seq<char>>| strictly_ascending(tokens) && tokens.to_set() == set
}

/// A strictly ascending sequence holds no token twice.
pub proof fn lemma_ascending_no_duplicates(tokens: Seq<Seq<char>>)
    requires
        strictly_ascending(tokens),
    ensures
        tokens.no_duplicates(),
{
    assert forall|i: int, j: int|
        0 <= i < tokens.len() && 0 <= j < tokens.len() && i != j implies tokens[i] != tokens[j] by {
        if i < j {
            lemma_lex_asymmetric(tokens[i], tokens[j]);
        } else {
            lemma_lex_asymmetric(tokens[j], tokens[i]);
        }
    }
}

/// What is left of a strictly ascending sequence behind its first token is
/// strictly ascending, and holds the members other than the first.
proof fn lemma_ascending_rest(tokens: Seq<Seq<char>>)
    requires
        strictly_ascending(tokens),
        tokens.len() > 0,
    ensures
        strictly_ascending(tokens.drop_first()),
        tokens.drop_first().to_set() == tokens.to_set().remove(tokens[0]),
{
    let rest = tokens.drop_first();
    assert forall|i: int, j: int| 0 <= i < j < rest.len() implies lex_lt(
        #[trigger] rest[i],
        #[trigger] rest[j],
    ) by {
        assert(lex_lt(tokens[i + 1], tokens[j + 1]));
    }
    assert forall|t: Seq<char>| rest.to_set().contains(t) == tokens.to_set().remove(
        tokens[0],
    ).contains(t) by {
        if rest.contains(t) {
            let k = choose|k: int| 0 <= k < rest.len() && rest[k] == t;
            assert(tokens[k + 1] == t);
            lemma_lex_asymmetric(tokens[0], tokens[k + 1]);
        }
        if tokens.contains(t) && t != tokens[0] {
            let k = choose|k: int| 0 <= k < tokens.len() && tokens[k] == t;
            assert(rest[k - 1] == t);
        }
    }
    assert(rest.to_set() =~= tokens.to_set().remove(tokens[0]));
}

/// Two strictly ascending sequences with the same members are the same
/// sequence: the order of a set's tokens is fixed by the set.
pub proof fn lemma_ascending_unique(a: Seq<Seq<char>>, b: Seq<Seq<char>>)
    requires
        strictly_ascending(a),
        strictly_ascending(b),
        a.to_set() == b.to_set(),
    ensures
        a == b,
    decreases a.len(),
{
    lemma_ascending_no_duplicates(a);
    lemma_ascending_no_duplicates(b);
    a.unique_seq_to_set();
    b.unique_seq_to_set();
    if a.len() > 0 {
        // Each first token is a member of the other sequence. Were the two
        // different, each would come before the other.
        assert(a.to_set().contains(a[0]));
        assert(b.to_set().contains(b[0]));
        let i = choose|i: int| 0 <= i < b.len() && b[i] == a[0];
        let j = choose|j: int| 0 <= j < a.len() && a[j] == b[0];
        if i != 0 && j != 0 {
            assert(lex_lt(b[0], b[i]));
            lemma_lex_asymmetric(a[0], a[j]);
        }
        assert(a[0] == b[0]);
        lemma_ascending_rest(a);
        lemma_ascending_rest(b);
        lemma_ascending_unique(a.drop_first(), b.drop_first());
        assert(a =~= seq![a[0]] + a.drop_first());
        assert(b =~= seq![b[0]] + b.drop_first());
    } else {
        assert(a =~= b);
    }
}

/// A strictly ascending sequence is the ascending order of its own members.
pub proof fn lemma_ascending_of(tokens: Seq<Seq<char>>)
    requires
        strictly_ascending(tokens),
    ensures
        ascending(tokens.to_set()) == tokens,
{
    let found = ascending(tokens.to_set());
    lemma_ascending_unique(found, tokens);
}

/// Putting a token into a sequence adds it to the members and changes no
/// other membership.
proof fn lemma_insert_members(tokens: Seq<Seq<char>>, at: int, token: Seq<char>)
    requires
        0 <= at <= tokens.len(),
    ensures
        tokens.insert(at, token).to_set() == tokens.to_set().insert(token),
{
    let grown = tokens.insert(at, token);
    assert forall|t: Seq<char>| grown.to_set().contains(t) == tokens.to_set().insert(
        token,
    ).contains(t) by {
        if grown.contains(t) {
            let k = choose|k: int| 0 <= k < grown.len() && grown[k] == t;
            if k < at {
                assert(tokens[k] == t);
            } else if k > at {
                assert(tokens[k - 1] == t);
            }
        }
        if tokens.contains(t) {
            let k = choose|k: int| 0 <= k < tokens.len() && tokens[k] == t;
            if k < at {
                assert(grown[k] == t);
            } else {
                assert(grown[k + 1] == t);
            }
        }
        if t == token {
            assert(grown[at] == t);
        }
    }
    assert(grown.to_set() =~= tokens.to_set().insert(token));
}

/// A token put between the tokens that come before it and those that come
/// after it leaves a strictly ascending sequence strictly ascending.
proof fn lemma_insert_ascending(tokens: Seq<Seq<char>>, at: int, token: Seq<char>)
    requires
        strictly_ascending(tokens),
        0 <= at <= tokens.len(),
        forall|i: int| 0 <= i < at ==> lex_lt(#[trigger] tokens[i], token),
        forall|i: int| at <= i < tokens.len() ==> lex_lt(token, #[trigger] tokens[i]),
    ensures
        strictly_ascending(tokens.insert(at, token)),
{
    let grown = tokens.insert(at, token);
    assert forall|i: int, j: int| 0 <= i < j < grown.len() implies lex_lt(
        #[trigger] grown[i],
        #[trigger] grown[j],
    ) by {
        if j < at {
            assert(grown[i] == tokens[i] && grown[j] == tokens[j]);
        } else if j == at {
            assert(grown[i] == tokens[i]);
        } else if i < at {
            assert(grown[i] == tokens[i] && grown[j] == tokens[j - 1]);
        } else if i == at {
            assert(grown[j] == tokens[j - 1]);
        } else {
            assert(grown[i] == tokens[i - 1] && grown[j] == tokens[j - 1]);
        }
    }
}

/// The number of tokens at the front of `tokens` that come before `token`.
spec fn slot(tokens: Seq<Seq<char>>, token: Seq<char>) -> int
    decreases tokens.len(),
{
    if tokens.len() > 0 && !lex_lt(tokens.last(), token) {
        slot(tokens.drop_last(), token)
    } else {
        tokens.len() as int
    }
}

/// In a strictly ascending sequence the slot of a token parts the tokens that
/// come before it from those that do not.
proof fn lemma_slot(tokens: Seq<Seq<char>>, token: Seq<char>)
    requires
        strictly_ascending(tokens),
    ensures
        0 <= slot(tokens, token) <= tokens.len(),
        forall|i: int| 0 <= i < slot(tokens, token) ==> lex_lt(#[trigger] tokens[i], token),
        forall|i: int|
            slot(tokens, token) <= i < tokens.len() ==> !lex_lt(#[trigger] tokens[i], token),
    decreases tokens.len(),
{
    if tokens.len() > 0 {
        let front = tokens.drop_last();
        assert forall|i: int, j: int| 0 <= i < j < front.len() implies lex_lt(
            #[trigger] front[i],
            #[trigger] front[j],
        ) by {
            assert(lex_lt(tokens[i], tokens[j]));
        }
        if !lex_lt(tokens.last(), token) {
            lemma_slot(front, token);
            assert forall|i: int| 0 <= i < slot(tokens, token) implies lex_lt(
                #[trigger] tokens[i],
                token,
            ) by {
                assert(tokens[i] == front[i]);
            }
            assert forall|i: int| slot(tokens, token) <= i < tokens.len() implies !lex_lt(
                #[trigger] tokens[i],
                token,
            ) by {
                if i < front.len() {
                    assert(tokens[i] == front[i]);
                }
            }
        } else {
            assert forall|i: int| 0 <= i < tokens.len() implies lex_lt(
                #[trigger] tokens[i],
                token,
            ) by {
                if i < tokens.len() - 1 {
                    lemma_lex_transitive(tokens[i], tokens.last(), token);
                }
            }
        }
    }
}

/// Every finite set of tokens has an ascending order, and `ascending` gives it.
pub proof fn lemma_ascending_exists(set: Set<Seq<char>>)
    requires
        set.finite(),
    ensures
        strictly_ascending(ascending(set)),
        ascending(set).to_set() == set,
    decreases set.len(),
{
    if set.len() == 0 {
        set.lemma_len0_is_empty();
        let none = Seq::<Seq<char>>::empty();
        assert(strictly_ascending(none));
        assert(none.to_set() =~= set);
    } else {
        // Take any token out, order the rest, and put the token into its slot.
        let token = set.choose();
        let rest = set.remove(token);
        lemma_ascending_exists(rest);
        let ordered = ascending(rest);
        let at = slot(ordered, token);
        lemma_slot(ordered, token);
        assert forall|i: int| at <= i < ordered.len() implies lex_lt(
            token,
            #[trigger] ordered[i],
        ) by {
            assert(ordered.to_set().contains(ordered[i]));
            lemma_lex_total(ordered[i], token);
        }
        lemma_insert_ascending(ordered, at, token);
        lemma_insert_members(ordered, at, token);
        let whole = ordered.insert(at, token);
        assert(whole.to_set() =~= set);
    }
}

/// Finds where `token` stands, or would stand, among ordered `items`: every
/// earlier item comes before it and no later one does. The flag tells whether
/// the item at that place is the token itself.
fn locate(items: &Vec<String>, token: &str) -> (r: (usize, bool))
    requires
        strictly_ascending(items.deep_view()),
    ensures
        r.0 <= items.len(),
        forall|i: int| 0 <= i < r.0 ==> lex_lt(#[trigger] items.deep_view()[i], token@),
        forall|i: int| r.0 <= i < items.len() ==> !lex_lt(#[trigger] items.deep_view()[i], token@),
        r.1 <==> items.deep_view().contains(token@),
        r.1 ==> r.0 < items.len() && items.deep_view()[r.0 as int] == token@,
{
    let ghost tokens = items.deep_view();
    let mut low: usize = 0;
    let mut high: usize = items.len();
    while low < high
        invariant
            tokens == items.deep_view(),
            strictly_ascending(tokens),
            low <= high <= items.len(),
            forall|i: int| 0 <= i < low ==> lex_lt(#[trigger] tokens[i], token@),
            forall|i: int| high <= i < tokens.len() ==> !lex_lt(#[trigger] tokens[i], token@),
            forall|i: int| high <= i < tokens.len() ==> tokens[i] != token@,
        decreases high - low,
    {
        let middle: usize = low + (high - low) / 2;
        assert(tokens[middle as int] == items@[middle as int]@);
        match lex_order(items[middle].as_str(), token) {
            Order::Before => {
                proof {
                    assert forall|i: int| 0 <= i < middle + 1 implies lex_lt(
                        #[trigger] tokens[i],
                        token@,
                    ) by {
                        if i < middle {
                            lemma_lex_transitive(tokens[i], tokens[middle as int], token@);
                        }
                    }
                }
                low = middle + 1;
            },
            Order::Same => {
                proof {
                    lemma_lex_irreflexive(token@);
                    assert forall|i: int| middle <= i < tokens.len() implies !lex_lt(
                        #[trigger] tokens[i],
                        token@,
                    ) by {
                        if middle < i {
                            lemma_lex_asymmetric(tokens[middle as int], tokens[i]);
                        }
                    }
                }
                return (middle, true);
            },
            Order::After => {
                proof {
                    lemma_lex_total(tokens[middle as int], token@);
                    assert forall|i: int| middle <= i < tokens.len() implies !lex_lt(
                        #[trigger] tokens[i],
                        token@,
                    ) && tokens[i] != token@ by {
                        lemma_lex_asymmetric(token@, tokens[middle as int]);
                        if middle < i && lex_lt(tokens[i], token@) {
                            lemma_lex_transitive(tokens[middle as int], tokens[i], token@);
                        }
                    }
                }
                high = middle;
            },
        }
    }
    proof {
        if tokens.contains(token@) {
            let k = choose|k: int| 0 <= k < tokens.len() && tokens[k] == token@;
            if k < low {
                lemma_lex_irreflexive(token@);
            }
        }
    }
    (low, false)
}

/// A finite set of skill tokens.
#[derive(Debug)]
pub struct SkillSet {
    items: Vec<String>,
}

impl View for SkillSet {
    type V = Set<Seq<char>>;

    /// The tokens that the set holds.
    closed spec fn view(&self) -> Set<Seq<char>> {
        self.items.deep_view().to_set()
    }
}

impl SkillSet {
    #[verifier::type_invariant]
    spec fn ordered(self) -> bool {
        strictly_ascending(self.items.deep_view())
    }

    /// Every skill set is finite.
    pub proof fn lemma_finite(self)
        ensures
            self@.finite(),
    {
        vstd::seq_lib::seq_to_set_is_finite(self.items.deep_view());
    }

    /// The empty set.
    pub fn new() -> (set: SkillSet)
        ensures
            set@ == Set::<Seq<char>>::empty(),
    {
        let set = SkillSet { items: Vec::new() };
        assert(set.items.deep_view().to_set() =~= Set::<Seq<char>>::empty());
        set
    }

    /// The number of tokens in the set.
    pub fn len(&self) -> (n: usize)
        ensures
            n == self@.len(),
            self@.finite(),
    {
        proof {
            use_type_invariant(self);
            lemma_ascending_no_duplicates(self.items.deep_view());
            self.items.deep_view().unique_seq_to_set();
            self.lemma_finite();
        }
        self.items.len()
    }

    /// Whether the set holds no token.
    pub fn is_empty(&self) -> (b: bool)
        ensures
            b == (self@ == Set::<Seq<char>>::empty()),
    {
        proof {
            if self.items.len() == 0 {
                assert(self.items.deep_view().to_set() =~= Set::<Seq<char>>::empty());
            } else {
                assert(self.items.deep_view().contains(self.items.deep_view()[0]));
                assert(self@.contains(self.items.deep_view()[0]));
            }
        }
        self.items.len() == 0
    }

    /// Whether `token` is a member.
    pub fn contains(&self, token: &str) -> (b: bool)
        ensures
            b == self@.contains(token@),
    {
        proof {
            use_type_invariant(self);
        }
        let (_, found) = locate(&self.items, token);
        found
    }

    /// Adds `token`; a token already present leaves the set as it was. Returns
    /// whether the token was new.
    pub fn insert(&mut self, token: String) -> (fresh: bool)
        ensures
            final(self)@ == old(self)@.insert(token@),
            fresh == !old(self)@.contains(token@),
    {
        proof {
            use_type_invariant(&*self);
        }
        let (at, found) = locate(&self.items, token.as_str());
        if found {
            assert(self@.insert(token@) =~= self@);
            return false;
        }
        let ghost before = self.items.deep_view();
        let mut items: Vec<String> = Vec::new();
        std::mem::swap(&mut items, &mut self.items);
        items.insert(at, token);
        proof {
            let after = items.deep_view();
            assert(after =~= before.insert(at as int, token@));
            lemma_insert_members(before, at as int, token@);
            assert forall|i: int| at <= i < before.len() implies lex_lt(
                token@,
                #[trigger] before[i],
            ) by {
                assert(before.contains(before[i]));
                lemma_lex_total(before[i], token@);
            }
            lemma_insert_ascending(before, at as int, token@);
        }
        self.items = items;
        true
    }

    /// Adds every one of `tokens`; repetitions count once.
    pub fn extend(&mut self, tokens: Vec<String>)
        ensures
            final(self)@ == old(self)@.union(tokens.deep_view().to_set()),
    {
        let ghost input = tokens@;
        let ghost given = tokens.deep_view();
        let ghost start = self@;
        proof {
            assert(given.take(0).to_set() =~= Set::<Seq<char>>::empty());
            assert(start.union(Set::<Seq<char>>::empty()) =~= start);
        }
        for token in it: tokens.into_iter()
            invariant
                it.seq() == input,
                given.len() == input.len(),
                forall|i: int| 0 <= i < input.len() ==> given[i] == (#[trigger] input[i])@,
                self@ == start.union(given.take(it.index() as int).to_set()),
        {
            let ghost done = it.index() as int;
            proof {
                assert(token@ == given[done]);
                assert(given.take(done + 1) =~= given.take(done).insert(done, given[done]));
                lemma_insert_members(given.take(done), done, given[done]);
                assert(start.union(given.take(done).to_set()).insert(token@) =~= start.union(
                    given.take(done).to_set().insert(token@),
                ));
            }
            self.insert(token);
        }
        assert(given.take(given.len() as int) =~= given);
    }

    /// The set of the given tokens; repetitions count once.
    pub fn from_tokens(tokens: Vec<String>) -> (set: SkillSet)
        ensures
            set@ == tokens.deep_view().to_set(),
    {
        let mut set = SkillSet::new();
        set.extend(tokens);
        assert(Set::<Seq<char>>::empty().union(tokens.deep_view().to_set())
            =~= tokens.deep_view().to_set());
        set
    }

    /// The tokens that either set holds.
    pub fn union(&self, other: &SkillSet) -> (either: SkillSet)
        ensures
            either@ == self@.union(other@),
    {
        let mut either = SkillSet { items: self.to_vec() };
        either.extend(other.to_vec());
        either
    }

    /// The tokens that both sets hold.
    pub fn intersection(&self, other: &SkillSet) -> (both: SkillSet)
        ensures
            both@ == self@.intersect(other@),
    {
        proof {
            use_type_invariant(self);
        }
        let ghost mine = self.items.deep_view();
        let mut kept: Vec<String> = Vec::new();
        let mut i: usize = 0;
        while i < self.items.len()
            invariant
                mine == self.items.deep_view(),
                strictly_ascending(mine),
                0 <= i <= mine.len(),
                strictly_ascending(kept.deep_view()),
                forall|k: int, m: int|
                    0 <= k < kept.len() && i <= m < mine.len() ==> lex_lt(
                        #[trigger] kept.deep_view()[k],
                        #[trigger] mine[m],
                    ),
                forall|k: int|
                    0 <= k < kept.len() ==> mine.contains(#[trigger] kept.deep_view()[k])
                        && other@.contains(kept.deep_view()[k]),
                forall|m: int|
                    0 <= m < i && other@.contains(#[trigger] mine[m]) ==> kept.deep_view().contains(
                        mine[m],
                    ),
            decreases mine.len() - i,
        {
            let token = &self.items[i];
            assert(token@ == mine[i as int]);
            if other.contains(token.as_str()) {
                let ghost before = kept.deep_view();
                kept.push(token.clone());
                proof {
                    let after = kept.deep_view();
                    assert(after =~= before.push(mine[i as int]));
                    assert forall|m: int|
                        0 <= m < i + 1 && other@.contains(
                            #[trigger] mine[m],
                        ) implies after.contains(mine[m]) by {
                        if m < i {
                            let k = choose|k: int| 0 <= k < before.len() && before[k] == mine[m];
                            assert(after[k] == mine[m]);
                        } else {
                            assert(after[before.len() as int] == mine[m]);
                        }
                    }
                }
            }
            i = i + 1;
        }
        let both = SkillSet { items: kept };
        proof {
            let found = both.items.deep_view();
            assert forall|t: Seq<char>| found.to_set().contains(t) == self@.intersect(
                other@,
            ).contains(t) by {
                if found.contains(t) {
                    let k = choose|k: int| 0 <= k < found.len() && found[k] == t;
                    assert(mine.contains(found[k]));
                }
                if mine.contains(t) && other@.contains(t) {
                    let m = choose|m: int| 0 <= m < mine.len() && mine[m] == t;
                    assert(found.contains(mine[m]));
                }
            }
            assert(both@ =~= self@.intersect(other@));
        }
        both
    }

    /// The tokens in lexicographic order, each once.
    pub fn to_vec(&self) -> (tokens: Vec<String>)
        ensures
            tokens.deep_view() == ascending(self@),
            strictly_ascending(tokens.deep_view()),
            tokens.deep_view().to_set() == self@,
    {
        proof {
            use_type_invariant(self);
            lemma_ascending_of(self.items.deep_view());
        }
        let tokens = self.items.clone();
        assert(tokens.deep_view() =~= self.items.deep_view());
        tokens
    }

    /// Gives up the set for its tokens in lexicographic order, each once.
    pub fn into_vec(self) -> (tokens: Vec<String>)
        ensures
            tokens.deep_view() == ascending(self@),
            strictly_ascending(tokens.deep_view()),
            tokens.deep_view().to_set() == self@,
    {
        proof {
            use_type_invariant(&self);
            lemma_ascending_of(self.items.deep_view());
        }
        self.items
    }
}

} // verus!
