//! Skill extraction: which tokens of the catalog a text mentions.

use crate::lexical::part_of;
use crate::patterns::SkillCatalog;
use crate::skill_set::{
    ascending, lemma_ascending_of, lemma_ascending_unique, strictly_ascending, SkillSet,
};
use crate::trusted::{lowercase, pattern_matches};
use vstd::prelude::*;

verus! {

/// `token` is the lower-case form of match `m` of pattern `p` in `text`.
pub open spec fn is_skill_at(
    patterns: Seq<Seq<char>>,
    text: Seq<char>,
    p: int,
    m: int,
    token: Seq<char>,
) -> bool {
    &&& 0 <= p < patterns.len()
    &&& 0 <= m < pattern_matches(patterns[p], text).len()
    &&& token == lowercase(pattern_matches(patterns[p], text)[m])
}

/// The skills that `text` mentions: the lower-case form of every match of
/// every pattern. A token is what was matched, not the pattern that matched.
pub open spec fn skills_in(patterns: Seq<Seq<char>>, text: Seq<char>) -> Set<Seq<char>> {
    Set::new(
        |token: Seq<char>|
            exists|p: int, m: int| #[trigger] is_skill_at(patterns, text, p, m, token),
    )
}

/// `token` is the lower-case form of some part of `text`.
pub open spec fn from_text(token: Seq<char>, text: Seq<char>) -> bool {
    exists|part: Seq<char>| #[trigger] part_of(part, text) && token == lowercase(part)
}

/// The skills found once the patterns before `p` are done and, of pattern `p`,
/// the matches before `m`.
spec fn skills_so_far(patterns: Seq<Seq<char>>, text: Seq<char>, p: int, m: int) -> Set<
    Seq<char>,
> {
    Set::new(
        |token: Seq<char>|
            exists|i: int, j: int|
                #[trigger] is_skill_at(patterns, text, i, j, token) && (i < p || (i == p && j
                    < m)),
    )
}

/// Before the first match of the first pattern nothing is found.
proof fn lemma_skills_none(patterns: Seq<Seq<char>>, text: Seq<char>)
    ensures
        skills_so_far(patterns, text, 0, 0) == Set::<Seq<char>>::empty(),
{
    assert(skills_so_far(patterns, text, 0, 0) =~= Set::<Seq<char>>::empty());
}

/// One more match of pattern `p` adds its lower-case form to what is found.
proof fn lemma_skills_step(patterns: Seq<Seq<char>>, text: Seq<char>, p: int, m: int)
    requires
        0 <= p < patterns.len(),
        0 <= m < pattern_matches(patterns[p], text).len(),
    ensures
        skills_so_far(patterns, text, p, m + 1) == skills_so_far(patterns, text, p, m).insert(
            lowercase(pattern_matches(patterns[p], text)[m]),
        ),
{
    let token = lowercase(pattern_matches(patterns[p], text)[m]);
    let before = skills_so_far(patterns, text, p, m);
    let after = skills_so_far(patterns, text, p, m + 1);
    assert(is_skill_at(patterns, text, p, m, token));
    assert forall|t: Seq<char>| after.contains(t) == before.insert(token).contains(t) by {
        if before.contains(t) {
            let (i, j) = choose|i: int, j: int|
                #[trigger] is_skill_at(patterns, text, i, j, t) && (i < p || (i == p && j < m));
            assert(is_skill_at(patterns, text, i, j, t));
        }
        if after.contains(t) {
            let (i, j) = choose|i: int, j: int|
                #[trigger] is_skill_at(patterns, text, i, j, t) && (i < p || (i == p && j < m
                    + 1));
            if !(i == p && j == m) {
                assert(is_skill_at(patterns, text, i, j, t));
            }
        }
    }
    assert(after =~= before.insert(token));
}

/// With the last match of pattern `p` done, the next pattern begins.
proof fn lemma_skills_next(patterns: Seq<Seq<char>>, text: Seq<char>, p: int)
    requires
        0 <= p < patterns.len(),
    ensures
        skills_so_far(patterns, text, p + 1, 0) == skills_so_far(
            patterns,
            text,
            p,
            pattern_matches(patterns[p], text).len() as int,
        ),
{
    let m = pattern_matches(patterns[p], text).len() as int;
    let before = skills_so_far(patterns, text, p, m);
    let after = skills_so_far(patterns, text, p + 1, 0);
    assert forall|t: Seq<char>| after.contains(t) == before.contains(t) by {
        if before.contains(t) {
            let (i, j) = choose|i: int, j: int|
                #[trigger] is_skill_at(patterns, text, i, j, t) && (i < p || (i == p && j < m));
            assert(is_skill_at(patterns, text, i, j, t));
        }
        if after.contains(t) {
            let (i, j) = choose|i: int, j: int|
                #[trigger] is_skill_at(patterns, text, i, j, t) && (i < p + 1 || (i == p + 1 && j
                    < 0));
            assert(is_skill_at(patterns, text, i, j, t));
        }
    }
    assert(after =~= before);
}

/// With the last pattern done, every skill of the text is found.
proof fn lemma_skills_all(patterns: Seq<Seq<char>>, text: Seq<char>)
    ensures
        skills_so_far(patterns, text, patterns.len() as int, 0) == skills_in(patterns, text),
{
    let all = skills_in(patterns, text);
    let found = skills_so_far(patterns, text, patterns.len() as int, 0);
    assert forall|t: Seq<char>| found.contains(t) == all.contains(t) by {
        if all.contains(t) {
            let (i, j) = choose|i: int, j: int| #[trigger] is_skill_at(patterns, text, i, j, t);
            assert(is_skill_at(patterns, text, i, j, t));
        }
        if found.contains(t) {
            let (i, j) = choose|i: int, j: int|
                #[trigger] is_skill_at(patterns, text, i, j, t) && (i < patterns.len() || (i
                    == patterns.len() && j < 0));
            assert(is_skill_at(patterns, text, i, j, t));
        }
    }
    assert(found =~= all);
}

/// Extraction is a function of catalog and text: two lists that both hold the
/// skills of a text in strictly ascending order are one and the same list.
pub proof fn lemma_extraction_determined(
    patterns: Seq<Seq<char>>,
    text: Seq<char>,
    first: Seq<Seq<char>>,
    second: Seq<Seq<char>>,
)
    requires
        strictly_ascending(first),
        first.to_set() == skills_in(patterns, text),
        strictly_ascending(second),
        second.to_set() == skills_in(patterns, text),
    ensures
        first == second,
        first == ascending(skills_in(patterns, text)),
{
    lemma_ascending_unique(first, second);
    lemma_ascending_of(first);
}

/// The order of the patterns in the catalog does not matter, nor does a
/// pattern that stands in it twice: catalogs of the same patterns find the
/// same skills.
pub proof fn lemma_skills_order_free(
    first: Seq<Seq<char>>,
    second: Seq<Seq<char>>,
    text: Seq<char>,
)
    requires
        first.to_set() == second.to_set(),
    ensures
        skills_in(first, text) == skills_in(second, text),
{
    assert forall|t: Seq<char>| skills_in(first, text).contains(t) == skills_in(
        second,
        text,
    ).contains(t) by {
        if skills_in(first, text).contains(t) {
            let (p, m) = choose|p: int, m: int| #[trigger] is_skill_at(first, text, p, m, t);
            assert(second.to_set().contains(first[p]));
            let q = choose|q: int| 0 <= q < second.len() && second[q] == first[p];
            assert(is_skill_at(second, text, q, m, t));
        }
        if skills_in(second, text).contains(t) {
            let (p, m) = choose|p: int, m: int| #[trigger] is_skill_at(second, text, p, m, t);
            assert(first.to_set().contains(second[p]));
            let q = choose|q: int| 0 <= q < first.len() && first[q] == second[p];
            assert(is_skill_at(first, text, q, m, t));
        }
    }
    assert(skills_in(first, text) =~= skills_in(second, text));
}

/// The skill tokens that `text` mentions, in lexicographic order, each once.
/// The result is fixed by the catalog and the text, and every token in it is
/// the lower-case form of a part of the text.
pub fn extract_skills_from_text(catalog: &SkillCatalog, text: &str) -> (skills: Vec<String>)
    ensures
        skills.deep_view() == ascending(skills_in(catalog@, text@)),
        strictly_ascending(skills.deep_view()),
        skills.deep_view().to_set() == skills_in(catalog@, text@),
        forall|i: int|
            0 <= i < skills.len() ==> from_text(#[trigger] skills.deep_view()[i], text@),
{
    let skills = extract_skill_set(catalog, text).into_vec();
    assert forall|i: int| 0 <= i < skills.len() implies from_text(
        #[trigger] skills.deep_view()[i],
        text@,
    ) by {
        assert(skills.deep_view().to_set().contains(skills.deep_view()[i]));
    }
    skills
}

/// The skill tokens that `text` mentions, as a set. Every token in it is the
/// lower-case form of a part of the text.
pub fn extract_skill_set(catalog: &SkillCatalog, text: &str) -> (found: SkillSet)
    ensures
        found@ == skills_in(catalog@, text@),
        forall|token: Seq<char>| #[trigger] found@.contains(token) ==> from_text(token, text@),
{
    let mut found = SkillSet::new();
    let mut p: usize = 0;
    proof {
        lemma_skills_none(catalog@, text@);
    }
    while p < catalog.len()
        invariant
            0 <= p <= catalog@.len(),
            found@ == skills_so_far(catalog@, text@, p as int, 0),
            forall|token: Seq<char>| #[trigger] found@.contains(token) ==> from_text(token, text@),
        decreases catalog@.len() - p,
    {
        let matches = catalog.matches_of(p, text);
        let mut m: usize = 0;
        while m < matches.len()
            invariant
                0 <= p < catalog@.len(),
                0 <= m <= matches.len(),
                matches.deep_view() == pattern_matches(catalog@[p as int], text@),
                forall|i: int|
                    0 <= i < matches.len() ==> part_of(#[trigger] matches.deep_view()[i], text@),
                found@ == skills_so_far(catalog@, text@, p as int, m as int),
                forall|token: Seq<char>|
                    #[trigger] found@.contains(token) ==> from_text(token, text@),
            decreases matches.len() - m,
        {
            let token = matches[m].to_lowercase();
            proof {
                assert(matches.deep_view()[m as int] == matches@[m as int]@);
                assert(part_of(matches.deep_view()[m as int], text@));
                assert(from_text(token@, text@));
                lemma_skills_step(catalog@, text@, p as int, m as int);
            }
            found.insert(token);
            m = m + 1;
        }
        proof {
            lemma_skills_next(catalog@, text@, p as int);
        }
        p = p + 1;
    }
    proof {
        lemma_skills_all(catalog@, text@);
    }
    found
}

} // verus!
