//! The match operation: one candidate against a list of jobs.

use crate::extract::{extract_skill_set, skills_in};
use crate::patterns::SkillCatalog;
use crate::rank::{
    in_rank_order, lemma_ranking_members, lemma_top_ordered, rank, ranking, top, views,
    MatchResult, MatchView,
};
use crate::score::{composite, explain, explanation_text, jaccard, score};
use crate::skill_set::{ascending, SkillSet};
use crate::trusted::lowercase;
use vstd::prelude::*;
use vstd::string::StringExecFns;

verus! {

/// The candidate of a request.
#[derive(Clone, Debug)]
pub struct CandidateInput {
    /// The candidate's name, where one was given. It plays no part in scoring.
    pub name: Option<String>,
    /// The profile, as free text.
    pub raw_text: String,
}

/// One job posting of a request.
#[derive(Clone, Debug)]
pub struct JobInput {
    /// The id under which the job's result is reported.
    pub id: String,
    /// The job's title. It plays no part in scoring.
    pub title: String,
    /// The posting, as free text.
    pub description: String,
    /// Skills that the posting declares outright, in any letter case.
    pub required_skills: Option<Vec<String>>,
}

/// A request to match one candidate against jobs.
#[derive(Clone, Debug)]
pub struct MatchRequest {
    pub candidate: CandidateInput,
    pub jobs: Vec<JobInput>,
    /// How many results are wanted at most; all of them where absent. The
    /// type takes every whole number that a request can carry, so that a
    /// negative one is a limit refused and not a request unread.
    pub top_k: Option<i128>,
}

/// What a `JobInput` holds, as plain values.
pub ghost struct JobView {
    pub id: Seq<char>,
    pub title: Seq<char>,
    pub description: Seq<char>,
    pub required_skills: Option<Seq<Seq<char>>>,
}

impl View for JobInput {
    type V = JobView;

    open spec fn view(&self) -> JobView {
        JobView {
            id: self.id@,
            title: self.title@,
            description: self.description@,
            required_skills: match self.required_skills {
                Some(declared) => Some(declared.deep_view()),
                None => None,
            },
        }
    }
}

/// The views of a sequence of jobs, in the same order.
pub open spec fn job_views(jobs: Seq<JobInput>) -> Seq<JobView> {
    jobs.map_values(|j: JobInput| j@)
}

/// A constraint on the shape of a request that a request broke.
#[derive(Clone, Copy, Debug, PartialEq, Eq, Structural)]
pub enum ValidationError {
    /// `top_k` must not be negative.
    NegativeTopK,
    /// The candidate's text is required.
    MissingCandidateText,
}

/// Why a match could not be made.
#[derive(Clone, Copy, Debug, PartialEq, Eq, Structural)]
pub enum MatchError {
    /// The request was refused before any work was done on it.
    Validation(ValidationError),
    /// A document could not be turned into text. The match operation itself
    /// works on text and never fails in this way; the variant is for those
    /// who obtain the text.
    ExtractionFailure,
}

/// The constraint that was broken, in words.
pub open spec fn validation_text(broken: ValidationError) -> Seq<char> {
    match broken {
        ValidationError::NegativeTopK => "top_k must not be negative"@,
        ValidationError::MissingCandidateText => "candidate raw_text is required"@,
    }
}

/// The failure, in words.
pub open spec fn error_text(error: MatchError) -> Seq<char> {
    match error {
        MatchError::Validation(broken) => validation_text(broken),
        MatchError::ExtractionFailure => "text extraction failed"@,
    }
}

impl ValidationError {
    /// Names the broken constraint.
    pub fn message(&self) -> (text: String)
        ensures
            text@ == validation_text(*self),
    {
        match self {
            ValidationError::NegativeTopK => String::from_str("top_k must not be negative"),
            ValidationError::MissingCandidateText => String::from_str(
                "candidate raw_text is required",
            ),
        }
    }
}

impl MatchError {
    /// Says what went wrong.
    pub fn message(&self) -> (text: String)
        ensures
            text@ == error_text(*self),
    {
        match self {
            MatchError::Validation(broken) => broken.message(),
            MatchError::ExtractionFailure => String::from_str("text extraction failed"),
        }
    }
}

impl CandidateInput {
    /// A candidate from the parts of a request. The name may be missing, the
    /// text may not.
    pub fn from_parts(name: Option<String>, raw_text: Option<String>) -> (r: Result<
        CandidateInput,
        ValidationError,
    >)
        ensures
            match r {
                Ok(candidate) => raw_text == Some(candidate.raw_text) && candidate.name == name,
                Err(broken) => raw_text is None && broken == ValidationError::MissingCandidateText,
            },
    {
        match raw_text {
            Some(raw_text) => Ok(CandidateInput { name, raw_text }),
            None => Err(ValidationError::MissingCandidateText),
        }
    }
}

/// The lower-case forms of declared skills, as a set.
pub open spec fn normalized(declared: Seq<Seq<char>>) -> Set<Seq<char>> {
    declared.map_values(|skill: Seq<char>| lowercase(skill)).to_set()
}

/// The skills of a job: those it declares, in lower case, and those that its
/// description mentions.
pub open spec fn job_skills(patterns: Seq<Seq<char>>, job: JobView) -> Set<Seq<char>> {
    let declared = match job.required_skills {
        Some(declared) => normalized(declared),
        None => Set::empty(),
    };
    declared.union(skills_in(patterns, job.description))
}

/// The result for one job: its score, the skills it shares with the
/// candidate, and the explanation, all fixed by the two skill sets.
pub open spec fn scored(
    candidate: Set<Seq<char>>,
    job_id: Seq<char>,
    job: Set<Seq<char>>,
) -> MatchView {
    MatchView {
        job_id,
        score: composite(jaccard(candidate, job), 0, 0),
        matched_skills: ascending(candidate.intersect(job)),
        explanation: explanation_text(jaccard(candidate, job)),
    }
}

/// The results for all jobs of a request, in the order of the jobs.
pub open spec fn scored_jobs(
    patterns: Seq<Seq<char>>,
    candidate_text: Seq<char>,
    jobs: Seq<JobView>,
) -> Seq<MatchView> {
    jobs.map_values(
        |job: JobView|
            scored(skills_in(patterns, candidate_text), job.id, job_skills(patterns, job)),
    )
}

/// The limit is one that a request may not have.
pub open spec fn negative(top_k: Option<i128>) -> bool {
    top_k matches Some(k) && k < 0
}

/// The limit of a request as a number, where it has one.
pub open spec fn limit(top_k: Option<i128>) -> Option<int> {
    match top_k {
        Some(k) => Some(k as int),
        None => None,
    }
}

/// What a match request is answered with: the jobs scored, ranked and cut to
/// the limit.
pub open spec fn answer(
    patterns: Seq<Seq<char>>,
    candidate_text: Seq<char>,
    jobs: Seq<JobView>,
    top_k: Option<i128>,
) -> Seq<MatchView> {
    top(ranking(scored_jobs(patterns, candidate_text, jobs)), limit(top_k))
}

/// An answer is in rank order, and holds one result for each job up to the
/// limit: as many as the limit says, or as many as there are jobs where that
/// is fewer or no limit is given.
pub proof fn lemma_answer(
    patterns: Seq<Seq<char>>,
    candidate_text: Seq<char>,
    jobs: Seq<JobView>,
    top_k: Option<i128>,
)
    requires
        !negative(top_k),
    ensures
        in_rank_order(answer(patterns, candidate_text, jobs, top_k)),
        answer(patterns, candidate_text, jobs, top_k).len() == match top_k {
            Some(k) if k < jobs.len() => k as int,
            _ => jobs.len() as int,
        },
{
    let results = scored_jobs(patterns, candidate_text, jobs);
    lemma_top_ordered(results, limit(top_k));
    lemma_ranking_members(results);
}

/// Checks the limit of a request. A negative limit is refused, never clamped.
pub fn validate_top_k(top_k: Option<i128>) -> (r: Result<Option<u128>, ValidationError>)
    ensures
        match r {
            Ok(Some(k)) => top_k == Some(k as i128) && k <= i128::MAX,
            Ok(None) => top_k is None,
            Err(e) => e == ValidationError::NegativeTopK && negative(top_k),
        },
{
    match top_k {
        None => Ok(None),
        Some(k) => {
            if k < 0 {
                Err(ValidationError::NegativeTopK)
            } else {
                Ok(Some(k as u128))
            }
        },
    }
}

/// Declared skills in lower case, as a set.
pub fn normalize_skills(declared: &Vec<String>) -> (set: SkillSet)
    ensures
        set@ == normalized(declared.deep_view()),
{
    let ghost lower = declared.deep_view().map_values(|skill: Seq<char>| lowercase(skill));
    let mut lowered: Vec<String> = Vec::new();
    let mut i: usize = 0;
    while i < declared.len()
        invariant
            lower == declared.deep_view().map_values(|skill: Seq<char>| lowercase(skill)),
            0 <= i <= declared.len(),
            lowered.deep_view() == lower.take(i as int),
        decreases declared.len() - i,
    {
        let ghost before = lowered.deep_view();
        lowered.push(declared[i].to_lowercase());
        proof {
            assert(declared.deep_view()[i as int] == declared@[i as int]@);
            assert(lowered.deep_view() =~= before.push(lower[i as int]));
            assert(lower.take(i + 1) =~= lower.take(i as int).push(lower[i as int]));
        }
        i = i + 1;
    }
    assert(lower.take(i as int) =~= lower);
    SkillSet::from_tokens(lowered)
}

/// The skills of a job.
pub fn job_skill_set(catalog: &SkillCatalog, job: &JobInput) -> (set: SkillSet)
    ensures
        set@ == job_skills(catalog@, job@),
{
    let declared = match &job.required_skills {
        Some(declared) => normalize_skills(declared),
        None => SkillSet::new(),
    };
    let mentioned = extract_skill_set(catalog, job.description.as_str());
    declared.union(&mentioned)
}

/// Scores one job against the candidate's skills.
pub fn score_job(catalog: &SkillCatalog, candidate: &SkillSet, job: &JobInput) -> (result:
    MatchResult)
    ensures
        result@ == scored(candidate@, job@.id, job_skills(catalog@, job@)),
{
    let skills = job_skill_set(catalog, job);
    let scored = score(candidate, &skills);
    let explanation = explain(&scored.similarity);
    MatchResult {
        job_id: job.id.clone(),
        score: scored.composite,
        matched_skills: scored.matched,
        explanation,
    }
}

/// Answers a match request: the jobs scored against the candidate, best
/// first, at most `top_k` of them. A request with a negative `top_k` is
/// refused as a whole; every other request is answered in full.
pub fn handle_match(catalog: &SkillCatalog, request: &MatchRequest) -> (r: Result<
    Vec<MatchResult>,
    MatchError,
>)
    ensures
        match r {
            Ok(results) => !negative(request.top_k) && views(results@) == answer(
                catalog@,
                request.candidate.raw_text@,
                job_views(request.jobs@),
                request.top_k,
            ),
            Err(e) => negative(request.top_k) && e == MatchError::Validation(
                ValidationError::NegativeTopK,
            ),
        },
{
    let wanted = match validate_top_k(request.top_k) {
        Ok(wanted) => wanted,
        Err(broken) => {
            return Err(MatchError::Validation(broken));
        },
    };
    let candidate = extract_skill_set(catalog, request.candidate.raw_text.as_str());
    let ghost jobs = job_views(request.jobs@);
    let ghost expected = scored_jobs(catalog@, request.candidate.raw_text@, jobs);
    let mut results: Vec<MatchResult> = Vec::new();
    let mut i: usize = 0;
    while i < request.jobs.len()
        invariant
            jobs == job_views(request.jobs@),
            expected == scored_jobs(catalog@, request.candidate.raw_text@, jobs),
            candidate@ == skills_in(catalog@, request.candidate.raw_text@),
            0 <= i <= request.jobs.len(),
            views(results@) == expected.take(i as int),
        decreases request.jobs.len() - i,
    {
        let result = score_job(catalog, &candidate, &request.jobs[i]);
        let ghost before = views(results@);
        let ghost added = result@;
        results.push(result);
        proof {
            assert(jobs[i as int] == request.jobs@[i as int]@);
            assert(added == expected[i as int]);
            assert(views(results@) =~= before.push(added));
            assert(expected.take(i + 1) =~= expected.take(i as int).push(expected[i as int]));
        }
        i = i + 1;
    }
    assert(expected.take(i as int) =~= expected);
    let count = results.len();
    let keep: Option<usize> = match wanted {
        Some(k) => if k < count as u128 {
            Some(k as usize)
        } else {
            None
        },
        None => None,
    };
    proof {
        lemma_ranking_members(expected);
    }
    Ok(rank(results, keep))
}

} // verus!
