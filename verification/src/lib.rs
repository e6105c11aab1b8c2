//! Matching a candidate's profile against job postings.
//!
//! Skill tokens are recognised in free text by a catalog of patterns, the
//! skill sets of candidate and job are compared by Jaccard similarity, the
//! similarity is turned into a composite score, and the scored jobs are
//! ranked: best score first, equal scores by job id, cut to the best `k`.
//!
//! - [`patterns`]: the catalog of compiled skill patterns
//! - [`extract`]: the skills that a text mentions
//! - [`skill_set`]: sets of skill tokens
//! - [`score`]: similarity, composite score and its explanation
//! - [`rank`]: ranking and truncation
//! - [`matching`]: the match operation on a whole request
//! - [`upload`]: what is decided about an uploaded document
//! - [`lexical`]: the order of texts
//! - [`trusted`]: what is taken on trust of `regex` and `std`
//!
//! Scores are whole numbers of hundredths of a point and similarities are
//! pairs of counts, so every result is exact.

pub mod extract;
pub mod lexical;
pub mod matching;
pub mod patterns;
pub mod rank;
pub mod score;
pub mod skill_set;
pub mod trusted;
pub mod upload;
