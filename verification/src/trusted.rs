//! What is taken on trust: the regular expressions of the `regex` crate and
//! the lower-casing of `std`. Each contract here says what the code behind it
//! is documented to do; none of it is proved. Everything else in this crate
//! is proved from these contracts.

use crate::lexical::part_of;
use regex::Regex;
use vstd::prelude::*;

verus! {

/// `regex::Regex`, a compiled regular expression. Nothing inside it is seen
/// by the proofs.
#[verifier::external_type_specification]
#[verifier::external_body]
pub struct ExRegex(regex::Regex);

/// `regex::Error`, the refusal of a pattern. Nothing inside it is seen by the
/// proofs.
#[verifier::external_type_specification]
#[verifier::external_body]
pub struct ExRegexError(regex::Error);

/// A compiled pattern: a regular expression, and the text that it was
/// compiled from. `compile` is the only place where one is made, so the two
/// always belong together.
#[derive(Debug)]
pub struct SkillPattern {
    source: String,
    compiled: Regex,
}

impl View for SkillPattern {
    type V = Seq<char>;

    /// The text that the pattern was compiled from.
    closed spec fn view(&self) -> Seq<char> {
        self.source@
    }
}

/// The matches of a pattern in a text: the substrings of `text` that
/// `Regex::find_iter` yields, one after the other, for the expression that
/// `Regex::new` makes of `pattern`. They are its successive non-overlapping
/// matches, leftmost first. The name says nothing of a pattern that
/// `Regex::new` refuses.
pub uninterp spec fn pattern_matches(pattern: Seq<char>, text: Seq<char>) -> Seq<Seq<char>>;

/// Whether `Regex::new` takes a pattern, on a machine whose addresses are
/// `word_bits` wide. It takes a pattern that is well formed and whose compiled
/// program stays within the size limit that the `regex` crate sets itself.
/// The size of a program is counted in bytes of memory, so it goes by the
/// pattern and by the width of an address, and by nothing else.
pub uninterp spec fn accepted(pattern: Seq<char>, word_bits: nat) -> bool;

/// `Regex::new`: compiles `source`. It succeeds on the patterns that it
/// accepts on this machine and on no others, and a compiled pattern is one of
/// the text that was handed in.
#[verifier::external_body]
pub(crate) fn compile(source: &str) -> (r: Result<SkillPattern, regex::Error>)
    ensures
        r is Ok <==> accepted(source@, usize::BITS as nat),
        r matches Ok(pattern) ==> pattern@ == source@,
{
    Regex::new(source).map(|compiled| SkillPattern { source: source.to_string(), compiled })
}

/// `Regex::find_iter`: every match of `pattern` in `text`, each as the matched
/// substring (`Match::as_str`), in the order in which the iterator yields
/// them. A match is a part of the text that was searched.
#[verifier::external_body]
pub(crate) fn find_all(pattern: &SkillPattern, text: &str) -> (found: Vec<String>)
    ensures
        found.deep_view() == pattern_matches(pattern@, text@),
        forall|i: int|
            0 <= i < found.len() ==> part_of(#[trigger] found.deep_view()[i], text@),
{
    pattern.compiled.find_iter(text).map(|m| m.as_str().to_string()).collect()
}

/// The lower-case form of a text, as `str::to_lowercase` gives it.
pub uninterp spec fn lowercase(text: Seq<char>) -> Seq<char>;

/// `str::to_lowercase`: the lower-case equivalent of the text under the
/// Unicode rules. It depends on the text alone, not on a locale.
pub assume_specification[ str::to_lowercase ](text: &str) -> (lower: String)
    ensures
        lower@ == lowercase(text@),
;

} // verus!
