//! The catalog of skill patterns: regular expressions, compiled once and then
//! only read.

pub use crate::trusted::SkillPattern;
use crate::lexical::part_of;
use crate::trusted::{accepted, compile, find_all, pattern_matches};
use vstd::prelude::*;
use vstd::string::StringExecFns;

verus! {

/// The inline flag that makes a pattern match without regard to letter case.
pub const IGNORE_CASE: &'static str = "(?i)";

/// The skill patterns, as written: some match several spellings
/// (`node\.?js`), some span words.
pub open spec fn skill_patterns() -> Seq<Seq<char>> {
    seq![
        r"rust\b"@,
        r"c\+\+"@,
        r"python\b"@,
        r"java\b"@,
        r"sql\b"@,
        r"postgresql\b"@,
        r"docker\b"@,
        r"kubernetes\b"@,
        r"linux\b"@,
        r"html\b"@,
        r"css\b"@,
        r"javascript\b"@,
        r"react\b"@,
        r"node\.?js\b"@,
        r"nlp\b"@,
        r"natural language processing\b"@,
    ]
}

/// A pattern text with the case flag in front: what is handed to the compiler.
pub open spec fn flagged(pattern: Seq<char>) -> Seq<char> {
    IGNORE_CASE@ + pattern
}

/// Each of the pattern texts with the case flag in front.
pub open spec fn flagged_all(patterns: Seq<Seq<char>>) -> Seq<Seq<char>> {
    patterns.map_values(|pattern: Seq<char>| flagged(pattern))
}

/// The compiler takes the pattern on this machine.
pub open spec fn compiles(pattern: Seq<char>) -> bool {
    accepted(pattern, usize::BITS as nat)
}

/// The compiler takes every one of the patterns on this machine.
pub open spec fn all_compile(patterns: Seq<Seq<char>>) -> bool {
    forall|i: int| 0 <= i < patterns.len() ==> compiles(#[trigger] patterns[i])
}

/// The pattern at `index` is the first of `patterns` that the compiler
/// refuses: it takes every pattern before it, and not this one.
pub open spec fn refused_first(patterns: Seq<Seq<char>>, index: int) -> bool {
    &&& 0 <= index < patterns.len()
    &&& !compiles(patterns[index])
    &&& all_compile(patterns.take(index))
}

/// The skill patterns as executable values.
pub fn skill_pattern_list() -> (list: Vec<&'static str>)
    ensures
        list.deep_view() == skill_patterns(),
{
    let list = vec![
        r"rust\b",
        r"c\+\+",
        r"python\b",
        r"java\b",
        r"sql\b",
        r"postgresql\b",
        r"docker\b",
        r"kubernetes\b",
        r"linux\b",
        r"html\b",
        r"css\b",
        r"javascript\b",
        r"react\b",
        r"node\.?js\b",
        r"nlp\b",
        r"natural language processing\b",
    ];
    assert(list.deep_view() =~= skill_patterns());
    list
}

/// A pattern that the compiler refused.
#[derive(Clone, Copy, Debug, PartialEq, Eq, Structural)]
pub struct CatalogError {
    /// Position of the refused pattern in the list that was being compiled.
    pub index: usize,
}

impl SkillPattern {
    /// Compiles `source` as it stands. The result is a pattern of that text
    /// where the compiler takes it, and `None` where it refuses it.
    pub fn compile(source: &str) -> (r: Option<SkillPattern>)
        ensures
            r is Some <==> compiles(source@),
            r matches Some(pattern) ==> pattern@ == source@,
    {
        match compile(source) {
            Ok(pattern) => Some(pattern),
            Err(_) => None,
        }
    }
}

/// Compiled patterns, in the order in which they were accepted.
#[derive(Debug)]
pub struct SkillCatalog {
    patterns: Vec<SkillPattern>,
}

impl View for SkillCatalog {
    type V = Seq<Seq<char>>;

    /// The texts that the patterns were compiled from.
    closed spec fn view(&self) -> Seq<Seq<char>> {
        self.patterns@.map_values(|pattern: SkillPattern| pattern@)
    }
}

impl SkillCatalog {
    /// A catalog without patterns.
    pub fn new() -> (catalog: SkillCatalog)
        ensures
            catalog@ == Seq::<Seq<char>>::empty(),
    {
        let catalog = SkillCatalog { patterns: Vec::new() };
        assert(catalog@ =~= Seq::<Seq<char>>::empty());
        catalog
    }

    /// The number of patterns.
    pub fn len(&self) -> (n: usize)
        ensures
            n == self@.len(),
    {
        self.patterns.len()
    }

    /// Takes the outcome of one compilation: a compiled pattern joins the
    /// catalog at the end; a refusal leaves the catalog as it was and is
    /// reported under the position that the pattern would have had.
    pub fn accept(&mut self, compiled: Option<SkillPattern>) -> (r: Result<(), CatalogError>)
        ensures
            match r {
                Ok(_) => compiled matches Some(pattern) && final(self)@ == old(self)@.push(
                    pattern@,
                ),
                Err(e) => compiled is None && e.index == old(self)@.len() && final(self)@ == old(
                    self,
                )@,
            },
    {
        match compiled {
            Some(pattern) => {
                let ghost before = self@;
                let ghost source = pattern@;
                self.patterns.push(pattern);
                assert(self@ =~= before.push(source));
                Ok(())
            },
            None => Err(CatalogError { index: self.patterns.len() }),
        }
    }

    /// Compiles each pattern, case flag in front, into a catalog. Where the
    /// compiler takes them all, the catalog holds them all, in order. Where
    /// it does not, the first pattern that it refuses is reported by its
    /// position.
    pub fn compile_all(patterns: &Vec<&str>) -> (r: Result<SkillCatalog, CatalogError>)
        ensures
            match r {
                Ok(catalog) => all_compile(flagged_all(patterns.deep_view())) && catalog@
                    == flagged_all(patterns.deep_view()),
                Err(e) => refused_first(flagged_all(patterns.deep_view()), e.index as int),
            },
    {
        let ghost wanted = flagged_all(patterns.deep_view());
        let mut catalog = SkillCatalog::new();
        let mut i: usize = 0;
        while i < patterns.len()
            invariant
                wanted == flagged_all(patterns.deep_view()),
                0 <= i <= patterns.len(),
                catalog@ == wanted.take(i as int),
                all_compile(wanted.take(i as int)),
            decreases patterns.len() - i,
        {
            let source = String::from_str(IGNORE_CASE).concat(patterns[i]);
            proof {
                assert(source@ == wanted[i as int]);
                assert(wanted.take(i + 1) =~= wanted.take(i as int).push(wanted[i as int]));
            }
            match catalog.accept(SkillPattern::compile(source.as_str())) {
                Ok(_) => {},
                Err(e) => {
                    return Err(e);
                },
            }
            i = i + 1;
        }
        assert(wanted.take(i as int) =~= wanted);
        Ok(catalog)
    }

    /// The catalog of the skill patterns, where the compiler takes them all;
    /// else the position of the first that it refuses.
    pub fn standard() -> (r: Result<SkillCatalog, CatalogError>)
        ensures
            match r {
                Ok(catalog) => all_compile(flagged_all(skill_patterns())) && catalog@
                    == flagged_all(skill_patterns()),
                Err(e) => refused_first(flagged_all(skill_patterns()), e.index as int),
            },
    {
        SkillCatalog::compile_all(&skill_pattern_list())
    }

    /// The matches of pattern `index` in `text`, in the order found.
    pub(crate) fn matches_of(&self, index: usize, text: &str) -> (found: Vec<String>)
        requires
            index < self@.len(),
        ensures
            found.deep_view() == pattern_matches(self@[index as int], text@),
            forall|i: int|
                0 <= i < found.len() ==> part_of(#[trigger] found.deep_view()[i], text@),
    {
        find_all(&self.patterns[index], text)
    }
}

} // verus!
