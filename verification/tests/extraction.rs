use resume_matcher::extract::{extract_skill_set, extract_skills_from_text};
use resume_matcher::patterns::{
    skill_pattern_list, CatalogError, SkillCatalog, SkillPattern, IGNORE_CASE,
};

fn catalog() -> SkillCatalog {
    SkillCatalog::standard().unwrap()
}

fn found(text: &str) -> Vec<String> {
    extract_skills_from_text(&catalog(), text)
}

fn words(tokens: &[&str]) -> Vec<String> {
    tokens.iter().map(|t| t.to_string()).collect()
}

#[test]
fn standard_catalog_compiles_every_pattern() {
    let catalog = SkillCatalog::standard().unwrap();
    assert_eq!(catalog.len(), 16);
    assert_eq!(skill_pattern_list().len(), 16);
}

#[test]
fn pattern_list_is_as_written() {
    let list = skill_pattern_list();
    assert_eq!(list[0], r"rust\b");
    assert_eq!(list[1], r"c\+\+");
    assert_eq!(list[13], r"node\.?js\b");
    assert_eq!(list[15], r"natural language processing\b");
    assert_eq!(IGNORE_CASE, "(?i)");
}

#[test]
fn empty_text_has_no_skills() {
    assert_eq!(found(""), Vec::<String>::new());
    assert!(extract_skill_set(&catalog(), "").is_empty());
}

#[test]
fn text_without_skills_has_none() {
    assert_eq!(found("I like long walks on the beach."), Vec::<String>::new());
}

#[test]
fn finds_skills_in_a_sentence() {
    assert_eq!(found("I know Rust and Python"), words(&["python", "rust"]));
    assert_eq!(found("Looking for a Rust developer"), words(&["rust"]));
}

#[test]
fn tokens_are_lower_case_whatever_the_text() {
    assert_eq!(found("RUST"), words(&["rust"]));
    assert_eq!(found("rUsT, PYTHON and Docker"), words(&["docker", "python", "rust"]));
    assert_eq!(found("PostgreSQL"), words(&["postgresql", "sql"]));
}

#[test]
fn repeated_mentions_count_once() {
    assert_eq!(found("rust Rust RUST rust"), words(&["rust"]));
    assert_eq!(found("sql, python; SQL. Python!"), words(&["python", "sql"]));
}

#[test]
fn tokens_with_punctuation_are_kept_whole() {
    assert_eq!(found("C++ and Node.js"), words(&["c++", "node.js"]));
    assert_eq!(found("we use c++"), words(&["c++"]));
}

#[test]
fn a_token_is_what_was_matched_not_the_pattern() {
    assert_eq!(found("nodejs"), words(&["nodejs"]));
    assert_eq!(found("node.js"), words(&["node.js"]));
    assert_eq!(found("NodeJS or Node.JS"), words(&["node.js", "nodejs"]));
}

#[test]
fn tokens_of_several_words_are_kept_whole() {
    assert_eq!(
        found("Natural Language Processing (NLP)"),
        words(&["natural language processing", "nlp"])
    );
}

#[test]
fn a_word_has_to_end_where_the_skill_ends() {
    assert_eq!(found("rusty"), Vec::<String>::new());
    assert_eq!(found("javascript"), words(&["javascript"]));
    assert_eq!(found("java"), words(&["java"]));
    assert_eq!(found("java, javascript"), words(&["java", "javascript"]));
    assert_eq!(found("pythonic"), Vec::<String>::new());
}

#[test]
fn a_skill_may_start_inside_a_word() {
    // No pattern asks for a word boundary in front.
    assert_eq!(found("postgresql"), words(&["postgresql", "sql"]));
    assert_eq!(found("mysql"), words(&["sql"]));
    assert_eq!(found("trust"), words(&["rust"]));
}

#[test]
fn finds_every_skill_of_the_catalog() {
    let text = "rust c++ python java sql postgresql docker kubernetes linux html css \
                javascript react node.js nlp natural language processing";
    assert_eq!(
        found(text),
        words(&[
            "c++",
            "css",
            "docker",
            "html",
            "java",
            "javascript",
            "kubernetes",
            "linux",
            "natural language processing",
            "nlp",
            "node.js",
            "postgresql",
            "python",
            "react",
            "rust",
            "sql",
        ])
    );
}

#[test]
fn extraction_gives_the_same_result_each_time() {
    let catalog = catalog();
    let text = "Senior engineer: Rust, C++, PostgreSQL, Docker and Kubernetes on Linux.";
    let first = extract_skills_from_text(&catalog, text);
    let second = extract_skills_from_text(&catalog, text);
    assert_eq!(first, second);
    assert_eq!(
        first,
        words(&["c++", "docker", "kubernetes", "linux", "postgresql", "rust", "sql"])
    );
    let other = SkillCatalog::standard().unwrap();
    assert_eq!(extract_skills_from_text(&other, text), first);
}

#[test]
fn result_is_in_order_without_repetition() {
    let tokens = found("sql rust css html rust sql java c++ react linux");
    for pair in tokens.windows(2) {
        assert!(pair[0] < pair[1]);
    }
    assert_eq!(tokens.len(), 8);
}

#[test]
fn skill_set_holds_what_the_list_holds() {
    let catalog = catalog();
    let text = "React and CSS, some HTML";
    let set = extract_skill_set(&catalog, text);
    assert_eq!(set.to_vec(), extract_skills_from_text(&catalog, text));
    assert_eq!(set.len(), 3);
    assert!(set.contains("react"));
    assert!(set.contains("css"));
    assert!(set.contains("html"));
}

#[test]
fn text_beyond_ascii_is_searched_too() {
    assert_eq!(found("日本語 と Rust、それから Python。"), words(&["python", "rust"]));
    assert_eq!(found("naïve café"), Vec::<String>::new());
}

#[test]
fn case_is_folded_beyond_ascii() {
    // U+212A KELVIN SIGN matches `k` without regard to case, and U+017F LATIN
    // SMALL LETTER LONG S matches `s`; the token is the lower-case form of
    // what stood in the text.
    assert_eq!(found("doc\u{212a}er"), words(&["docker"]));
    assert_eq!(found("ru\u{17f}t"), words(&["ru\u{17f}t"]));
}

#[test]
fn a_catalog_of_ones_own_patterns() {
    let catalog = SkillCatalog::compile_all(&vec![r"go\b", r"zig\b"]).unwrap();
    assert_eq!(catalog.len(), 2);
    assert_eq!(
        extract_skills_from_text(&catalog, "Zig, GO and Rust"),
        words(&["go", "zig"])
    );
}

#[test]
fn an_empty_catalog_finds_nothing() {
    let catalog = SkillCatalog::new();
    assert_eq!(catalog.len(), 0);
    assert_eq!(extract_skills_from_text(&catalog, "rust python"), Vec::<String>::new());
    let compiled = SkillCatalog::compile_all(&Vec::new()).unwrap();
    assert_eq!(compiled.len(), 0);
}

#[test]
fn a_refused_pattern_is_reported_by_position() {
    let r = SkillCatalog::compile_all(&vec![r"rust\b", r"c\+\+", r"(unclosed", r"sql\b"]);
    match r {
        Err(e) => assert_eq!(e, CatalogError { index: 2 }),
        Ok(_) => panic!("the third pattern does not compile"),
    }
    let r = SkillCatalog::compile_all(&vec![r"[a-"]);
    match r {
        Err(e) => assert_eq!(e.index, 0),
        Ok(_) => panic!("the pattern does not compile"),
    }
}

#[test]
fn accept_takes_a_compiled_pattern() {
    let mut catalog = SkillCatalog::new();
    assert_eq!(catalog.accept(SkillPattern::compile(r"(?i)go\b")), Ok(()));
    assert_eq!(catalog.len(), 1);
    assert_eq!(catalog.accept(SkillPattern::compile(r"(?i)zig\b")), Ok(()));
    assert_eq!(catalog.len(), 2);
    assert_eq!(extract_skills_from_text(&catalog, "ZIG go"), words(&["go", "zig"]));
}

#[test]
fn accept_reports_a_refusal_and_keeps_the_catalog() {
    let mut catalog = SkillCatalog::new();
    assert_eq!(catalog.accept(SkillPattern::compile(r"(")), Err(CatalogError { index: 0 }));
    assert_eq!(catalog.len(), 0);
    assert_eq!(catalog.accept(SkillPattern::compile(r"go\b")), Ok(()));
    assert_eq!(catalog.accept(None), Err(CatalogError { index: 1 }));
    assert_eq!(catalog.accept(SkillPattern::compile(r"*")), Err(CatalogError { index: 1 }));
    assert_eq!(catalog.len(), 1);
    assert_eq!(extract_skills_from_text(&catalog, "go"), words(&["go"]));
}

#[test]
fn compile_tells_what_the_compiler_takes() {
    assert!(SkillPattern::compile(r"rust\b").is_some());
    assert!(SkillPattern::compile(r"(?i)node\.?js\b").is_some());
    assert!(SkillPattern::compile("").is_some());
    assert!(SkillPattern::compile(r"(unclosed").is_none());
    assert!(SkillPattern::compile(r"[a-").is_none());
    assert!(SkillPattern::compile(r"\").is_none());
}

#[test]
fn patterns_are_compiled_without_regard_to_case() {
    // What `accept` is handed is used as it is: without the flag a pattern
    // matches only as written.
    let mut exact = SkillCatalog::new();
    assert_eq!(exact.accept(SkillPattern::compile(r"go\b")), Ok(()));
    assert_eq!(extract_skills_from_text(&exact, "GO go"), words(&["go"]));
    assert_eq!(extract_skills_from_text(&exact, "GO"), Vec::<String>::new());
    let flagged = SkillCatalog::compile_all(&vec![r"go\b"]).unwrap();
    assert_eq!(extract_skills_from_text(&flagged, "GO"), words(&["go"]));
}

#[test]
fn a_pattern_twice_or_in_another_place_finds_the_same() {
    let text = "Go, Zig and Rust; zig again";
    let one = SkillCatalog::compile_all(&vec![r"go\b", r"zig\b", r"rust\b"]).unwrap();
    let other =
        SkillCatalog::compile_all(&vec![r"rust\b", r"zig\b", r"go\b", r"zig\b"]).unwrap();
    assert_eq!(
        extract_skills_from_text(&one, text),
        extract_skills_from_text(&other, text)
    );
    assert_eq!(extract_skills_from_text(&one, text), words(&["go", "rust", "zig"]));
}

#[test]
fn the_first_refused_pattern_is_the_one_reported() {
    let r = SkillCatalog::compile_all(&vec![r"go\b", r"(one", r"zig\b", r"[two"]);
    match r {
        Err(e) => assert_eq!(e, CatalogError { index: 1 }),
        Ok(_) => panic!("two of the patterns do not compile"),
    }
    // The patterns in front of it are taken when they stand alone.
    assert!(SkillCatalog::compile_all(&vec![r"go\b"]).is_ok());
    assert!(SkillPattern::compile(r"(?i)go\b").is_some());
    assert!(SkillPattern::compile(r"(?i)(one").is_none());
}

#[test]
fn compile_all_succeeds_where_each_pattern_compiles() {
    let list = skill_pattern_list();
    for pattern in list.iter() {
        let flagged = format!("{}{}", IGNORE_CASE, pattern);
        assert!(SkillPattern::compile(&flagged).is_some());
    }
    let catalog = SkillCatalog::compile_all(&list).unwrap();
    assert_eq!(catalog.len(), list.len());
}

#[test]
fn every_token_is_the_lower_case_form_of_a_part_of_the_text() {
    let text = "Senior RUST dev: C++, Node.JS, PostgreSQL & Natural Language Processing";
    let tokens = found(text);
    assert_eq!(
        tokens,
        words(&["c++", "natural language processing", "node.js", "postgresql", "rust", "sql"])
    );
    let starts: Vec<usize> = text.char_indices().map(|(at, _)| at).collect();
    for token in tokens.iter() {
        let mut seen = false;
        for from in starts.iter() {
            for to in starts.iter().chain(std::iter::once(&text.len())) {
                if from <= to && &text[*from..*to].to_lowercase() == token {
                    seen = true;
                }
            }
        }
        assert!(seen);
    }
}
