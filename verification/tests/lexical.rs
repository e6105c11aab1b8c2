use resume_matcher::lexical::{lex_order, Order};

#[test]
fn orders_by_first_difference() {
    assert_eq!(lex_order("a", "b"), Order::Before);
    assert_eq!(lex_order("b", "a"), Order::After);
    assert_eq!(lex_order("docker", "dockes"), Order::Before);
    assert_eq!(lex_order("rust", "python"), Order::After);
}

#[test]
fn equal_texts_are_the_same() {
    assert_eq!(lex_order("python", "python"), Order::Same);
    assert_eq!(lex_order("", ""), Order::Same);
}

#[test]
fn a_prefix_comes_first() {
    assert_eq!(lex_order("java", "javascript"), Order::Before);
    assert_eq!(lex_order("javascript", "java"), Order::After);
    assert_eq!(lex_order("", "c"), Order::Before);
    assert_eq!(lex_order("c", ""), Order::After);
}

#[test]
fn upper_case_comes_before_lower_case() {
    assert_eq!(lex_order("Rust", "rust"), Order::Before);
    assert_eq!(lex_order("Z", "a"), Order::Before);
}

#[test]
fn punctuation_and_digits_go_by_code_point() {
    assert_eq!(lex_order("c++", "css"), Order::Before);
    assert_eq!(lex_order("node.js", "nodejs"), Order::Before);
    assert_eq!(lex_order("9", "a"), Order::Before);
}

#[test]
fn characters_beyond_ascii_go_by_scalar_value() {
    assert_eq!(lex_order("z", "é"), Order::Before);
    assert_eq!(lex_order("é", "日"), Order::Before);
    assert_eq!(lex_order("日本", "日本語"), Order::Before);
    assert_eq!(lex_order("\u{ffff}", "\u{10000}"), Order::Before);
}

#[test]
fn agrees_with_the_order_of_str() {
    let words = ["", "a", "ab", "b", "B", "c++", "node.js", "nodejs", "é", "日本", "\u{10000}"];
    for a in words.iter() {
        for b in words.iter() {
            let expected = match a.cmp(b) {
                std::cmp::Ordering::Less => Order::Before,
                std::cmp::Ordering::Equal => Order::Same,
                std::cmp::Ordering::Greater => Order::After,
            };
            assert_eq!(lex_order(a, b), expected);
        }
    }
}
