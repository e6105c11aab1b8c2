use resume_matcher::skill_set::SkillSet;

fn set_of(tokens: &[&str]) -> SkillSet {
    SkillSet::from_tokens(tokens.iter().map(|t| t.to_string()).collect())
}

fn strings(tokens: &[&str]) -> Vec<String> {
    tokens.iter().map(|t| t.to_string()).collect()
}

#[test]
fn new_set_is_empty() {
    let set = SkillSet::new();
    assert!(set.is_empty());
    assert_eq!(set.len(), 0);
    assert!(!set.contains("rust"));
    assert_eq!(set.to_vec(), Vec::<String>::new());
}

#[test]
fn insert_reports_whether_the_token_was_new() {
    let mut set = SkillSet::new();
    assert!(set.insert("rust".to_string()));
    assert!(!set.insert("rust".to_string()));
    assert!(set.insert("python".to_string()));
    assert_eq!(set.len(), 2);
    assert!(set.contains("rust"));
    assert!(set.contains("python"));
    assert!(!set.contains("java"));
    assert!(!set.is_empty());
}

#[test]
fn tokens_come_out_in_order_and_once() {
    let set = set_of(&["rust", "c++", "python", "rust", "java", "c++"]);
    assert_eq!(set.to_vec(), strings(&["c++", "java", "python", "rust"]));
    assert_eq!(set.len(), 4);
    assert_eq!(set.into_vec(), strings(&["c++", "java", "python", "rust"]));
}

#[test]
fn membership_is_exact() {
    let set = set_of(&["java", "javascript"]);
    assert!(set.contains("java"));
    assert!(set.contains("javascript"));
    assert!(!set.contains("jav"));
    assert!(!set.contains("javas"));
    assert!(!set.contains("Java"));
    assert!(!set.contains(""));
}

#[test]
fn insertion_at_both_ends_and_in_the_middle() {
    let mut set = set_of(&["html", "linux"]);
    set.insert("css".to_string());
    set.insert("sql".to_string());
    set.insert("java".to_string());
    assert_eq!(set.to_vec(), strings(&["css", "html", "java", "linux", "sql"]));
}

#[test]
fn intersection_holds_what_both_hold() {
    let a = set_of(&["rust", "python", "sql", "docker"]);
    let b = set_of(&["sql", "java", "rust"]);
    assert_eq!(a.intersection(&b).to_vec(), strings(&["rust", "sql"]));
    assert_eq!(b.intersection(&a).to_vec(), strings(&["rust", "sql"]));
}

#[test]
fn intersection_with_nothing_in_common_is_empty() {
    let a = set_of(&["rust"]);
    let b = set_of(&["java"]);
    assert!(a.intersection(&b).is_empty());
    assert!(a.intersection(&SkillSet::new()).is_empty());
    assert!(SkillSet::new().intersection(&a).is_empty());
}

#[test]
fn intersection_with_itself_is_the_set() {
    let a = set_of(&["rust", "python", "c++"]);
    assert_eq!(a.intersection(&a).to_vec(), a.to_vec());
}

#[test]
fn union_holds_what_either_holds() {
    let a = set_of(&["rust", "python"]);
    let b = set_of(&["sql", "rust"]);
    assert_eq!(a.union(&b).to_vec(), strings(&["python", "rust", "sql"]));
    assert_eq!(a.union(&SkillSet::new()).to_vec(), a.to_vec());
    assert_eq!(SkillSet::new().union(&b).to_vec(), b.to_vec());
}

#[test]
fn extend_adds_every_token() {
    let mut set = set_of(&["linux"]);
    set.extend(strings(&["docker", "linux", "kubernetes", "docker"]));
    assert_eq!(set.to_vec(), strings(&["docker", "kubernetes", "linux"]));
    set.extend(Vec::new());
    assert_eq!(set.len(), 3);
}

#[test]
fn a_larger_set_stays_ordered() {
    let mut set = SkillSet::new();
    // 37 is coprime to 101: this walks 0..101 in a scrambled order.
    for i in 0..101u32 {
        let n = (i * 37) % 101;
        set.insert(format!("{:03}", n));
    }
    let tokens = set.to_vec();
    assert_eq!(tokens.len(), 101);
    for (i, token) in tokens.iter().enumerate() {
        assert_eq!(token, &format!("{:03}", i));
    }
    for i in 0..101u32 {
        assert!(set.contains(&format!("{:03}", i)));
    }
    assert!(!set.contains("101"));
}
