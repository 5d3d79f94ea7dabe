use word_gen::rules::assoc_set;
use word_gen::rules::Rules;
use word_gen::rules::Table;
use word_gen::verification::in_alphabet;
use word_gen::verification::verify_rules;

fn table(entries: &[(&str, u32)]) -> Table {
    let mut t: Table = Vec::new();
    for (k, v) in entries {
        assoc_set(&mut t, k, *v);
    }
    t
}

fn rules_of(entries: Vec<(&str, Table)>) -> Rules {
    let mut r: Rules = Vec::new();
    for (k, t) in entries {
        assoc_set(&mut r, k, t);
    }
    r
}

fn word_length(min: u32, avg: u32, max: u32) -> Table {
    table(&[("min", min), ("avg", avg), ("max", max)])
}

#[test]
fn in_alphabet_correct_values() {
    let alphabet = "abc";
    let error = Err("Character not in alphabet used.");

    // Patterns in alphabet.
    assert_eq!(in_alphabet("aaa", alphabet), Ok(()));
    assert_eq!(in_alphabet("abc", alphabet), Ok(()));
    assert_eq!(in_alphabet("cba", alphabet), Ok(()));

    // Patterns not in alphabet.
    assert_eq!(in_alphabet("d", alphabet), error);
    assert_eq!(in_alphabet("ad", alphabet), error);
    assert_eq!(in_alphabet("da", alphabet), error);
}

#[test]
fn verify_rules_accepts_valid() {
    let rules = rules_of(vec![
        ("alphabet", table(&[("ab", 0)])),
        ("word_length", word_length(1, 2, 3)),
        ("a", table(&[("b", 1), (" ", 1)])),
        ("b", table(&[("a", 1), ("_", 1)])),
    ]);
    assert_eq!(verify_rules(&rules), Ok(()));
}

#[test]
fn verify_rules_accepts_single_letter_alphabet() {
    let rules = rules_of(vec![
        ("alphabet", table(&[("a", 0)])),
        ("word_length", word_length(1, 1, 1)),
    ]);
    assert_eq!(verify_rules(&rules), Ok(()));
}

#[test]
fn verify_rules_rejects_empty_rules() {
    let rules: Rules = Vec::new();
    assert_eq!(verify_rules(&rules), Err("No alphabet in rules."));
}

#[test]
fn assoc_set_overwrites_equal_keys() {
    let t = table(&[("a", 1), ("b", 2), ("a", 7)]);
    assert_eq!(t.len(), 2);
    assert_eq!(word_gen::rules::assoc_get(&t, "a"), Some(&7));
    assert_eq!(word_gen::rules::assoc_get(&t, "b"), Some(&2));
    assert_eq!(word_gen::rules::assoc_get(&t, "c"), None);
}

#[test]
fn verify_rules_rejects_missing_alphabet() {
    let rules = rules_of(vec![("word_length", word_length(1, 2, 3))]);
    assert_eq!(verify_rules(&rules), Err("No alphabet in rules."));
}

#[test]
fn verify_rules_rejects_empty_alphabet_table() {
    let rules = rules_of(vec![
        ("alphabet", table(&[])),
        ("word_length", word_length(1, 2, 3)),
    ]);
    assert_eq!(verify_rules(&rules), Err("No alphabet in alphabet."));
}

#[test]
fn verify_rules_rejects_empty_alphabet_string() {
    let rules = rules_of(vec![
        ("alphabet", table(&[("", 0)])),
        ("word_length", word_length(1, 2, 3)),
    ]);
    assert_eq!(verify_rules(&rules), Err("Alphabet is too small."));
}

#[test]
fn verify_rules_rejects_missing_word_length() {
    let rules = rules_of(vec![("alphabet", table(&[("ab", 0)]))]);
    assert_eq!(verify_rules(&rules), Err("No word_length in rules."));
}

#[test]
fn verify_rules_rejects_missing_min() {
    let rules = rules_of(vec![
        ("alphabet", table(&[("ab", 0)])),
        ("word_length", table(&[("avg", 2), ("max", 3)])),
    ]);
    assert_eq!(verify_rules(&rules), Err("No min in word_length."));
}

#[test]
fn verify_rules_rejects_min_zero() {
    let rules = rules_of(vec![
        ("alphabet", table(&[("ab", 0)])),
        ("word_length", word_length(0, 2, 3)),
    ]);
    assert_eq!(verify_rules(&rules), Err("Min can't be 0."));
}

#[test]
fn verify_rules_rejects_missing_max() {
    let rules = rules_of(vec![
        ("alphabet", table(&[("ab", 0)])),
        ("word_length", table(&[("min", 1), ("avg", 2)])),
    ]);
    assert_eq!(verify_rules(&rules), Err("No max in word_length."));
}

#[test]
fn verify_rules_rejects_max_below_min() {
    let rules = rules_of(vec![
        ("alphabet", table(&[("ab", 0)])),
        ("word_length", word_length(3, 3, 2)),
    ]);
    assert_eq!(verify_rules(&rules), Err("Max can't be less than min."));
}

#[test]
fn verify_rules_rejects_missing_avg() {
    let rules = rules_of(vec![
        ("alphabet", table(&[("ab", 0)])),
        ("word_length", table(&[("min", 1), ("max", 3)])),
    ]);
    assert_eq!(verify_rules(&rules), Err("No avg in word_length."));
}

#[test]
fn verify_rules_rejects_avg_outside_bounds() {
    let rules = rules_of(vec![
        ("alphabet", table(&[("ab", 0)])),
        ("word_length", word_length(2, 1, 3)),
    ]);
    assert_eq!(
        verify_rules(&rules),
        Err("Avg can't be less than min or more than max.")
    );
}

#[test]
fn verify_rules_rejects_pattern_outside_alphabet() {
    let rules = rules_of(vec![
        ("alphabet", table(&[("ab", 0)])),
        ("word_length", word_length(1, 2, 3)),
        ("x", table(&[("a", 1)])),
    ]);
    assert_eq!(verify_rules(&rules), Err("Character not in alphabet used."));
}

#[test]
fn verify_rules_rejects_continuation_outside_alphabet() {
    let rules = rules_of(vec![
        ("alphabet", table(&[("ab", 0)])),
        ("word_length", word_length(1, 2, 3)),
        ("a", table(&[("z", 1)])),
    ]);
    assert_eq!(verify_rules(&rules), Err("Character not in alphabet used."));
}

#[test]
fn verify_rules_accepts_wildcard_and_delimiter() {
    let rules = rules_of(vec![
        ("alphabet", table(&[("ab", 0)])),
        ("word_length", word_length(1, 2, 3)),
        (" a", table(&[("_", 1), (" ", 1)])),
    ]);
    assert_eq!(verify_rules(&rules), Ok(()));
}
