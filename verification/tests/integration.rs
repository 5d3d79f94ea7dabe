use rand::rngs::StdRng;
use rand::SeedableRng;

use word_gen::generator::generate_words;
use word_gen::rules::assoc_set;
use word_gen::rules::Rules;
use word_gen::rules::Table;

fn table(entries: &[(&str, u32)]) -> Table {
    let mut t: Table = Vec::new();
    for (k, v) in entries {
        assoc_set(&mut t, k, *v);
    }
    t
}

fn rules_of(entries: Vec<(&str, Table)>) -> Rules {
    let mut r: Rules = Vec::new();
    for (k, t) in entries {
        assoc_set(&mut r, k, t);
    }
    r
}

fn test_rules() -> Rules {
    rules_of(vec![
        ("alphabet", table(&[("abc", 0)])),
        ("word_length", table(&[("min", 1), ("avg", 2), ("max", 3)])),
        (" ", table(&[("a", 1), ("b", 1), ("c", 1)])),
        ("a", table(&[("a", 0), ("_", 1), (" ", 1)])),
        ("b", table(&[("a", 1), ("b", 1), ("c", 1), (" ", 1)])),
        ("bb", table(&[("b", 0), ("a", 1), (" ", 1)])),
        ("c", table(&[("c", 0), ("a", 1), (" ", 1)])),
    ])
}

#[test]
fn generate_words_correct_values() {
    let rules = test_rules();
    let mut rng = StdRng::seed_from_u64(0);
    let amount = 10;

    let result = generate_words(&mut rng, amount, &rules).expect("Failed to generate words.");
    let as_vec = result.split(" ").collect::<Vec<&str>>();

    assert_eq!(as_vec.len(), amount as usize);
}

#[test]
fn generate_words_rejects_invalid_rules() {
    let rules = rules_of(vec![(
        "word_length",
        table(&[("min", 1), ("avg", 2), ("max", 3)]),
    )]);
    let mut rng = StdRng::seed_from_u64(0);
    assert_eq!(
        generate_words(&mut rng, 10, &rules),
        Err("No alphabet in rules.")
    );
}

#[test]
fn generate_words_zero_amount_is_empty() {
    let rules = test_rules();
    let mut rng = StdRng::seed_from_u64(0);
    assert_eq!(generate_words(&mut rng, 0, &rules), Ok(String::new()));
}

// When the start pattern's only live continuation is termination, the first
// step force-accepts before any draw: generation always succeeds.
#[test]
fn generate_words_forced_start_always_succeeds() {
    let rules = rules_of(vec![
        ("alphabet", table(&[("ab", 0)])),
        ("word_length", table(&[("min", 1), ("avg", 1), ("max", 1)])),
        (" ", table(&[(" ", 1)])),
    ]);
    let mut rng = StdRng::seed_from_u64(3);
    assert_eq!(generate_words(&mut rng, 1, &rules), Ok(String::new()));
}

// Without a pattern for the start delimiter the walk can never take a first
// step: generation always reports exhaustion.
#[test]
fn generate_words_without_start_pattern_fails() {
    let rules = rules_of(vec![
        ("alphabet", table(&[("ab", 0)])),
        ("word_length", table(&[("min", 1), ("avg", 2), ("max", 3)])),
        ("a", table(&[("b", 1)])),
    ]);
    let mut rng = StdRng::seed_from_u64(3);
    assert_eq!(generate_words(&mut rng, 1, &rules), Err("No word found."));
}

// End-to-end scenario: with a fixed seed the generated word is fully
// determined, and the forbidden repetition "aa" never appears since "a"
// registers its own repetition at weight 0.
#[test]
fn generate_words_deterministic_scenario() {
    let rules = rules_of(vec![
        ("alphabet", table(&[("abc", 0)])),
        ("word_length", table(&[("min", 1), ("avg", 2), ("max", 3)])),
        (" ", table(&[("a", 1), ("b", 1), ("c", 1)])),
        ("a", table(&[("a", 0), ("b", 1), (" ", 1)])),
        ("b", table(&[("a", 1), ("c", 1)])),
        ("c", table(&[(" ", 1)])),
    ]);
    let mut rng = StdRng::seed_from_u64(0);
    let word = generate_words(&mut rng, 1, &rules).expect("Failed to generate words.");
    assert!(!word.contains("aa"));
    assert_eq!(word, "b");
    // the same seed gives the same word again
    let mut rng2 = StdRng::seed_from_u64(0);
    let word2 = generate_words(&mut rng2, 1, &rules).expect("Failed to generate words.");
    assert_eq!(word, word2);
}
