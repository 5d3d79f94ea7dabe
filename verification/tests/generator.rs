use rand::rngs::StdRng;
use rand::SeedableRng;

use word_gen::language::Language;
use word_gen::rules::assoc_get;
use word_gen::rules::assoc_set;
use word_gen::rules::Rules;
use word_gen::rules::Table;
use word_gen::score::inverse_lerp;

fn table(entries: &[(&str, u32)]) -> Table {
    let mut t: Table = Vec::new();
    for (k, v) in entries {
        assoc_set(&mut t, k, *v);
    }
    t
}

fn rules_of(entries: Vec<(&str, Table)>) -> Rules {
    let mut r: Rules = Vec::new();
    for (k, t) in entries {
        assoc_set(&mut r, k, t);
    }
    r
}

// A rule set where "aa", "bbb" and "cc" can never be produced: "a" forbids
// its own repetition (and resolves a wildcard instead), "bb" forbids a third
// "b", and "c" forbids a second "c".
fn test_rules() -> Rules {
    rules_of(vec![
        ("alphabet", table(&[("abc", 0)])),
        ("word_length", table(&[("min", 1), ("avg", 2), ("max", 3)])),
        (" ", table(&[("a", 1), ("b", 1), ("c", 1)])),
        ("a", table(&[("a", 0), ("_", 1), (" ", 1)])),
        ("b", table(&[("a", 1), ("b", 1), ("c", 1), (" ", 1)])),
        ("bb", table(&[("b", 0), ("a", 1), (" ", 1)])),
        ("c", table(&[("c", 0), ("a", 1), (" ", 1)])),
    ])
}

fn get_language() -> Language {
    Language::new(&test_rules())
}

#[test]
fn generate_word_follows_rules() {
    let language = get_language();
    let mut rng = StdRng::seed_from_u64(0);

    for _ in 0..100 {
        let word = language.generate_word(&mut rng).expect("Failed to return word.");
        if word.contains("aa") || word.contains("bbb") || word.contains("cc") {
            panic!("Word contained impossible pattern.")
        }
        if word.len() < language.min as usize {
            panic!("Word impossibly short.")
        }
        if word.len() > language.max as usize {
            panic!("Word impossibly long.")
        }
    }
}

#[test]
fn replace_wildcards_does_not_replace_with_weight_0() {
    let language = get_language();
    let mut rng = StdRng::seed_from_u64(0);

    // Ensure a is never returned since it has weight 0.
    let map = &assoc_get(&language.patterns, "a").expect("Rules missing pattern.").table;
    for _ in 0..100 {
        let result = language.replace_wildcards(&mut rng, "_", map);
        let result = result.as_str();
        match result {
            "a" => panic!("Impossible character returned."),
            _ => (),
        }
    }
}

#[test]
fn get_wildcard_returns_all_possibilities() {
    let language = get_language();
    let mut rng = StdRng::seed_from_u64(0);

    let mut a = false;
    let mut b = false;
    let mut c = false;

    // Ensure each of a, b, c are getting returned.
    for _ in 0..100 {
        let result = language.get_wildcard(&mut rng);
        match result {
            'a' => a = true,
            'b' => b = true,
            'c' => c = true,
            _ => panic!("Impossible character returned."),
        }
    }
    assert!(a && b && c);
}

#[test]
fn inverse_lerp_correct_values() {
    let as_f32 = |l: usize, r: usize, p: usize| {
        let f = inverse_lerp(l, r, p);
        f.num as f32 / f.den as f32
    };
    assert_eq!(as_f32(0, 1, 0), 0.0);
    assert_eq!(as_f32(0, 1, 1), 1.0);
    assert_eq!(as_f32(0, 5, 3), 0.6);
    assert_eq!(as_f32(5, 10, 7), 0.4);
    assert_eq!(as_f32(4, 7, 6), 0.66666666);
}

#[test]
fn inverse_lerp_exact_fractions() {
    let f = inverse_lerp(4, 7, 6);
    assert_eq!((f.num, f.den), (2, 3));
    let f = inverse_lerp(3, 3, 3);
    assert_eq!((f.num, f.den), (1, 1));
    let f = inverse_lerp(2, 6, 2);
    assert_eq!((f.num, f.den), (0, 4));
    let f = inverse_lerp(2, 6, 6);
    assert_eq!((f.num, f.den), (4, 4));
}

// Compiling a pattern reproduces the sum of its strictly positive weights
// as the last live cumulative threshold, and records the termination
// weight; weight-0 continuations sit above the live range.
#[test]
fn compile_reproduces_weight_sums() {
    let language = get_language();
    let a = assoc_get(&language.patterns, "a").expect("Rules missing pattern.");
    // " " -> 1, "_" -> 1, "a" -> 0: positive sum 2.
    assert_eq!(a.last, 2);
    assert_eq!(a.termination_weight, 1);
    let pairs: Vec<(u32, &str)> = a.table.iter().map(|e| (e.0, e.1.as_str())).collect();
    assert_eq!(pairs, vec![(1, " "), (2, "_"), (3, "a")]);

    let c = assoc_get(&language.patterns, "c").expect("Rules missing pattern.");
    // " " -> 1, "a" -> 1, "c" -> 0: positive sum 2, "c" deferred above it.
    assert_eq!(c.last, 2);
    assert_eq!(c.termination_weight, 1);
    let pairs: Vec<(u32, &str)> = c.table.iter().map(|e| (e.0, e.1.as_str())).collect();
    assert_eq!(pairs, vec![(1, " "), (2, "a"), (3, "c")]);
}

#[test]
fn wildcard_resolution_avoids_all_collisions() {
    let language = get_language();
    let a = assoc_get(&language.patterns, "a").expect("Rules missing pattern.");
    let mut rng = StdRng::seed_from_u64(7);
    let mut seen_b = false;
    let mut seen_c = false;
    for _ in 0..200 {
        let result = language.replace_wildcards(&mut rng, "_", &a.table);
        // " ", "_" and "a" are all claimed continuations of the pattern.
        assert!(result == "b" || result == "c");
        if result == "b" {
            seen_b = true;
        }
        if result == "c" {
            seen_c = true;
        }
    }
    assert!(seen_b && seen_c);
}

#[test]
fn find_wildcard_resolution_reports_exhaustion() {
    let language = get_language();
    // Every alphabet character collides.
    let blocked: Vec<(u32, String)> = vec![
        (1, "a".to_string()),
        (2, "b".to_string()),
        (3, "c".to_string()),
    ];
    assert_eq!(language.find_wildcard_resolution("_", &blocked), None);
    // With one character free, the first free character is found.
    let open: Vec<(u32, String)> = vec![(1, "a".to_string()), (2, "b".to_string())];
    assert_eq!(language.find_wildcard_resolution("_", &open), Some('c'));
}
