//! The rule verifier: checks the structural invariants of a raw rule mapping
//! before it is compiled — the alphabet entry, the word-length envelope, and
//! that every pattern and continuation uses only permitted characters.

use vstd::prelude::*;

use crate::rules::find_str;
use crate::rules::Rules;
use crate::rules::Table;
use crate::text::push_char;
use crate::text::str_contains_char;
use crate::text::str_eq;

verus! {

/// The alphabet together with the wildcard and delimiter characters, the set
/// every pattern and continuation must draw from.
pub open spec fn ext_alphabet(a: Seq<char>) -> Seq<char> {
    a.push('_').push(' ')
}

/// The alphabet string of a rule mapping: the first key of the table under
/// the reserved key `alphabet`. Meaningful only when that table is present
/// and non-empty.
pub open spec fn spec_alphabet(rv: Seq<(String, Table)>) -> Seq<char> {
    find_str(rv, "alphabet"@).unwrap()@[0].0@
}

/// A word-length bound of a rule mapping, by name (`min`, `avg` or `max`).
pub open spec fn spec_limit(rv: Seq<(String, Table)>, name: Seq<char>) -> Option<u32> {
    match find_str(rv, "word_length"@) {
        Some(t) => find_str(t@, name),
        None => None,
    }
}

/// Every character of the key is drawn from the permitted set.
pub open spec fn key_ok(al: Seq<char>, k: Seq<char>) -> bool {
    forall|j: int| 0 <= j < k.len() ==> al.contains(#[trigger] k[j])
}

/// A rule entry uses only permitted characters, in its pattern and in every
/// continuation; the two reserved entries are exempt.
pub open spec fn entry_ok(al: Seq<char>, e: (String, Table)) -> bool {
    ||| e.0@ == "alphabet"@
    ||| e.0@ == "word_length"@
    ||| (key_ok(al, e.0@) && forall|j: int|
        0 <= j < e.1@.len() ==> key_ok(al, (#[trigger] e.1@[j]).0@))
}

/// All entries of the rule mapping use only permitted characters.
pub open spec fn chars_all_ok(rv: Seq<(String, Table)>) -> bool {
    forall|i: int| 0 <= i < rv.len() ==> entry_ok(ext_alphabet(spec_alphabet(rv)), #[trigger] rv[i])
}

/// A raw rule mapping that passes verification: alphabet present and
/// non-empty, word-length bounds present and ordered, all characters drawn
/// from the alphabet plus wildcard and delimiter.
pub open spec fn rules_valid(rv: Seq<(String, Table)>) -> bool {
    let at = find_str(rv, "alphabet"@);
    let mn = spec_limit(rv, "min"@);
    let mx = spec_limit(rv, "max"@);
    let av = spec_limit(rv, "avg"@);
    &&& at is Some
    &&& at.unwrap()@.len() > 0
    &&& at.unwrap()@[0].0@.len() >= 1
    &&& find_str(rv, "word_length"@) is Some
    &&& mn is Some && mn.unwrap() != 0
    &&& mx is Some && mx.unwrap() >= mn.unwrap()
    &&& av is Some && mn.unwrap() <= av.unwrap() && av.unwrap() <= mx.unwrap()
    &&& chars_all_ok(rv)
}

/// The message verification reports, following the order the checks run in.
/// Meaningful only when the mapping is not valid.
pub open spec fn verify_msg(rv: Seq<(String, Table)>) -> Seq<char> {
    let at = find_str(rv, "alphabet"@);
    let mn = spec_limit(rv, "min"@);
    let mx = spec_limit(rv, "max"@);
    let av = spec_limit(rv, "avg"@);
    if at is None {
        "No alphabet in rules."@
    } else if at.unwrap()@.len() == 0 {
        "No alphabet in alphabet."@
    } else if at.unwrap()@[0].0@.len() < 1 {
        "Alphabet is too small."@
    } else if find_str(rv, "word_length"@) is None {
        "No word_length in rules."@
    } else if mn is None {
        "No min in word_length."@
    } else if mn.unwrap() == 0 {
        "Min can't be 0."@
    } else if mx is None {
        "No max in word_length."@
    } else if mx.unwrap() < mn.unwrap() {
        "Max can't be less than min."@
    } else if av is None {
        "No avg in word_length."@
    } else if av.unwrap() < mn.unwrap() || av.unwrap() > mx.unwrap() {
        "Avg can't be less than min or more than max."@
    } else {
        "Character not in alphabet used."@
    }
}

/// Verify that each character in the pattern exists in the alphabet.
pub fn in_alphabet(pattern: &str, alphabet: &str) -> (r: Result<(), &'static str>)
    ensures
        r is Ok <==> key_ok(alphabet@, pattern@),
        r matches Err(e) ==> e@ == "Character not in alphabet used."@,
{
    let len = pattern.unicode_len();
    let mut i: usize = 0;
    while i < len
        invariant
            i <= len,
            len == pattern@.len(),
            forall|j: int| 0 <= j < i ==> alphabet@.contains(#[trigger] pattern@[j]),
        decreases len - i,
    {
        let c = pattern.get_char(i);
        if !str_contains_char(alphabet, c) {
            return Err("Character not in alphabet used.");
        }
        i += 1;
    }
    Ok(())
}

/// Verify a raw rule mapping: report `Ok` exactly on valid mappings, and on
/// invalid ones the message for the first failing check.
#[verifier::loop_isolation(false)]
pub fn verify_rules(rules: &Rules) -> (r: Result<(), &'static str>)
    ensures
        r is Ok <==> rules_valid(rules@),
        r matches Err(e) ==> !rules_valid(rules@) && e@ == verify_msg(rules@),
{
    let alphabet_table = match crate::rules::assoc_get(rules, "alphabet") {
        Some(t) => t,
        None => {
            return Err("No alphabet in rules.");
        },
    };
    if alphabet_table.len() == 0 {
        return Err("No alphabet in alphabet.");
    }
    let alpha_key = &alphabet_table[0].0;
    if alpha_key.unicode_len() < 1 {
        return Err("Alphabet is too small.");
    }
    let mut alphabet = alpha_key.clone();
    push_char(&mut alphabet, '_');
    push_char(&mut alphabet, ' ');
    let limits = match crate::rules::assoc_get(rules, "word_length") {
        Some(t) => t,
        None => {
            return Err("No word_length in rules.");
        },
    };
    let min = match crate::rules::assoc_get(limits, "min") {
        Some(v) => *v,
        None => {
            return Err("No min in word_length.");
        },
    };
    if min == 0 {
        return Err("Min can't be 0.");
    }
    let max = match crate::rules::assoc_get(limits, "max") {
        Some(v) => *v,
        None => {
            return Err("No max in word_length.");
        },
    };
    if max < min {
        return Err("Max can't be less than min.");
    }
    let avg = match crate::rules::assoc_get(limits, "avg") {
        Some(v) => *v,
        None => {
            return Err("No avg in word_length.");
        },
    };
    if avg < min || avg > max {
        return Err("Avg can't be less than min or more than max.");
    }
    let n = rules.len();
    let mut i: usize = 0;
    while i < n
        invariant
            i <= n,
            n == rules@.len(),
            alphabet@ == ext_alphabet(spec_alphabet(rules@)),
            forall|j: int| 0 <= j < i ==> entry_ok(alphabet@, #[trigger] rules@[j]),
        decreases n - i,
    {
        let k = &rules[i].0;
        let not_reserved = !str_eq(k.as_str(), "alphabet") && !str_eq(k.as_str(), "word_length");
        if not_reserved {
            match in_alphabet(k.as_str(), alphabet.as_str()) {
                Ok(()) => {},
                Err(e) => {
                    proof {
                        assert(!key_ok(alphabet@, rules@[i as int].0@));
                        assert(!entry_ok(alphabet@, rules@[i as int]));
                        assert(!chars_all_ok(rules@));
                    }
                    return Err(e);
                },
            }
            let table = &rules[i].1;
            proof {
                assert(table@ == rules@[i as int].1@);
            }
            let m = table.len();
            let mut j: usize = 0;
            while j < m
                invariant
                    j <= m,
                    m == table@.len(),
                    forall|l: int| 0 <= l < j ==> key_ok(alphabet@, (#[trigger] table@[l]).0@),
                decreases m - j,
            {
                match in_alphabet(table[j].0.as_str(), alphabet.as_str()) {
                    Ok(()) => {},
                    Err(e) => {
                        proof {
                            assert(!key_ok(alphabet@, (rules@[i as int].1@[j as int]).0@));
                            assert(!entry_ok(alphabet@, rules@[i as int]));
                            assert(!chars_all_ok(rules@));
                        }
                        return Err(e);
                    },
                }
                j += 1;
            }
        }
        i += 1;
    }
    Ok(())
}

} // verus!
