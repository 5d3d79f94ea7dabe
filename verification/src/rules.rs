//! The raw rule mapping: pattern name to continuation table, a continuation
//! table being continuation string to non-negative weight. Both levels are
//! kept as association vectors whose keys are strictly ascending in
//! lexicographic order, so that iteration visits keys in sorted order and
//! every key occurs once.

use vstd::prelude::*;

use crate::text::lemma_lex_irrefl;
use crate::text::lemma_lex_total;
use crate::text::lemma_lex_trans;
use crate::text::lex_lt;
use crate::text::str_eq;
use crate::text::str_lt;

verus! {

/// A continuation table: continuation string to weight.
pub type Table = Vec<(String, u32)>;

/// A raw rule mapping: pattern (or reserved key) to continuation table.
pub type Rules = Vec<(String, Table)>;

/// The value bound to a key in an association sequence (first match).
pub open spec fn find_str<V>(s: Seq<(String, V)>, k: Seq<char>) -> Option<V>
    decreases s.len(),
{
    if s.len() == 0 {
        None
    } else if s[0].0@ == k {
        Some(s[0].1)
    } else {
        find_str(s.skip(1), k)
    }
}

/// Keys strictly ascending in lexicographic order, hence unique.
pub open spec fn sorted_keys<V>(s: Seq<(String, V)>) -> bool {
    forall|i: int, j: int| 0 <= i < j < s.len() ==> lex_lt(s[i].0@, s[j].0@)
}

/// A rule mapping is well formed when both levels are sorted.
pub open spec fn rules_wf(r: Seq<(String, Table)>) -> bool {
    sorted_keys(r) && forall|i: int| 0 <= i < r.len() ==> sorted_keys(#[trigger] r[i].1@)
}

/// In a sorted sequence, an entry's key is found at that entry.
pub proof fn lemma_find_at<V>(s: Seq<(String, V)>, k: Seq<char>, p: int)
    requires
        sorted_keys(s),
        0 <= p < s.len(),
        s[p].0@ == k,
    ensures
        find_str(s, k) == Some(s[p].1),
    decreases s.len(),
{
    if p > 0 {
        assert(lex_lt(s[0].0@, s[p].0@));
        if s[0].0@ == k {
            lemma_lex_irrefl(k);
        }
        assert(sorted_keys(s.skip(1))) by {
            assert forall|i: int, j: int| 0 <= i < j < s.skip(1).len() implies lex_lt(
                s.skip(1)[i].0@,
                s.skip(1)[j].0@,
            ) by {
                assert(s.skip(1)[i] == s[i + 1]);
                assert(s.skip(1)[j] == s[j + 1]);
            }
        }
        assert(s.skip(1)[p - 1] == s[p]);
        lemma_find_at(s.skip(1), k, p - 1);
    }
}

/// A key that no entry holds is not found.
pub proof fn lemma_find_none<V>(s: Seq<(String, V)>, k: Seq<char>)
    requires
        forall|i: int| 0 <= i < s.len() ==> (#[trigger] s[i].0@) != k,
    ensures
        find_str(s, k) is None,
    decreases s.len(),
{
    if s.len() > 0 {
        assert(forall|i: int| 0 <= i < s.skip(1).len() ==> (#[trigger] s.skip(1)[i]) == s[i + 1]);
        lemma_find_none(s.skip(1), k);
    }
}

/// Look a key up in a sorted association vector.
pub fn assoc_get<'a, V>(entries: &'a Vec<(String, V)>, k: &str) -> (r: Option<&'a V>)
    ensures
        match r {
            Some(v) => find_str(entries@, k@) == Some(*v),
            None => find_str(entries@, k@) is None,
        },
{
    let n = entries.len();
    let mut i: usize = 0;
    proof {
        assert(entries@.skip(0) =~= entries@);
    }
    while i < n
        invariant
            i <= n,
            n == entries@.len(),
            find_str(entries@, k@) == find_str(entries@.skip(i as int), k@),
        decreases n - i,
    {
        proof {
            assert(entries@.skip(i as int)[0] == entries@[i as int]);
        }
        if str_eq(entries[i].0.as_str(), k) {
            return Some(&entries[i].1);
        }
        proof {
            assert(entries@.skip(i as int).skip(1) =~= entries@.skip(i as int + 1));
        }
        i += 1;
    }
    proof {
        assert(entries@.skip(n as int) =~= Seq::<(String, V)>::empty());
    }
    None
}

/// Sortedness survives inserting a new key between its neighbours.
proof fn lemma_sorted_insert<V>(s: Seq<(String, V)>, p: int, pair: (String, V))
    requires
        sorted_keys(s),
        0 <= p <= s.len(),
        forall|i: int| 0 <= i < p ==> lex_lt(#[trigger] s[i].0@, pair.0@),
        forall|i: int| p <= i < s.len() ==> lex_lt(pair.0@, #[trigger] s[i].0@),
    ensures
        sorted_keys(s.insert(p, pair)),
{
    let t = s.insert(p, pair);
    assert forall|i: int, j: int| 0 <= i < j < t.len() implies lex_lt(t[i].0@, t[j].0@) by {
        if i < p {
            assert(t[i] == s[i]);
        } else if i == p {
            assert(t[i] == pair);
        } else {
            assert(t[i] == s[i - 1]);
        }
        if j < p {
            assert(t[j] == s[j]);
        } else if j == p {
            assert(t[j] == pair);
        } else {
            assert(t[j] == s[j - 1]);
        }
    }
}

/// What is found after inserting a fresh key.
proof fn lemma_find_insert<V>(s: Seq<(String, V)>, p: int, pair: (String, V), k2: Seq<char>)
    requires
        sorted_keys(s),
        sorted_keys(s.insert(p, pair)),
        0 <= p <= s.len(),
        forall|i: int| 0 <= i < s.len() ==> (#[trigger] s[i].0@) != pair.0@,
    ensures
        find_str(s.insert(p, pair), k2) == if k2 == pair.0@ {
            Some(pair.1)
        } else {
            find_str(s, k2)
        },
{
    let t = s.insert(p, pair);
    assert(t[p] == pair);
    if k2 == pair.0@ {
        lemma_find_at(t, k2, p);
    } else {
        if exists|i: int| 0 <= i < s.len() && (#[trigger] s[i].0@) == k2 {
            let i = choose|i: int| 0 <= i < s.len() && (#[trigger] s[i].0@) == k2;
            lemma_find_at(s, k2, i);
            let q = if i < p {
                i
            } else {
                i + 1
            };
            assert(t[q] == s[i]);
            lemma_find_at(t, k2, q);
        } else {
            lemma_find_none(s, k2);
            assert forall|i: int| 0 <= i < t.len() implies (#[trigger] t[i].0@) != k2 by {
                if i < p {
                    assert(t[i] == s[i]);
                } else if i > p {
                    assert(t[i] == s[i - 1]);
                }
            }
            lemma_find_none(t, k2);
        }
    }
}

/// What is found after overwriting the value at an existing key.
pub proof fn lemma_find_update<V>(s: Seq<(String, V)>, p: int, pair: (String, V), k2: Seq<char>)
    requires
        sorted_keys(s),
        0 <= p < s.len(),
        s[p].0@ == pair.0@,
    ensures
        sorted_keys(s.update(p, pair)),
        find_str(s.update(p, pair), k2) == if k2 == pair.0@ {
            Some(pair.1)
        } else {
            find_str(s, k2)
        },
{
    let t = s.update(p, pair);
    assert forall|i: int, j: int| 0 <= i < j < t.len() implies lex_lt(t[i].0@, t[j].0@) by {
        assert(t[i].0@ == s[i].0@);
        assert(t[j].0@ == s[j].0@);
    }
    if k2 == pair.0@ {
        lemma_find_at(t, k2, p);
    } else {
        if exists|i: int| 0 <= i < s.len() && (#[trigger] s[i].0@) == k2 {
            let i = choose|i: int| 0 <= i < s.len() && (#[trigger] s[i].0@) == k2;
            lemma_find_at(s, k2, i);
            assert(t[i].0@ == k2 && t[i].1 == s[i].1);
            lemma_find_at(t, k2, i);
        } else {
            lemma_find_none(s, k2);
            assert(forall|i: int| 0 <= i < t.len() ==> (#[trigger] t[i].0@) != k2);
            lemma_find_none(t, k2);
        }
    }
}

/// Bind a key to a value in a sorted association vector, inserting or
/// overwriting, and keeping the keys sorted.
pub fn assoc_set<V>(entries: &mut Vec<(String, V)>, k: &str, v: V)
    requires
        sorted_keys(old(entries)@),
    ensures
        sorted_keys(final(entries)@),
        final(entries)@.len() <= old(entries)@.len() + 1,
        forall|k2: Seq<char>| #![auto]
            find_str(final(entries)@, k2) == (if k2 == k@ {
                Some(v)
            } else {
                find_str(old(entries)@, k2)
            }),
        forall|i: int|
            0 <= i < final(entries)@.len() ==> (#[trigger] final(entries)@[i]).1 == v || exists|
                j: int,
            | 0 <= j < old(entries)@.len() && final(entries)@[i] == old(entries)@[j],
{
    let n = entries.len();
    let mut p: usize = 0;
    while p < n && str_lt(entries[p].0.as_str(), k)
        invariant
            p <= n,
            n == entries@.len(),
            entries@ == old(entries)@,
            forall|i: int| 0 <= i < p ==> lex_lt(#[trigger] entries@[i].0@, k@),
        decreases n - p,
    {
        p += 1;
    }
    let key = k.to_owned();
    if p < n && str_eq(entries[p].0.as_str(), k) {
        let ghost s = entries@;
        entries.remove(p);
        entries.insert(p, (key, v));
        proof {
            assert(entries@ =~= s.update(p as int, (key, v)));
            assert forall|k2: Seq<char>| #![auto]
                find_str(entries@, k2) == (if k2 == k@ {
                    Some(v)
                } else {
                    find_str(s, k2)
                }) by {
                lemma_find_update(s, p as int, (key, v), k2);
            }
        }
    } else {
        let ghost s = entries@;
        proof {
            if (p as int) < s.len() {
                lemma_lex_total(s[p as int].0@, k@);
                if s[p as int].0@ == k@ {
                    assert(s[p as int].0@ == k@ && k@ == key@);
                }
                assert(lex_lt(k@, s[p as int].0@));
            }
            assert forall|i: int| p <= i < s.len() implies lex_lt(k@, #[trigger] s[i].0@) by {
                if i > p {
                    assert(lex_lt(s[p as int].0@, s[i].0@));
                    lemma_lex_trans(k@, s[p as int].0@, s[i].0@);
                }
            }
            assert forall|i: int| 0 <= i < s.len() implies (#[trigger] s[i].0@) != k@ by {
                if s[i].0@ == k@ {
                    if i < p {
                        lemma_lex_irrefl(k@);
                    } else {
                        lemma_lex_irrefl(k@);
                    }
                }
            }
            lemma_sorted_insert(s, p as int, (key, v));
        }
        entries.insert(p, (key, v));
        proof {
            assert forall|k2: Seq<char>| #![auto]
                find_str(entries@, k2) == (if k2 == k@ {
                    Some(v)
                } else {
                    find_str(s, k2)
                }) by {
                lemma_find_insert(s, p as int, (key, v), k2);
            }
        }
    }
}

} // verus!
