//! The pattern compiler: turns a raw rule mapping into per-pattern
//! cumulative-weight sampling tables. Weights are accumulated in the table's
//! iteration order; a continuation whose weight is 0 collides with the
//! previous cumulative threshold and is deferred to a synthetic threshold
//! above the live range, where sampling never reaches it.

use vstd::prelude::*;

use crate::rules::find_str;
use crate::rules::lemma_find_none;
use crate::rules::rules_wf;
use crate::rules::sorted_keys;
use crate::rules::Rules;
use crate::rules::Table;
use crate::text::lemma_lex_irrefl;
use crate::text::str_eq;
use crate::verification::rules_valid;
use crate::verification::spec_alphabet;
use crate::verification::spec_limit;

verus! {

/// One compiled pattern: the last live cumulative threshold (the sum of all
/// weights), the weight of the termination continuation, and the threshold
/// table, ascending.
pub struct Compiled {
    pub last: u32,
    pub termination_weight: u32,
    pub table: Vec<(u32, String)>,
}

/// Sum of the first `i` weights of a raw continuation table.
pub open spec fn prefix_sum(t: Seq<(String, u32)>, i: int) -> int
    decreases i,
{
    if i <= 0 {
        0
    } else {
        prefix_sum(t, i - 1) + t[i - 1].1
    }
}

/// Total weight of a raw continuation table. Weight-0 entries contribute
/// nothing, so this is also the sum of the strictly positive weights.
pub open spec fn total_weight(t: Seq<(String, u32)>) -> int {
    prefix_sum(t, t.len() as int)
}

/// The live cumulative entries after processing the first `i` raw entries:
/// each new running sum is recorded unless it collides with the previous
/// threshold (the entry's weight was 0).
pub open spec fn live_entries(t: Seq<(String, u32)>, i: int) -> Seq<(int, Seq<char>)>
    decreases i,
{
    if i <= 0 {
        Seq::empty()
    } else {
        let prev = live_entries(t, i - 1);
        let s = prefix_sum(t, i);
        if prev.len() > 0 && prev.last().0 == s {
            prev
        } else {
            prev.push((s, t[i - 1].0@))
        }
    }
}

/// The continuations deferred as forbidden after processing the first `i`
/// raw entries.
pub open spec fn forb_entries(t: Seq<(String, u32)>, i: int) -> Seq<Seq<char>>
    decreases i,
{
    if i <= 0 {
        Seq::empty()
    } else {
        let prev = live_entries(t, i - 1);
        let f = forb_entries(t, i - 1);
        let s = prefix_sum(t, i);
        if prev.len() > 0 && prev.last().0 == s {
            f.push(t[i - 1].0@)
        } else {
            f
        }
    }
}

/// The full compiled threshold table: the live entries, then every deferred
/// continuation at synthetic thresholds one past the live range.
pub open spec fn compiled_table(t: Seq<(String, u32)>) -> Seq<(int, Seq<char>)> {
    let live = live_entries(t, t.len() as int);
    let forb = forb_entries(t, t.len() as int);
    let last = total_weight(t);
    live + Seq::new(forb.len(), |j: int| (last + 1 + j, forb[j]))
}

/// The weight recorded for the termination continuation `" "`, 0 when absent.
pub open spec fn term_weight(t: Seq<(String, u32)>) -> int {
    match find_str(t, " "@) {
        Some(w) => w as int,
        None => 0,
    }
}

/// A compiled pattern agrees with its raw continuation table.
pub open spec fn compiled_matches(c: Compiled, t: Seq<(String, u32)>) -> bool {
    &&& c.last as int == total_weight(t)
    &&& c.termination_weight as int == term_weight(t)
    &&& c.table@.len() == compiled_table(t).len()
    &&& forall|i: int|
        0 <= i < c.table@.len() ==> (#[trigger] c.table@[i]).0 as int == compiled_table(t)[i].0
            && c.table@[i].1@ == compiled_table(t)[i].1
}

/// Structural facts about a compiled pattern that sampling relies on.
pub open spec fn compiled_wf(c: Compiled) -> bool {
    &&& forall|i: int, j: int|
        0 <= i < j < c.table@.len() ==> (#[trigger] c.table@[i]).0 < (#[trigger] c.table@[j]).0
    &&& c.table@.len() > 0 ==> c.table@[0].0 <= c.last
    &&& c.table@.len() > 0 ==> exists|i: int|
        0 <= i < c.table@.len() && (#[trigger] c.table@[i]).0 == c.last
    &&& c.table@.len() > 0 ==> c.last < u32::MAX
    &&& c.last > 0 ==> c.table@.len() > 0
    &&& c.termination_weight <= c.last
}

/// Every pattern's weights, plus room for its weight-0 slots, fit the
/// threshold type.
pub open spec fn weights_fit(rv: Seq<(String, Table)>) -> bool {
    forall|i: int|
        0 <= i < rv.len() ==> total_weight((#[trigger] rv[i]).1@) + rv[i].1@.len() <= u32::MAX
}

/// Prefix sums grow monotonically.
pub proof fn lemma_prefix_sum_mono(t: Seq<(String, u32)>, i: int, j: int)
    requires
        0 <= i <= j,
    ensures
        prefix_sum(t, i) <= prefix_sum(t, j),
        prefix_sum(t, i) >= 0,
    decreases j,
{
    if i < j {
        lemma_prefix_sum_mono(t, i, j - 1);
    } else if i > 0 {
        lemma_prefix_sum_mono(t, 0, i - 1);
    }
}

/// Structure of the live entries: thresholds ascend, stay within the running
/// sum, the last one equals it, and each entry records a raw entry whose
/// weight is positive unless the threshold is 0.
pub proof fn lemma_live_structure(t: Seq<(String, u32)>, i: int)
    requires
        0 <= i <= t.len(),
    ensures
        forall|a: int, b: int|
            0 <= a < b < live_entries(t, i).len() ==> (#[trigger] live_entries(t, i)[a]).0 < (
            #[trigger] live_entries(t, i)[b]).0,
        i > 0 ==> live_entries(t, i).len() > 0,
        live_entries(t, i).len() > 0 ==> live_entries(t, i).last().0 == prefix_sum(t, i),
        forall|a: int|
            0 <= a < live_entries(t, i).len() ==> 0 <= (#[trigger] live_entries(t, i)[a]).0
                <= prefix_sum(t, i),
        live_entries(t, i).len() + forb_entries(t, i).len() == i,
        forall|a: int|
            0 <= a < live_entries(t, i).len() ==> exists|j: int|
                0 <= j < i && (#[trigger] live_entries(t, i)[a]).1 == t[j].0@ && live_entries(
                    t,
                    i,
                )[a].0 == prefix_sum(t, j + 1) && (t[j].1 > 0 || live_entries(t, i)[a].0 == 0),
        forall|b: int|
            0 <= b < forb_entries(t, i).len() ==> exists|j: int|
                0 <= j < i && (#[trigger] forb_entries(t, i)[b]) == t[j].0@ && t[j].1 == 0,
    decreases i,
{
    if i > 0 {
        lemma_live_structure(t, i - 1);
        lemma_prefix_sum_mono(t, i - 1, i);
        let prev = live_entries(t, i - 1);
        let s = prefix_sum(t, i);
        let live = live_entries(t, i);
        if prev.len() > 0 && prev.last().0 == s {
            // collision: the new entry had weight 0 and is deferred
            assert(forb_entries(t, i) == forb_entries(t, i - 1).push(t[i - 1].0@));
            assert(t[i - 1].1 == 0);
        } else {
            assert(live == prev.push((s, t[i - 1].0@)));
            assert forall|a: int|
                0 <= a < live.len() implies exists|j: int|
                0 <= j < i && (#[trigger] live[a]).1 == t[j].0@ && live[a].0 == prefix_sum(t, j + 1)
                    && (t[j].1 > 0 || live[a].0 == 0) by {
                if a < prev.len() {
                    assert(live[a] == prev[a]);
                    let j = choose|j: int|
                        0 <= j < i - 1 && (#[trigger] prev[a]).1 == t[j].0@ && prev[a].0
                            == prefix_sum(t, j + 1) && (t[j].1 > 0 || prev[a].0 == 0);
                    assert(0 <= j < i && live[a].1 == t[j].0@ && live[a].0 == prefix_sum(t, j + 1)
                        && (t[j].1 > 0 || live[a].0 == 0));
                } else {
                    // the new entry itself: positive weight, or first at sum 0
                    if prev.len() > 0 {
                        assert(prev.last().0 != s);
                        assert(prev.last().0 <= prefix_sum(t, i - 1));
                        assert(t[i - 1].1 > 0 || s == prefix_sum(t, i - 1));
                        if t[i - 1].1 == 0 {
                            assert(prev.last().0 == prefix_sum(t, i - 1) == s);
                        }
                    }
                    let j = i - 1;
                    assert(0 <= j < i && live[a].1 == t[j].0@ && live[a].0 == prefix_sum(t, j + 1)
                        && (t[j].1 > 0 || live[a].0 == 0));
                }
            }
        }
    }
}

/// What is found after appending an entry at the end: an earlier binding
/// still wins.
pub proof fn lemma_find_push<V>(s: Seq<(String, V)>, e: (String, V), k: Seq<char>)
    ensures
        find_str(s, k) is Some ==> find_str(s.push(e), k) == find_str(s, k),
        find_str(s, k) is None && e.0@ == k ==> find_str(s.push(e), k) == Some(e.1),
        find_str(s, k) is None && e.0@ != k ==> find_str(s.push(e), k) is None,
    decreases s.len(),
{
    let t = s.push(e);
    assert(t.len() == s.len() + 1);
    if s.len() == 0 {
        assert(t[0] == e);
        if e.0@ == k {
            assert(find_str(t, k) == Some(t[0].1));
        } else {
            assert(t.skip(1) =~= Seq::<(String, V)>::empty());
            assert(find_str(t, k) == find_str(t.skip(1), k));
        }
    } else {
        assert(t[0] == s[0]);
        if s[0].0@ == k {
            assert(find_str(s, k) == Some(s[0].1));
            assert(find_str(t, k) == Some(t[0].1));
        } else {
            assert(t.skip(1) =~= s.skip(1).push(e));
            lemma_find_push(s.skip(1), e, k);
            assert(find_str(t, k) == find_str(t.skip(1), k));
            assert(find_str(s, k) == find_str(s.skip(1), k));
        }
    }
}

/// A found value is the value of some entry with the looked-up key.
pub proof fn lemma_find_is_entry<V>(s: Seq<(String, V)>, k: Seq<char>)
    requires
        find_str(s, k) is Some,
    ensures
        exists|j: int|
            0 <= j < s.len() && (#[trigger] s[j]).0@ == k && s[j].1 == find_str(s, k).unwrap(),
    decreases s.len(),
{
    if s.len() > 0 && s[0].0@ != k {
        lemma_find_is_entry(s.skip(1), k);
        let j = choose|j: int|
            0 <= j < s.skip(1).len() && (#[trigger] s.skip(1)[j]).0@ == k && s.skip(1)[j].1
                == find_str(s.skip(1), k).unwrap();
        assert(s[j + 1] == s.skip(1)[j]);
    }
}

/// Compile one raw continuation table into its cumulative threshold table.
#[verifier::loop_isolation(false)]
pub fn compile_table(t: &Table) -> (c: Compiled)
    requires
        sorted_keys(t@),
        total_weight(t@) + t@.len() <= u32::MAX,
    ensures
        compiled_matches(c, t@),
        compiled_wf(c),
{
    let n = t.len();
    let mut sum: u32 = 0;
    let mut table: Vec<(u32, String)> = Vec::new();
    let mut forbidden: Vec<String> = Vec::new();
    let mut termination_weight: u32 = 0;
    let mut i: usize = 0;
    proof {
        assert(t@.take(0) =~= Seq::<(String, u32)>::empty());
    }
    while i < n
        invariant
            i <= n,
            sum as int == prefix_sum(t@, i as int),
            table@.len() == live_entries(t@, i as int).len(),
            forall|a: int|
                0 <= a < table@.len() ==> (#[trigger] table@[a]).0 as int == live_entries(
                    t@,
                    i as int,
                )[a].0 && table@[a].1@ == live_entries(t@, i as int)[a].1,
            forbidden@.len() == forb_entries(t@, i as int).len(),
            forall|b: int|
                0 <= b < forbidden@.len() ==> (#[trigger] forbidden@[b])@ == forb_entries(
                    t@,
                    i as int,
                )[b],
            match find_str(t@.take(i as int), " "@) {
                Some(w0) => termination_weight == w0,
                None => termination_weight == 0,
            },
        decreases n - i,
    {
        let w = t[i].1;
        proof {
            lemma_prefix_sum_mono(t@, 0, i as int);
            lemma_prefix_sum_mono(t@, i as int + 1, n as int);
            assert(prefix_sum(t@, i as int + 1) == prefix_sum(t@, i as int) + w);
        }
        sum = sum + w;
        let tlen = table.len();
        proof {
            lemma_live_structure(t@, i as int);
        }
        if tlen > 0 && table[tlen - 1].0 == sum {
            forbidden.push(t[i].0.clone());
            proof {
                let prev = live_entries(t@, i as int);
                assert(prev.len() > 0 && prev.last().0 == sum as int);
                assert(live_entries(t@, i as int + 1) == prev);
                assert(forb_entries(t@, i as int + 1) == forb_entries(t@, i as int).push(
                    t@[i as int].0@,
                ));
            }
        } else {
            table.push((sum, t[i].0.clone()));
            proof {
                let prev = live_entries(t@, i as int);
                assert(!(prev.len() > 0 && prev.last().0 == sum as int));
                assert(live_entries(t@, i as int + 1) == prev.push((sum as int, t@[i as int].0@)));
                assert(forb_entries(t@, i as int + 1) == forb_entries(t@, i as int));
            }
        }
        if str_eq(t[i].0.as_str(), " ") {
            termination_weight = w;
            proof {
                if find_str(t@.take(i as int), " "@) is Some {
                    lemma_find_is_entry(t@.take(i as int), " "@);
                    let j = choose|j: int|
                        0 <= j < i && (#[trigger] t@.take(i as int)[j]).0@ == " "@ && t@.take(
                            i as int,
                        )[j].1 == find_str(t@.take(i as int), " "@).unwrap();
                    assert(t@[j].0@ == " "@ && t@[i as int].0@ == " "@);
                    assert(crate::text::lex_lt(t@[j].0@, t@[i as int].0@));
                    lemma_lex_irrefl(" "@);
                    assert(false);
                }
            }
        }
        proof {
            assert(t@.take(i as int + 1) =~= t@.take(i as int).push(t@[i as int]));
            lemma_find_push(t@.take(i as int), t@[i as int], " "@);
        }
        i += 1;
    }
    proof {
        assert(t@.take(n as int) =~= t@);
        lemma_live_structure(t@, n as int);
    }
    let last = sum;
    let nf = forbidden.len();
    let ghost live = live_entries(t@, n as int);
    let ghost forb = forb_entries(t@, n as int);
    let mut j: usize = 0;
    while j < nf
        invariant
            j <= nf,
            sum as int == last as int + j,
            table@.len() == live.len() + j,
            forall|a: int|
                0 <= a < live.len() ==> (#[trigger] table@[a]).0 as int == live[a].0
                    && table@[a].1@ == live[a].1,
            forall|b: int|
                0 <= b < j ==> (#[trigger] table@[live.len() + b]).0 as int == last as int + 1 + b
                    && table@[live.len() + b].1@ == forb[b],
        decreases nf - j,
    {
        sum = sum + 1;
        let s = forbidden[j].clone();
        table.push((sum, s));
        j += 1;
    }
    let c = Compiled { last, termination_weight, table };
    proof {
        let ct = compiled_table(t@);
        assert(ct.len() == live.len() + forb.len());
        let ghost synth = Seq::new(forb.len(), |j: int| (total_weight(t@) + 1 + j, forb[j]));
        assert(ct =~= live + synth);
        assert forall|a: int|
            0 <= a < c.table@.len() implies (#[trigger] c.table@[a]).0 as int == ct[a].0
            && c.table@[a].1@ == ct[a].1 by {
            if a < live.len() {
                assert(ct[a] == (live + synth)[a]);
                assert((live + synth)[a] == live[a]);
            } else {
                let b = a - live.len();
                assert(c.table@[live.len() + b] == c.table@[a]);
                assert(ct[a] == (live + synth)[a]);
                assert((live + synth)[a] == synth[b]);
                assert(synth[b] == (total_weight(t@) + 1 + b, forb[b]));
            }
        }
        // termination weight does not exceed the weight total
        if find_str(t@, " "@) is Some {
            lemma_find_is_entry(t@, " "@);
            let jt = choose|jt: int|
                0 <= jt < t@.len() && (#[trigger] t@[jt]).0@ == " "@ && t@[jt].1 == find_str(
                    t@,
                    " "@,
                ).unwrap();
            lemma_prefix_sum_mono(t@, 0, jt);
            lemma_prefix_sum_mono(t@, jt + 1, n as int);
            assert(prefix_sum(t@, jt + 1) == prefix_sum(t@, jt) + t@[jt].1);
        }
        // structural facts for sampling
        assert forall|a: int, b: int|
            0 <= a < b < c.table@.len() implies (#[trigger] c.table@[a]).0 < (
        #[trigger] c.table@[b]).0 by {
            if b < live.len() {
            } else if a < live.len() {
                assert(c.table@[a].0 as int == live[a].0 <= prefix_sum(t@, n as int));
            }
        }
        if c.table@.len() > 0 {
            assert(live.len() > 0);
            assert(n > 0);
            assert(live[live.len() - 1].0 == prefix_sum(t@, n as int));
            assert(c.table@[live.len() - 1].0 == c.last);
            assert(c.table@[0].0 as int == live[0].0 <= prefix_sum(t@, n as int));
        }
    }
    c
}

/// Sum of the strictly positive weights among the first `i` entries.
pub open spec fn positive_sum(t: Seq<(String, u32)>, i: int) -> int
    decreases i,
{
    if i <= 0 {
        0
    } else {
        positive_sum(t, i - 1) + if t[i - 1].1 > 0 {
            t[i - 1].1 as int
        } else {
            0
        }
    }
}

/// Compiling round-trips the weight total: the last live cumulative
/// threshold of a compiled pattern equals the sum of the strictly positive
/// raw weights of its continuation table.
pub proof fn lemma_compiled_last_is_positive_sum(c: Compiled, t: Seq<(String, u32)>)
    requires
        compiled_matches(c, t),
    ensures
        c.last as int == positive_sum(t, t.len() as int),
{
    lemma_prefix_eq_positive(t, t.len() as int);
}

/// Weight-0 entries contribute nothing to the running sum.
proof fn lemma_prefix_eq_positive(t: Seq<(String, u32)>, i: int)
    ensures
        prefix_sum(t, i) == positive_sum(t, i),
    decreases i,
{
    if i > 0 {
        lemma_prefix_eq_positive(t, i - 1);
    }
}

/// Every continuation string in a compiled table is a key of the raw table.
pub proof fn lemma_table_value_is_key(c: Compiled, t: Seq<(String, u32)>, p: int)
    requires
        compiled_matches(c, t),
        0 <= p < c.table@.len(),
    ensures
        exists|j: int| 0 <= j < t.len() && (#[trigger] t[j]).0@ == c.table@[p].1@,
{
    lemma_live_structure(t, t.len() as int);
    let live = live_entries(t, t.len() as int);
    let forb = forb_entries(t, t.len() as int);
    let ct = compiled_table(t);
    assert(c.table@[p].1@ == ct[p].1);
    if p < live.len() {
        assert(ct[p] == live[p]);
        let j = choose|j: int|
            0 <= j < t.len() && (#[trigger] live[p]).1 == t[j].0@ && live[p].0 == prefix_sum(
                t,
                j + 1,
            ) && (t[j].1 > 0 || live[p].0 == 0);
        assert(t[j].0@ == c.table@[p].1@);
    } else {
        let b = p - live.len();
        let ghost synth = Seq::new(forb.len(), |j: int| (total_weight(t) + 1 + j, forb[j]));
        assert(ct =~= live + synth);
        assert(ct[p] == synth[b]);
        assert(synth[b].1 == forb[b]);
        let j = choose|j: int| 0 <= j < t.len() && (#[trigger] forb[b]) == t[j].0@ && t[j].1 == 0;
        assert(t[j].0@ == c.table@[p].1@);
    }
}

/// Sampling never surfaces a forbidden continuation: a threshold drawn from
/// the live range (above 0, at most the weight total) selects a continuation
/// whose raw weight is strictly positive, and in particular never one that
/// was registered at weight 0.
pub proof fn lemma_live_selection(c: Compiled, t: Seq<(String, u32)>, p: int, r: int)
    requires
        compiled_matches(c, t),
        compiled_wf(c),
        sorted_keys(t),
        0 <= p < c.table@.len(),
        1 <= r <= c.last,
        c.table@[p].0 >= r,
        forall|i: int| 0 <= i < p ==> (#[trigger] c.table@[i]).0 < r,
    ensures
        exists|j: int| 0 <= j < t.len() && (#[trigger] t[j]).0@ == c.table@[p].1@ && t[j].1 > 0,
        forall|j: int|
            0 <= j < t.len() && (#[trigger] t[j]).1 == 0 ==> t[j].0@ != c.table@[p].1@,
{
    lemma_live_structure(t, t.len() as int);
    let live = live_entries(t, t.len() as int);
    let forb = forb_entries(t, t.len() as int);
    let ct = compiled_table(t);
    let ghost synth = Seq::new(forb.len(), |j: int| (total_weight(t) + 1 + j, forb[j]));
    assert(ct =~= live + synth);
    // the selected entry lies in the live range: some threshold equals last
    let q = choose|q: int| 0 <= q < c.table@.len() && (#[trigger] c.table@[q]).0 == c.last;
    assert(p <= q);
    assert(c.table@[p].0 <= c.last);
    assert(p < live.len()) by {
        if p >= live.len() {
            assert(ct[p] == synth[p - live.len()]);
            assert(ct[p].0 == total_weight(t) + 1 + (p - live.len()));
        }
    }
    assert(ct[p] == live[p]);
    let j = choose|j: int|
        0 <= j < t.len() && (#[trigger] live[p]).1 == t[j].0@ && live[p].0 == prefix_sum(t, j + 1)
            && (t[j].1 > 0 || live[p].0 == 0);
    assert(live[p].0 == c.table@[p].0 as int >= 1);
    assert(t[j].1 > 0);
    assert(t[j].0@ == c.table@[p].1@);
    assert forall|j2: int|
        0 <= j2 < t.len() && (#[trigger] t[j2]).1 == 0 implies t[j2].0@ != c.table@[p].1@ by {
        if t[j2].0@ == t[j].0@ && j2 != j {
            if j2 < j {
                assert(crate::text::lex_lt(t[j2].0@, t[j].0@));
            } else {
                assert(crate::text::lex_lt(t[j].0@, t[j2].0@));
            }
            lemma_lex_irrefl(t[j].0@);
        }
    }
}

/// The compiled language model: alphabet, word-length envelope, and one
/// compiled sampling table per pattern. The raw rules it was built from are
/// kept as a ghost value, so contracts can speak of the original weights.
pub struct Language {
    pub alphabet: String,
    pub min: usize,
    pub avg: usize,
    pub max: usize,
    pub patterns: Vec<(String, Compiled)>,
    pub raw: Ghost<Seq<(String, Table)>>,
}

/// How the compiled patterns relate to the raw rules at one key: reserved
/// keys are absent, every other key is present exactly when the raw rules
/// hold it, compiled from its raw table.
pub open spec fn patterns_match_at(
    pv: Seq<(String, Compiled)>,
    rv: Seq<(String, Table)>,
    k: Seq<char>,
) -> bool {
    if k == "alphabet"@ || k == "word_length"@ {
        find_str(pv, k) is None
    } else {
        match (find_str(pv, k), find_str(rv, k)) {
            (Some(c), Some(t)) => compiled_matches(c, t@),
            (None, None) => true,
            _ => false,
        }
    }
}

/// The compiled patterns are exactly the raw rules' non-reserved entries.
pub open spec fn patterns_match(pv: Seq<(String, Compiled)>, rv: Seq<(String, Table)>) -> bool {
    forall|k: Seq<char>| #![auto] patterns_match_at(pv, rv, k)
}

/// A raw rule mapping the compiler can consume: the alphabet entry and all
/// three word-length bounds are present.
pub open spec fn buildable(rv: Seq<(String, Table)>) -> bool {
    let at = find_str(rv, "alphabet"@);
    &&& at is Some
    &&& at.unwrap()@.len() > 0
    &&& find_str(rv, "word_length"@) is Some
    &&& spec_limit(rv, "min"@) is Some
    &&& spec_limit(rv, "avg"@) is Some
    &&& spec_limit(rv, "max"@) is Some
}

impl Language {
    /// The language is well formed: compiled patterns agree with the ghost
    /// raw rules, their tables carry the structural sampling facts, and the
    /// bounds fit the weight type.
    pub open spec fn wf(&self) -> bool {
        &&& self.min <= u32::MAX
        &&& self.avg <= u32::MAX
        &&& self.max <= u32::MAX
        &&& self.alphabet@ == spec_alphabet(self.raw@)
        &&& sorted_keys(self.patterns@)
        &&& forall|i: int|
            0 <= i < self.patterns@.len() ==> compiled_wf((#[trigger] self.patterns@[i]).1)
        &&& patterns_match(self.patterns@, self.raw@)
        &&& rules_wf(self.raw@)
    }

    /// Build the language model from a raw rule mapping, or report that the
    /// alphabet or a word-length bound is missing.
    #[verifier::loop_isolation(false)]
    pub fn build_language(rules: &Rules) -> (r: Option<Language>)
        requires
            rules_wf(rules@),
            weights_fit(rules@),
        ensures
            r is Some <==> buildable(rules@),
            r matches Some(l) ==> {
                &&& l.wf()
                &&& l.raw@ == rules@
                &&& l.alphabet@ == spec_alphabet(rules@)
                &&& l.min == spec_limit(rules@, "min"@).unwrap() as usize
                &&& l.avg == spec_limit(rules@, "avg"@).unwrap() as usize
                &&& l.max == spec_limit(rules@, "max"@).unwrap() as usize
            },
    {
        let alphabet_table = match crate::rules::assoc_get(rules, "alphabet") {
            Some(t) => t,
            None => {
                return None;
            },
        };
        if alphabet_table.len() == 0 {
            return None;
        }
        let alphabet = alphabet_table[0].0.clone();
        let limits = match crate::rules::assoc_get(rules, "word_length") {
            Some(t) => t,
            None => {
                return None;
            },
        };
        let min = match crate::rules::assoc_get(limits, "min") {
            Some(v) => *v as usize,
            None => {
                return None;
            },
        };
        let avg = match crate::rules::assoc_get(limits, "avg") {
            Some(v) => *v as usize,
            None => {
                return None;
            },
        };
        let max = match crate::rules::assoc_get(limits, "max") {
            Some(v) => *v as usize,
            None => {
                return None;
            },
        };
        let n = rules.len();
        let mut patterns: Vec<(String, Compiled)> = Vec::new();
        let mut i: usize = 0;
        proof {
            assert(rules@.take(0) =~= Seq::<(String, Table)>::empty());
        }
        while i < n
            invariant
                i <= n,
                sorted_keys(patterns@),
                forall|a: int|
                    0 <= a < patterns@.len() ==> compiled_wf((#[trigger] patterns@[a]).1),
                forall|a: int|
                    0 <= a < patterns@.len() ==> exists|j: int|
                        0 <= j < i && (#[trigger] patterns@[a]).0@ == rules@[j].0@,
                forall|k2: Seq<char>| #![auto] patterns_match_at(patterns@, rules@.take(i as int), k2),
            decreases n - i,
        {
            let k = &rules[i].0;
            let reserved = str_eq(k.as_str(), "alphabet") || str_eq(k.as_str(), "word_length");
            let ghost pv = patterns@;
            let ghost rv_pre = rules@.take(i as int);
            let ghost rv_post = rules@.take(i as int + 1);
            proof {
                assert(rv_post =~= rv_pre.push(rules@[i as int]));
                assert forall|j: int| 0 <= j < rv_pre.len() implies (#[trigger] rv_pre[j].0@)
                    != rules@[i as int].0@ by {
                    assert(rv_pre[j] == rules@[j]);
                    assert(crate::text::lex_lt(rules@[j].0@, rules@[i as int].0@));
                    if rules@[j].0@ == rules@[i as int].0@ {
                        lemma_lex_irrefl(rules@[j].0@);
                    }
                }
                lemma_find_none(rv_pre, rules@[i as int].0@);
            }
            if !reserved {
                let c = compile_table(&rules[i].1);
                proof {
                    assert forall|a: int| 0 <= a < pv.len() implies crate::text::lex_lt(
                        (#[trigger] pv[a]).0@,
                        k@,
                    ) by {
                        let j = choose|j: int| 0 <= j < i && (#[trigger] pv[a]).0@ == rules@[j].0@;
                        assert(crate::text::lex_lt(rules@[j].0@, rules@[i as int].0@));
                    }
                    assert forall|a: int| 0 <= a < pv.len() implies (#[trigger] pv[a]).0@
                        != k@ by {
                        if pv[a].0@ == k@ {
                            lemma_lex_irrefl(k@);
                        }
                    }
                    lemma_find_none(pv, k@);
                }
                patterns.push((k.clone(), c));
                proof {
                    assert(patterns@ == pv.push((rules@[i as int].0, c)));
                    assert forall|a: int, b: int| 0 <= a < b < patterns@.len() implies
                        crate::text::lex_lt(
                        (#[trigger] patterns@[a]).0@,
                        (#[trigger] patterns@[b]).0@,
                    ) by {
                        if b < pv.len() {
                            assert(patterns@[a] == pv[a] && patterns@[b] == pv[b]);
                        } else {
                            assert(patterns@[a] == pv[a]);
                            assert(patterns@[b].0@ == k@);
                        }
                    }
                    assert forall|k2: Seq<char>| #![auto] patterns_match_at(
                        patterns@,
                        rv_post,
                        k2,
                    ) by {
                        lemma_find_push(pv, (rules@[i as int].0, c), k2);
                        lemma_find_push(rv_pre, rules@[i as int], k2);
                        assert(patterns_match_at(pv, rv_pre, k2));
                    }
                }
            } else {
                proof {
                    assert forall|k2: Seq<char>| #![auto] patterns_match_at(
                        patterns@,
                        rv_post,
                        k2,
                    ) by {
                        lemma_find_push(rv_pre, rules@[i as int], k2);
                        assert(patterns_match_at(pv, rv_pre, k2));
                    }
                }
            }
            i += 1;
        }
        proof {
            assert(rules@.take(n as int) =~= rules@);
        }
        Some(Language { alphabet, min, avg, max, patterns, raw: Ghost(rules@) })
    }

    /// Build the language model from a rule mapping that passed the
    /// verifier; on such rules building cannot fail.
    pub fn new(rules: &Rules) -> (l: Language)
        requires
            rules_wf(rules@),
            weights_fit(rules@),
            rules_valid(rules@),
        ensures
            l.wf(),
            l.raw@ == rules@,
            l.alphabet@ == spec_alphabet(rules@),
            l.alphabet@.len() >= 1,
            l.min == spec_limit(rules@, "min"@).unwrap() as usize,
            l.avg == spec_limit(rules@, "avg"@).unwrap() as usize,
            l.max == spec_limit(rules@, "max"@).unwrap() as usize,
            1 <= l.min && l.min <= l.avg && l.avg <= l.max,
    {
        match Self::build_language(rules) {
            Some(l) => l,
            None => {
                proof {
                    assert(buildable(rules@));
                }
                vstd::pervasive::unreached()
            },
        }
    }
}

} // verus!
