//! The word sampler: grows a word by repeatedly matching the longest known
//! trailing pattern and drawing a weighted continuation, collects every
//! length-acceptable prefix as a scored candidate, and returns the best one.

use vstd::prelude::*;

use crate::language::compiled_wf;
use crate::language::patterns_match_at;
use crate::language::Compiled;
use crate::language::Language;
use crate::random::next_u32;
use crate::rules::find_str;
use crate::rules::Rules;
use crate::score::inverse_lerp;
use crate::score::score_gt;
use crate::score::score_of;
use crate::score::Frac;
use crate::score::Score;
use crate::text::push_char;
use crate::text::str_contains_char;
use crate::text::str_eq;
use crate::text::trim_spaces;
use crate::text::trim_spec;
use crate::verification::ext_alphabet;
use crate::verification::key_ok;
use crate::verification::rules_valid;
use crate::verification::verify_msg;
use crate::verification::verify_rules;

verus! {

/// The trailing `k` characters of a sequence.
pub open spec fn suffix(s: Seq<char>, k: int) -> Seq<char> {
    s.subrange(s.len() as int - k, s.len() as int)
}

/// The cumulative threshold of the termination continuation when it holds
/// the first (lowest) slot of a compiled table, 0 otherwise.
pub open spec fn spec_terminate(c: Compiled) -> int {
    if c.table@.len() > 0 && c.table@[0].1@ == " "@ {
        c.table@[0].0 as int
    } else {
        0
    }
}

/// A pattern whose only live continuation is termination: sampling there
/// force-accepts the current word.
pub open spec fn forced_term(c: Compiled) -> bool {
    spec_terminate(c) >= c.last as int
}

/// A character a grown word may contain after the leading delimiter.
pub open spec fn word_char_ok(l: Language, c: char) -> bool {
    l.alphabet@.contains(c) || c == ' '
}

/// The shape of every candidate the sampler records: it starts at the
/// delimiter, never exceeds the maximum length, draws its characters from
/// the alphabet (when the rules were valid), and is at least the minimum
/// length unless a forced termination accepted it early.
pub open spec fn candidate_ok(l: Language, c: Seq<char>) -> bool {
    &&& 1 <= c.len() <= l.max
    &&& c[0] == ' '
    &&& rules_valid(l.raw@) ==> forall|i: int| 1 <= i < c.len() ==> word_char_ok(l, #[trigger] c[i])
    &&& c.len() >= l.min || exists|k: int|
        1 <= k <= 3 && k <= c.len() && (match find_str(l.patterns@, #[trigger] suffix(c, k)) {
            Some(comp) => forced_term(comp),
            None => false,
        })
}

/// The appended segment against the matched pattern's raw table and its
/// compiled form: either a continuation with strictly positive weight, or a
/// positive-weight wildcard continuation resolved by an alphabet character
/// into a string that collides with no continuation of the table.
pub open spec fn segment_ok(
    l: Language,
    t: Seq<(String, u32)>,
    comp: Compiled,
    seg: Seq<char>,
) -> bool {
    ||| exists|j: int| 0 <= j < t.len() && (#[trigger] t[j]).0@ == seg && t[j].1 > 0
    ||| exists|j: int, ch: char|
        0 <= j < t.len() && t[j].1 > 0 && l.alphabet@.contains(ch) && seg == #[trigger] replace_spec(
            t[j].0@,
            '_',
            ch,
        ) && (forall|i: int| 0 <= i < comp.table@.len() ==> seg != (#[trigger] comp.table@[i]).1@)
}

/// One growth step of the walk: some trailing pattern of the prefix is
/// known, and the appended segment was selected from that pattern's table.
pub open spec fn step_ok(l: Language, pre: Seq<char>, seg: Seq<char>) -> bool {
    exists|k: int|
        1 <= k <= 3 && k <= pre.len() && (match find_str(l.patterns@, #[trigger] suffix(pre, k)) {
            Some(comp) => match find_str(l.raw@, suffix(pre, k)) {
                Some(t) => segment_ok(l, t@, comp, seg),
                None => false,
            },
            None => false,
        })
}

/// The word spelled by a walk's segments, appended after the start
/// delimiter in order.
pub open spec fn cat_segs(segs: Seq<Seq<char>>) -> Seq<char>
    decreases segs.len(),
{
    if segs.len() == 0 {
        seq![' ']
    } else {
        cat_segs(segs.drop_last()) + segs.last()
    }
}

/// Every segment of the walk was well selected for the word grown so far.
pub open spec fn steps_ok(l: Language, segs: Seq<Seq<char>>) -> bool
    decreases segs.len(),
{
    if segs.len() == 0 {
        true
    } else {
        &&& steps_ok(l, segs.drop_last())
        &&& segs.last().len() >= 1
        &&& step_ok(l, cat_segs(segs.drop_last()), segs.last())
    }
}

/// A word grown by the sampler's walk: the start delimiter followed by
/// selected segments. Forbidden continuations never surface: every appended
/// segment had strictly positive raw weight for the pattern matched at its
/// step, or resolved a wildcard of such a continuation without colliding
/// with any continuation registered for that pattern, weight 0 included.
pub open spec fn grown(l: Language, c: Seq<char>) -> bool {
    exists|segs: Seq<Seq<char>>| c == cat_segs(segs) && #[trigger] steps_ok(l, segs)
}

/// The bare start delimiter is a grown word: the empty walk.
pub proof fn lemma_grown_start(l: Language)
    ensures
        grown(l, seq![' ']),
{
    let segs = Seq::<Seq<char>>::empty();
    assert(cat_segs(segs) =~= seq![' ']);
    assert(steps_ok(l, segs));
}

/// Appending a well-selected segment keeps a word grown.
pub proof fn lemma_grown_step(l: Language, pre: Seq<char>, seg: Seq<char>)
    requires
        grown(l, pre),
        step_ok(l, pre, seg),
        seg.len() >= 1,
    ensures
        grown(l, pre + seg),
{
    let segs0 = choose|segs: Seq<Seq<char>>| pre == cat_segs(segs) && #[trigger] steps_ok(l, segs);
    let segs = segs0.push(seg);
    assert(segs.drop_last() =~= segs0);
    assert(segs.last() == seg);
    assert(cat_segs(segs) == cat_segs(segs0) + seg);
    assert(steps_ok(l, segs));
    assert(pre + seg == cat_segs(segs));
}

/// A word the sampler can return: some candidate grown by the walk, trimmed
/// of its delimiters.
pub open spec fn word_ok(l: Language, w: Seq<char>) -> bool {
    exists|c: Seq<char>|
        #[trigger] candidate_ok(l, c) && grown(l, c) && w == trim_spec(c)
}

/// The start pattern exists and its only live continuation is termination:
/// the very first step of a walk then force-accepts before any draw.
pub open spec fn start_forced(l: Language) -> bool {
    match find_str(l.patterns@, " "@) {
        Some(c) => forced_term(c),
        None => false,
    }
}

/// Trimming never lengthens a sequence.
pub proof fn lemma_trim_len(s: Seq<char>)
    ensures
        trim_spec(s).len() <= s.len(),
    decreases s.len(),
{
    if s.len() > 0 {
        if s[0] == ' ' {
            lemma_trim_len(s.skip(1));
        } else if s[s.len() - 1] == ' ' {
            lemma_trim_len(s.take(s.len() - 1));
        }
    }
}

/// Words joined in order, each followed by one delimiter.
pub open spec fn cat_words(ws: Seq<Seq<char>>) -> Seq<char>
    decreases ws.len(),
{
    if ws.len() == 0 {
        Seq::empty()
    } else {
        cat_words(ws.take(ws.len() - 1)) + ws.last() + seq![' ']
    }
}

/// Trimming a candidate that holds no delimiter beyond its leading one
/// removes exactly that delimiter.
pub proof fn lemma_trim_candidate(c: Seq<char>)
    requires
        c.len() >= 1,
        c[0] == ' ',
        forall|i: int| 1 <= i < c.len() ==> c[i] != ' ',
    ensures
        trim_spec(c).len() == c.len() - 1,
{
    if c.len() == 1 {
        crate::text::lemma_trim_all_spaces(c);
    } else {
        crate::text::lemma_trim_subrange(c, 1, c.len() - 1);
    }
}

/// Every word from a length-window candidate without internal delimiters
/// has its delimiter-extended length inside the envelope: counting the
/// leading delimiter, generated words stay within `[min, max]`.
pub proof fn lemma_word_length(l: Language, c: Seq<char>)
    requires
        candidate_ok(l, c),
        c.len() >= l.min,
        forall|i: int| 1 <= i < c.len() ==> c[i] != ' ',
    ensures
        l.min <= trim_spec(c).len() + 1 <= l.max,
{
    lemma_trim_candidate(c);
}

/// Find the position of the first threshold at or above the drawn value.
#[verifier::loop_isolation(false)]
fn lookup_pos(table: &Vec<(u32, String)>, r: u32) -> (p: usize)
    requires
        exists|i: int| 0 <= i < table@.len() && (#[trigger] table@[i]).0 >= r,
    ensures
        p < table@.len(),
        table@[p as int].0 >= r,
        forall|i: int| 0 <= i < p ==> (#[trigger] table@[i]).0 < r,
{
    let n = table.len();
    let mut p: usize = 0;
    while p < n
        invariant
            p <= n,
            forall|i: int| 0 <= i < p ==> (#[trigger] table@[i]).0 < r,
        decreases n - p,
    {
        if table[p].0 >= r {
            return p;
        }
        p += 1;
    }
    proof {
        assert(false);
    }
    0
}

/// A string with every occurrence of one character replaced by another.
pub open spec fn replace_spec(s: Seq<char>, from: char, to: char) -> Seq<char> {
    Seq::new(
        s.len(),
        |i: int|
            if s[i] == from {
                to
            } else {
                s[i]
            },
    )
}

/// Substituting the character for every wildcard yields a string that
/// collides with no continuation already present in the table.
pub open spec fn wildcard_ok(string: Seq<char>, c: char, table: Seq<(u32, String)>) -> bool {
    forall|i: int| 0 <= i < table.len() ==> replace_spec(string, '_', c) != (#[trigger] table[i]).1@
}

/// Replace every occurrence of a character in a string.
fn replace_char(s: &str, from: char, to: char) -> (r: String)
    ensures
        r@ == replace_spec(s@, from, to),
{
    let len = s.unicode_len();
    let mut out = String::new();
    let mut i: usize = 0;
    while i < len
        invariant
            i <= len,
            len == s@.len(),
            out@.len() == i,
            forall|j: int|
                0 <= j < i ==> out@[j] == (if s@[j] == from {
                    to
                } else {
                    s@[j]
                }),
        decreases len - i,
    {
        let c = s.get_char(i);
        if c == from {
            push_char(&mut out, to);
        } else {
            push_char(&mut out, c);
        }
        i += 1;
    }
    proof {
        assert(out@ =~= replace_spec(s@, from, to));
    }
    out
}

impl Language {
    /// Match the longest trailing pattern of the current word, trying the
    /// last three, two, then one characters.
    fn match_pattern<'a>(&'a self, current: &str) -> (r: Option<(&'a Compiled, usize)>)
        ensures
            match r {
                Some(ck) => {
                    &&& 1 <= ck.1 <= 3
                    &&& ck.1 as int <= current@.len()
                    &&& find_str(self.patterns@, suffix(current@, ck.1 as int)) == Some(*ck.0)
                    &&& forall|k2: int|
                        ck.1 < k2 <= 3 && k2 <= current@.len() ==> find_str(
                            self.patterns@,
                            #[trigger] suffix(current@, k2),
                        ) is None
                },
                None => forall|k2: int|
                    1 <= k2 <= 3 && k2 <= current@.len() ==> find_str(
                        self.patterns@,
                        #[trigger] suffix(current@, k2),
                    ) is None,
            },
    {
        let len = current.unicode_len();
        if len >= 3 {
            if let Some(c) = crate::rules::assoc_get(&self.patterns, current.substring_char(len - 3, len)) {
                return Some((c, 3));
            }
        }
        if len >= 2 {
            if let Some(c) = crate::rules::assoc_get(&self.patterns, current.substring_char(len - 2, len)) {
                return Some((c, 2));
            }
        }
        if len >= 1 {
            if let Some(c) = crate::rules::assoc_get(&self.patterns, current.substring_char(len - 1, len)) {
                return Some((c, 1));
            }
        }
        None
    }

    /// Draw a random character of the alphabet.
    pub fn get_wildcard(&self, rng: &mut rand::rngs::StdRng) -> (c: char)
        requires
            self.alphabet@.len() >= 1,
        ensures
            self.alphabet@.contains(c),
    {
        let len = self.alphabet.as_str().unicode_len();
        let i = (next_u32(rng) as usize) % len;
        let c = self.alphabet.as_str().get_char(i);
        proof {
            assert(self.alphabet@[i as int] == c);
        }
        c
    }

    /// Whether a substitution avoids every continuation already present in
    /// the table.
    fn check_candidate(candidate: &String, map: &Vec<(u32, String)>) -> (ok: bool)
        ensures
            ok == forall|i: int| 0 <= i < map@.len() ==> candidate@ != (#[trigger] map@[i]).1@,
    {
        let n = map.len();
        let mut i: usize = 0;
        let mut found = true;
        while i < n
            invariant
                i <= n,
                n == map@.len(),
                found == forall|j: int| 0 <= j < i ==> candidate@ != (#[trigger] map@[j]).1@,
            decreases n - i,
        {
            if str_eq(candidate.as_str(), map[i].1.as_str()) {
                found = false;
            }
            i += 1;
        }
        found
    }

    /// Find an alphabet character whose substitution for the wildcards
    /// collides with no continuation of the table, scanning in order; report
    /// that none exists otherwise.
    #[verifier::loop_isolation(false)]
    pub fn find_wildcard_resolution(&self, string: &str, map: &Vec<(u32, String)>) -> (r: Option<
        char,
    >)
        ensures
            r matches Some(c) ==> self.alphabet@.contains(c) && wildcard_ok(string@, c, map@),
            r is None ==> forall|c: char|
                self.alphabet@.contains(c) ==> !(#[trigger] wildcard_ok(string@, c, map@)),
    {
        let n = self.alphabet.as_str().unicode_len();
        let mut i: usize = 0;
        while i < n
            invariant
                i <= n,
                forall|j: int| 0 <= j < i ==> !wildcard_ok(string@, #[trigger] self.alphabet@[j], map@),
            decreases n - i,
        {
            let c = self.alphabet.as_str().get_char(i);
            let candidate = replace_char(string, '_', c);
            if Self::check_candidate(&candidate, map) {
                proof {
                    assert(self.alphabet@[i as int] == c);
                }
                return Some(c);
            }
            i += 1;
        }
        proof {
            assert forall|c: char| self.alphabet@.contains(c) implies !wildcard_ok(
                string@,
                c,
                map@,
            ) by {
                let j = choose|j: int| 0 <= j < self.alphabet@.len() && self.alphabet@[j] == c;
                assert(!wildcard_ok(string@, self.alphabet@[j], map@));
            }
        }
        None
    }

    /// Replace every wildcard in the continuation with one random alphabet
    /// character, redrawing while the result collides with a continuation
    /// already present in the pattern's table, live or forbidden. After as
    /// many random draws as the alphabet has characters, fall back to the
    /// first non-colliding character in alphabet order; some character must
    /// avoid every collision.
    #[verifier::loop_isolation(false)]
    pub fn replace_wildcards(
        &self,
        rng: &mut rand::rngs::StdRng,
        string: &str,
        map: &Vec<(u32, String)>,
    ) -> (r: String)
        requires
            self.alphabet@.len() >= 1,
            exists|c: char| self.alphabet@.contains(c) && #[trigger] wildcard_ok(string@, c, map@),
        ensures
            exists|c: char|
                self.alphabet@.contains(c) && r@ == #[trigger] replace_spec(string@, '_', c),
            forall|i: int| 0 <= i < map@.len() ==> r@ != (#[trigger] map@[i]).1@,
    {
        let n = self.alphabet.as_str().unicode_len();
        let mut attempt: usize = 0;
        while attempt < n
            decreases n - attempt,
        {
            let wc = self.get_wildcard(rng);
            let candidate = replace_char(string, '_', wc);
            if Self::check_candidate(&candidate, map) {
                return candidate;
            }
            attempt += 1;
        }
        let wc = match self.find_wildcard_resolution(string, map) {
            Some(c) => c,
            None => {
                proof {
                    let c = choose|c: char|
                        self.alphabet@.contains(c) && wildcard_ok(string@, c, map@);
                    assert(false);
                }
                vstd::pervasive::unreached()
            },
        };
        replace_char(string, '_', wc)
    }

    /// Grow one word by a weighted random walk over the compiled patterns
    /// and return the best-scored length-acceptable candidate, trimmed of
    /// its delimiters; report failure when no candidate was ever recorded.
    #[verifier::loop_isolation(false)]
    pub fn generate_word(&self, rng: &mut rand::rngs::StdRng) -> (r: Result<
        String,
        &'static str,
    >)
        requires
            self.wf(),
            self.alphabet@.len() >= 1,
        ensures
            r matches Ok(w) ==> word_ok(*self, w@),
            r matches Ok(w) ==> w@.len() < self.max,
            r matches Err(e) ==> e@ == "No word found."@,
            self.max >= 1 && start_forced(*self) ==> r is Ok,
            find_str(self.patterns@, " "@) is None ==> r is Err,
    {
        let mut candidates: Vec<(Score, String)> = Vec::new();
        let mut current: String = " ".to_owned();
        proof {
            reveal_strlit(" ");
            assert(current@.len() == 1 && current@[0] == ' ');
            lemma_grown_start(*self);
            assert(current@ =~= seq![' ']);
            assert(grown(*self, current@));
        }
        let mut l: usize = 0;
        while l < self.max
            invariant
                current@.len() >= 1,
                current@[0] == ' ',
                l < self.max ==> current@.len() <= l + 1,
                rules_valid(self.raw@) ==> forall|i: int|
                    1 <= i < current@.len() ==> word_char_ok(*self, #[trigger] current@[i]),
                grown(*self, current@),
                forall|a: int|
                    0 <= a < candidates@.len() ==> candidate_ok(
                        *self,
                        (#[trigger] candidates@[a]).1@,
                    ) && grown(*self, (#[trigger] candidates@[a]).1@) && candidates@[a].0.den
                        > 0,
                start_forced(*self) ==> candidates@.len() > 0 || (l == 0 && current@ == " "@),
                find_str(self.patterns@, " "@) is None ==> candidates@.len() == 0 && current@
                    == " "@,
            decreases self.max - l,
        {
            proof {
                if current@ == " "@ {
                    assert(suffix(current@, 1) =~= " "@);
                }
            }
            match self.match_pattern(current.as_str()) {
                None => {
                    // no trailing pattern matches: the walk is stalled, and
                    // only the candidates recorded so far can be offered
                    proof {
                        if current@ == " "@ {
                            assert(find_str(self.patterns@, " "@) is None);
                        }
                    }
                    l = self.max;
                },
                Some((comp, k)) => {
                    let ghost pk = suffix(current@, k as int);
                    proof {
                        if current@ == " "@ {
                            assert(k == 1 && pk == " "@);
                            assert(find_str(self.patterns@, " "@) == Some(*comp));
                        }
                        assert(patterns_match_at(self.patterns@, self.raw@, pk));
                        assert(pk != "alphabet"@ && pk != "word_length"@);
                        assert(compiled_wf(*comp)) by {
                            crate::language::lemma_find_is_entry(self.patterns@, pk);
                        }
                    }
                    let ghost t = find_str(self.raw@, pk).unwrap();
                    let tlen = comp.table.len();
                    let mut terminate: u32 = 0;
                    if tlen > 0 {
                        if str_eq(comp.table[0].1.as_str(), " ") {
                            terminate = comp.table[0].0;
                        }
                    }
                    proof {
                        assert(terminate as int == spec_terminate(*comp));
                    }
                    let start = terminate + 1;
                    if start > comp.last {
                        proof {
                            assert(forced_term(*comp));
                            assert(current@.len() <= l + 1 <= self.max);
                            assert(suffix(current@, k as int) == pk);
                            assert(candidate_ok(*self, current@));
                        }
                        candidates.push((Score { num: 1, den: 1 }, current.clone()));
                        l = self.max;
                    } else {
                        let r = if comp.last == start {
                            start
                        } else {
                            let range = comp.last - start + 1;
                            start + next_u32(rng) % range
                        };
                        proof {
                            assert(start <= r <= comp.last);
                            assert(comp.last > 0);
                            assert(comp.table@.len() > 0);
                        }
                        let p = lookup_pos(&comp.table, r);
                        let raw_continuation = &comp.table[p].1;
                        proof {
                            // the drawn threshold lies in the live range, so the
                            // selected continuation has strictly positive weight
                            crate::language::lemma_find_is_entry(self.raw@, pk);
                            assert(crate::rules::sorted_keys(t@));
                            crate::language::lemma_live_selection(
                                *comp,
                                t@,
                                p as int,
                                r as int,
                            );
                            if rules_valid(self.raw@) {
                                crate::language::lemma_table_value_is_key(*comp, t@, p as int);
                                let j0 = choose|j0: int|
                                    0 <= j0 < self.raw@.len() && (#[trigger] self.raw@[j0]).0@
                                        == pk && self.raw@[j0].1 == t;
                                assert(crate::verification::entry_ok(
                                    ext_alphabet(crate::verification::spec_alphabet(self.raw@)),
                                    self.raw@[j0],
                                ));
                                let jt = choose|jt: int|
                                    0 <= jt < t@.len() && (#[trigger] t@[jt]).0@
                                        == raw_continuation@;
                                assert(key_ok(ext_alphabet(self.alphabet@), t@[jt].0@));
                                assert forall|i: int| 0 <= i < raw_continuation@.len() implies
                                    self.alphabet@.contains(#[trigger] raw_continuation@[i])
                                    || raw_continuation@[i] == '_' || raw_continuation@[i]
                                    == ' ' by {
                                    let al = ext_alphabet(self.alphabet@);
                                    assert(al.contains(raw_continuation@[i]));
                                    let ix = choose|ix: int|
                                        0 <= ix < al.len() && al[ix] == raw_continuation@[i];
                                    if ix < self.alphabet@.len() {
                                        assert(self.alphabet@[ix] == raw_continuation@[i]);
                                    }
                                }
                            }
                        }
                        let has_wildcard = str_contains_char(raw_continuation.as_str(), '_');
                        if has_wildcard && self.find_wildcard_resolution(
                            raw_continuation.as_str(),
                            &comp.table,
                        ).is_none() {
                            // every substitution collides: the walk is
                            // stalled on this pattern
                            l = self.max;
                        } else {
                        let continuation: String = if has_wildcard {
                            self.replace_wildcards(rng, raw_continuation.as_str(), &comp.table)
                        } else {
                            raw_continuation.clone()
                        };
                        proof {
                            if rules_valid(self.raw@) {
                                assert forall|i: int| 0 <= i < continuation@.len() implies
                                    word_char_ok(*self, #[trigger] continuation@[i]) by {
                                    assert(self.alphabet@.contains(continuation@[i])
                                        || continuation@[i] == ' ');
                                }
                            }
                        }
                        let ghost cur_pre = current@;
                        current.append(continuation.as_str());
                        proof {
                            assert(current@ == cur_pre + continuation@);
                            if rules_valid(self.raw@) {
                                assert forall|i: int| 1 <= i < current@.len() implies word_char_ok(
                                    *self,
                                    #[trigger] current@[i],
                                ) by {
                                    if i < cur_pre.len() {
                                        assert(current@[i] == cur_pre[i]);
                                    } else {
                                        assert(current@[i] == continuation@[i - cur_pre.len()]);
                                    }
                                }
                            }
                            // the grown word gains one well-selected segment
                            if continuation@.len() == 0 {
                                assert(current@ =~= cur_pre);
                            } else {
                                assert(segment_ok(*self, t@, *comp, continuation@)) by {
                                    let j = choose|j: int|
                                        0 <= j < t@.len() && (#[trigger] t@[j]).0@
                                            == comp.table@[p as int].1@ && t@[j].1 > 0;
                                    assert(t@[j].0@ == raw_continuation@ && t@[j].1 > 0);
                                    if has_wildcard {
                                        let ch = choose|ch: char|
                                            self.alphabet@.contains(ch) && continuation@
                                                == #[trigger] replace_spec(
                                                raw_continuation@,
                                                '_',
                                                ch,
                                            );
                                        assert(self.alphabet@.contains(ch) && continuation@
                                            == replace_spec(t@[j].0@, '_', ch));
                                    } else {
                                        assert(continuation@ == raw_continuation@);
                                    }
                                }
                                assert(suffix(cur_pre, k as int) == pk);
                                assert(step_ok(*self, cur_pre, continuation@));
                                lemma_grown_step(*self, cur_pre, continuation@);
                                assert(grown(*self, current@));
                            }
                        }
                        let len = current.as_str().unicode_len();
                        if len >= self.min && len <= self.max {
                            let closeness = if len < self.avg {
                                inverse_lerp(self.min, self.avg, len)
                            } else {
                                let il = inverse_lerp(self.avg, self.max, len);
                                Frac { num: il.den - il.num, den: il.den }
                            };
                            let value = score_of(closeness, comp.termination_weight, comp.last);
                            proof {
                                assert(candidate_ok(*self, current@));
                            }
                            candidates.push((value, current.clone()));
                        }
                        let clen = continuation.as_str().unicode_len();
                        if clen == 0 {
                            // an empty continuation makes no progress: the
                            // walk is stalled
                            l = self.max;
                        } else if clen >= self.max - l {
                            l = self.max;
                        } else {
                            l = l + clen;
                        }
                        }
                    }
                },
            }
        }
        let nc = candidates.len();
        if nc == 0 {
            return Err("No word found.");
        }
        let mut best: usize = 0;
        let mut bi: usize = 1;
        while bi < nc
            invariant
                best < nc,
                1 <= bi <= nc,
            decreases nc - bi,
        {
            if score_gt(&candidates[bi].0, &candidates[best].0) {
                best = bi;
            }
            bi += 1;
        }
        let w = trim_spaces(candidates[best].1.as_str());
        proof {
            let cand = candidates@[best as int].1@;
            assert(candidate_ok(*self, cand));
            // the leading delimiter is always trimmed away
            assert(trim_spec(cand) == trim_spec(cand.skip(1)));
            lemma_trim_len(cand.skip(1));
        }
        Ok(w)
    }
}

/// Generate the given number of words from a raw rule mapping, joined by
/// single delimiters: verify the rules, compile them, and sample each word;
/// invalid rules report their verification error, and a word on which no
/// candidate was found reports the sampler's failure.
#[verifier::loop_isolation(false)]
pub fn generate_words(rng: &mut rand::rngs::StdRng, amount: u32, rules: &Rules) -> (r: Result<
    String,
    &'static str,
>)
    requires
        crate::rules::rules_wf(rules@),
        crate::language::weights_fit(rules@),
    ensures
        !rules_valid(rules@) ==> (r matches Err(e) && e@ == verify_msg(rules@)),
        rules_valid(rules@) ==> (r matches Err(e) ==> e@ == "No word found."@),
        rules_valid(rules@) && amount == 0 ==> r is Ok,
        r matches Ok(s) ==> rules_valid(rules@) && exists|lang: Language, ws: Seq<Seq<char>>|
            {
                &&& lang.wf()
                &&& lang.raw@ == rules@
                &&& ws.len() == amount
                &&& forall|i: int| 0 <= i < ws.len() ==> word_ok(lang, #[trigger] ws[i])
                &&& s@ == trim_spec(cat_words(ws))
            },
{
    match verify_rules(rules) {
        Ok(()) => {},
        Err(e) => {
            return Err(e);
        },
    }
    let language = Language::new(rules);
    let mut result: String = String::new();
    let ghost mut ws: Seq<Seq<char>> = Seq::empty();
    let mut i: u32 = 0;
    while i < amount
        invariant
            language.wf(),
            language.raw@ == rules@,
            language.alphabet@.len() >= 1,
            i <= amount,
            ws.len() == i as int,
            forall|j: int| 0 <= j < ws.len() ==> word_ok(language, #[trigger] ws[j]),
            result@ == cat_words(ws),
        decreases amount - i,
    {
        let word = match language.generate_word(rng) {
            Ok(w) => w,
            Err(e) => {
                return Err(e);
            },
        };
        result.append(word.as_str());
        push_char(&mut result, ' ');
        proof {
            let ws_pre = ws;
            ws = ws.push(word@);
            assert(ws.take(ws.len() - 1) =~= ws_pre);
            assert(ws.last() == word@);
            assert(cat_words(ws) == cat_words(ws_pre) + word@ + seq![' ']);
            assert(result@ =~= cat_words(ws));
        }
        i += 1;
    }
    let out = trim_spaces(result.as_str());
    Ok(out)
}

} // verus!
