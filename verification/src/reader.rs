//! The corpus extractor: derives a raw rule mapping from natural-language
//! text by normalizing it, deriving the alphabet and word-length envelope,
//! and tallying pattern-to-continuation frequencies over sliding windows.

use vstd::prelude::*;

use crate::rules::assoc_get;
use crate::rules::assoc_set;
use crate::rules::find_str;
use crate::rules::lemma_find_at;
use crate::rules::lemma_find_none;
use crate::rules::lemma_find_update;
use crate::rules::rules_wf;
use crate::rules::sorted_keys;
use crate::rules::Rules;
use crate::rules::Table;
use crate::text::char_is_alphabetic;
use crate::text::char_is_whitespace;
use crate::text::is_alpha;
use crate::text::is_white;
use crate::text::lower_of;
use crate::text::push_char;
use crate::text::str_eq;
use crate::text::to_lowercase;

verus! {

/// The text with every non-alphabetic character blanked to the delimiter.
pub open spec fn blank_non_alpha(s: Seq<char>) -> Seq<char> {
    Seq::new(
        s.len(),
        |i: int|
            if is_alpha(s[i]) {
                s[i]
            } else {
                ' '
            },
    )
}

/// Collapse runs of delimiters over the first `i` characters: word
/// characters are kept, words are joined by single delimiters, and leading
/// and trailing delimiters are dropped.
pub open spec fn filter_fold(m: Seq<char>, i: int) -> Seq<char>
    decreases i,
{
    if i <= 0 {
        Seq::empty()
    } else {
        let prev = filter_fold(m, i - 1);
        let c = m[i - 1];
        if c == ' ' {
            prev
        } else if prev.len() > 0 && i >= 2 && m[i - 2] == ' ' {
            prev + seq![' ', c]
        } else {
            prev.push(c)
        }
    }
}

/// The normalized form of a corpus text: lowercased, non-alphabetic
/// characters blanked, delimiter runs collapsed, trimmed.
pub open spec fn filter_spec(text: Seq<char>) -> Seq<char> {
    let m = blank_non_alpha(lower_of(text));
    filter_fold(m, m.len() as int)
}

/// Filter a corpus text: lowercase it, replace every non-alphabetic
/// character with the delimiter, and collapse whitespace runs so words are
/// separated by single delimiters.
pub fn filter_string(text: &str) -> (r: String)
    ensures
        r@ == filter_spec(text@),
{
    let lowered = to_lowercase(text);
    let ghost m = blank_non_alpha(lowered@);
    let len = lowered.as_str().unicode_len();
    let mut out = String::new();
    let mut prev_space = true;
    let mut i: usize = 0;
    while i < len
        invariant
            i <= len,
            len == lowered@.len(),
            m == blank_non_alpha(lowered@),
            out@ == filter_fold(m, i as int),
            prev_space == (i == 0 || m[i as int - 1] == ' '),
        decreases len - i,
    {
        let c = lowered.as_str().get_char(i);
        let a = if char_is_alphabetic(c) {
            c
        } else {
            ' '
        };
        proof {
            assert(m[i as int] == a);
        }
        if a != ' ' {
            if prev_space && out.as_str().unicode_len() > 0 {
                push_char(&mut out, ' ');
            }
            push_char(&mut out, a);
            proof {
                if prev_space && filter_fold(m, i as int).len() > 0 {
                    assert(out@ =~= filter_fold(m, i as int) + seq![' ', a]);
                }
                assert(out@ == filter_fold(m, i as int + 1));
            }
            prev_space = false;
        } else {
            prev_space = true;
        }
        i += 1;
    }
    out
}

/// The words of a text, split on whitespace, as a running fold: the words
/// completed among the first `i` characters, and the unfinished run.
pub open spec fn words_state(s: Seq<char>, i: int) -> (Seq<Seq<char>>, Seq<char>)
    decreases i,
{
    if i <= 0 {
        (Seq::empty(), Seq::empty())
    } else {
        let (ws, cur) = words_state(s, i - 1);
        if is_white(s[i - 1]) {
            if cur.len() > 0 {
                (ws.push(cur), Seq::empty())
            } else {
                (ws, Seq::empty())
            }
        } else {
            (ws, cur.push(s[i - 1]))
        }
    }
}

/// The whitespace-delimited words of a text.
pub open spec fn white_words(s: Seq<char>) -> Seq<Seq<char>> {
    let (ws, cur) = words_state(s, s.len() as int);
    if cur.len() > 0 {
        ws.push(cur)
    } else {
        ws
    }
}

/// Sum of the word lengths.
pub open spec fn sum_lens(ws: Seq<Seq<char>>) -> int
    decreases ws.len(),
{
    if ws.len() == 0 {
        0
    } else {
        sum_lens(ws.drop_last()) + ws.last().len()
    }
}

/// Least word length; 0 for no words.
pub open spec fn min_lens(ws: Seq<Seq<char>>) -> int
    decreases ws.len(),
{
    if ws.len() == 0 {
        0
    } else if ws.len() == 1 {
        ws[0].len() as int
    } else if min_lens(ws.drop_last()) <= ws.last().len() {
        min_lens(ws.drop_last())
    } else {
        ws.last().len() as int
    }
}

/// Greatest word length; 0 for no words.
pub open spec fn max_lens(ws: Seq<Seq<char>>) -> int
    decreases ws.len(),
{
    if ws.len() == 0 {
        0
    } else if ws.len() == 1 {
        ws[0].len() as int
    } else if max_lens(ws.drop_last()) >= ws.last().len() {
        max_lens(ws.drop_last())
    } else {
        ws.last().len() as int
    }
}

/// Every word of the running fold fits inside the prefix it came from.
proof fn lemma_words_state_bounds(s: Seq<char>, i: int)
    requires
        0 <= i <= s.len(),
    ensures
        words_state(s, i).1.len() <= i,
        forall|a: int|
            0 <= a < words_state(s, i).0.len() ==> 0 < (#[trigger] words_state(s, i).0[a]).len()
                <= i,
    decreases i,
{
    if i > 0 {
        lemma_words_state_bounds(s, i - 1);
        let (ws, cur) = words_state(s, i - 1);
        if is_white(s[i - 1]) && cur.len() > 0 {
            assert forall|a: int|
                0 <= a < words_state(s, i).0.len() implies 0 < (#[trigger] words_state(
                s,
                i,
            ).0[a]).len() <= i by {
                if a < ws.len() {
                    assert(words_state(s, i).0[a] == ws[a]);
                } else {
                    assert(words_state(s, i).0[a] == cur);
                }
            }
        }
    }
}

/// A character that is not whitespace puts at least one word in the text.
pub proof fn lemma_nonwhite_gives_word(s: Seq<char>, i: int)
    requires
        0 <= i < s.len(),
        !is_white(s[i]),
    ensures
        white_words(s).len() > 0,
{
    lemma_words_state_nonempty(s, i + 1, s.len() as int);
}

/// Once a word character was seen, the fold never returns to the empty
/// state.
proof fn lemma_words_state_nonempty(s: Seq<char>, i: int, j: int)
    requires
        1 <= i <= j <= s.len(),
        !is_white(s[i - 1]),
    ensures
        words_state(s, j).0.len() > 0 || words_state(s, j).1.len() > 0,
        white_words(s).len() > 0 || j < s.len(),
    decreases j,
{
    if j > i {
        lemma_words_state_nonempty(s, i, j - 1);
    }
}

/// Calculate the least, average (rounded down) and greatest word length of
/// all whitespace-delimited words in the text.
#[verifier::loop_isolation(false)]
pub fn get_word_lengths(text: &str) -> (r: (u32, u32, u32))
    requires
        white_words(text@).len() > 0,
        text@.len() <= u32::MAX,
    ensures
        r.0 as int == min_lens(white_words(text@)),
        r.1 as int == sum_lens(white_words(text@)) / white_words(text@).len() as int,
        r.2 as int == max_lens(white_words(text@)),
{
    let len = text.unicode_len();
    let mut mn: u64 = 0;
    let mut mx: u64 = 0;
    let mut sum: u64 = 0;
    let mut cnt: u64 = 0;
    let mut cur: u64 = 0;
    let mut i: usize = 0;
    while i < len
        invariant
            i <= len,
            cur as int == words_state(text@, i as int).1.len(),
            cnt as int == words_state(text@, i as int).0.len(),
            sum as int == sum_lens(words_state(text@, i as int).0),
            cnt > 0 ==> mn as int == min_lens(words_state(text@, i as int).0),
            cnt > 0 ==> mx as int == max_lens(words_state(text@, i as int).0),
            cnt == 0 ==> mn == 0 && mx == 0 && sum == 0,
            cnt <= i,
            sum as int <= cnt as int * len as int,
            mx <= len,
            mn <= len,
        decreases len - i,
    {
        let c = text.get_char(i);
        let ghost ws_pre = words_state(text@, i as int).0;
        let ghost cur_pre = words_state(text@, i as int).1;
        proof {
            lemma_words_state_bounds(text@, i as int);
            lemma_words_state_bounds(text@, i as int + 1);
        }
        if char_is_whitespace(c) {
            if cur > 0 {
                proof {
                    assert(words_state(text@, i as int + 1).0 == ws_pre.push(cur_pre));
                    assert(ws_pre.push(cur_pre).drop_last() =~= ws_pre);
                    assert(sum as int + cur as int <= (cnt as int + 1) * len as int)
                        by (nonlinear_arith)
                        requires
                            sum as int <= cnt as int * len as int,
                            cur <= len,
                    ;
                    assert(((cnt as int + 1) * (len as int)) < 0x1_0000_0000 * 0x1_0000_0000)
                        by (nonlinear_arith)
                        requires
                            cnt as int + 1 <= 0x1_0000_0000,
                            (len as int) < 0x1_0000_0000,
                            cnt >= 0,
                            len as int >= 0,
                    ;
                }
                sum = sum + cur;
                if cnt == 0 {
                    mn = cur;
                    mx = cur;
                } else {
                    if cur < mn {
                        mn = cur;
                    }
                    if cur > mx {
                        mx = cur;
                    }
                }
                cnt = cnt + 1;
                cur = 0;
            }
        } else {
            cur = cur + 1;
        }
        i += 1;
    }
    let ghost ws_all = words_state(text@, len as int).0;
    let ghost cur_all = words_state(text@, len as int).1;
    if cur > 0 {
        proof {
            lemma_words_state_bounds(text@, len as int);
            assert(white_words(text@) == ws_all.push(cur_all));
            assert(ws_all.push(cur_all).drop_last() =~= ws_all);
            assert(sum as int + cur as int <= (cnt as int + 1) * len as int) by (nonlinear_arith)
                requires
                    sum as int <= cnt as int * len as int,
                    cur <= len,
            ;
            assert(((cnt as int + 1) * (len as int)) < 0x1_0000_0000 * 0x1_0000_0000)
                by (nonlinear_arith)
                requires
                    cnt as int + 1 <= 0x1_0000_0000,
                    (len as int) < 0x1_0000_0000,
                    cnt >= 0,
                    len as int >= 0,
            ;
        }
        sum = sum + cur;
        if cnt == 0 {
            mn = cur;
            mx = cur;
        } else {
            if cur < mn {
                mn = cur;
            }
            if cur > mx {
                mx = cur;
            }
        }
        cnt = cnt + 1;
    } else {
        proof {
            assert(white_words(text@) == ws_all);
        }
    }
    let avg = sum / cnt;
    proof {
        let c = cnt as int;
        let s = sum as int;
        let l = len as int;
        assert(c * l == l * c) by (nonlinear_arith);
        vstd::arithmetic::div_mod::lemma_div_is_ordered(s, l * c, c);
        vstd::arithmetic::div_mod::lemma_div_by_multiple(l, c);
        assert(avg as int <= l);
    }
    (mn as u32, avg as u32, mx as u32)
}

} // verus!

verus! {

/// A character inserted into a sorted duplicate-free character sequence,
/// ordered by code point.
pub open spec fn insert_char_sorted(s: Seq<char>, c: char) -> Seq<char>
    decreases s.len(),
{
    if s.len() == 0 {
        seq![c]
    } else if (c as u32) < (s[0] as u32) {
        seq![c] + s
    } else if c == s[0] {
        s
    } else {
        seq![s[0]] + insert_char_sorted(s.skip(1), c)
    }
}

/// The distinct non-whitespace characters of the first `i` characters of a
/// text, sorted by code point.
pub open spec fn alphabet_fold(s: Seq<char>, i: int) -> Seq<char>
    decreases i,
{
    if i <= 0 {
        Seq::empty()
    } else {
        let prev = alphabet_fold(s, i - 1);
        if is_white(s[i - 1]) {
            prev
        } else {
            insert_char_sorted(prev, s[i - 1])
        }
    }
}

/// Insert a character into a sorted duplicate-free character vector.
#[verifier::loop_isolation(false)]
fn insert_char_exec(v: &mut Vec<char>, c: char)
    ensures
        final(v)@ == insert_char_sorted(old(v)@, c),
{
    let n = v.len();
    let mut p: usize = 0;
    let ghost s = v@;
    proof {
        assert(s.skip(0) =~= s);
        assert(s.take(0) + insert_char_sorted(s.skip(0), c) =~= insert_char_sorted(s, c));
    }
    while p < n
        invariant
            p <= n,
            v@ == s,
            insert_char_sorted(s, c) == s.take(p as int) + insert_char_sorted(
                s.skip(p as int),
                c,
            ),
        decreases n - p,
    {
        let x = v[p];
        proof {
            assert(s.skip(p as int)[0] == s[p as int]);
        }
        if (c as u32) < (x as u32) {
            v.insert(p, c);
            proof {
                assert(insert_char_sorted(s.skip(p as int), c) == seq![c] + s.skip(p as int));
                assert(v@ =~= s.take(p as int) + (seq![c] + s.skip(p as int)));
            }
            return ;
        }
        if c == x {
            proof {
                assert(insert_char_sorted(s.skip(p as int), c) == s.skip(p as int));
                assert(v@ =~= s.take(p as int) + s.skip(p as int));
            }
            return ;
        }
        proof {
            assert(insert_char_sorted(s.skip(p as int), c) == seq![s[p as int]]
                + insert_char_sorted(s.skip(p as int).skip(1), c));
            assert(s.skip(p as int).skip(1) =~= s.skip(p as int + 1));
            assert(s.take(p as int + 1) =~= s.take(p as int) + seq![s[p as int]]);
            assert(s.take(p as int) + insert_char_sorted(s.skip(p as int), c) =~= s.take(
                p as int + 1,
            ) + insert_char_sorted(s.skip(p as int + 1), c));
        }
        p += 1;
    }
    v.push(c);
    proof {
        assert(s.skip(n as int) =~= Seq::<char>::empty());
        assert(insert_char_sorted(s.skip(n as int), c) == seq![c]);
        assert(v@ =~= s.take(n as int) + seq![c]);
    }
}

/// Get all the characters used in the text, each once, sorted by code
/// point, whitespace excluded.
#[verifier::loop_isolation(false)]
pub fn get_alphabet(text: &str) -> (r: String)
    ensures
        r@ == alphabet_fold(text@, text@.len() as int),
{
    let len = text.unicode_len();
    let mut chars: Vec<char> = Vec::new();
    let mut i: usize = 0;
    while i < len
        invariant
            i <= len,
            chars@ == alphabet_fold(text@, i as int),
        decreases len - i,
    {
        let c = text.get_char(i);
        if !char_is_whitespace(c) {
            insert_char_exec(&mut chars, c);
        }
        i += 1;
    }
    let m = chars.len();
    let mut out = String::new();
    let mut j: usize = 0;
    while j < m
        invariant
            j <= m,
            out@ == chars@.take(j as int),
        decreases m - j,
    {
        push_char(&mut out, chars[j]);
        proof {
            assert(out@ =~= chars@.take(j as int + 1));
        }
        j += 1;
    }
    proof {
        assert(chars@.take(m as int) =~= chars@);
    }
    out
}

/// The maximal whitespace-free suffix of a text.
pub open spec fn tail_run(s: Seq<char>) -> Seq<char>
    decreases s.len(),
{
    if s.len() == 0 {
        Seq::empty()
    } else if is_white(s.last()) {
        Seq::empty()
    } else {
        tail_run(s.drop_last()).push(s.last())
    }
}

/// The last word of a pattern, preceded by one delimiter when anything was
/// cut away.
pub open spec fn rpw_spec(s: Seq<char>) -> Seq<char> {
    if tail_run(s).len() == s.len() {
        s
    } else {
        seq![' '] + tail_run(s)
    }
}

/// The whitespace-free suffix that starts right after the last whitespace
/// character is the tail run.
proof fn lemma_tail_run_subrange(s: Seq<char>, j: int)
    requires
        0 <= j <= s.len(),
        j > 0 ==> is_white(s[j - 1]),
        forall|k: int| j <= k < s.len() ==> !is_white(#[trigger] s[k]),
    ensures
        tail_run(s) == s.subrange(j, s.len() as int),
    decreases s.len() - j,
{
    if j == s.len() {
        if s.len() > 0 {
            assert(s.subrange(j, s.len() as int) =~= Seq::<char>::empty());
        } else {
            assert(s.subrange(0, 0) =~= Seq::<char>::empty());
        }
    } else {
        assert(!is_white(s.last()));
        lemma_tail_run_subrange(s.drop_last(), j);
        assert(s.drop_last().subrange(j, s.len() - 1).push(s.last()) =~= s.subrange(
            j,
            s.len() as int,
        ));
    }
}

/// Remove any preceding words of a pattern: keep only the trailing run of
/// non-whitespace characters, preceded by a single delimiter when the
/// pattern held more.
#[verifier::loop_isolation(false)]
pub fn remove_preceding_words(pattern: &str) -> (r: String)
    ensures
        r@ == rpw_spec(pattern@),
{
    let len = pattern.unicode_len();
    let mut j: usize = len;
    while j > 0
        invariant
            j <= len,
            len == pattern@.len(),
            forall|k: int| j <= k < len ==> !is_white(#[trigger] pattern@[k]),
        decreases j,
    {
        let c = pattern.get_char(j - 1);
        if char_is_whitespace(c) {
            break ;
        }
        j -= 1;
    }
    proof {
        lemma_tail_run_subrange(pattern@, j as int);
    }
    if j == 0 {
        proof {
            assert(pattern@.subrange(0, len as int) =~= pattern@);
        }
        pattern.to_owned()
    } else {
        let mut out = " ".to_owned();
        proof {
            reveal_strlit(" ");
        }
        out.append(pattern.substring_char(j, len));
        proof {
            assert(out@ =~= seq![' '] + tail_run(pattern@));
            assert(tail_run(pattern@).len() < pattern@.len());
        }
        out
    }
}

/// The sliding windows of the given character width over a text.
pub open spec fn windows_spec(s: Seq<char>, d: int) -> Seq<Seq<char>> {
    Seq::new(
        if s.len() >= d {
            (s.len() - d + 1) as nat
        } else {
            0
        },
        |i: int| s.subrange(i, i + d),
    )
}

/// All the windows of the given character width over a text, in order.
#[verifier::loop_isolation(false)]
pub fn char_windows(src: &str, win_size: usize) -> (r: Vec<String>)
    requires
        win_size >= 1,
    ensures
        r@.len() == windows_spec(src@, win_size as int).len(),
        forall|i: int|
            0 <= i < r@.len() ==> (#[trigger] r@[i])@ == windows_spec(src@, win_size as int)[i],
{
    let len = src.unicode_len();
    let mut out: Vec<String> = Vec::new();
    if len < win_size {
        return out;
    }
    let n = len - win_size + 1;
    let mut i: usize = 0;
    while i < n
        invariant
            i <= n,
            out@.len() == i,
            forall|j: int|
                0 <= j < i ==> (#[trigger] out@[j])@ == src@.subrange(j, j + win_size as int),
        decreases n - i,
    {
        out.push(src.substring_char(i, i + win_size).to_owned());
        i += 1;
    }
    out
}

} // verus!

verus! {

/// The weight a rule map holds for a pattern and continuation, 0 when
/// absent.
pub open spec fn pair_weight(
    m: Map<Seq<char>, Map<Seq<char>, int>>,
    p: Seq<char>,
    c: Seq<char>,
) -> int {
    if m.contains_key(p) && m[p].contains_key(c) {
        m[p][c]
    } else {
        0
    }
}

/// One observed pattern-to-continuation step tallied into the rule map:
/// increment its weight, or register the pattern with a weight-0
/// termination slot and the continuation at weight 1. An empty pattern is
/// never registered.
pub open spec fn tally_pair(
    m: Map<Seq<char>, Map<Seq<char>, int>>,
    pattern: Seq<char>,
    cont: Seq<char>,
) -> Map<Seq<char>, Map<Seq<char>, int>> {
    if m.contains_key(pattern) {
        let inner = m[pattern];
        let w = if inner.contains_key(cont) {
            inner[cont]
        } else {
            0
        };
        m.insert(pattern, inner.insert(cont, w + 1))
    } else if pattern.len() > 0 {
        m.insert(pattern, map![" "@ => 0int].insert(cont, 1int))
    } else {
        m
    }
}

/// The tally after walking the windows from position `i` on, carrying the
/// pattern that entered that position: a pattern shorter than the depth is
/// skipped, every other one is tallied with the next window's last
/// character, and the pattern then becomes the window's last word.
pub open spec fn tally_windows(
    m: Map<Seq<char>, Map<Seq<char>, int>>,
    ws: Seq<Seq<char>>,
    pattern: Seq<char>,
    d: int,
    i: int,
) -> Map<Seq<char>, Map<Seq<char>, int>>
    decreases ws.len() - i,
{
    if i < 0 || i >= ws.len() {
        m
    } else {
        let w = ws[i];
        let next = rpw_spec(w);
        if pattern.len() < d {
            tally_windows(m, ws, next, d, i + 1)
        } else {
            tally_windows(tally_pair(m, pattern, seq![w.last()]), ws, next, d, i + 1)
        }
    }
}

/// The tally of one window width over the text.
pub open spec fn tally_depth(
    m: Map<Seq<char>, Map<Seq<char>, int>>,
    s: Seq<char>,
    d: int,
) -> Map<Seq<char>, Map<Seq<char>, int>> {
    let ws = windows_spec(s, d);
    if ws.len() == 0 {
        m
    } else {
        tally_windows(m, ws, ws[0], d, 1)
    }
}

/// The tally of every window width from 1 up to the depth.
pub open spec fn tally_all(s: Seq<char>, d: int) -> Map<Seq<char>, Map<Seq<char>, int>>
    decreases d,
{
    if d <= 0 {
        Map::empty()
    } else {
        tally_depth(tally_all(s, d - 1), s, d)
    }
}

/// A continuation table seen as a map from continuation to weight.
pub open spec fn table_map(tv: Seq<(String, u32)>) -> Map<Seq<char>, int> {
    Map::new(|k: Seq<char>| find_str(tv, k) is Some, |k: Seq<char>| find_str(tv, k).unwrap() as int)
}

/// A raw rule mapping seen as a map from key to continuation map.
pub open spec fn rules_map(rv: Seq<(String, Table)>) -> Map<Seq<char>, Map<Seq<char>, int>> {
    Map::new(
        |k: Seq<char>| find_str(rv, k) is Some,
        |k: Seq<char>| table_map(find_str(rv, k).unwrap()@),
    )
}

/// The corpus text padded with the start and end delimiters.
pub open spec fn norm_spec(text: Seq<char>) -> Seq<char> {
    seq![' '] + filter_spec(text) + seq![' ']
}

/// The full rule mapping extracted from a corpus text: the tally of every
/// window width, the alphabet entry, and the word-length envelope.
pub open spec fn extract_spec(text: Seq<char>, depth: int) -> Map<Seq<char>, Map<Seq<char>, int>> {
    let norm = norm_spec(text);
    let words = white_words(norm);
    tally_all(norm, depth).insert(
        "alphabet"@,
        map![alphabet_fold(norm, norm.len() as int) => 0int],
    ).insert(
        "word_length"@,
        map!["avg"@ => sum_lens(words) / words.len() as int].insert("max"@, max_lens(words)).insert(
            "min"@,
            min_lens(words),
        ),
    )
}

/// Tally one pattern-to-continuation observation into the rule mapping.
#[verifier::loop_isolation(false)]
fn rules_tally(rules: &mut Rules, pattern: &str, cont: &str)
    requires
        rules_wf(old(rules)@),
        pair_weight(rules_map(old(rules)@), pattern@, cont@) < u32::MAX,
    ensures
        rules_wf(final(rules)@),
        rules_map(final(rules)@) == tally_pair(rules_map(old(rules)@), pattern@, cont@),
{
    let ghost m0 = rules_map(old(rules)@);
    let ghost s = rules@;
    let n = rules.len();
    let mut idx: usize = 0;
    while idx < n && !str_eq(rules[idx].0.as_str(), pattern)
        invariant
            idx <= n,
            forall|j: int| 0 <= j < idx ==> (#[trigger] s[j].0@) != pattern@,
        decreases n - idx,
    {
        idx += 1;
    }
    if idx < n {
        proof {
            lemma_find_at(s, pattern@, idx as int);
        }
        let mut entry = rules.remove(idx);
        let ghost inner0 = entry.1@;
        let w = match assoc_get(&entry.1, cont) {
            Some(v) => *v,
            None => 0,
        };
        proof {
            assert(pair_weight(m0, pattern@, cont@) == w as int);
        }
        assoc_set(&mut entry.1, cont, w + 1);
        let ghost inner1 = entry.1@;
        rules.insert(idx, entry);
        proof {
            assert(rules@ =~= s.update(idx as int, (s[idx as int].0, rules@[idx as int].1)));
            let pair = (s[idx as int].0, rules@[idx as int].1);
            assert(pair.1@ == inner1);
            assert forall|i: int| 0 <= i < rules@.len() implies sorted_keys(
                #[trigger] rules@[i].1@,
            ) by {
                if i != idx {
                    assert(rules@[i] == s[i]);
                }
            }
            assert forall|k2: Seq<char>|
                #![auto]
                find_str(rules@, k2) == (if k2 == pattern@ {
                    Some(pair.1)
                } else {
                    find_str(s, k2)
                }) by {
                lemma_find_update(s, idx as int, pair, k2);
            }
            assert(sorted_keys(rules@)) by {
                lemma_find_update(s, idx as int, pair, pattern@);
            }
            assert(table_map(inner1) =~= table_map(inner0).insert(cont@, w as int + 1));
            assert(rules_map(rules@) =~~= tally_pair(m0, pattern@, cont@));
        }
    } else {
        proof {
            lemma_find_none(s, pattern@);
            assert(!m0.contains_key(pattern@));
        }
        if pattern.unicode_len() > 0 {
            let mut t: Table = Vec::new();
            assoc_set(&mut t, " ", 0);
            assoc_set(&mut t, cont, 1);
            let ghost tv = t@;
            proof {
                assert(table_map(tv) =~= map![" "@ => 0int].insert(cont@, 1int));
            }
            assoc_set(rules, pattern, t);
            proof {
                assert forall|i: int| 0 <= i < rules@.len() implies sorted_keys(
                    #[trigger] rules@[i].1@,
                ) by {
                    if rules@[i].1 == t {
                        assert(rules@[i].1@ == tv);
                    } else {
                        let j = choose|j: int| 0 <= j < s.len() && rules@[i] == s[j];
                        assert(sorted_keys(s[j].1@));
                    }
                }
                assert(rules_map(rules@) =~~= tally_pair(m0, pattern@, cont@));
            }
        }
    }
}

/// Create the rules for a language from a text: tally every window width up
/// to the depth over the normalized text, then add the alphabet and the
/// word-length envelope.
#[verifier::loop_isolation(false)]
pub fn rules_from_string(text: &str, depth: usize) -> (r: Rules)
    requires
        filter_spec(text@).len() >= 1,
        filter_spec(text@).len() + 2 <= u32::MAX,
        depth as int <= filter_spec(text@).len() + 2,
        depth as int * (filter_spec(text@).len() + 2) < u32::MAX,
        white_words(norm_spec(text@)).len() > 0,
    ensures
        rules_wf(r@),
        rules_map(r@) == extract_spec(text@, depth as int),
{
    let filtered = filter_string(text);
    let mut norm = " ".to_owned();
    norm.append(filtered.as_str());
    push_char(&mut norm, ' ');
    proof {
        reveal_strlit(" ");
        assert(norm@ =~= norm_spec(text@));
    }
    let norm_len = norm.as_str().unicode_len();
    let ghost nl = norm_len as int;
    let mut result: Rules = Vec::new();
    let mut d: usize = 1;
    proof {
        assert(depth as int <= depth as int * (filter_spec(text@).len() + 2)) by (nonlinear_arith)
            requires
                depth as int >= 0,
                filter_spec(text@).len() >= 1,
        ;
        assert(rules_map(result@) =~= tally_all(norm@, 0));
        assert(forall|p: Seq<char>, c: Seq<char>|
            pair_weight(rules_map(result@), p, c) == 0);
    }
    while d <= depth
        invariant
            1 <= d,
            d <= depth + 1,
            rules_wf(result@),
            rules_map(result@) == tally_all(norm@, d as int - 1),
            forall|p: Seq<char>, c: Seq<char>|
                pair_weight(#[trigger] rules_map(result@), p, c)
                    <= (d as int - 1) * nl,
        decreases depth + 1 - d,
    {
        let windows = char_windows(norm.as_str(), d);
        let wn = windows.len();
        proof {
            assert(windows_spec(norm@, d as int).len() >= 1);
        }
        let ghost ws = windows_spec(norm@, d as int);
        let ghost m0 = tally_all(norm@, d as int - 1);
        let mut pattern: String = windows[0].clone();
        let mut i: usize = 1;
        while i < wn
            invariant
                1 <= i <= wn,
                rules_wf(result@),
                pattern@ == (if i == 1 {
                    ws[0]
                } else {
                    rpw_spec(ws[i - 1])
                }),
                tally_windows(m0, ws, ws[0], d as int, 1) == tally_windows(
                    rules_map(result@),
                    ws,
                    pattern@,
                    d as int,
                    i as int,
                ),
                forall|p: Seq<char>, c: Seq<char>|
                    pair_weight(#[trigger] rules_map(result@), p, c)
                        <= (d as int - 1) * nl + i as int - 1,
            decreases wn - i,
        {
            let ghost mpre = rules_map(result@);
            let plen = pattern.as_str().unicode_len();
            if plen >= d {
                let window = &windows[i];
                let wlen = window.as_str().unicode_len();
                proof {
                    assert(windows@[i as int]@ == ws[i as int]);
                    assert(ws[i as int].len() == d as int);
                }
                let cont = crate::text::string_of_char(window.as_str().get_char(wlen - 1));
                proof {
                    assert(cont@ =~= seq![ws[i as int].last()]);
                    assert(pair_weight(mpre, pattern@, cont@) <= (d as int - 1) * nl + i - 1);
                    assert((d as int - 1) * nl + i <= depth as int * nl) by (nonlinear_arith)
                        requires
                            d as int <= depth as int,
                            i as int <= nl - d as int + 1,
                            d as int >= 1,
                            nl >= 1,
                    ;
                }
                rules_tally(&mut result, pattern.as_str(), cont.as_str());
                proof {
                    assert forall|p: Seq<char>, c: Seq<char>|
                        pair_weight(#[trigger] rules_map(result@), p, c)
                            <= (d as int - 1) * nl + i as int by {
                        assert(pair_weight(mpre, p, c) <= (d as int - 1) * nl + i as int - 1);
                    }
                }
            } else {
                proof {
                    assert(rules_map(result@) == mpre);
                }
            }
            let next = remove_preceding_words(windows[i].as_str());
            pattern = next;
            proof {
                assert(pattern@ == rpw_spec(ws[i as int]));
            }
            i += 1;
        }
        proof {
            assert(tally_windows(rules_map(result@), ws, pattern@, d as int, wn as int)
                == rules_map(result@));
            assert(rules_map(result@) == tally_depth(m0, norm@, d as int));
            assert(rules_map(result@) == tally_all(norm@, d as int));
            assert forall|p: Seq<char>, c: Seq<char>|
                pair_weight(#[trigger] rules_map(result@), p, c) <= (d as int) * nl by {
                assert(pair_weight(rules_map(result@), p, c) <= (d as int - 1) * nl + wn - 1);
                assert((d as int - 1) * nl + nl == d as int * nl) by (nonlinear_arith);
            }
        }
        d += 1;
    }
    let alphabet = get_alphabet(norm.as_str());
    let wl = get_word_lengths(norm.as_str());
    let mut at: Table = Vec::new();
    assoc_set(&mut at, alphabet.as_str(), 0);
    let ghost atv = at@;
    let ghost before_alpha = rules_map(result@);
    proof {
        assert(table_map(atv) =~= map![alphabet_fold(norm@, nl) => 0int]);
    }
    assoc_set(&mut result, "alphabet", at);
    proof {
        assert(rules_map(result@) =~~= before_alpha.insert(
            "alphabet"@,
            map![alphabet_fold(norm@, nl) => 0int],
        ));
    }
    let mut wt: Table = Vec::new();
    assoc_set(&mut wt, "avg", wl.1);
    assoc_set(&mut wt, "max", wl.2);
    assoc_set(&mut wt, "min", wl.0);
    let ghost wtv = wt@;
    let ghost before_wl = rules_map(result@);
    let ghost words = white_words(norm@);
    proof {
        assert(table_map(wtv) =~= map!["avg"@ => sum_lens(words) / words.len() as int].insert(
            "max"@,
            max_lens(words),
        ).insert("min"@, min_lens(words)));
    }
    assoc_set(&mut result, "word_length", wt);
    proof {
        assert(rules_map(result@) =~~= before_wl.insert("word_length"@, table_map(wtv)));
        assert(rules_map(result@) =~~= extract_spec(text@, depth as int));
    }
    result
}

/// Extract rules from a text, checking first that the text leaves any words
/// after normalization and that the depth and tallies stay within bounds;
/// reports `None` when they do not.
#[verifier::loop_isolation(false)]
pub fn extract_rules(text: &str, depth: usize) -> (r: Option<Rules>)
    ensures
        r matches Some(rules) ==> rules_wf(rules@) && rules_map(rules@) == extract_spec(
            text@,
            depth as int,
        ),
        r is Some <==> {
            &&& filter_spec(text@).len() >= 1
            &&& filter_spec(text@).len() + 2 <= u32::MAX
            &&& depth as int <= filter_spec(text@).len() + 2
            &&& depth as int * (filter_spec(text@).len() + 2) < u32::MAX
            &&& exists|i: int|
                0 <= i < filter_spec(text@).len() && !is_white(#[trigger] filter_spec(text@)[i])
        },
{
    let filtered = filter_string(text);
    let flen = filtered.as_str().unicode_len();
    if flen < 1 {
        return None;
    }
    if flen > (u32::MAX - 2) as usize {
        return None;
    }
    if depth > flen + 2 {
        return None;
    }
    proof {
        assert((depth as u64) as int * ((flen as u64) as int + 2) < 0x1_0000_0000 * 0x1_0000_0000)
            by (nonlinear_arith)
            requires
                (depth as u64) as int <= (flen as u64) as int + 2,
                (flen as u64) as int + 2 < 0x1_0000_0000,
                depth >= 0,
                flen >= 0,
        ;
    }
    if depth as u64 * (flen as u64 + 2) >= u32::MAX as u64 {
        return None;
    }
    let mut found_word = false;
    let mut i: usize = 0;
    while i < flen && !found_word
        invariant
            i <= flen,
            flen == filter_spec(text@).len(),
            found_word ==> white_words(norm_spec(text@)).len() > 0,
            found_word ==> exists|j: int|
                0 <= j < flen && !is_white(#[trigger] filter_spec(text@)[j]),
            !found_word ==> forall|j: int|
                0 <= j < i ==> is_white(#[trigger] filter_spec(text@)[j]),
        decreases flen - i,
    {
        let c = filtered.as_str().get_char(i);
        if !char_is_whitespace(c) {
            proof {
                assert(norm_spec(text@).len() == filter_spec(text@).len() + 2);
                assert(norm_spec(text@)[i as int + 1] == filter_spec(text@)[i as int]);
                lemma_nonwhite_gives_word(norm_spec(text@), i as int + 1);
            }
            found_word = true;
        }
        i += 1;
    }
    if !found_word {
        return None;
    }
    Some(rules_from_string(text, depth))
}

} // verus!
