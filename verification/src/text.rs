//! Character and string helpers shared by the whole crate: the lexicographic
//! order used to keep rule tables sorted, delimiter trimming, and thin trusted
//! wrappers around the character classification functions of std.

use vstd::prelude::*;

verus! {

/// Lexicographic order on character sequences, by code point: the order in
/// which a sorted map over strings iterates its keys.
pub open spec fn lex_lt(a: Seq<char>, b: Seq<char>) -> bool
    decreases a.len(),
{
    if b.len() == 0 {
        false
    } else if a.len() == 0 {
        true
    } else if a[0] == b[0] {
        lex_lt(a.skip(1), b.skip(1))
    } else {
        (a[0] as u32) < (b[0] as u32)
    }
}

/// Distinct characters have distinct code points.
pub proof fn lemma_char_cast_injective(x: char, y: char)
    requires
        x != y,
    ensures
        (x as u32) != (y as u32),
{
    if (x as u32) == (y as u32) {
        vstd::utf8::char_u32_cast(x, x as u32);
        vstd::utf8::char_u32_cast(y, y as u32);
    }
}

/// The order is irreflexive.
pub proof fn lemma_lex_irrefl(a: Seq<char>)
    ensures
        !lex_lt(a, a),
    decreases a.len(),
{
    if a.len() > 0 {
        lemma_lex_irrefl(a.skip(1));
    }
}

/// The order is total: distinct sequences compare one way or the other.
pub proof fn lemma_lex_total(a: Seq<char>, b: Seq<char>)
    ensures
        a == b || lex_lt(a, b) || lex_lt(b, a),
    decreases a.len(),
{
    if a.len() == 0 {
        if b.len() == 0 {
            assert(a =~= b);
        }
    } else if b.len() == 0 {
    } else if a[0] == b[0] {
        lemma_lex_total(a.skip(1), b.skip(1));
        if a.skip(1) == b.skip(1) {
            assert(a.skip(1).len() == b.skip(1).len());
            assert(a.len() == b.len());
            assert forall|i: int| 0 <= i < a.len() implies a[i] == b[i] by {
                if i > 0 {
                    assert(a[i] == a.skip(1)[i - 1]);
                    assert(b[i] == b.skip(1)[i - 1]);
                }
            }
            assert(a =~= b);
        }
    } else {
        lemma_char_cast_injective(a[0], b[0]);
    }
}

/// The order is transitive.
pub proof fn lemma_lex_trans(a: Seq<char>, b: Seq<char>, c: Seq<char>)
    requires
        lex_lt(a, b),
        lex_lt(b, c),
    ensures
        lex_lt(a, c),
    decreases a.len(),
{
    if c.len() == 0 || b.len() == 0 || a.len() == 0 {
    } else if a[0] == b[0] && b[0] == c[0] {
        lemma_lex_trans(a.skip(1), b.skip(1), c.skip(1));
    } else if a[0] == b[0] {
        if a[0] == c[0] {
            assert((b[0] as u32) < (c[0] as u32));
        }
    } else if b[0] == c[0] {
        if a[0] == c[0] {
            assert((a[0] as u32) < (b[0] as u32));
        }
    } else {
        if a[0] == c[0] {
            assert((a[0] as u32) < (b[0] as u32));
            assert((b[0] as u32) < (c[0] as u32));
        }
    }
}

/// Comparing two strings decides the lexicographic order on their views.
pub fn str_lt(a: &str, b: &str) -> (r: bool)
    ensures
        r == lex_lt(a@, b@),
    decreases a@.len(),
{
    let alen = a.unicode_len();
    let blen = b.unicode_len();
    if blen == 0 {
        false
    } else if alen == 0 {
        true
    } else {
        let ca = a.get_char(0);
        let cb = b.get_char(0);
        if ca == cb {
            let r = str_lt(a.substring_char(1, alen), b.substring_char(1, blen));
            proof {
                assert(a@.subrange(1, alen as int) =~= a@.skip(1));
                assert(b@.subrange(1, blen as int) =~= b@.skip(1));
            }
            r
        } else {
            (ca as u32) < (cb as u32)
        }
    }
}

/// String equality on views.
pub fn str_eq(a: &str, b: &str) -> (r: bool)
    ensures
        r == (a@ == b@),
    decreases a@.len(),
{
    let alen = a.unicode_len();
    let blen = b.unicode_len();
    if alen != blen {
        proof {
            assert(a@ != b@);
        }
        false
    } else if alen == 0 {
        proof {
            assert(a@ =~= b@);
        }
        true
    } else {
        let ca = a.get_char(0);
        let cb = b.get_char(0);
        if ca == cb {
            let r = str_eq(a.substring_char(1, alen), b.substring_char(1, blen));
            proof {
                assert(a@.subrange(1, alen as int) =~= a@.skip(1));
                assert(b@.subrange(1, blen as int) =~= b@.skip(1));
                if a@.skip(1) == b@.skip(1) {
                    assert forall|i: int| 0 <= i < a@.len() implies a@[i] == b@[i] by {
                        if i > 0 {
                            assert(a@[i] == a@.skip(1)[i - 1]);
                            assert(b@[i] == b@.skip(1)[i - 1]);
                        }
                    }
                    assert(a@ =~= b@);
                } else {
                    assert(a@ != b@);
                }
            }
            r
        } else {
            proof {
                assert(a@[0] != b@[0]);
            }
            false
        }
    }
}

/// Whether a string contains a given character.
pub fn str_contains_char(s: &str, c: char) -> (r: bool)
    ensures
        r == s@.contains(c),
{
    let len = s.unicode_len();
    let mut i: usize = 0;
    while i < len
        invariant
            i <= len,
            len == s@.len(),
            forall|j: int| 0 <= j < i ==> s@[j] != c,
        decreases len - i,
    {
        if s.get_char(i) == c {
            return true;
        }
        i += 1;
    }
    proof {
        assert(!s@.contains(c));
    }
    false
}

/// A one-character string.
pub fn string_of_char(c: char) -> (r: String)
    ensures
        r@ =~= seq![c],
{
    let mut s = String::new();
    push_char(&mut s, c);
    proof {
        assert(s@ =~= seq![c]);
    }
    s
}

/// A string stripped of its leading and trailing delimiter (space) characters.
pub open spec fn trim_spec(s: Seq<char>) -> Seq<char>
    decreases s.len(),
{
    if s.len() == 0 {
        s
    } else if s[0] == ' ' {
        trim_spec(s.skip(1))
    } else if s[s.len() - 1] == ' ' {
        trim_spec(s.take(s.len() - 1))
    } else {
        s
    }
}

/// The trim of a sequence whose spaces all sit outside positions `i..=j` is
/// exactly the subrange `i..=j`.
pub proof fn lemma_trim_subrange(s: Seq<char>, i: int, j: int)
    requires
        0 <= i,
        j < s.len(),
        i <= j,
        s[i] != ' ',
        s[j] != ' ',
        forall|k: int| 0 <= k < i ==> s[k] == ' ',
        forall|k: int| j < k < s.len() ==> s[k] == ' ',
    ensures
        trim_spec(s) == s.subrange(i, j + 1),
    decreases s.len(),
{
    if s[0] == ' ' {
        lemma_trim_subrange(s.skip(1), i - 1, j - 1);
        assert(s.skip(1).subrange(i - 1, j) =~= s.subrange(i, j + 1));
    } else if s[s.len() - 1] == ' ' {
        lemma_trim_subrange(s.take(s.len() - 1), i, j);
        assert(s.take(s.len() - 1).subrange(i, j + 1) =~= s.subrange(i, j + 1));
    } else {
        assert(s.subrange(i, j + 1) =~= s);
    }
}

/// An all-space sequence trims to nothing.
pub proof fn lemma_trim_all_spaces(s: Seq<char>)
    requires
        forall|k: int| 0 <= k < s.len() ==> s[k] == ' ',
    ensures
        trim_spec(s).len() == 0,
    decreases s.len(),
{
    if s.len() > 0 {
        lemma_trim_all_spaces(s.skip(1));
    }
}

/// Remove the leading and trailing delimiter (space) characters of a string.
pub fn trim_spaces(s: &str) -> (r: String)
    ensures
        r@ == trim_spec(s@),
{
    let len = s.unicode_len();
    let mut start: usize = 0;
    while start < len && s.get_char(start) == ' '
        invariant
            start <= len,
            len == s@.len(),
            forall|k: int| 0 <= k < start ==> s@[k] == ' ',
        decreases len - start,
    {
        start += 1;
    }
    if start == len {
        proof {
            lemma_trim_all_spaces(s@);
        }
        return String::new();
    }
    let mut end: usize = len - 1;
    while s.get_char(end) == ' '
        invariant
            start <= end < len,
            len == s@.len(),
            s@[start as int] != ' ',
            forall|k: int| 0 <= k < start ==> s@[k] == ' ',
            forall|k: int| end < k < len ==> s@[k] == ' ',
        decreases end,
    {
        end -= 1;
    }
    let sub = s.substring_char(start, end + 1);
    proof {
        lemma_trim_subrange(s@, start as int, end as int);
    }
    sub.to_owned()
}

/// Result of `char::is_alphabetic` on a character.
pub uninterp spec fn is_alpha(c: char) -> bool;

/// Relies on char::is_alphabetic: a pure predicate of the character alone.
#[verifier::external_body]
pub fn char_is_alphabetic(c: char) -> (r: bool)
    ensures
        r == is_alpha(c),
{
    c.is_alphabetic()
}

/// Result of `char::is_whitespace` on a character.
pub uninterp spec fn is_white(c: char) -> bool;

/// Relies on char::is_whitespace: a pure predicate of the character alone;
/// its documentation lists the space character as whitespace.
#[verifier::external_body]
pub fn char_is_whitespace(c: char) -> (r: bool)
    ensures
        r == is_white(c),
        c == ' ' ==> r,
{
    c.is_whitespace()
}

/// Result of `str::to_lowercase` on a string.
pub uninterp spec fn lower_of(s: Seq<char>) -> Seq<char>;

/// Relies on str::to_lowercase: the result depends on the characters alone,
/// and an empty string stays empty.
#[verifier::external_body]
pub fn to_lowercase(s: &str) -> (r: String)
    ensures
        r@ == lower_of(s@),
        s@.len() == 0 ==> r@.len() == 0,
{
    s.to_lowercase()
}

/// Relies on String::push: appends the given character to the end.
#[verifier::external_body]
pub fn push_char(s: &mut String, c: char)
    ensures
        final(s)@ == old(s)@.push(c),
{
    s.push(c)
}

} // verus!
