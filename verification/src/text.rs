//! Character classes, lexicographic ordering and comparison helpers shared by
//! the filter language, the attribute-set text format and the evaluator.
use vstd::prelude::*;

verus! {

/// Characters admitted in attribute keys, attribute values and filter
/// identifiers: ASCII letters, digits, `:`, `_` and `-`.
pub open spec fn is_ident_char(c: char) -> bool {
    ('a' <= c && c <= 'z') || ('A' <= c && c <= 'Z') || ('0' <= c && c <= '9') || c == ':' || c
        == '_' || c == '-'
}

/// Whitespace accepted between tokens: the ASCII blanks.
pub open spec fn is_ws(c: char) -> bool {
    c == ' ' || c == '\t' || c == '\n' || c == '\r'
}

/// A well-formed identifier: non-empty and made of identifier characters only.
pub open spec fn ident_wf(s: Seq<char>) -> bool {
    s.len() > 0 && forall|k: int| 0 <= k < s.len() ==> is_ident_char(#[trigger] s[k])
}

/// Strict lexicographic order on character sequences, by code point.
pub open spec fn lex_lt(a: Seq<char>, b: Seq<char>) -> bool
    decreases a.len(),
{
    if b.len() == 0 {
        false
    } else if a.len() == 0 {
        true
    } else if a[0] == b[0] {
        lex_lt(a.skip(1), b.skip(1))
    } else {
        a[0] < b[0]
    }
}

/// Reflexive lexicographic order on character sequences.
pub open spec fn lex_le(a: Seq<char>, b: Seq<char>) -> bool {
    lex_lt(a, b) || a == b
}

/// Characterizes `lex_lt` and sequence equality by the first position where
/// two sequences can differ: if `a` and `b` agree strictly below `i`, the
/// comparison is decided at `i`.
pub proof fn lemma_lex_at_divergence(a: Seq<char>, b: Seq<char>, i: int)
    requires
        0 <= i <= a.len(),
        i <= b.len(),
        forall|k: int| 0 <= k < i ==> a[k] == b[k],
        i == a.len() || i == b.len() || a[i] != b[i],
    ensures
        lex_lt(a, b) == (i < b.len() && (i == a.len() || a[i] < b[i])),
        (a == b) == (i == a.len() && i == b.len()),
    decreases i,
{
    if i == 0 {
        if a.len() == 0 && b.len() == 0 {
            assert(a =~= b);
        }
        if a == b {
            assert(a.len() == b.len());
        }
    } else {
        let a1 = a.skip(1);
        let b1 = b.skip(1);
        assert(forall|k: int| 0 <= k < i - 1 ==> a1[k] == b1[k]);
        lemma_lex_at_divergence(a1, b1, i - 1);
        assert(lex_lt(a, b) == lex_lt(a1, b1));
        if a1 == b1 && a[0] == b[0] {
            assert(a =~= b);
        }
        if a == b {
            assert(a1 =~= b1);
        }
    }
}

/// `lex_lt` is irreflexive.
pub proof fn lemma_lex_irrefl(a: Seq<char>)
    ensures
        !lex_lt(a, a),
    decreases a.len(),
{
    if a.len() > 0 {
        lemma_lex_irrefl(a.skip(1));
    }
}

/// Exactly one of `lex_lt(a, b)`, `a == b`, `lex_lt(b, a)` holds.
pub proof fn lemma_lex_trichotomy(a: Seq<char>, b: Seq<char>)
    ensures
        lex_lt(a, b) || a == b || lex_lt(b, a),
        lex_lt(a, b) ==> a != b && !lex_lt(b, a),
        a == b ==> !lex_lt(a, b) && !lex_lt(b, a),
    decreases a.len(),
{
    lemma_lex_irrefl(a);
    lemma_lex_irrefl(b);
    if a.len() > 0 && b.len() > 0 && a[0] == b[0] {
        lemma_lex_trichotomy(a.skip(1), b.skip(1));
        if a.skip(1) == b.skip(1) {
            assert forall|i: int| 0 <= i < a.len() implies a[i] == b[i] by {
                if i > 0 {
                    assert(a.skip(1)[i - 1] == b.skip(1)[i - 1]);
                }
            }
            assert(a =~= b);
        }
        if a == b {
            assert(a.skip(1) =~= b.skip(1));
        }
    }
}

/// `lex_lt` is transitive.
pub proof fn lemma_lex_trans(a: Seq<char>, b: Seq<char>, c: Seq<char>)
    requires
        lex_lt(a, b),
        lex_lt(b, c),
    ensures
        lex_lt(a, c),
    decreases a.len(),
{
    if c.len() == 0 {
        // lex_lt(b, c) would be false
    } else if a.len() == 0 {
        // lex_lt(a, c) holds outright
    } else {
        // b cannot be empty: lex_lt(b, c) with b empty is fine, but then
        // lex_lt(a, b) would be false; so b has a head to compare with.
        if a[0] == b[0] {
            if b[0] == c[0] {
                lemma_lex_trans(a.skip(1), b.skip(1), c.skip(1));
            }
        } else {
            // a[0] < b[0]
            if b[0] == c[0] {
            } else {
                // b[0] < c[0], so a[0] < c[0]
            }
        }
    }
}

/// Three-way comparison of two strings under `lex_lt`; negative, zero and
/// positive stand for less, equal and greater.
pub fn str_compare(a: &str, b: &str) -> (r: i8)
    ensures
        (r == -1i8) == lex_lt(a@, b@),
        (r == 0i8) == (a@ == b@),
        (r == 1i8) == lex_lt(b@, a@),
        -1 <= r <= 1,
{
    let a_len = a.unicode_len();
    let b_len = b.unicode_len();
    let mut i: usize = 0;
    while i < a_len && i < b_len && a.get_char(i) == b.get_char(i)
        invariant
            0 <= i <= a_len,
            i <= b_len,
            a_len == a@.len(),
            b_len == b@.len(),
            forall|k: int| 0 <= k < i ==> a@[k] == b@[k],
        decreases a_len - i,
    {
        i = i + 1;
    }
    proof {
        lemma_lex_at_divergence(a@, b@, i as int);
        lemma_lex_at_divergence(b@, a@, i as int);
    }
    if i == a_len && i == b_len {
        0
    } else if i == a_len {
        -1
    } else if i == b_len {
        1
    } else {
        if a.get_char(i) < b.get_char(i) {
            -1
        } else {
            1
        }
    }
}

/// String equality over the abstract character sequences.
pub fn str_eq(a: &str, b: &str) -> (r: bool)
    ensures
        r == (a@ == b@),
{
    str_compare(a, b) == 0
}

/// Strict lexicographic comparison of two strings.
pub fn str_lt(a: &str, b: &str) -> (r: bool)
    ensures
        r == lex_lt(a@, b@),
{
    str_compare(a, b) == -1
}

/// Reflexive lexicographic comparison of two strings.
pub fn str_le(a: &str, b: &str) -> (r: bool)
    ensures
        r == lex_le(a@, b@),
{
    str_compare(a, b) != 1
}

/// Decides whether a character may appear in an identifier.
pub fn ident_char(c: char) -> (r: bool)
    ensures
        r == is_ident_char(c),
{
    ('a' <= c && c <= 'z') || ('A' <= c && c <= 'Z') || ('0' <= c && c <= '9') || c == ':' || c
        == '_' || c == '-'
}

/// Decides whether a character is accepted as whitespace between tokens.
pub fn ws_char(c: char) -> (r: bool)
    ensures
        r == is_ws(c),
{
    c == ' ' || c == '\t' || c == '\n' || c == '\r'
}

/// A character with an ASCII lowercase letter mapped to its uppercase.
pub open spec fn ascii_upper_char(c: char) -> char {
    if 'a' <= c && c <= 'z' {
        (((c as u8) - 32) as char)
    } else {
        c
    }
}

/// The text with ASCII lowercase letters mapped to uppercase.
pub open spec fn ascii_upper(s: Seq<char>) -> Seq<char> {
    s.map_values(|c: char| ascii_upper_char(c))
}

/// Maps an ASCII lowercase letter to its uppercase; other characters pass
/// through.
pub fn upper_char(c: char) -> (r: char)
    ensures
        r == ascii_upper_char(c),
{
    if 'a' <= c && c <= 'z' {
        ((c as u8) - 32) as char
    } else {
        c
    }
}

/// Are the two strings equal up to ASCII case?
pub fn eq_ignore_ascii_case(a: &str, b: &str) -> (r: bool)
    ensures
        r == (ascii_upper(a@) == ascii_upper(b@)),
{
    let a_len = a.unicode_len();
    let b_len = b.unicode_len();
    if a_len != b_len {
        proof {
            assert(ascii_upper(a@).len() != ascii_upper(b@).len());
        }
        return false;
    }
    let mut i: usize = 0;
    while i < a_len
        invariant
            0 <= i <= a_len,
            a_len == a@.len(),
            a_len == b@.len(),
            forall|k: int| 0 <= k < i ==> ascii_upper(a@)[k] == ascii_upper(b@)[k],
        decreases a_len - i,
    {
        if upper_char(a.get_char(i)) != upper_char(b.get_char(i)) {
            proof {
                assert(ascii_upper(a@)[i as int] != ascii_upper(b@)[i as int]);
            }
            return false;
        }
        i = i + 1;
    }
    proof {
        assert(ascii_upper(a@) =~= ascii_upper(b@));
    }
    true
}

/// Relies on String::push: it appends the given character to the end of
/// the string.
pub assume_specification[ String::push ](s: &mut String, c: char)
    ensures
        final(s)@ == old(s)@.push(c),
;

} // verus!
