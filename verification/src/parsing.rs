//! The recursive-descent reader for the filter language.
//!
//! Grammar: a filter is either `identifier = identifier` or a parenthesized
//! list of filters joined by one single connective, `AND`/`and` or `OR`/`or`
//! (mixed casings are not recognized). `()` is the empty conjunction;
//! parentheses around a single filter are pure grouping. Whitespace is
//! stripped before every token.
//!
//! Every reading function is mirrored by a `sp_`-prefixed specification
//! function over the character sequence; the executable code is proved to
//! return exactly what the specification function says, including the
//! position of the first error.
use vstd::prelude::*;
use crate::text::{is_ident_char, is_ws, ident_char, ws_char};
use crate::group_filter::{GroupFilter, FilterModel};

verus! {

/// A reading error: the position (in characters, from the start of the
/// input) where reading failed, and a human-readable message.
#[derive(Debug)]
pub struct ParseError {
    pub position: usize,
    pub message: String,
}

/// The index of the first non-whitespace character at or after `i`.
pub open spec fn sp_skip_ws(t: Seq<char>, i: nat) -> nat
    decreases t.len() - i,
{
    if i < t.len() && is_ws(t[i as int]) {
        sp_skip_ws(t, i + 1)
    } else {
        i
    }
}

/// The index of the first non-identifier character at or after `i`; the
/// identifier starting at `i` spans up to there.
pub open spec fn sp_ident_end(t: Seq<char>, i: nat) -> nat
    decreases t.len() - i,
{
    if i < t.len() && is_ident_char(t[i as int]) {
        sp_ident_end(t, i + 1)
    } else {
        i
    }
}

/// The token `tok` stands at position `i` of `t`.
pub open spec fn token_at(t: Seq<char>, i: nat, tok: Seq<char>) -> bool {
    i + tok.len() <= t.len() && t.subrange(i as int, i + tok.len() as int) == tok
}

pub proof fn lemma_skip_ws_bounds(t: Seq<char>, i: nat)
    requires
        i <= t.len(),
    ensures
        i <= sp_skip_ws(t, i) <= t.len(),
        forall|k: int| i <= k < sp_skip_ws(t, i) ==> is_ws(#[trigger] t[k]),
        sp_skip_ws(t, i) == t.len() || !is_ws(t[sp_skip_ws(t, i) as int]),
    decreases t.len() - i,
{
    if i < t.len() && is_ws(t[i as int]) {
        lemma_skip_ws_bounds(t, i + 1);
    }
}

pub proof fn lemma_skip_ws_unique(t: Seq<char>, i: nat, j: nat)
    requires
        i <= j <= t.len(),
        forall|k: int| i <= k < j ==> is_ws(#[trigger] t[k]),
        j == t.len() || !is_ws(t[j as int]),
    ensures
        sp_skip_ws(t, i) == j,
    decreases j - i,
{
    if i < j {
        lemma_skip_ws_unique(t, i + 1, j);
    }
}

pub proof fn lemma_ident_end_bounds(t: Seq<char>, i: nat)
    requires
        i <= t.len(),
    ensures
        i <= sp_ident_end(t, i) <= t.len(),
        forall|k: int| i <= k < sp_ident_end(t, i) ==> is_ident_char(#[trigger] t[k]),
        sp_ident_end(t, i) == t.len() || !is_ident_char(t[sp_ident_end(t, i) as int]),
    decreases t.len() - i,
{
    if i < t.len() && is_ident_char(t[i as int]) {
        lemma_ident_end_bounds(t, i + 1);
    }
}

pub proof fn lemma_ident_end_unique(t: Seq<char>, i: nat, j: nat)
    requires
        i <= j <= t.len(),
        forall|k: int| i <= k < j ==> is_ident_char(#[trigger] t[k]),
        j == t.len() || !is_ident_char(t[j as int]),
    ensures
        sp_ident_end(t, i) == j,
    decreases j - i,
{
    if i < j {
        lemma_ident_end_unique(t, i + 1, j);
    }
}

/// Reading a simple filter `identifier = identifier` at `i`: the resulting
/// leaf and the index just after it, or the position of the failure.
pub open spec fn sp_read_simple(t: Seq<char>, i: nat) -> Result<(nat, FilterModel), nat> {
    let i1 = sp_skip_ws(t, i);
    let j = sp_ident_end(t, i1);
    if j == i1 {
        Err(i1)
    } else {
        let i2 = sp_skip_ws(t, j);
        if i2 < t.len() && t[i2 as int] == '=' {
            let i3 = sp_skip_ws(t, i2 + 1);
            let k = sp_ident_end(t, i3);
            if k == i3 {
                Err(i3)
            } else {
                Ok(
                    (
                        k,
                        FilterModel::Is {
                            id: t.subrange(i1 as int, j as int),
                            value: t.subrange(i3 as int, k as int),
                        },
                    ),
                )
            }
        } else {
            Err(i2)
        }
    }
}

/// Reading a filter, simple or composite, at `i`. A failure is reported at
/// `i` itself, standing for the combination of both attempts.
pub open spec fn sp_read_filter(t: Seq<char>, i: nat) -> Result<(nat, FilterModel), nat>
    decreases t.len() - i, 2int,
    when i <= t.len()
{
    match sp_read_simple(t, i) {
        Ok(v) => Ok(v),
        Err(_) => match sp_read_composite(t, i) {
            Ok(v) => Ok(v),
            Err(_) => Err(i),
        },
    }
}

/// Reading a composite filter `( ... )` at `i`.
pub open spec fn sp_read_composite(t: Seq<char>, i: nat) -> Result<(nat, FilterModel), nat>
    decreases t.len() - i, 1int,
    when i <= t.len()
{
    let i1 = sp_skip_ws(t, i);
    if i1 < t.len() && t[i1 as int] == '(' {
        proof {
            lemma_skip_ws_bounds(t, i);
        }
        match sp_read_items(t, i1 + 1, Seq::empty(), false) {
            Ok((close, items, is_or)) => if items.len() == 1 {
                Ok(((close + 1) as nat, items[0]))
            } else if is_or {
                Ok(((close + 1) as nat, FilterModel::Any(items)))
            } else {
                Ok(((close + 1) as nat, FilterModel::All(items)))
            },
            Err(p) => Err(p),
        }
    } else {
        Err(i1)
    }
}

/// Reading the items of a composite filter from `i` on, `acc` already read
/// and `is_or` the connective seen so far. On success: the position of the
/// closing parenthesis, all items, and the final connective.
pub open spec fn sp_read_items(t: Seq<char>, i: nat, acc: Seq<FilterModel>, is_or: bool) -> Result<
    (nat, Seq<FilterModel>, bool),
    nat,
>
    decreases t.len() - i, 3int,
    when i <= t.len()
{
    let iw = sp_skip_ws(t, i);
    proof {
        lemma_skip_ws_bounds(t, i);
    }
    if i >= t.len() {
        // Nothing left: the filter read below would fail right here.
        Err(i)
    } else if iw < t.len() && t[iw as int] == ')' {
        Ok((iw, acc, is_or))
    } else {
        match sp_read_filter(t, iw) {
            Err(p) => Err(p),
            Ok((j, f)) => {
                let jn = if j <= t.len() {
                    j
                } else {
                    t.len()
                };
                let jw = sp_skip_ws(t, jn);
                proof {
                    lemma_skip_ws_bounds(t, jn);
                }
                let acc2 = acc.push(f);
                if jw < t.len() && t[jw as int] == ')' {
                    Ok((jw, acc2, is_or))
                } else if token_at(t, jw, "OR "@) || token_at(t, jw, "or "@) {
                    if acc2.len() == 1 || is_or {
                        sp_read_items(t, next_from(t, i, jw + 3), acc2, true)
                    } else {
                        Err(jw)
                    }
                } else if token_at(t, jw, "AND "@) || token_at(t, jw, "and "@) {
                    if acc2.len() == 1 || !is_or {
                        sp_read_items(t, next_from(t, i, jw + 4), acc2, false)
                    } else {
                        Err(jw)
                    }
                } else {
                    Err(jw)
                }
            },
        }
    }
}

/// The next reading position, clamped so that reading always advances; the
/// clamp is shown to be inactive once the reading functions are proved to
/// consume at least what they read past.
pub open spec fn next_from(t: Seq<char>, i: nat, proposed: nat) -> nat {
    if i < proposed <= t.len() {
        proposed
    } else {
        (i + 1) as nat
    }
}

/// Reading the whole of `t` as one filter: the filter, or the position of
/// the failure (an unconsumed non-blank tail included).
pub open spec fn sp_read_whole(t: Seq<char>) -> Result<FilterModel, nat> {
    match sp_read_filter(t, 0) {
        Err(p) => Err(p),
        Ok((j, f)) => {
            let jn = if j <= t.len() {
                j
            } else {
                t.len()
            };
            let jw = sp_skip_ws(t, jn);
            if jw >= t.len() {
                Ok(f)
            } else {
                Err(jw)
            }
        },
    }
}

/// Decimal digits of `n`, most significant first.
pub open spec fn dec_str(n: nat) -> Seq<char>
    decreases n,
{
    if n < 10 {
        seq![dec_digit(n)]
    } else {
        dec_str(n / 10).push(dec_digit(n % 10))
    }
}

/// The character for one decimal digit.
pub open spec fn dec_digit(d: nat) -> char {
    if d == 0 {
        '0'
    } else if d == 1 {
        '1'
    } else if d == 2 {
        '2'
    } else if d == 3 {
        '3'
    } else if d == 4 {
        '4'
    } else if d == 5 {
        '5'
    } else if d == 6 {
        '6'
    } else if d == 7 {
        '7'
    } else if d == 8 {
        '8'
    } else {
        '9'
    }
}

/// The one-character string for a decimal digit.
fn digit_str(d: usize) -> (r: &'static str)
    requires
        d < 10,
    ensures
        r@ =~= seq![dec_digit(d as nat)],
{
    proof {
        reveal_strlit("0");
        reveal_strlit("1");
        reveal_strlit("2");
        reveal_strlit("3");
        reveal_strlit("4");
        reveal_strlit("5");
        reveal_strlit("6");
        reveal_strlit("7");
        reveal_strlit("8");
        reveal_strlit("9");
    }
    if d == 0 {
        "0"
    } else if d == 1 {
        "1"
    } else if d == 2 {
        "2"
    } else if d == 3 {
        "3"
    } else if d == 4 {
        "4"
    } else if d == 5 {
        "5"
    } else if d == 6 {
        "6"
    } else if d == 7 {
        "7"
    } else if d == 8 {
        "8"
    } else {
        "9"
    }
}

/// Renders a number in decimal, for positions in error messages.
pub fn usize_to_string(n: usize) -> (r: String)
    ensures
        r@ == dec_str(n as nat),
    decreases n,
{
    if n < 10 {
        digit_str(n).to_owned()
    } else {
        let mut r = usize_to_string(n / 10);
        r.append(digit_str(n % 10));
        proof {
            assert(r@ =~= dec_str(n as nat));
        }
        r
    }
}

/// Moves `i` past any whitespace.
pub fn skip_whitespaces(s: &str, i: usize) -> (j: usize)
    requires
        i <= s@.len(),
    ensures
        j as nat == sp_skip_ws(s@, i as nat),
        i <= j <= s@.len(),
{
    let slen = s.unicode_len();
    let mut j: usize = i;
    while j < slen && ws_char(s.get_char(j))
        invariant
            i <= j <= slen,
            slen == s@.len(),
            forall|k: int| i <= k < j ==> is_ws(#[trigger] s@[k]),
        decreases slen - j,
    {
        j = j + 1;
    }
    proof {
        lemma_skip_ws_unique(s@, i as nat, j as nat);
    }
    j
}

/// Does the text carry `tok` at position `i`?
fn has_token_at(s: &str, i: usize, tok: &str) -> (r: bool)
    requires
        i <= s@.len(),
    ensures
        r == token_at(s@, i as nat, tok@),
{
    let slen = s.unicode_len();
    let tlen = tok.unicode_len();
    if tlen > slen - i {
        return false;
    }
    let mut k: usize = 0;
    while k < tlen
        invariant
            0 <= k <= tlen,
            i + tlen <= slen,
            slen == s@.len(),
            tlen == tok@.len(),
            forall|m: int| 0 <= m < k ==> s@[i + m] == tok@[m],
        decreases tlen - k,
    {
        if s.get_char(i + k) != tok.get_char(k) {
            proof {
                if token_at(s@, i as nat, tok@) {
                    assert(s@.subrange(i as int, i + tok@.len() as int)[k as int] == s@[i + k]);
                }
            }
            return false;
        }
        k = k + 1;
    }
    proof {
        assert(s@.subrange(i as int, i + tok@.len() as int) =~= tok@);
    }
    true
}

/// Moves `i` past the expected token, or reports a reading error at `i`.
pub fn expect(s: &str, i: usize, expected: &str) -> (r: Result<usize, ParseError>)
    requires
        i <= s@.len(),
    ensures
        token_at(s@, i as nat, expected@) ==> (r matches Ok(j) && j as nat == i + expected@.len()
            && j <= s@.len()),
        !token_at(s@, i as nat, expected@) ==> (r matches Err(e) && e.position == i),
{
    if has_token_at(s, i, expected) {
        let slen = s.unicode_len();
        let elen = expected.unicode_len();
        Ok(i + elen)
    } else {
        let mut message = String::new();
        message.append("Expected \"");
        message.append(expected);
        message.append("\".");
        Err(ParseError { position: i, message })
    }
}

/// Reads the identifier starting at `i`; it spans up to `sp_ident_end` and
/// must be non-empty.
pub fn read_identifier(s: &str, i: usize) -> (r: Result<(usize, String), ParseError>)
    requires
        i <= s@.len(),
    ensures
        match r {
            Ok((j, id)) => j as nat == sp_ident_end(s@, i as nat) && i < j <= s@.len() && id@ == s@
                .subrange(i as int, j as int),
            Err(e) => sp_ident_end(s@, i as nat) == i && e.position == i,
        },
{
    let slen = s.unicode_len();
    let mut j: usize = i;
    while j < slen && ident_char(s.get_char(j))
        invariant
            i <= j <= slen,
            slen == s@.len(),
            forall|k: int| i <= k < j ==> is_ident_char(#[trigger] s@[k]),
        decreases slen - j,
    {
        j = j + 1;
    }
    proof {
        lemma_ident_end_unique(s@, i as nat, j as nat);
    }
    if j == i {
        Err(
            ParseError {
                position: i,
                message: "Expected non-empty identifier.".to_owned(),
            },
        )
    } else {
        Ok((j, s.substring_char(i, j).to_owned()))
    }
}

/// Reads a simple filter `name=value` starting at `i`.
pub fn read_simple_filter(s: &str, i: usize) -> (r: Result<(usize, GroupFilter), ParseError>)
    requires
        i <= s@.len(),
    ensures
        match r {
            Ok((j, f)) => i <= j <= s@.len() && sp_read_simple(s@, i as nat) == Ok::<
                (nat, FilterModel),
                nat,
            >(((j as nat), f@)),
            Err(e) => sp_read_simple(s@, i as nat) == Err::<(nat, FilterModel), nat>(
                e.position as nat,
            ),
        },
{
    let i1 = skip_whitespaces(s, i);
    match read_identifier(s, i1) {
        Err(e) => Err(e),
        Ok((j, id)) => {
            let i2 = skip_whitespaces(s, j);
            proof {
                reveal_strlit("=");
            }
            proof {
                if i2 < s@.len() && s@[i2 as int] == '=' {
                    assert(s@.subrange(i2 as int, i2 + 1) =~= "="@);
                }
                if token_at(s@, i2 as nat, "="@) {
                    assert(s@.subrange(i2 as int, i2 + 1)[0] == s@[i2 as int]);
                }
            }
            match expect(s, i2, "=") {
                Err(e) => Err(e),
                Ok(i2p) => {
                    let i3 = skip_whitespaces(s, i2p);
                    match read_identifier(s, i3) {
                        Err(e) => Err(e),
                        Ok((k, value)) => Ok((k, GroupFilter::Is { id, value })),
                    }
                },
            }
        },
    }
}

/// Reads a composite filter `( ... )` starting at `i`: zero or more filters
/// joined by one single connective. One operand alone is returned unwrapped;
/// none gives the empty conjunction.
pub fn read_composite_filter(s: &str, i: usize) -> (r: Result<(usize, GroupFilter), ParseError>)
    requires
        i <= s@.len(),
    ensures
        match r {
            Ok((j, f)) => i <= j <= s@.len() && sp_read_composite(s@, i as nat) == Ok::<
                (nat, FilterModel),
                nat,
            >(((j as nat), f@)),
            Err(e) => sp_read_composite(s@, i as nat) == Err::<(nat, FilterModel), nat>(
                e.position as nat,
            ),
        },
    decreases s@.len() - i, 1int,
{
    let slen = s.unicode_len();
    let i1 = skip_whitespaces(s, i);
    proof {
        reveal_strlit("(");
        if i1 < s@.len() && s@[i1 as int] == '(' {
            assert(s@.subrange(i1 as int, i1 + 1) =~= "("@);
        }
        if token_at(s@, i1 as nat, "("@) {
            assert(s@.subrange(i1 as int, i1 + 1)[0] == s@[i1 as int]);
        }
    }
    match expect(s, i1, "(") {
        Err(e) => Err(e),
        Ok(start) => {
            let mut cur: usize = start;
            let mut filters: Vec<GroupFilter> = Vec::new();
            let mut is_or: bool = false;
            let ghost mut acc: Seq<FilterModel> = Seq::empty();
            let mut close_pos: usize = 0;
            loop
                invariant_except_break
                    slen == s@.len(),
                    i <= s@.len(),
                    i1 as nat == sp_skip_ws(s@, i as nat),
                    i1 < s@.len(),
                    s@[i1 as int] == '(',
                    start == i1 + 1,
                    i < start <= cur <= s@.len(),
                    acc.len() == filters@.len(),
                    forall|k: int| 0 <= k < acc.len() ==> acc[k] == #[trigger] filters@[k]@,
                    sp_read_items(s@, start as nat, Seq::empty(), false) == sp_read_items(
                        s@,
                        cur as nat,
                        acc,
                        is_or,
                    ),
                ensures
                    slen == s@.len(),
                    i <= s@.len(),
                    i1 as nat == sp_skip_ws(s@, i as nat),
                    i1 < s@.len(),
                    s@[i1 as int] == '(',
                    start == i1 + 1,
                    i < start <= s@.len(),
                    i < close_pos < s@.len(),
                    s@[close_pos as int] == ')',
                    acc.len() == filters@.len(),
                    forall|k: int| 0 <= k < acc.len() ==> acc[k] == #[trigger] filters@[k]@,
                    sp_read_items(s@, start as nat, Seq::empty(), false) == Ok::<
                        (nat, Seq<FilterModel>, bool),
                        nat,
                    >(((close_pos as nat), acc, is_or)),
                decreases s@.len() - cur,
            {
                proof {
                    reveal_strlit("OR ");
                    reveal_strlit("or ");
                    reveal_strlit("AND ");
                    reveal_strlit("and ");
                }
                let iw = skip_whitespaces(s, cur);
                if iw < slen && s.get_char(iw) == ')' {
                    close_pos = iw;
                    break;
                }
                match read_filter(s, iw) {
                    Err(e) => {
                        proof {
                            if cur as nat >= s@.len() {
                                assert(sp_skip_ws(s@, cur as nat) == cur as nat);
                            }
                        }
                        return Err(e);
                    },
                    Ok((j, f)) => {
                        proof {
                            acc = acc.push(f@);
                        }
                        filters.push(f);
                        let jw = skip_whitespaces(s, j);
                        if jw < slen && s.get_char(jw) == ')' {
                            close_pos = jw;
                            break;
                        }
                        let or_tok = has_token_at(s, jw, "OR ") || has_token_at(s, jw, "or ");
                        if or_tok {
                            if filters.len() == 1 {
                                is_or = true;
                            } else if !is_or {
                                return Err(
                                    ParseError {
                                        position: jw,
                                        message: "OR filter mixed with AND filter.".to_owned(),
                                    },
                                );
                            }
                            cur = jw + 3;
                        } else {
                            let and_tok = has_token_at(s, jw, "AND ") || has_token_at(
                                s,
                                jw,
                                "and ",
                            );
                            if and_tok {
                                if filters.len() == 1 {
                                    is_or = false;
                                } else if is_or {
                                    return Err(
                                        ParseError {
                                            position: jw,
                                            message: "AND filter mixed with OR filter.".to_owned(),
                                        },
                                    );
                                }
                                cur = jw + 4;
                            } else {
                                let mut message = String::new();
                                message.append(
                                    "Expected OR, AND or a closing parenthesis at the end of a composite filter. Got \"",
                                );
                                message.append(s.substring_char(jw, slen));
                                message.append("\"");
                                return Err(ParseError { position: jw, message });
                            }
                        }
                    },
                }
            }
            proof {
                reveal_strlit(")");
                assert(s@.subrange(close_pos as int, close_pos + 1) =~= ")"@);
            }
            match expect(s, close_pos, ")") {
                Err(e) => {
                    proof {
                        assert(false);
                    }
                    Err(e)
                },
                Ok(after) => {
                    if filters.len() == 1 {
                        let f_opt = filters.pop();
                        match f_opt {
                            Some(f) => Ok((after, f)),
                            None => {
                                proof {
                                    assert(false);
                                }
                                Err(
                                    ParseError {
                                        position: close_pos,
                                        message: String::new(),
                                    },
                                )
                            },
                        }
                    } else if is_or {
                        let r = GroupFilter::Any(filters);
                        proof {
                            let ms = r@->Any_0;
                            assert forall|k: int| 0 <= k < ms.len() implies ms[k] == acc[k] by {
                                assert(acc[k] == filters@[k]@);
                            }
                            assert(ms =~= acc);
                        }
                        Ok((after, r))
                    } else {
                        let r = GroupFilter::All(filters);
                        proof {
                            let ms = r@->All_0;
                            assert forall|k: int| 0 <= k < ms.len() implies ms[k] == acc[k] by {
                                assert(acc[k] == filters@[k]@);
                            }
                            assert(ms =~= acc);
                        }
                        Ok((after, r))
                    }
                },
            }
        },
    }
}

/// Reads a filter, simple or composite, starting at `i`. When both fail, the
/// error stands at `i` and its message carries both attempts, with the
/// position each one reached.
pub fn read_filter(s: &str, i: usize) -> (r: Result<(usize, GroupFilter), ParseError>)
    requires
        i <= s@.len(),
    ensures
        match r {
            Ok((j, f)) => i <= j <= s@.len() && sp_read_filter(s@, i as nat) == Ok::<
                (nat, FilterModel),
                nat,
            >(((j as nat), f@)),
            Err(e) => sp_read_filter(s@, i as nat) == Err::<(nat, FilterModel), nat>(
                e.position as nat,
            ) && e.position == i,
        },
    decreases s@.len() - i, 2int,
{
    let e1 = match read_simple_filter(s, i) {
        Ok((j, f)) => {
            return Ok((j, f));
        },
        Err(e) => e,
    };
    let e2 = match read_composite_filter(s, i) {
        Ok((j, f)) => {
            return Ok((j, f));
        },
        Err(e) => e,
    };
    let mut message = String::new();
    message.append(
        "Expected a simple or a composite filter. Both result in reading errors. Simple filter read, at char ",
    );
    let p1 = usize_to_string(e1.position);
    message.append(p1.as_str());
    message.append(": ");
    message.append(e1.message.as_str());
    message.append(", Composite filter read, at char ");
    let p2 = usize_to_string(e2.position);
    message.append(p2.as_str());
    message.append(": ");
    message.append(e2.message.as_str());
    Err(ParseError { position: i, message })
}

/// Reads the whole string as one filter; anything but trailing whitespace
/// after the filter is an error.
pub fn read_whole_as_filter(s: &str) -> (r: Result<GroupFilter, ParseError>)
    ensures
        match r {
            Ok(f) => sp_read_whole(s@) == Ok::<FilterModel, nat>(f@),
            Err(e) => sp_read_whole(s@) == Err::<FilterModel, nat>(e.position as nat),
        },
{
    let slen = s.unicode_len();
    match read_filter(s, 0) {
        Err(e) => Err(e),
        Ok((j, f)) => {
            let jw = skip_whitespaces(s, j);
            if jw >= slen {
                Ok(f)
            } else {
                let mut message = String::new();
                message.append("Expected end of string. Got something after the filter \"");
                message.append(s.substring_char(jw, slen));
                message.append("\"");
                Err(ParseError { position: jw, message })
            }
        },
    }
}

} // verus!
