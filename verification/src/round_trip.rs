//! The round trip of the filter language: the canonical text of a filter
//! reads back as a filter that behaves identically against every attribute
//! set and every name context. Structural identity is not promised — a
//! composite of one child reads back as the bare child — behavior is.
use vstd::prelude::*;
use crate::text::{is_ident_char, is_ws, ident_wf};
use crate::group_filter::{FilterModel, sat};
use crate::user_groups::sat_names;
use crate::serialize::{fmt_filter, fmt_items};
use crate::parsing::{
    sp_skip_ws,
    sp_read_simple,
    sp_read_filter,
    sp_read_composite,
    sp_read_items,
    sp_read_whole,
    next_from,
    token_at,
    lemma_skip_ws_unique,
    lemma_ident_end_unique,
};

verus! {

/// Two filters that no attribute set and no name context can tell apart,
/// whether the subject is a key/value attribute set or a plain set of
/// names.
pub open spec fn filter_equiv(a: FilterModel, b: FilterModel) -> bool {
    (forall|m: Map<Seq<char>, Seq<char>>, n: Option<Seq<char>>|
        #![trigger sat(a, m, n)]
        #![trigger sat(b, m, n)]
        sat(a, m, n) == sat(b, m, n)) && (forall|gs: Set<Seq<char>>, n: Option<Seq<char>>|
        #![trigger sat_names(a, gs, n)]
        #![trigger sat_names(b, gs, n)]
        sat_names(a, gs, n) == sat_names(b, gs, n))
}

/// A filter whose canonical text reads back with the same behavior: its
/// identifiers are well-formed and no empty disjunction occurs in it. An
/// empty disjunction is vacuously false, but its text `()` reads back as
/// the vacuously true empty conjunction, so it is left out here.
pub open spec fn fmt_wf(f: FilterModel) -> bool
    decreases f,
{
    match f {
        FilterModel::Is { id, value } => ident_wf(id) && ident_wf(value),
        FilterModel::All(fs) => forall|i: int| 0 <= i < fs.len() ==> fmt_wf(#[trigger] fs[i]),
        FilterModel::Any(fs) => fs.len() != 0 && forall|i: int|
            0 <= i < fs.len() ==> fmt_wf(#[trigger] fs[i]),
    }
}

/// The connective text of a composite.
pub open spec fn sep_of(or_mode: bool) -> Seq<char> {
    if or_mode {
        " OR "@
    } else {
        " AND "@
    }
}

/// The first character of a well-formed filter's text: an identifier
/// character for a leaf, the opening parenthesis for a composite; and the
/// text is never shorter than two characters.
proof fn lemma_fmt_first_char(f: FilterModel)
    requires
        fmt_wf(f),
    ensures
        fmt_filter(f).len() >= 2,
        fmt_filter(f)[0] == '(' || is_ident_char(fmt_filter(f)[0]),
{
    reveal_strlit(" AND ");
    reveal_strlit(" OR ");
    match f {
        FilterModel::Is { id, value } => {
            assert(fmt_filter(f)[0] == id[0]);
        },
        FilterModel::All(fs) => {
            assert(fmt_filter(f)[0] == '(');
        },
        FilterModel::Any(fs) => {
            assert(fmt_filter(f)[0] == '(');
        },
    }
}

/// Reading what `fmt_filter` wrote, wherever it stands in a text, stops
/// right after it and yields an equivalent filter; the character that
/// follows must not extend an identifier.
proof fn lemma_parse_fmt_at(f: FilterModel, t: Seq<char>, i: nat)
    requires
        fmt_wf(f),
        i + fmt_filter(f).len() <= t.len(),
        t.subrange(i as int, i + fmt_filter(f).len() as int) == fmt_filter(f),
        i + fmt_filter(f).len() == t.len() || !is_ident_char(t[i + fmt_filter(f).len() as int]),
    ensures
        exists|g: FilterModel|
            sp_read_filter(t, i) == Ok::<(nat, FilterModel), nat>(
                (((i + fmt_filter(f).len()) as nat), g),
            ) && filter_equiv(g, f),
    decreases f, 1int,
{
    let ft = fmt_filter(f);
    let fl = ft.len() as int;
    assert forall|k: int| i <= k < i + fl implies #[trigger] t[k] == ft[k - i] by {
        assert(t[k] == t.subrange(i as int, i + fl)[k - i]);
    }
    match f {
        FilterModel::Is { id, value } => {
            let idl = id.len() as int;
            let vl = value.len() as int;
            assert forall|m: int| 0 <= m < idl implies #[trigger] ft[m] == id[m] by {}
            assert(ft[idl] == '=');
            assert forall|m: int| idl + 1 <= m < fl implies #[trigger] ft[m] == value[m - idl
                - 1] by {}
            // the key identifier
            assert(!is_ws(t[i as int]));
            lemma_skip_ws_unique(t, i, i);
            assert forall|k: int| i <= k < i + idl implies is_ident_char(#[trigger] t[k]) by {
                assert(t[k] == id[k - i]);
            }
            assert(t[i + idl] == '=');
            assert(!is_ident_char('='));
            lemma_ident_end_unique(t, i, (i + id.len()) as nat);
            // the equals sign
            assert(!is_ws('='));
            lemma_skip_ws_unique(t, (i + id.len()) as nat, (i + id.len()) as nat);
            // the value identifier
            assert(t[i + idl + 1] == value[0]);
            assert(!is_ws(t[i + idl + 1]));
            lemma_skip_ws_unique(t, (i + id.len() + 1) as nat, (i + id.len() + 1) as nat);
            assert forall|k: int| i + idl + 1 <= k < i + fl implies is_ident_char(
                #[trigger] t[k],
            ) by {
                assert(t[k] == value[k - i - idl - 1]);
            }
            lemma_ident_end_unique(t, (i + id.len() + 1) as nat, (i + ft.len()) as nat);
            assert(t.subrange(i as int, i + idl) =~= id);
            assert(t.subrange(i + idl + 1, i + fl) =~= value);
            let g = FilterModel::Is { id: t.subrange(i as int, i + idl), value: t.subrange(
                i + idl + 1, i + fl) };
            assert(sp_read_simple(t, i) == Ok::<(nat, FilterModel), nat>(
                (((i + ft.len()) as nat), g),
            ));
            assert(g == f);
            assert(filter_equiv(g, f));
            assert(sp_read_filter(t, i) == Ok::<(nat, FilterModel), nat>(
                (((i + ft.len()) as nat), g),
            ));
        },
        FilterModel::All(fs) => {
            lemma_parse_fmt_composite(f, fs, false, t, i);
        },
        FilterModel::Any(fs) => {
            lemma_parse_fmt_composite(f, fs, true, t, i);
        },
    }
}

/// The composite half of `lemma_parse_fmt_at`.
proof fn lemma_parse_fmt_composite(
    f: FilterModel,
    fs: Seq<FilterModel>,
    or_mode: bool,
    t: Seq<char>,
    i: nat,
)
    requires
        fmt_wf(f),
        f == if or_mode {
            FilterModel::Any(fs)
        } else {
            FilterModel::All(fs)
        },
        i + fmt_filter(f).len() <= t.len(),
        t.subrange(i as int, i + fmt_filter(f).len() as int) == fmt_filter(f),
    ensures
        exists|g: FilterModel|
            sp_read_filter(t, i) == Ok::<(nat, FilterModel), nat>(
                (((i + fmt_filter(f).len()) as nat), g),
            ) && filter_equiv(g, f),
    decreases f, 0int,
{
    let ft = fmt_filter(f);
    let fl = ft.len() as int;
    let body = fmt_items(fs, sep_of(or_mode));
    assert(ft == seq!['('] + body + seq![')']);
    assert forall|k: int| i <= k < i + fl implies #[trigger] t[k] == ft[k - i] by {
        assert(t[k] == t.subrange(i as int, i + fl)[k - i]);
    }
    assert(t[i as int] == '(');
    // the leaf reading fails at the parenthesis, so the composite is tried
    assert(!is_ws('('));
    assert(!is_ident_char('('));
    lemma_skip_ws_unique(t, i, i);
    lemma_ident_end_unique(t, i, i);
    assert(sp_read_simple(t, i) == Err::<(nat, FilterModel), nat>(i));
    if fs.len() == 0 {
        // the empty composite `()`: the empty conjunction
        assert(body.len() == 0);
        assert(t[i as int + 1] == ')');
        assert(!is_ws(')'));
        lemma_skip_ws_unique(t, (i + 1) as nat, (i + 1) as nat);
        assert(sp_read_items(t, (i + 1) as nat, Seq::empty(), false) == Ok::<
            (nat, Seq<FilterModel>, bool),
            nat,
        >((((i + 1) as nat), Seq::empty(), false)));
        let g = FilterModel::All(Seq::empty());
        assert(sp_read_composite(t, i) == Ok::<(nat, FilterModel), nat>(
            (((i + ft.len()) as nat), g),
        ));
        assert(!or_mode);
        assert(fs =~= Seq::<FilterModel>::empty());
        assert(g == f);
        assert(filter_equiv(g, f));
        assert(sp_read_filter(t, i) == Ok::<(nat, FilterModel), nat>(
            (((i + ft.len()) as nat), g),
        ));
    } else {
        assert forall|k: int| 0 <= k < fs.len() implies fmt_wf(#[trigger] fs[k]) by {}
        assert(t.subrange(i as int + 1, i + 1 + body.len() as int + 1) =~= body + seq![
            ')',
        ]) by {
            assert forall|m: int| 0 <= m < body.len() + 1 implies t.subrange(
                i as int + 1,
                i + 1 + body.len() as int + 1,
            )[m] == (body + seq![')'])[m] by {
                assert(t[i + 1 + m] == ft[1 + m]);
            }
        }
        lemma_parse_items(fs, or_mode, t, (i + 1) as nat, Seq::empty(), false);
        let gs = choose|gs: Seq<FilterModel>|
            {
                &&& sp_read_items(t, (i + 1) as nat, Seq::empty(), false) == Ok::<
                    (nat, Seq<FilterModel>, bool),
                    nat,
                >(
                    (
                        ((i + 1 + body.len()) as nat),
                        Seq::empty() + gs,
                        if fs.len() >= 2 {
                            or_mode
                        } else {
                            false
                        },
                    ),
                )
                &&& gs.len() == fs.len()
                &&& forall|k: int| 0 <= k < gs.len() ==> filter_equiv(#[trigger] gs[k], fs[k])
            };
        assert(Seq::empty() + gs =~= gs);
        assert(t[i + 1 + body.len() as int] == ')');
        if fs.len() == 1 {
            let g = gs[0];
            assert(sp_read_composite(t, i) == Ok::<(nat, FilterModel), nat>(
                (((i + ft.len()) as nat), g),
            ));
            assert(filter_equiv(g, fs[0]));
            assert forall|m: Map<Seq<char>, Seq<char>>, n: Option<Seq<char>>|
                sat(g, m, n) == sat(f, m, n) by {
                assert(sat(g, m, n) == sat(fs[0], m, n));
                if sat(fs[0], m, n) {
                    assert forall|k: int| 0 <= k < fs.len() implies sat(
                        #[trigger] fs[k],
                        m,
                        n,
                    ) by {}
                }
            }
            assert forall|gset: Set<Seq<char>>, n: Option<Seq<char>>|
                sat_names(g, gset, n) == sat_names(f, gset, n) by {
                assert(sat_names(g, gset, n) == sat_names(fs[0], gset, n));
                if sat_names(fs[0], gset, n) {
                    assert forall|k: int| 0 <= k < fs.len() implies sat_names(
                        #[trigger] fs[k],
                        gset,
                        n,
                    ) by {}
                }
            }
            assert(filter_equiv(g, f));
            assert(sp_read_filter(t, i) == Ok::<(nat, FilterModel), nat>(
                (((i + ft.len()) as nat), g),
            ));
        } else {
            let g = if or_mode {
                FilterModel::Any(gs)
            } else {
                FilterModel::All(gs)
            };
            assert(sp_read_composite(t, i) == Ok::<(nat, FilterModel), nat>(
                (((i + ft.len()) as nat), g),
            ));
            lemma_equiv_composite(gs, fs, or_mode);
            assert(filter_equiv(g, f));
            assert(sp_read_filter(t, i) == Ok::<(nat, FilterModel), nat>(
                (((i + ft.len()) as nat), g),
            ));
        }
    }
}

/// Pointwise equivalent children make equivalent composites.
proof fn lemma_equiv_composite(gs: Seq<FilterModel>, fs: Seq<FilterModel>, or_mode: bool)
    requires
        gs.len() == fs.len(),
        forall|k: int| 0 <= k < gs.len() ==> filter_equiv(#[trigger] gs[k], fs[k]),
    ensures
        or_mode ==> filter_equiv(FilterModel::Any(gs), FilterModel::Any(fs)),
        !or_mode ==> filter_equiv(FilterModel::All(gs), FilterModel::All(fs)),
{
    let ga = FilterModel::Any(gs);
    let fa = FilterModel::Any(fs);
    let gl = FilterModel::All(gs);
    let fl = FilterModel::All(fs);
    assert forall|m: Map<Seq<char>, Seq<char>>, n: Option<Seq<char>>|
        sat(ga, m, n) == sat(fa, m, n) by {
        assert(ga->Any_0 == gs && fa->Any_0 == fs);
        if sat(ga, m, n) {
            let k = choose|k: int| 0 <= k < ga->Any_0.len() && sat(#[trigger] ga->Any_0[k], m, n);
            assert(filter_equiv(gs[k], fs[k]));
            assert(sat(fs[k], m, n));
            assert(0 <= k < fa->Any_0.len() && sat(fa->Any_0[k], m, n));
            assert(sat(fa, m, n));
        }
        if sat(fa, m, n) {
            let k = choose|k: int| 0 <= k < fa->Any_0.len() && sat(#[trigger] fa->Any_0[k], m, n);
            assert(filter_equiv(gs[k], fs[k]));
            assert(sat(gs[k], m, n));
            assert(0 <= k < ga->Any_0.len() && sat(ga->Any_0[k], m, n));
            assert(sat(ga, m, n));
        }
    }
    assert forall|m: Map<Seq<char>, Seq<char>>, n: Option<Seq<char>>|
        sat(gl, m, n) == sat(fl, m, n) by {
        assert(gl->All_0 == gs && fl->All_0 == fs);
        if sat(gl, m, n) {
            assert forall|k: int| 0 <= k < fl->All_0.len() implies sat(
                #[trigger] fl->All_0[k],
                m,
                n,
            ) by {
                assert(sat(gl->All_0[k], m, n));
                assert(filter_equiv(gs[k], fs[k]));
            }
            assert(sat(fl, m, n));
        }
        if sat(fl, m, n) {
            assert forall|k: int| 0 <= k < gl->All_0.len() implies sat(
                #[trigger] gl->All_0[k],
                m,
                n,
            ) by {
                assert(sat(fl->All_0[k], m, n));
                assert(filter_equiv(gs[k], fs[k]));
            }
            assert(sat(gl, m, n));
        }
    }
    assert forall|st: Set<Seq<char>>, n: Option<Seq<char>>|
        sat_names(ga, st, n) == sat_names(fa, st, n) by {
        assert(ga->Any_0 == gs && fa->Any_0 == fs);
        if sat_names(ga, st, n) {
            let k = choose|k: int|
                0 <= k < ga->Any_0.len() && sat_names(#[trigger] ga->Any_0[k], st, n);
            assert(filter_equiv(gs[k], fs[k]));
            assert(sat_names(fs[k], st, n));
            assert(0 <= k < fa->Any_0.len() && sat_names(fa->Any_0[k], st, n));
            assert(sat_names(fa, st, n));
        }
        if sat_names(fa, st, n) {
            let k = choose|k: int|
                0 <= k < fa->Any_0.len() && sat_names(#[trigger] fa->Any_0[k], st, n);
            assert(filter_equiv(gs[k], fs[k]));
            assert(sat_names(gs[k], st, n));
            assert(0 <= k < ga->Any_0.len() && sat_names(ga->Any_0[k], st, n));
            assert(sat_names(ga, st, n));
        }
    }
    assert forall|st: Set<Seq<char>>, n: Option<Seq<char>>|
        sat_names(gl, st, n) == sat_names(fl, st, n) by {
        assert(gl->All_0 == gs && fl->All_0 == fs);
        if sat_names(gl, st, n) {
            assert forall|k: int| 0 <= k < fl->All_0.len() implies sat_names(
                #[trigger] fl->All_0[k],
                st,
                n,
            ) by {
                assert(sat_names(gl->All_0[k], st, n));
                assert(filter_equiv(gs[k], fs[k]));
            }
            assert(sat_names(fl, st, n));
        }
        if sat_names(fl, st, n) {
            assert forall|k: int| 0 <= k < gl->All_0.len() implies sat_names(
                #[trigger] gl->All_0[k],
                st,
                n,
            ) by {
                assert(sat_names(fl->All_0[k], st, n));
                assert(filter_equiv(gs[k], fs[k]));
            }
            assert(sat_names(gl, st, n));
        }
    }
}

/// Reading the items of a composite whose text stands at `i`, the closing
/// parenthesis right after them: every item is read, in order, each
/// equivalent to the one that was written.
#[verifier::rlimit(60)]
proof fn lemma_parse_items(
    fs: Seq<FilterModel>,
    or_mode: bool,
    t: Seq<char>,
    i: nat,
    acc: Seq<FilterModel>,
    is_or: bool,
)
    requires
        fs.len() >= 1,
        forall|k: int| 0 <= k < fs.len() ==> fmt_wf(#[trigger] fs[k]),
        acc.len() == 0 || is_or == or_mode,
        i + fmt_items(fs, sep_of(or_mode)).len() + 1 <= t.len(),
        t.subrange(i as int, i + fmt_items(fs, sep_of(or_mode)).len() as int + 1) == fmt_items(
            fs,
            sep_of(or_mode),
        ) + seq![')'],
    ensures
        exists|gs: Seq<FilterModel>|
            {
                &&& sp_read_items(t, i, acc, is_or) == Ok::<(nat, Seq<FilterModel>, bool), nat>(
                    (
                        ((i + fmt_items(fs, sep_of(or_mode)).len()) as nat),
                        acc + gs,
                        if acc.len() + fs.len() >= 2 {
                            or_mode
                        } else {
                            is_or
                        },
                    ),
                )
                &&& gs.len() == fs.len()
                &&& forall|k: int| 0 <= k < gs.len() ==> filter_equiv(#[trigger] gs[k], fs[k])
            },
    decreases fs, 2int,
{
    reveal_strlit(" AND ");
    reveal_strlit(" OR ");
    reveal_strlit("AND ");
    reveal_strlit("OR ");
    reveal_strlit("and ");
    reveal_strlit("or ");
    let body = fmt_items(fs, sep_of(or_mode));
    let f0 = fs[0];
    let f0t = fmt_filter(f0);
    let f0l = f0t.len() as int;
    assert forall|k: int| i <= k < i + body.len() + 1 implies #[trigger] t[k] == (body + seq![
        ')',
    ])[k - i] by {
        assert(t[k] == t.subrange(i as int, i + body.len() as int + 1)[k - i]);
    }
    lemma_fmt_first_char(f0);
    assert(!is_ws(t[i as int]) && t[i as int] != ')') by {
        assert(t[i as int] == body[0]);
        assert(body[0] == f0t[0]);
    }
    lemma_skip_ws_unique(t, i, i);
    if fs.len() == 1 {
        assert(body == f0t);
        assert(t[i + f0l] == ')');
        assert(t.subrange(i as int, i + f0l) =~= f0t);
        assert(!is_ident_char(')'));
        lemma_parse_fmt_at(f0, t, i);
        let g0 = choose|g0: FilterModel|
            sp_read_filter(t, i) == Ok::<(nat, FilterModel), nat>((((i + f0l) as nat), g0))
                && filter_equiv(g0, f0);
        assert(!is_ws(')'));
        lemma_skip_ws_unique(t, (i + f0l) as nat, (i + f0l) as nat);
        let gs = seq![g0];
        assert(acc.push(g0) =~= acc + gs);
        assert(sp_read_items(t, i, acc, is_or) == Ok::<(nat, Seq<FilterModel>, bool), nat>(
            (((i + body.len()) as nat), acc + gs, is_or),
        ));
        if acc.len() + fs.len() >= 2 {
            assert(is_or == or_mode);
        }
        assert(gs.len() == fs.len() && forall|k: int|
            0 <= k < gs.len() ==> filter_equiv(#[trigger] gs[k], fs[k]));
    } else {
        let rest = fs.subrange(1, fs.len() as int);
        let restt = fmt_items(rest, sep_of(or_mode));
        assert(body == f0t + sep_of(or_mode) + restt);
        let sl = sep_of(or_mode).len() as int;
        assert(t[i + f0l] == ' ') by {
            assert(t[i + f0l] == body[f0l]);
            assert(body[f0l] == sep_of(or_mode)[0]);
        }
        assert(!is_ident_char(' '));
        assert(t.subrange(i as int, i + f0l) =~= f0t);
        lemma_parse_fmt_at(f0, t, i);
        let g0 = choose|g0: FilterModel|
            sp_read_filter(t, i) == Ok::<(nat, FilterModel), nat>((((i + f0l) as nat), g0))
                && filter_equiv(g0, f0);
        // one space, then the connective word with its trailing space
        assert(is_ws(' '));
        let wstart = (i + f0l) as nat;
        assert(t[wstart as int + 1] == sep_of(or_mode)[1]);
        assert(!is_ws(sep_of(or_mode)[1]));
        lemma_skip_ws_unique(t, wstart, (wstart + 1) as nat);
        let jw = (wstart + 1) as nat;
        assert(t[jw as int] != ')');
        let tok: Seq<char> = if or_mode {
            "OR "@
        } else {
            "AND "@
        };
        assert(token_at(t, jw, tok)) by {
            assert forall|m: int| 0 <= m < tok.len() implies t.subrange(
                jw as int,
                jw + tok.len() as int,
            )[m] == tok[m] by {
                assert(t[jw as int + m] == sep_of(or_mode)[1 + m]);
            }
            assert(t.subrange(jw as int, jw + tok.len() as int) =~= tok);
        }
        if !or_mode {
            // the AND token is not an OR token
            assert(!token_at(t, jw, "OR "@)) by {
                if token_at(t, jw, "OR "@) {
                    assert(t.subrange(jw as int, jw as int + 3)[0] == t[jw as int]);
                }
            }
            assert(!token_at(t, jw, "or "@)) by {
                if token_at(t, jw, "or "@) {
                    assert(t.subrange(jw as int, jw as int + 3)[0] == t[jw as int]);
                }
            }
        }
        let nxt = (jw + tok.len()) as nat;
        assert(nxt == i + f0l + sl);
        assert(next_from(t, i, nxt) == nxt);
        // the remaining items stand right after the connective
        assert(t.subrange(nxt as int, nxt + restt.len() as int + 1) =~= restt + seq![')']) by {
            assert forall|m: int| 0 <= m < restt.len() + 1 implies t.subrange(
                nxt as int,
                nxt + restt.len() as int + 1,
            )[m] == (restt + seq![')'])[m] by {
                assert(t[nxt as int + m] == (body + seq![')'])[f0l + sl + m]);
            }
        }
        assert forall|k: int| 0 <= k < rest.len() implies fmt_wf(#[trigger] rest[k]) by {
            assert(rest[k] == fs[k + 1]);
        }
        lemma_parse_items(rest, or_mode, t, nxt, acc.push(g0), or_mode);
        let gs1 = choose|gs1: Seq<FilterModel>|
            {
                &&& sp_read_items(t, nxt, acc.push(g0), or_mode) == Ok::<
                    (nat, Seq<FilterModel>, bool),
                    nat,
                >(
                    (((nxt + restt.len()) as nat), acc.push(g0) + gs1, or_mode),
                )
                &&& gs1.len() == rest.len()
                &&& forall|k: int| 0 <= k < gs1.len() ==> filter_equiv(#[trigger] gs1[k], rest[k])
            };
        let gs = seq![g0] + gs1;
        assert(acc.push(g0) + gs1 =~= acc + gs);
        assert(nxt + restt.len() == i + body.len());
        assert(sp_read_items(t, i, acc, is_or) == Ok::<(nat, Seq<FilterModel>, bool), nat>(
            (((i + body.len()) as nat), acc + gs, or_mode),
        ));
        assert(gs.len() == fs.len());
        assert forall|k: int| 0 <= k < gs.len() implies filter_equiv(#[trigger] gs[k], fs[k]) by {
            if k == 0 {
                assert(gs[0] == g0);
            } else {
                assert(gs[k] == gs1[k - 1]);
                assert(fs[k] == rest[k - 1]);
            }
        }
    }
}

/// The round trip of the filter language: the canonical text of any
/// well-formed filter reads back, as a whole, as a filter that no attribute
/// set, no set of group names and no name context can tell apart from the
/// one that was written.
pub proof fn lemma_filter_round_trip(f: FilterModel)
    requires
        fmt_wf(f),
    ensures
        sp_read_whole(fmt_filter(f)) matches Ok(g) && filter_equiv(g, f),
{
    let t = fmt_filter(f);
    assert(t.subrange(0, t.len() as int) =~= t);
    lemma_parse_fmt_at(f, t, 0);
    let g = choose|g: FilterModel|
        sp_read_filter(t, 0) == Ok::<(nat, FilterModel), nat>(((t.len() as nat), g))
            && filter_equiv(g, f);
    assert(sp_skip_ws(t, t.len() as nat) == t.len());
    assert(sp_read_whole(t) == Ok::<FilterModel, nat>(g));
}

} // verus!
