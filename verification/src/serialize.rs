//! The canonical text form of a filter: `key=value` for a leaf, the children
//! joined by ` AND ` or ` OR ` inside parentheses for a composite, `()` for
//! the empty conjunction. This form is what the reader accepts back.
use vstd::prelude::*;
use crate::group_filter::{GroupFilter, FilterModel};
use crate::parsing::{ParseError, read_whole_as_filter, sp_read_whole};

verus! {

/// The canonical text of a filter.
pub open spec fn fmt_filter(f: FilterModel) -> Seq<char>
    decreases f,
{
    match f {
        FilterModel::Is { id, value } => id + seq!['='] + value,
        FilterModel::All(fs) => seq!['('] + fmt_items(fs, " AND "@) + seq![')'],
        FilterModel::Any(fs) => seq!['('] + fmt_items(fs, " OR "@) + seq![')'],
    }
}

/// The texts of the given filters, joined by `sep`.
pub open spec fn fmt_items(fs: Seq<FilterModel>, sep: Seq<char>) -> Seq<char>
    decreases fs,
{
    if fs.len() == 0 {
        Seq::empty()
    } else if fs.len() == 1 {
        fmt_filter(fs[0])
    } else {
        fmt_filter(fs[0]) + sep + fmt_items(fs.subrange(1, fs.len() as int), sep)
    }
}

/// Joining one more filter text on the right.
pub proof fn lemma_fmt_items_push(fs: Seq<FilterModel>, x: FilterModel, sep: Seq<char>)
    ensures
        fmt_items(fs.push(x), sep) == if fs.len() == 0 {
            fmt_filter(x)
        } else {
            fmt_items(fs, sep) + sep + fmt_filter(x)
        },
    decreases fs.len(),
{
    let whole = fs.push(x);
    if fs.len() == 0 {
        assert(whole.len() == 1);
        assert(whole[0] == x);
    } else {
        let rest = fs.subrange(1, fs.len() as int);
        assert(whole.subrange(1, whole.len() as int) =~= rest.push(x));
        lemma_fmt_items_push(rest, x, sep);
        assert(whole[0] == fs[0]);
        if fs.len() == 1 {
            assert(rest.len() == 0);
            assert(fmt_items(whole, sep) =~= fmt_items(fs, sep) + sep + fmt_filter(x));
        } else {
            assert(fmt_items(whole, sep) =~= fmt_items(fs, sep) + sep + fmt_filter(x));
        }
    }
}

/// A stored filter text, wrapped in the one extra pair of parentheses that
/// the storage convention adds before reading.
pub open spec fn wrap_parens(t: Seq<char>) -> Seq<char> {
    seq!['('] + t + seq![')']
}

impl GroupFilter {
    /// Writes the filter in its canonical text form.
    #[verifier::loop_isolation(false)]
    pub fn format_to_string(&self) -> (r: String)
        ensures
            r@ == fmt_filter(self@),
        decreases self,
    {
        match self {
            GroupFilter::Is { id, value } => {
                let mut s = String::new();
                s.append(id.as_str());
                s.append("=");
                s.append(value.as_str());
                proof {
                    reveal_strlit("=");
                    assert(s@ =~= id@ + seq!['='] + value@);
                }
                s
            },
            GroupFilter::All(fs) => {
                let ghost vs = self@->All_0;
                let mut s = String::new();
                s.append("(");
                proof {
                    reveal_strlit("(");
                    reveal_strlit(")");
                    reveal_strlit(" AND ");
                    assert(s@ =~= seq!['('] + fmt_items(vs.take(0), " AND "@));
                }
                let mut k: usize = 0;
                while k < fs.len()
                    invariant
                        0 <= k <= fs@.len(),
                        s@ == seq!['('] + fmt_items(vs.take(k as int), " AND "@),
                    decreases fs@.len() - k,
                {
                    if k > 0 {
                        s.append(" AND ");
                    }
                    let sub = fs[k].format_to_string();
                    s.append(sub.as_str());
                    proof {
                        lemma_fmt_items_push(vs.take(k as int), vs[k as int], " AND "@);
                        assert(vs.take(k as int).push(vs[k as int]) =~= vs.take(k + 1));
                        assert(s@ =~= seq!['('] + fmt_items(vs.take(k + 1), " AND "@));
                    }
                    k = k + 1;
                }
                s.append(")");
                proof {
                    assert(vs.take(vs.len() as int) =~= vs);
                    assert(s@ =~= seq!['('] + fmt_items(vs, " AND "@) + seq![')']);
                }
                s
            },
            GroupFilter::Any(fs) => {
                let ghost vs = self@->Any_0;
                let mut s = String::new();
                s.append("(");
                proof {
                    reveal_strlit("(");
                    reveal_strlit(")");
                    reveal_strlit(" OR ");
                    assert(s@ =~= seq!['('] + fmt_items(vs.take(0), " OR "@));
                }
                let mut k: usize = 0;
                while k < fs.len()
                    invariant
                        0 <= k <= fs@.len(),
                        s@ == seq!['('] + fmt_items(vs.take(k as int), " OR "@),
                    decreases fs@.len() - k,
                {
                    if k > 0 {
                        s.append(" OR ");
                    }
                    let sub = fs[k].format_to_string();
                    s.append(sub.as_str());
                    proof {
                        lemma_fmt_items_push(vs.take(k as int), vs[k as int], " OR "@);
                        assert(vs.take(k as int).push(vs[k as int]) =~= vs.take(k + 1));
                        assert(s@ =~= seq!['('] + fmt_items(vs.take(k + 1), " OR "@));
                    }
                    k = k + 1;
                }
                s.append(")");
                proof {
                    assert(vs.take(vs.len() as int) =~= vs);
                    assert(s@ =~= seq!['('] + fmt_items(vs, " OR "@) + seq![')']);
                }
                s
            },
        }
    }

    /// Reads a stored filter text. A stored value carries no outer
    /// parentheses of its own: one extra pair is put around it before
    /// reading, so a bare `key=value` or a top-level `a=1 AND b=2` is legal.
    pub fn read_from_string(s: &str) -> (r: Result<GroupFilter, ParseError>)
        ensures
            match r {
                Ok(f) => sp_read_whole(wrap_parens(s@)) == Ok::<FilterModel, nat>(f@),
                Err(e) => sp_read_whole(wrap_parens(s@)) == Err::<FilterModel, nat>(
                    e.position as nat,
                ),
            },
    {
        let mut w = String::new();
        w.append("(");
        w.append(s);
        w.append(")");
        proof {
            reveal_strlit("(");
            reveal_strlit(")");
            assert(w@ =~= wrap_parens(s@));
        }
        read_whole_as_filter(w.as_str())
    }
}

} // verus!
