//! The canonical text of an attribute set: the entries sorted by key, each
//! written `key=value`, joined by `+`. Reading accepts leading whitespace
//! and skips empty segments; a malformed segment is a format error.
use vstd::prelude::*;
use crate::text::{is_ident_char, ident_wf, is_ws};
use crate::group_descriptor::{GroupDescriptor, map_of, entry_views};
use crate::parsing::{
    sp_skip_ws,
    sp_ident_end,
    skip_whitespaces,
    read_identifier,
    lemma_skip_ws_unique,
    lemma_ident_end_unique,
    lemma_ident_end_bounds,
};

verus! {

/// The text of one entry: `key=value`.
pub open spec fn entry_text(e: (Seq<char>, Seq<char>)) -> Seq<char> {
    e.0 + seq!['='] + e.1
}

/// The canonical text of the entries: their texts joined by `+`.
pub open spec fn attrs_text(es: Seq<(Seq<char>, Seq<char>)>) -> Seq<char>
    decreases es.len(),
{
    if es.len() == 0 {
        Seq::empty()
    } else if es.len() == 1 {
        entry_text(es[0])
    } else {
        entry_text(es[0]) + seq!['+'] + attrs_text(es.subrange(1, es.len() as int))
    }
}

/// Joining one more entry text on the right.
pub proof fn lemma_attrs_text_push(es: Seq<(Seq<char>, Seq<char>)>, e: (Seq<char>, Seq<char>))
    ensures
        attrs_text(es.push(e)) == if es.len() == 0 {
            entry_text(e)
        } else {
            attrs_text(es) + seq!['+'] + entry_text(e)
        },
    decreases es.len(),
{
    let whole = es.push(e);
    if es.len() == 0 {
        assert(whole[0] == e);
    } else {
        let rest = es.subrange(1, es.len() as int);
        assert(whole.subrange(1, whole.len() as int) =~= rest.push(e));
        lemma_attrs_text_push(rest, e);
        assert(whole[0] == es[0]);
        if es.len() == 1 {
            assert(rest.len() == 0);
            assert(attrs_text(whole) =~= attrs_text(es) + seq!['+'] + entry_text(e));
        } else {
            assert(attrs_text(whole) =~= attrs_text(es) + seq!['+'] + entry_text(e));
        }
    }
}

/// The index of the first `+` at or after `i`, or the end of the text.
pub open spec fn sp_seg_end(t: Seq<char>, i: nat) -> nat
    decreases t.len() - i,
{
    if i < t.len() && t[i as int] != '+' {
        sp_seg_end(t, i + 1)
    } else {
        i
    }
}

pub proof fn lemma_seg_end_unique(t: Seq<char>, i: nat, j: nat)
    requires
        i <= j <= t.len(),
        forall|k: int| i <= k < j ==> #[trigger] t[k] != '+',
        j == t.len() || t[j as int] == '+',
    ensures
        sp_seg_end(t, i) == j,
    decreases j - i,
{
    if i < j {
        lemma_seg_end_unique(t, i + 1, j);
    }
}

/// Reading one segment `key=value`: the key and value, or nothing when the
/// segment is malformed (an empty key or value, a character outside the
/// identifier class, a missing `=`, or anything more after the value).
pub open spec fn sp_parse_seg(seg: Seq<char>) -> Option<(Seq<char>, Seq<char>)> {
    let j = sp_ident_end(seg, 0);
    if j == 0 || j >= seg.len() {
        None
    } else if seg[j as int] != '=' {
        None
    } else {
        let k = sp_ident_end(seg, j + 1);
        if k == j + 1 || k != seg.len() {
            None
        } else {
            Some((seg.subrange(0, j as int), seg.subrange((j + 1) as int, seg.len() as int)))
        }
    }
}

/// Reading the `+`-separated entries from `i` on; empty segments are
/// skipped, a malformed one is a format error.
pub open spec fn sp_attr_entries(t: Seq<char>, i: nat) -> Option<Seq<(Seq<char>, Seq<char>)>>
    decreases t.len() - i,
{
    if i >= t.len() {
        Some(Seq::empty())
    } else {
        let p = sp_seg_end(t, i);
        let pn = if i <= p <= t.len() {
            p
        } else {
            i
        };
        let nxt = if pn + 1 <= t.len() {
            pn + 1
        } else {
            t.len()
        };
        let seg = t.subrange(i as int, pn as int);
        let tail = sp_attr_entries(t, nxt);
        if seg.len() == 0 {
            tail
        } else {
            match sp_parse_seg(seg) {
                None => None,
                Some(e) => match tail {
                    None => None,
                    Some(es) => Some(seq![e] + es),
                },
            }
        }
    }
}

/// Reading a whole attribute-set text: whitespace is trimmed once at the
/// start of the whole string, then the entries follow.
pub open spec fn sp_read_attrs(t: Seq<char>) -> Option<Seq<(Seq<char>, Seq<char>)>> {
    let i0 = sp_skip_ws(t, 0);
    let i = if i0 <= t.len() {
        i0
    } else {
        0
    };
    sp_attr_entries(t, i)
}

/// Moves `i` to the next `+`, or to the end of the text.
pub(crate) fn seg_end(s: &str, i: usize) -> (p: usize)
    requires
        i <= s@.len(),
    ensures
        p as nat == sp_seg_end(s@, i as nat),
        i <= p <= s@.len(),
        forall|k: int| i <= k < p ==> #[trigger] s@[k] != '+',
        p == s@.len() || s@[p as int] == '+',
{
    let slen = s.unicode_len();
    let mut p: usize = i;
    while p < slen && s.get_char(p) != '+'
        invariant
            i <= p <= slen,
            slen == s@.len(),
            forall|k: int| i <= k < p ==> #[trigger] s@[k] != '+',
        decreases slen - p,
    {
        p = p + 1;
    }
    proof {
        lemma_seg_end_unique(s@, i as nat, p as nat);
    }
    p
}

impl GroupDescriptor {
    /// Writes this attribute set in its canonical text form: the entries in
    /// key order, each `key=value`, joined by `+`.
    pub fn format_to_string(&self) -> (r: String)
        ensures
            r@ == attrs_text(self.entries()),
    {
        let ghost es = self.entries();
        let mut out = String::new();
        proof {
            assert(es.take(0) =~= Seq::empty());
            assert(out@ =~= attrs_text(es.take(0)));
        }
        let mut k: usize = 0;
        while k < self.groups.len()
            invariant
                0 <= k <= self.groups@.len(),
                es == self.entries(),
                out@ == attrs_text(es.take(k as int)),
            decreases self.groups@.len() - k,
        {
            if k > 0 {
                out.append("+");
            }
            out.append(self.groups[k].0.as_str());
            out.append("=");
            out.append(self.groups[k].1.as_str());
            proof {
                reveal_strlit("+");
                reveal_strlit("=");
                lemma_attrs_text_push(es.take(k as int), es[k as int]);
                assert(es.take(k as int).push(es[k as int]) =~= es.take(k + 1));
                assert(es[k as int] == (self.groups@[k as int].0@, self.groups@[k as int].1@));
                assert(entry_text(es[k as int]) =~= self.groups@[k as int].0@ + seq!['=']
                    + self.groups@[k as int].1@);
                assert(out@ =~= attrs_text(es.take(k + 1)));
            }
            k = k + 1;
        }
        proof {
            assert(es.take(es.len() as int) =~= es);
        }
        out
    }

    /// Reads an attribute set from its text form. Whitespace is trimmed
    /// once at the start of the whole string; empty segments are skipped;
    /// a segment that is not `key=value` over the identifier characters is
    /// a format error. For entries sharing one key, the later one wins.
    pub fn read_from_string(s: &str) -> (r: Result<GroupDescriptor, String>)
        ensures
            match r {
                Ok(d) => sp_read_attrs(s@) matches Some(es) && d.wf() && d@ == map_of(es),
                Err(_) => sp_read_attrs(s@) is None,
            },
    {
        let slen = s.unicode_len();
        let mut d = GroupDescriptor { groups: Vec::new() };
        let ghost mut acc: Seq<(Seq<char>, Seq<char>)> = Seq::empty();
        let start = skip_whitespaces(s, 0);
        let mut cur = start;
        proof {
            assert(entry_views(d.groups@) =~= Seq::empty());
            assert(map_of(acc) =~= d@);
            let t0 = sp_attr_entries(s@, cur as nat);
            match t0 {
                None => {},
                Some(es) => {
                    assert(Seq::<(Seq<char>, Seq<char>)>::empty() + es =~= es);
                },
            }
        }
        loop
            invariant_except_break
                slen == s@.len(),
                cur <= s@.len(),
                d.wf(),
                d@ == map_of(acc),
                sp_read_attrs(s@) == opt_prepend(acc, sp_attr_entries(s@, cur as nat)),
            ensures
                sp_read_attrs(s@) == Some(acc),
                d.wf(),
                d@ == map_of(acc),
            decreases s@.len() - cur,
        {
            if cur >= slen {
                proof {
                    assert(sp_attr_entries(s@, cur as nat) == Some(
                        Seq::<(Seq<char>, Seq<char>)>::empty(),
                    ));
                    assert(acc + Seq::<(Seq<char>, Seq<char>)>::empty() =~= acc);
                }
                break;
            }
            let ghost prev = cur as nat;
            let p = seg_end(s, cur);
            let ghost seg = s@.subrange(cur as int, p as int);
            if p == cur {
                // an empty segment: skip it
                cur = if p < slen {
                    p + 1
                } else {
                    slen
                };
                proof {
                    assert(seg.len() == 0);
                    assert(sp_attr_entries(s@, prev) == sp_attr_entries(s@, cur as nat));
                }
                continue;
            }
            // the key
            let key_read = read_identifier(s, cur);
            let (j, key) = match key_read {
                Err(_) => {
                    proof {
                        lemma_ident_end_bounds(s@, cur as nat);
                        assert(seg[0] == s@[cur as int]);
                        assert(!is_ident_char(seg[0]));
                        lemma_ident_end_unique(seg, 0, 0);
                        assert(sp_parse_seg(seg) is None);
                        assert(sp_attr_entries(s@, prev) is None);
                    }
                    return Err(
                        "Invalid attribute segment: expected a non-empty key of letters, digits, ':', '_' or '-'.".to_owned(),
                    );
                },
                Ok(pair) => pair,
            };
            proof {
                lemma_ident_end_bounds(s@, cur as nat);
                assert(j <= p) by {
                    if j > p {
                        assert(cur <= p < j);
                        assert(is_ident_char(s@[p as int]));
                    }
                }
                assert forall|m: int| 0 <= m < j - cur implies is_ident_char(
                    #[trigger] seg[m],
                ) by {
                    assert(seg[m] == s@[cur + m]);
                }
                if j < p {
                    assert(seg[(j - cur) as int] == s@[j as int]);
                }
                lemma_ident_end_unique(seg, 0, (j - cur) as nat);
                assert(sp_ident_end(seg, 0) == j - cur);
            }
            if j >= p {
                proof {
                    assert(sp_ident_end(seg, 0) == seg.len());
                    assert(sp_parse_seg(seg) is None);
                    assert(sp_attr_entries(s@, prev) is None);
                }
                return Err("Invalid attribute segment: expected '=' after the key.".to_owned());
            }
            if s.get_char(j) != '=' {
                proof {
                    assert(seg[(j - cur) as int] == s@[j as int]);
                    assert(sp_parse_seg(seg) is None);
                    assert(sp_attr_entries(s@, prev) is None);
                }
                return Err(
                    "Invalid attribute segment: unexpected character after the key.".to_owned(),
                );
            }
            // the value
            let value_read = read_identifier(s, j + 1);
            let (k, value) = match value_read {
                Err(_) => {
                    proof {
                        lemma_ident_end_bounds(s@, (j + 1) as nat);
                        if j + 1 < p {
                            assert(seg[(j + 1 - cur) as int] == s@[j + 1]);
                            assert(!is_ident_char(seg[(j + 1 - cur) as int]));
                        }
                        lemma_ident_end_unique(seg, (j + 1 - cur) as nat, (j + 1 - cur) as nat);
                        assert(sp_ident_end(seg, (j + 1 - cur) as nat) == j + 1 - cur);
                        assert(sp_parse_seg(seg) is None);
                        assert(sp_attr_entries(s@, prev) is None);
                    }
                    return Err(
                        "Invalid attribute segment: expected a non-empty value after '='.".to_owned(),
                    );
                },
                Ok(pair) => pair,
            };
            proof {
                lemma_ident_end_bounds(s@, (j + 1) as nat);
                assert(k <= p) by {
                    if k > p {
                        assert(j + 1 <= p < k);
                        assert(is_ident_char(s@[p as int]));
                    }
                }
                assert forall|m: int| j + 1 - cur <= m < k - cur implies is_ident_char(
                    #[trigger] seg[m],
                ) by {
                    assert(seg[m] == s@[cur + m]);
                }
                if k < p {
                    assert(seg[(k - cur) as int] == s@[k as int]);
                }
                lemma_ident_end_unique(seg, (j + 1 - cur) as nat, (k - cur) as nat);
                assert(sp_ident_end(seg, (j + 1 - cur) as nat) == k - cur);
            }
            if k != p {
                proof {
                    assert(sp_ident_end(seg, (j + 1 - cur) as nat) != seg.len());
                    assert(sp_parse_seg(seg) is None);
                    assert(sp_attr_entries(s@, prev) is None);
                }
                return Err(
                    "Invalid attribute segment: unexpected character after the value.".to_owned(),
                );
            }
            let ghost e = (key@, value@);
            proof {
                assert(seg.subrange(0, (j - cur) as int) =~= s@.subrange(cur as int, j as int));
                assert(seg.subrange((j + 1 - cur) as int, seg.len() as int) =~= s@.subrange(
                    j + 1,
                    p as int,
                ));
                assert(sp_parse_seg(seg) == Some(e));
            }
            d.insert(key, value);
            proof {
                let acc2 = acc.push(e);
                assert(acc2.drop_last() =~= acc);
                assert(map_of(acc2) == map_of(acc).insert(e.0, e.1));
                acc = acc2;
            }
            cur = if p < slen {
                p + 1
            } else {
                slen
            };
            proof {
                let tail = sp_attr_entries(s@, cur as nat);
                assert(sp_attr_entries(s@, prev) == (match tail {
                    None => None::<Seq<(Seq<char>, Seq<char>)>>,
                    Some(es) => Some(seq![e] + es),
                }));
                match tail {
                    None => {},
                    Some(es) => {
                        assert(acc.drop_last() + (seq![e] + es) =~= acc + es);
                    },
                }
            }
        }
        Ok(d)
    }
}

/// All keys and values drawn from the identifier characters, none empty:
/// exactly the attribute sets whose text form reads back.
pub open spec fn attrs_wf(es: Seq<(Seq<char>, Seq<char>)>) -> bool {
    forall|n: int|
        0 <= n < es.len() ==> ident_wf((#[trigger] es[n]).0) && ident_wf(es[n].1)
}

/// One entry's text reads back as that entry.
proof fn lemma_parse_entry_text(e: (Seq<char>, Seq<char>))
    requires
        ident_wf(e.0),
        ident_wf(e.1),
    ensures
        sp_parse_seg(entry_text(e)) == Some(e),
{
    let et = entry_text(e);
    let klen = e.0.len() as int;
    assert(et.len() == klen + 1 + e.1.len());
    assert forall|m: int| 0 <= m < klen implies is_ident_char(#[trigger] et[m]) by {
        assert(et[m] == e.0[m]);
    }
    assert(et[klen] == '=');
    assert(!is_ident_char('='));
    lemma_ident_end_unique(et, 0, e.0.len());
    assert forall|m: int| klen + 1 <= m < et.len() implies is_ident_char(#[trigger] et[m]) by {
        assert(et[m] == e.1[m - klen - 1]);
    }
    lemma_ident_end_unique(et, (e.0.len() + 1) as nat, et.len());
    assert(et.subrange(0, klen) =~= e.0);
    assert(et.subrange(klen + 1, et.len() as int) =~= e.1);
}

/// Well-formed entries standing at the tail of a text read back exactly.
proof fn lemma_attr_entries_at(es: Seq<(Seq<char>, Seq<char>)>, t: Seq<char>, i: nat)
    requires
        attrs_wf(es),
        i + attrs_text(es).len() == t.len(),
        t.subrange(i as int, t.len() as int) == attrs_text(es),
    ensures
        sp_attr_entries(t, i) == Some(es),
    decreases es.len(),
{
    let text = attrs_text(es);
    if es.len() == 0 {
        assert(sp_attr_entries(t, i) == Some(Seq::<(Seq<char>, Seq<char>)>::empty()));
        assert(Seq::<(Seq<char>, Seq<char>)>::empty() =~= es);
    } else {
        let e0 = es[0];
        let et = entry_text(e0);
        let klen = e0.0.len() as int;
        let el = et.len() as int;
        assert(ident_wf(e0.0) && ident_wf(e0.1));
        // the characters of the first entry, seen inside t
        assert forall|k: int| i <= k < i + el implies #[trigger] t[k] == et[k - i] by {
            assert(t[k] == t.subrange(i as int, t.len() as int)[k - i]);
            if es.len() > 1 {
                assert(text[k - i] == et[k - i]);
            }
        }
        assert forall|k: int| i <= k < i + el implies #[trigger] t[k] != '+' by {
            let m = k - i;
            assert(t[k] == et[m]);
            if m < klen {
                assert(et[m] == e0.0[m]);
                assert(is_ident_char(et[m]));
            } else if m == klen {
                assert(et[m] == '=');
            } else {
                assert(et[m] == e0.1[m - klen - 1]);
                assert(is_ident_char(et[m]));
            }
        }
        if es.len() == 1 {
            assert(text =~= et);
            assert(i + el == t.len());
            lemma_seg_end_unique(t, i, (i + el) as nat);
            let seg = t.subrange(i as int, i + el);
            assert(seg =~= et);
            lemma_parse_entry_text(e0);
            assert(sp_parse_seg(seg) == Some(e0));
            assert(sp_attr_entries(t, (t.len()) as nat) == Some(
                Seq::<(Seq<char>, Seq<char>)>::empty(),
            ));
            assert(seq![e0] + Seq::<(Seq<char>, Seq<char>)>::empty() =~= es);
        } else {
            let rest = es.subrange(1, es.len() as int);
            assert(attrs_wf(rest)) by {
                assert forall|n: int| 0 <= n < rest.len() implies ident_wf((#[trigger] rest[n]).0)
                    && ident_wf(rest[n].1) by {
                    assert(rest[n] == es[n + 1]);
                }
            }
            let restt = attrs_text(rest);
            assert(text == et + seq!['+'] + restt);
            assert(t[i + el] == '+') by {
                assert(t[i + el] == t.subrange(i as int, t.len() as int)[el]);
            }
            lemma_seg_end_unique(t, i, (i + el) as nat);
            let seg = t.subrange(i as int, i + el);
            assert(seg =~= et);
            lemma_parse_entry_text(e0);
            assert(sp_parse_seg(seg) == Some(e0));
            let nxt = (i + el + 1) as nat;
            assert(t.subrange(nxt as int, t.len() as int) =~= restt) by {
                assert forall|m: int| 0 <= m < restt.len() implies t.subrange(
                    nxt as int,
                    t.len() as int,
                )[m] == restt[m] by {
                    assert(t[nxt + m] == t.subrange(i as int, t.len() as int)[el + 1 + m]);
                    assert(text[el + 1 + m] == restt[m]);
                }
            }
            lemma_attr_entries_at(rest, t, nxt);
            assert(sp_attr_entries(t, i) == Some(seq![e0] + rest));
            assert(seq![e0] + rest =~= es);
        }
    }
}

/// The attribute-set round trip: the canonical text of any well-formed
/// entries reads back as exactly those entries, so an attribute set written
/// with `format_to_string` comes back equal, as a set of key/value pairs,
/// through `read_from_string`.
pub proof fn lemma_attrs_round_trip(es: Seq<(Seq<char>, Seq<char>)>)
    requires
        attrs_wf(es),
    ensures
        sp_read_attrs(attrs_text(es)) == Some(es),
{
    let t = attrs_text(es);
    assert(t.subrange(0, t.len() as int) =~= t);
    if es.len() == 0 {
        assert(t.len() == 0);
        lemma_skip_ws_unique(t, 0, 0);
        assert(sp_attr_entries(t, 0) == Some(Seq::<(Seq<char>, Seq<char>)>::empty()));
        assert(Seq::<(Seq<char>, Seq<char>)>::empty() =~= es);
    } else {
        assert(t[0] == entry_text(es[0])[0]) by {
            if es.len() > 1 {
            }
        }
        assert(entry_text(es[0])[0] == es[0].0[0]);
        assert(is_ident_char(t[0]));
        assert(!is_ws(t[0]));
        lemma_skip_ws_unique(t, 0, 0);
        lemma_attr_entries_at(es, t, 0);
    }
}

/// The entries read so far, in front of what the rest of the text holds.
pub open spec fn opt_prepend(
    acc: Seq<(Seq<char>, Seq<char>)>,
    tail: Option<Seq<(Seq<char>, Seq<char>)>>,
) -> Option<Seq<(Seq<char>, Seq<char>)>> {
    match tail {
        None => None,
        Some(es) => Some(acc + es),
    }
}

} // verus!
