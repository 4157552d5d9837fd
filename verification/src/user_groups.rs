//! A user's plain group memberships: a set of group names, kept sorted.
//! Against a filter, a leaf `id=value` holds when the set contains `id` and
//! the leaf's value is that same name; the reserved `name-after` /
//! `name-before` keys compare an external name context instead.
use vstd::prelude::*;
use crate::text::{lex_lt, lex_le, lemma_lex_trichotomy, lemma_lex_trans, str_eq, str_lt, str_le, is_ws, ws_char};
use crate::group_filter::{GroupFilter, FilterModel};
use crate::group_descriptor::name_view;
use crate::parsing::{sp_skip_ws, skip_whitespaces};
use crate::attr_text::seg_end;

verus! {

/// The names as character sequences.
pub open spec fn name_views(gs: Seq<String>) -> Seq<Seq<char>> {
    gs.map_values(|s: String| s@)
}

/// Names strictly ascending: sorted and without duplicates.
pub open spec fn names_sorted(ns: Seq<Seq<char>>) -> bool {
    forall|i: int, j: int| 0 <= i < j < ns.len() ==> lex_lt(#[trigger] ns[i], #[trigger] ns[j])
}

/// The set the listed names stand for.
pub open spec fn name_set(ns: Seq<Seq<char>>) -> Set<Seq<char>> {
    Set::new(|k: Seq<char>| exists|i: int| 0 <= i < ns.len() && ns[i] == k)
}

/// Does the filter hold of a plain set of group names? A leaf `id=value`
/// holds when the set contains `id` and `id` equals `value`; with a name
/// context, the reserved keys compare the context lexicographically first.
pub open spec fn sat_names(f: FilterModel, gs: Set<Seq<char>>, name: Option<Seq<char>>) -> bool
    decreases f,
{
    match f {
        FilterModel::Is { id, value } => if name is Some && id == "name-after"@ {
            lex_le(value, name->0)
        } else if name is Some && id == "name-before"@ {
            lex_le(name->0, value)
        } else {
            gs.contains(id) && id == value
        },
        FilterModel::All(fs) => forall|i: int|
            0 <= i < fs.len() ==> sat_names(#[trigger] fs[i], gs, name),
        FilterModel::Any(fs) => exists|i: int|
            0 <= i < fs.len() && sat_names(#[trigger] fs[i], gs, name),
    }
}

/// The names joined by `+`.
pub open spec fn names_text(ns: Seq<Seq<char>>) -> Seq<char>
    decreases ns.len(),
{
    if ns.len() == 0 {
        Seq::empty()
    } else if ns.len() == 1 {
        ns[0]
    } else {
        ns[0] + seq!['+'] + names_text(ns.subrange(1, ns.len() as int))
    }
}

/// Joining one more name on the right.
pub proof fn lemma_names_text_push(ns: Seq<Seq<char>>, n: Seq<char>)
    ensures
        names_text(ns.push(n)) == if ns.len() == 0 {
            n
        } else {
            names_text(ns) + seq!['+'] + n
        },
    decreases ns.len(),
{
    let whole = ns.push(n);
    if ns.len() == 0 {
        assert(whole[0] == n);
        assert(names_text(whole) =~= n);
    } else {
        let rest = ns.subrange(1, ns.len() as int);
        assert(whole.subrange(1, whole.len() as int) =~= rest.push(n));
        lemma_names_text_push(rest, n);
        assert(whole[0] == ns[0]);
        if ns.len() == 1 {
            assert(rest.len() == 0);
            assert(names_text(whole) =~= names_text(ns) + seq!['+'] + n);
        } else {
            assert(names_text(whole) =~= names_text(ns) + seq!['+'] + n);
        }
    }
}

/// The raw names between `+` separators in `t[i..end]`, empty segments
/// skipped.
pub open spec fn sp_read_names(t: Seq<char>, i: nat, end: nat) -> Seq<Seq<char>>
    decreases end - i,
{
    if i >= end || end > t.len() {
        Seq::empty()
    } else {
        let p0 = crate::attr_text::sp_seg_end(t, i);
        let p = if i <= p0 < end {
            p0
        } else {
            end
        };
        let nxt = if p + 1 <= end {
            p + 1
        } else {
            end
        };
        let seg = t.subrange(i as int, p as int);
        let rest = sp_read_names(t, nxt, end);
        if seg.len() == 0 {
            rest
        } else {
            seq![seg] + rest
        }
    }
}

/// One more listed name adds exactly that name to the set.
pub proof fn lemma_name_set_push(ns: Seq<Seq<char>>, n: Seq<char>)
    ensures
        name_set(ns.push(n)) == name_set(ns).insert(n),
{
    let whole = ns.push(n);
    assert forall|x: Seq<char>|
        #![trigger name_set(whole).contains(x)]
        #![trigger name_set(ns).insert(n).contains(x)]
        true implies name_set(whole).contains(x) == name_set(ns).insert(n).contains(x) by {
        if name_set(whole).contains(x) {
            let i = choose|i: int| 0 <= i < whole.len() && whole[i] == x;
            if i < ns.len() {
                assert(ns[i] == x);
            }
        }
        if name_set(ns).contains(x) {
            let i = choose|i: int| 0 <= i < ns.len() && ns[i] == x;
            assert(whole[i] == x);
        }
        if x == n {
            assert(whole[ns.len() as int] == x);
        }
    }
    assert(name_set(whole) =~= name_set(ns).insert(n));
}

/// The end of `t` once trailing whitespace before `e` is dropped.
pub open spec fn sp_ws_end(t: Seq<char>, e: nat) -> nat
    decreases e,
{
    if 0 < e <= t.len() && is_ws(t[e - 1]) {
        sp_ws_end(t, (e - 1) as nat)
    } else {
        e
    }
}

/// The names of a user-groups text: trimmed at both ends, split on `+`,
/// empty segments skipped.
pub open spec fn sp_user_names(t: Seq<char>) -> Seq<Seq<char>> {
    let i0 = sp_skip_ws(t, 0);
    let start = if i0 <= t.len() {
        i0
    } else {
        0
    };
    sp_read_names(t, start, sp_ws_end(t, t.len()))
}

/// The set of group names a user belongs to, kept sorted and without
/// duplicates; `wf` states that invariant and every method keeps it.
#[derive(Debug, PartialEq, Eq)]
pub struct UserGroups {
    pub groups: Vec<String>,
}

impl View for UserGroups {
    type V = Set<Seq<char>>;

    /// The set of names this value stands for.
    open spec fn view(&self) -> Set<Seq<char>> {
        name_set(name_views(self.groups@))
    }
}

impl Clone for UserGroups {
    /// A clone stands for the same set of names.
    fn clone(&self) -> (r: Self)
        ensures
            r.names() == self.names(),
            r@ == self@,
            self.wf() ==> r.wf(),
    {
        let mut gs: Vec<String> = Vec::new();
        let mut i: usize = 0;
        while i < self.groups.len()
            invariant
                0 <= i <= self.groups@.len(),
                gs@.len() == i,
                forall|k: int| 0 <= k < i ==> (#[trigger] gs@[k])@ == self.groups@[k]@,
            decreases self.groups@.len() - i,
        {
            gs.push(self.groups[i].clone());
            i = i + 1;
        }
        let r = UserGroups { groups: gs };
        proof {
            assert(r.names() =~= self.names());
        }
        r
    }
}

impl UserGroups {
    /// The names, as character sequences and in stored order.
    pub open spec fn names(self) -> Seq<Seq<char>> {
        name_views(self.groups@)
    }

    /// Well-formed: names strictly ascending.
    pub open spec fn wf(self) -> bool {
        names_sorted(self.names())
    }

    /// Is `group` one of the names?
    fn contains_name(&self, group: &str) -> (r: bool)
        ensures
            r == self@.contains(group@),
    {
        let mut i: usize = 0;
        while i < self.groups.len()
            invariant
                0 <= i <= self.groups@.len(),
                forall|k: int| 0 <= k < i ==> (#[trigger] self.groups@[k])@ != group@,
            decreases self.groups@.len() - i,
        {
            if str_eq(self.groups[i].as_str(), group) {
                proof {
                    assert(self.names()[i as int] == group@);
                }
                return true;
            }
            i = i + 1;
        }
        proof {
            if self@.contains(group@) {
                let k = choose|k: int| 0 <= k < self.names().len() && self.names()[k] == group@;
                assert(self.groups@[k]@ == group@);
            }
        }
        false
    }

    /// Adds a name to the set, keeping the names sorted; adding a name
    /// already present changes nothing.
    pub fn insert(&mut self, group: String)
        requires
            old(self).wf(),
        ensures
            final(self).wf(),
            final(self)@ == old(self)@.insert(group@),
    {
        let ghost old_ns = old(self).names();
        let mut pos: usize = 0;
        while pos < self.groups.len() && str_lt(self.groups[pos].as_str(), group.as_str())
            invariant
                0 <= pos <= self.groups@.len(),
                self == old(self),
                forall|k: int| 0 <= k < pos ==> lex_lt((#[trigger] self.groups@[k])@, group@),
            decreases self.groups@.len() - pos,
        {
            pos = pos + 1;
        }
        if pos < self.groups.len() && str_eq(self.groups[pos].as_str(), group.as_str()) {
            // already present: the set is unchanged
            proof {
                assert(old_ns[pos as int] == group@);
                assert(self@.contains(group@));
                assert(self@ =~= old(self)@.insert(group@));
            }
        } else {
            proof {
                if pos < self.groups@.len() {
                    lemma_lex_trichotomy(self.groups@[pos as int]@, group@);
                }
            }
            self.groups.insert(pos, group);
            proof {
                let ns = self.names();
                assert forall|i: int, j: int| 0 <= i < j < ns.len() implies lex_lt(
                    #[trigger] ns[i],
                    #[trigger] ns[j],
                ) by {
                    let oi = if i < pos {
                        i
                    } else {
                        i - 1
                    };
                    let oj = if j < pos {
                        j
                    } else {
                        j - 1
                    };
                    if i == pos {
                        assert(ns[j] == old_ns[oj]);
                        if oj > pos {
                            assert(lex_lt(old_ns[pos as int], old_ns[oj]));
                            lemma_lex_trans(group@, old_ns[pos as int], old_ns[oj]);
                        }
                    } else if j == pos {
                        assert(ns[i] == old_ns[oi]);
                    } else {
                        assert(ns[i] == old_ns[oi]);
                        assert(ns[j] == old_ns[oj]);
                        if oi < oj {
                            assert(lex_lt(old_ns[oi], old_ns[oj]));
                        } else {
                            assert(lex_lt(old_ns[oi], group@) && lex_lt(group@, old_ns[oj]));
                            lemma_lex_trans(old_ns[oi], group@, old_ns[oj]);
                        }
                    }
                }
                assert forall|k: Seq<char>|
                    #![trigger self@.contains(k)]
                    #![trigger old(self)@.insert(group@).contains(k)]
                    true implies self@.contains(k) == old(self)@.insert(group@).contains(k) by {
                    let ns = self.names();
                    if k == group@ {
                        assert(ns[pos as int] == group@);
                        assert(self@.contains(k));
                    } else {
                        if self@.contains(k) {
                            let i = choose|i: int| 0 <= i < ns.len() && ns[i] == k;
                            let oi = if i < pos {
                                i
                            } else {
                                i - 1
                            };
                            assert(old_ns[oi] == k);
                        }
                        if old(self)@.contains(k) {
                            let i = choose|i: int| 0 <= i < old_ns.len() && old_ns[i] == k;
                            let ni = if i < pos {
                                i
                            } else {
                                i + 1
                            };
                            assert(self.names()[ni] == k);
                        }
                    }
                }
                assert(self@ =~= old(self)@.insert(group@));
            }
        }
    }

    /// Removes a name from the set, if present.
    pub fn remove(&mut self, group: &str)
        requires
            old(self).wf(),
        ensures
            final(self).wf(),
            final(self)@ == old(self)@.remove(group@),
    {
        let ghost old_ns = old(self).names();
        let mut i: usize = 0;
        while i < self.groups.len()
            invariant
                0 <= i <= self.groups@.len(),
                self == old(self),
                old_ns == name_views(self.groups@),
                names_sorted(old_ns),
                forall|k: int| 0 <= k < i ==> (#[trigger] self.groups@[k])@ != group@,
            decreases self.groups@.len() - i,
        {
            if str_eq(self.groups[i].as_str(), group) {
                self.groups.remove(i);
                proof {
                    old(self).groups@.remove_ensures(i as int);
                    let ns = self.names();
                    assert forall|a: int, b: int| 0 <= a < b < ns.len() implies lex_lt(
                        #[trigger] ns[a],
                        #[trigger] ns[b],
                    ) by {
                        let oa = if a < i {
                            a
                        } else {
                            a + 1
                        };
                        let ob = if b < i {
                            b
                        } else {
                            b + 1
                        };
                        assert(ns[a] == old_ns[oa]);
                        assert(ns[b] == old_ns[ob]);
                        assert(lex_lt(old_ns[oa], old_ns[ob]));
                    }
                    assert forall|k: Seq<char>|
                        #![trigger self@.contains(k)]
                        #![trigger old(self)@.remove(group@).contains(k)]
                        true implies self@.contains(k) == old(self)@.remove(group@).contains(
                        k,
                    ) by {
                        if self@.contains(k) {
                            let a = choose|a: int| 0 <= a < ns.len() && ns[a] == k;
                            let oa = if a < i {
                                a
                            } else {
                                a + 1
                            };
                            assert(ns[a] == old_ns[oa]);
                            assert(old_ns[oa] == k);
                            assert(old_ns[i as int] == group@);
                            if k == group@ {
                                lemma_lex_trichotomy(old_ns[oa], old_ns[i as int]);
                                assert(false);
                            }
                        }
                        if old(self)@.contains(k) && k != group@ {
                            let a = choose|a: int| 0 <= a < old_ns.len() && old_ns[a] == k;
                            let na = if a < i {
                                a
                            } else {
                                a - 1
                            };
                            assert(old_ns[i as int] == group@);
                            assert(a != i);
                            assert(ns[na] == old_ns[a]);
                            assert(ns[na] == k);
                        }
                    }
                    assert(self@ =~= old(self)@.remove(group@));
                }
                return;
            }
            i = i + 1;
        }
        proof {
            if old(self)@.contains(group@) {
                let k = choose|k: int| 0 <= k < old_ns.len() && old_ns[k] == group@;
                assert(self.groups@[k]@ == group@);
            }
            assert(self@ =~= old(self)@.remove(group@));
        }
    }

    /// Builds the set holding the given names.
    pub fn new_with_groups(groups: Vec<String>) -> (r: UserGroups)
        ensures
            r.wf(),
            r@ == name_set(name_views(groups@)),
    {
        let mut r = UserGroups { groups: Vec::new() };
        proof {
            assert(name_views(r.groups@) =~= Seq::empty());
            assert(r@ =~= name_set(name_views(groups@.take(0))));
        }
        let mut k: usize = 0;
        while k < groups.len()
            invariant
                0 <= k <= groups@.len(),
                r.wf(),
                r@ == name_set(name_views(groups@.take(k as int))),
            decreases groups@.len() - k,
        {
            let g = groups[k].clone();
            proof {
                assert(groups@[k as int]@ == g@);
            }
            r.insert(g);
            proof {
                let pre = name_views(groups@.take(k as int));
                let post = name_views(groups@.take(k + 1));
                assert forall|x: Seq<char>|
                    #![trigger name_set(post).contains(x)]
                    #![trigger name_set(pre).insert(groups@[k as int]@).contains(x)]
                    true implies name_set(post).contains(x) == name_set(pre).insert(
                    groups@[k as int]@,
                ).contains(x) by {
                    if name_set(post).contains(x) {
                        let i = choose|i: int| 0 <= i < post.len() && post[i] == x;
                        if i < k {
                            assert(pre[i] == x);
                        }
                    }
                    if name_set(pre).contains(x) {
                        let i = choose|i: int| 0 <= i < pre.len() && pre[i] == x;
                        assert(post[i] == x);
                    }
                    if x == groups@[k as int]@ {
                        assert(post[k as int] == x);
                    }
                }
                assert(name_set(post) =~= name_set(pre).insert(groups@[k as int]@));
            }
            k = k + 1;
        }
        proof {
            assert(groups@.take(groups@.len() as int) =~= groups@);
        }
        r
    }

    /// The names, in sorted order.
    pub fn groups(&self) -> (r: &Vec<String>)
        ensures
            r@ == self.groups@,
    {
        &self.groups
    }

    /// Does the filter hold of this set of names?
    pub fn matches(&self, filter: &GroupFilter) -> (r: bool)
        ensures
            r == sat_names(filter@, self@, None),
    {
        self.matches_with_name(filter, None)
    }

    /// Does the filter hold of this set of names, with `name` as the
    /// optional name context for the reserved `name-after` / `name-before`
    /// keys?
    #[verifier::loop_isolation(false)]
    pub fn matches_with_name(&self, filter: &GroupFilter, name: Option<&str>) -> (r: bool)
        ensures
            r == sat_names(filter@, self@, name_view(name)),
        decreases filter,
    {
        match filter {
            GroupFilter::Is { id, value } => {
                if let Some(n) = name {
                    if str_eq(id.as_str(), "name-after") {
                        return str_le(value.as_str(), n);
                    }
                    if str_eq(id.as_str(), "name-before") {
                        return str_le(n, value.as_str());
                    }
                }
                if self.contains_name(id.as_str()) {
                    str_eq(id.as_str(), value.as_str())
                } else {
                    false
                }
            },
            GroupFilter::All(fs) => {
                let ghost ms = filter@->All_0;
                let mut k: usize = 0;
                while k < fs.len()
                    invariant
                        0 <= k <= fs@.len(),
                        forall|i: int|
                            0 <= i < k ==> sat_names(#[trigger] ms[i], self@, name_view(name)),
                    decreases fs@.len() - k,
                {
                    if !self.matches_with_name(&fs[k], name) {
                        proof {
                            assert(ms[k as int] == fs@[k as int]@);
                        }
                        return false;
                    }
                    k = k + 1;
                }
                true
            },
            GroupFilter::Any(fs) => {
                let ghost ms = filter@->Any_0;
                let mut k: usize = 0;
                while k < fs.len()
                    invariant
                        0 <= k <= fs@.len(),
                        forall|i: int|
                            0 <= i < k ==> !sat_names(#[trigger] ms[i], self@, name_view(name)),
                    decreases fs@.len() - k,
                {
                    if self.matches_with_name(&fs[k], name) {
                        proof {
                            assert(ms[k as int] == fs@[k as int]@);
                        }
                        return true;
                    }
                    k = k + 1;
                }
                false
            },
        }
    }
}

impl UserGroups {
    /// Writes the names in sorted order, joined by `+`.
    pub fn format_to_string(&self) -> (r: String)
        ensures
            r@ == names_text(self.names()),
    {
        let ghost ns = self.names();
        let mut out = String::new();
        proof {
            assert(ns.take(0) =~= Seq::empty());
            assert(out@ =~= names_text(ns.take(0)));
        }
        let mut k: usize = 0;
        while k < self.groups.len()
            invariant
                0 <= k <= self.groups@.len(),
                ns == self.names(),
                out@ == names_text(ns.take(k as int)),
            decreases self.groups@.len() - k,
        {
            if k > 0 {
                out.append("+");
            }
            out.append(self.groups[k].as_str());
            proof {
                reveal_strlit("+");
                lemma_names_text_push(ns.take(k as int), ns[k as int]);
                assert(ns.take(k as int).push(ns[k as int]) =~= ns.take(k + 1));
                assert(out@ =~= names_text(ns.take(k + 1)));
            }
            k = k + 1;
        }
        proof {
            assert(ns.take(ns.len() as int) =~= ns);
        }
        out
    }

    /// Reads a set of names from text: whitespace is trimmed at both ends,
    /// the rest split on `+`, and empty segments skipped. Every text reads.
    pub fn read_from_string(s: &str) -> (r: Result<UserGroups, String>)
        ensures
            r matches Ok(u) && u.wf() && u@ == name_set(sp_user_names(s@)),
    {
        let slen = s.unicode_len();
        let start = skip_whitespaces(s, 0);
        let mut end = slen;
        while end > 0 && ws_char(s.get_char(end - 1))
            invariant
                0 <= end <= slen,
                slen == s@.len(),
                sp_ws_end(s@, s@.len()) == sp_ws_end(s@, end as nat),
            decreases end,
        {
            end = end - 1;
        }
        let ghost fin = sp_ws_end(s@, s@.len());
        proof {
            assert(fin == end);
        }
        let mut u = UserGroups { groups: Vec::new() };
        let ghost mut acc: Seq<Seq<char>> = Seq::empty();
        let mut cur = start;
        proof {
            assert(name_views(u.groups@) =~= Seq::empty());
            assert(u@ =~= name_set(acc));
            assert(acc + sp_read_names(s@, cur as nat, fin) =~= sp_read_names(
                s@,
                cur as nat,
                fin,
            ));
        }
        while cur < end
            invariant
                slen == s@.len(),
                cur <= s@.len(),
                end == fin <= s@.len(),
                u.wf(),
                u@ == name_set(acc),
                sp_user_names(s@) == acc + sp_read_names(s@, cur as nat, fin),
            decreases s@.len() - cur,
        {
            let p0 = seg_end(s, cur);
            let p = if p0 < end {
                p0
            } else {
                end
            };
            if p > cur {
                let name = s.substring_char(cur, p).to_owned();
                let ghost e = name@;
                u.insert(name);
                proof {
                    lemma_name_set_push(acc, e);
                    acc = acc.push(e);
                }
            }
            let ghost prev = cur as nat;
            cur = if p < end {
                p + 1
            } else {
                end
            };
            proof {
                if p > prev {
                    assert(acc.drop_last() + (seq![acc.last()] + sp_read_names(
                        s@,
                        cur as nat,
                        fin,
                    )) =~= acc + sp_read_names(s@, cur as nat, fin));
                    assert(sp_read_names(s@, prev, fin) == seq![acc.last()] + sp_read_names(
                        s@,
                        cur as nat,
                        fin,
                    ));
                } else {
                    assert(sp_read_names(s@, prev, fin) == sp_read_names(s@, cur as nat, fin));
                }
            }
        }
        proof {
            assert(sp_read_names(s@, cur as nat, fin) =~= Seq::<Seq<char>>::empty());
            assert(acc + Seq::<Seq<char>>::empty() =~= acc);
        }
        Ok(u)
    }
}

impl Default for UserGroups {
    /// The default memberships of a freshly imported student account.
    fn default() -> (r: Self)
        ensures
            r.wf(),
            r@ == Set::<Seq<char>>::empty().insert("iti3"@).insert("stpi2-precedent"@).insert(
                "stpi22-p9-td-01"@,
            ).insert("ad-etudiants"@).insert("h-22-ang-cult-stpi-gg-01"@).insert(
                "h-22-ang-cult-stpi-pg-02"@,
            ).insert("etudiants"@).insert("h-22-com-stpi-08"@).insert("stpi21-tp-a1"@).insert(
                "stpi22-i4-td-01"@,
            ).insert("stpi21-all-td-a-j-k"@).insert("stpi22-i3-td-01"@),
    {
        let mut u = UserGroups { groups: Vec::new() };
        proof {
            assert(name_views(u.groups@) =~= Seq::empty());
            assert(u@ =~= Set::<Seq<char>>::empty());
        }
        u.insert("iti3".to_owned());
        u.insert("stpi2-precedent".to_owned());
        u.insert("stpi22-p9-td-01".to_owned());
        u.insert("ad-etudiants".to_owned());
        u.insert("h-22-ang-cult-stpi-gg-01".to_owned());
        u.insert("h-22-ang-cult-stpi-pg-02".to_owned());
        u.insert("etudiants".to_owned());
        u.insert("h-22-com-stpi-08".to_owned());
        u.insert("stpi21-tp-a1".to_owned());
        u.insert("stpi22-i4-td-01".to_owned());
        u.insert("stpi21-all-td-a-j-k".to_owned());
        u.insert("stpi22-i3-td-01".to_owned());
        u
    }
}

/// One finding of a validation pass, as this module's callers historically
/// named it; the same shape as the attribute-set validator's findings.
#[derive(Debug, Clone, PartialEq, Eq)]
pub enum ValidationIssue {
    MissingRequiredGroup { group: String },
    InvalidValue { group: String, value: String },
    UnknownGroup { group: String },
}

} // verus!
