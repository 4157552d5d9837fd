//! A plain set of group names, as records carry it: one subject's
//! memberships, matched against another subject's by intersection.
use vstd::prelude::*;
use crate::text::{lex_lt, lemma_lex_trichotomy, lemma_lex_trans, str_eq, str_lt};
use crate::user_groups::{
    name_views,
    names_sorted,
    name_set,
    names_text,
    lemma_names_text_push,
    lemma_name_set_push,
    sp_read_names,
};
use crate::attr_text::seg_end;

verus! {

/// Two sets of names share a member.
pub open spec fn groups_overlap(a: Set<Seq<char>>, b: Set<Seq<char>>) -> bool {
    exists|g: Seq<char>| a.contains(g) && b.contains(g)
}

/// A set of group names, kept sorted and without duplicates; `wf` states
/// that invariant and every method keeps it.
#[derive(Debug, PartialEq, Eq)]
pub struct Groups {
    pub groups: Vec<String>,
}

impl View for Groups {
    type V = Set<Seq<char>>;

    /// The set of names this value stands for.
    open spec fn view(&self) -> Set<Seq<char>> {
        name_set(name_views(self.groups@))
    }
}

impl Clone for Groups {
    /// A clone stands for the same set of names.
    fn clone(&self) -> (r: Self)
        ensures
            r.names() == self.names(),
            r@ == self@,
            self.wf() ==> r.wf(),
    {
        let mut gs: Vec<String> = Vec::new();
        let mut i: usize = 0;
        while i < self.groups.len()
            invariant
                0 <= i <= self.groups@.len(),
                gs@.len() == i,
                forall|k: int| 0 <= k < i ==> (#[trigger] gs@[k])@ == self.groups@[k]@,
            decreases self.groups@.len() - i,
        {
            gs.push(self.groups[i].clone());
            i = i + 1;
        }
        let r = Groups { groups: gs };
        proof {
            assert(r.names() =~= self.names());
        }
        r
    }
}

impl Groups {
    /// The names, as character sequences and in stored order.
    pub open spec fn names(self) -> Seq<Seq<char>> {
        name_views(self.groups@)
    }

    /// Well-formed: names strictly ascending.
    pub open spec fn wf(self) -> bool {
        names_sorted(self.names())
    }

    /// Is `group` one of the names?
    fn contains_name(&self, group: &str) -> (r: bool)
        ensures
            r == self@.contains(group@),
    {
        let mut i: usize = 0;
        while i < self.groups.len()
            invariant
                0 <= i <= self.groups@.len(),
                forall|k: int| 0 <= k < i ==> (#[trigger] self.groups@[k])@ != group@,
            decreases self.groups@.len() - i,
        {
            if str_eq(self.groups[i].as_str(), group) {
                proof {
                    assert(self.names()[i as int] == group@);
                }
                return true;
            }
            i = i + 1;
        }
        proof {
            if self@.contains(group@) {
                let k = choose|k: int| 0 <= k < self.names().len() && self.names()[k] == group@;
                assert(self.groups@[k]@ == group@);
            }
        }
        false
    }

    /// Adds a name to the set, keeping the names sorted; adding a name
    /// already present changes nothing.
    pub fn insert(&mut self, group: String)
        requires
            old(self).wf(),
        ensures
            final(self).wf(),
            final(self)@ == old(self)@.insert(group@),
    {
        let ghost old_ns = old(self).names();
        let mut pos: usize = 0;
        while pos < self.groups.len() && str_lt(self.groups[pos].as_str(), group.as_str())
            invariant
                0 <= pos <= self.groups@.len(),
                self == old(self),
                forall|k: int| 0 <= k < pos ==> lex_lt((#[trigger] self.groups@[k])@, group@),
            decreases self.groups@.len() - pos,
        {
            pos = pos + 1;
        }
        if pos < self.groups.len() && str_eq(self.groups[pos].as_str(), group.as_str()) {
            // already present: the set is unchanged
            proof {
                assert(old_ns[pos as int] == group@);
                assert(self@.contains(group@));
                assert(self@ =~= old(self)@.insert(group@));
            }
        } else {
            proof {
                if pos < self.groups@.len() {
                    lemma_lex_trichotomy(self.groups@[pos as int]@, group@);
                }
            }
            self.groups.insert(pos, group);
            proof {
                let ns = self.names();
                assert forall|i: int, j: int| 0 <= i < j < ns.len() implies lex_lt(
                    #[trigger] ns[i],
                    #[trigger] ns[j],
                ) by {
                    let oi = if i < pos {
                        i
                    } else {
                        i - 1
                    };
                    let oj = if j < pos {
                        j
                    } else {
                        j - 1
                    };
                    if i == pos {
                        assert(ns[j] == old_ns[oj]);
                        if oj > pos {
                            assert(lex_lt(old_ns[pos as int], old_ns[oj]));
                            lemma_lex_trans(group@, old_ns[pos as int], old_ns[oj]);
                        }
                    } else if j == pos {
                        assert(ns[i] == old_ns[oi]);
                    } else {
                        assert(ns[i] == old_ns[oi]);
                        assert(ns[j] == old_ns[oj]);
                        if oi < oj {
                            assert(lex_lt(old_ns[oi], old_ns[oj]));
                        } else {
                            assert(lex_lt(old_ns[oi], group@) && lex_lt(group@, old_ns[oj]));
                            lemma_lex_trans(old_ns[oi], group@, old_ns[oj]);
                        }
                    }
                }
                assert forall|k: Seq<char>|
                    #![trigger self@.contains(k)]
                    #![trigger old(self)@.insert(group@).contains(k)]
                    true implies self@.contains(k) == old(self)@.insert(group@).contains(k) by {
                    let ns = self.names();
                    if k == group@ {
                        assert(ns[pos as int] == group@);
                        assert(self@.contains(k));
                    } else {
                        if self@.contains(k) {
                            let i = choose|i: int| 0 <= i < ns.len() && ns[i] == k;
                            let oi = if i < pos {
                                i
                            } else {
                                i - 1
                            };
                            assert(old_ns[oi] == k);
                        }
                        if old(self)@.contains(k) {
                            let i = choose|i: int| 0 <= i < old_ns.len() && old_ns[i] == k;
                            let ni = if i < pos {
                                i
                            } else {
                                i + 1
                            };
                            assert(self.names()[ni] == k);
                        }
                    }
                }
                assert(self@ =~= old(self)@.insert(group@));
            }
        }
    }

    /// Removes a name from the set, if present.
    pub fn remove(&mut self, group: &str)
        requires
            old(self).wf(),
        ensures
            final(self).wf(),
            final(self)@ == old(self)@.remove(group@),
    {
        let ghost old_ns = old(self).names();
        let mut i: usize = 0;
        while i < self.groups.len()
            invariant
                0 <= i <= self.groups@.len(),
                self == old(self),
                old_ns == name_views(self.groups@),
                names_sorted(old_ns),
                forall|k: int| 0 <= k < i ==> (#[trigger] self.groups@[k])@ != group@,
            decreases self.groups@.len() - i,
        {
            if str_eq(self.groups[i].as_str(), group) {
                self.groups.remove(i);
                proof {
                    old(self).groups@.remove_ensures(i as int);
                    let ns = self.names();
                    assert forall|a: int, b: int| 0 <= a < b < ns.len() implies lex_lt(
                        #[trigger] ns[a],
                        #[trigger] ns[b],
                    ) by {
                        let oa = if a < i {
                            a
                        } else {
                            a + 1
                        };
                        let ob = if b < i {
                            b
                        } else {
                            b + 1
                        };
                        assert(ns[a] == old_ns[oa]);
                        assert(ns[b] == old_ns[ob]);
                        assert(lex_lt(old_ns[oa], old_ns[ob]));
                    }
                    assert forall|k: Seq<char>|
                        #![trigger self@.contains(k)]
                        #![trigger old(self)@.remove(group@).contains(k)]
                        true implies self@.contains(k) == old(self)@.remove(group@).contains(
                        k,
                    ) by {
                        if self@.contains(k) {
                            let a = choose|a: int| 0 <= a < ns.len() && ns[a] == k;
                            let oa = if a < i {
                                a
                            } else {
                                a + 1
                            };
                            assert(ns[a] == old_ns[oa]);
                            assert(old_ns[oa] == k);
                            assert(old_ns[i as int] == group@);
                            if k == group@ {
                                lemma_lex_trichotomy(old_ns[oa], old_ns[i as int]);
                                assert(false);
                            }
                        }
                        if old(self)@.contains(k) && k != group@ {
                            let a = choose|a: int| 0 <= a < old_ns.len() && old_ns[a] == k;
                            let na = if a < i {
                                a
                            } else {
                                a - 1
                            };
                            assert(old_ns[i as int] == group@);
                            assert(a != i);
                            assert(ns[na] == old_ns[a]);
                        }
                    }
                    assert(self@ =~= old(self)@.remove(group@));
                }
                return;
            }
            i = i + 1;
        }
        proof {
            if old(self)@.contains(group@) {
                let k = choose|k: int| 0 <= k < old_ns.len() && old_ns[k] == group@;
                assert(self.groups@[k]@ == group@);
            }
            assert(self@ =~= old(self)@.remove(group@));
        }
    }

    /// Builds the set holding the given names.
    pub fn new_with_groups(groups: Vec<String>) -> (r: Groups)
        ensures
            r.wf(),
            r@ == name_set(name_views(groups@)),
    {
        let mut r = Groups { groups: Vec::new() };
        proof {
            assert(name_views(r.groups@) =~= Seq::empty());
            assert(r@ =~= name_set(name_views(groups@.take(0))));
        }
        let mut k: usize = 0;
        while k < groups.len()
            invariant
                0 <= k <= groups@.len(),
                r.wf(),
                r@ == name_set(name_views(groups@.take(k as int))),
            decreases groups@.len() - k,
        {
            let g = groups[k].clone();
            proof {
                assert(groups@[k as int]@ == g@);
            }
            r.insert(g);
            proof {
                let pre = name_views(groups@.take(k as int));
                let post = name_views(groups@.take(k + 1));
                assert(post.drop_last() =~= pre);
                assert(post.last() == groups@[k as int]@);
                assert(post =~= pre.push(groups@[k as int]@));
                lemma_name_set_push(pre, groups@[k as int]@);
            }
            k = k + 1;
        }
        proof {
            assert(groups@.take(groups@.len() as int) =~= groups@);
        }
        r
    }

    /// The names, in sorted order.
    pub fn groups(&self) -> (r: &Vec<String>)
        ensures
            r@ == self.groups@,
    {
        &self.groups
    }

    /// Do this set and `another` share a member?
    pub fn matches(&self, another: &Groups) -> (r: bool)
        ensures
            r == groups_overlap(self@, another@),
    {
        let mut i: usize = 0;
        while i < self.groups.len()
            invariant
                0 <= i <= self.groups@.len(),
                forall|k: int| 0 <= k < i ==> !another@.contains((#[trigger] self.groups@[k])@),
            decreases self.groups@.len() - i,
        {
            if another.contains_name(self.groups[i].as_str()) {
                proof {
                    assert(self.names()[i as int] == self.groups@[i as int]@);
                    assert(self@.contains(self.groups@[i as int]@));
                }
                return true;
            }
            i = i + 1;
        }
        proof {
            if groups_overlap(self@, another@) {
                let g = choose|g: Seq<char>| self@.contains(g) && another@.contains(g);
                let k = choose|k: int| 0 <= k < self.names().len() && self.names()[k] == g;
                assert(self.groups@[k]@ == g);
            }
        }
        false
    }

    /// As `matches`; the name context plays no part for plain sets.
    pub fn matches_with_name(&self, another: &Groups, name: Option<&str>) -> (r: bool)
        ensures
            r == groups_overlap(self@, another@),
    {
        self.matches(another)
    }

    /// Reads a set of names from text: the text split on `+`, empty
    /// segments skipped. Every text reads.
    pub fn read_from_string(s: &str) -> (r: Result<Groups, String>)
        ensures
            r matches Ok(g) && g.wf() && g@ == name_set(
                sp_read_names(s@, 0, s@.len() as nat),
            ),
    {
        let slen = s.unicode_len();
        let mut g = Groups { groups: Vec::new() };
        let ghost mut acc: Seq<Seq<char>> = Seq::empty();
        let mut cur: usize = 0;
        proof {
            assert(name_views(g.groups@) =~= Seq::empty());
            assert(g@ =~= name_set(acc));
            assert(acc + sp_read_names(s@, cur as nat, s@.len() as nat) =~= sp_read_names(
                s@,
                cur as nat,
                s@.len() as nat,
            ));
        }
        while cur < slen
            invariant
                slen == s@.len(),
                cur <= s@.len(),
                g.wf(),
                g@ == name_set(acc),
                sp_read_names(s@, 0, s@.len() as nat) == acc + sp_read_names(
                    s@,
                    cur as nat,
                    s@.len() as nat,
                ),
            decreases s@.len() - cur,
        {
            let p = seg_end(s, cur);
            if p > cur {
                let name = s.substring_char(cur, p).to_owned();
                let ghost e = name@;
                g.insert(name);
                proof {
                    lemma_name_set_push(acc, e);
                    acc = acc.push(e);
                }
            }
            let ghost prev = cur as nat;
            cur = if p < slen {
                p + 1
            } else {
                slen
            };
            proof {
                if p > prev {
                    assert(acc.drop_last() + (seq![acc.last()] + sp_read_names(
                        s@,
                        cur as nat,
                        s@.len() as nat,
                    )) =~= acc + sp_read_names(s@, cur as nat, s@.len() as nat));
                    assert(sp_read_names(s@, prev, s@.len() as nat) == seq![acc.last()]
                        + sp_read_names(s@, cur as nat, s@.len() as nat));
                } else {
                    assert(sp_read_names(s@, prev, s@.len() as nat) == sp_read_names(
                        s@,
                        cur as nat,
                        s@.len() as nat,
                    ));
                }
            }
        }
        proof {
            assert(sp_read_names(s@, cur as nat, s@.len() as nat) =~= Seq::<Seq<char>>::empty());
            assert(acc + Seq::<Seq<char>>::empty() =~= acc);
        }
        Ok(g)
    }

    /// Writes the names in sorted order, joined by `+`.
    pub fn format_to_string(&self) -> (r: String)
        ensures
            r@ == names_text(self.names()),
    {
        let ghost ns = self.names();
        let mut out = String::new();
        proof {
            assert(ns.take(0) =~= Seq::empty());
            assert(out@ =~= names_text(ns.take(0)));
        }
        let mut k: usize = 0;
        while k < self.groups.len()
            invariant
                0 <= k <= self.groups@.len(),
                ns == self.names(),
                out@ == names_text(ns.take(k as int)),
            decreases self.groups@.len() - k,
        {
            if k > 0 {
                out.append("+");
            }
            out.append(self.groups[k].as_str());
            proof {
                reveal_strlit("+");
                lemma_names_text_push(ns.take(k as int), ns[k as int]);
                assert(ns.take(k as int).push(ns[k as int]) =~= ns.take(k + 1));
                assert(out@ =~= names_text(ns.take(k + 1)));
            }
            k = k + 1;
        }
        proof {
            assert(ns.take(ns.len() as int) =~= ns);
        }
        out
    }
}

impl Default for Groups {
    /// The default memberships of a freshly imported student account.
    fn default() -> (r: Self)
        ensures
            r.wf(),
            r@ == Set::<Seq<char>>::empty().insert("iti3"@).insert("stpi2-precedent"@).insert(
                "stpi22-p9-td-01"@,
            ).insert("ad-etudiants"@).insert("h-22-ang-cult-stpi-gg-01"@).insert(
                "h-22-ang-cult-stpi-pg-02"@,
            ).insert("etudiants"@).insert("h-22-com-stpi-08"@).insert("stpi21-tp-a1"@).insert(
                "stpi22-i4-td-01"@,
            ).insert("stpi21-all-td-a-j-k"@).insert("stpi22-i3-td-01"@),
    {
        let mut g = Groups { groups: Vec::new() };
        proof {
            assert(name_views(g.groups@) =~= Seq::empty());
            assert(g@ =~= Set::<Seq<char>>::empty());
        }
        g.insert("iti3".to_owned());
        g.insert("stpi2-precedent".to_owned());
        g.insert("stpi22-p9-td-01".to_owned());
        g.insert("ad-etudiants".to_owned());
        g.insert("h-22-ang-cult-stpi-gg-01".to_owned());
        g.insert("h-22-ang-cult-stpi-pg-02".to_owned());
        g.insert("etudiants".to_owned());
        g.insert("h-22-com-stpi-08".to_owned());
        g.insert("stpi21-tp-a1".to_owned());
        g.insert("stpi22-i4-td-01".to_owned());
        g.insert("stpi21-all-td-a-j-k".to_owned());
        g.insert("stpi22-i3-td-01".to_owned());
        g
    }
}

} // verus!
