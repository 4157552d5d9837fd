//! The attribute set: an ordered key/value store describing one subject.
//! Keys are unique and the entries are kept sorted by key, which makes the
//! canonical text form and the order of validation issues deterministic.
use vstd::prelude::*;
use crate::text::{lex_lt, lemma_lex_trichotomy, lemma_lex_trans, str_eq, str_lt, str_le};
use crate::group_filter::{GroupFilter, FilterModel, sat};
use crate::group::Group;

verus! {

/// The entries of an attribute vector, as character sequences.
pub open spec fn entry_views(gs: Seq<(String, String)>) -> Seq<(Seq<char>, Seq<char>)> {
    gs.map_values(|p: (String, String)| (p.0@, p.1@))
}

/// Entries strictly ascending by key: sorted, and keys unique.
pub open spec fn entries_sorted(es: Seq<(Seq<char>, Seq<char>)>) -> bool {
    forall|i: int, j: int|
        0 <= i < j < es.len() ==> lex_lt(#[trigger] es[i].0, #[trigger] es[j].0)
}

/// The mapping that a sequence of entries stands for; a later entry for the
/// same key overrides an earlier one.
pub open spec fn map_of(es: Seq<(Seq<char>, Seq<char>)>) -> Map<Seq<char>, Seq<char>>
    decreases es.len(),
{
    if es.len() == 0 {
        Map::empty()
    } else {
        map_of(es.drop_last()).insert(es.last().0, es.last().1)
    }
}

/// The domain of `map_of` is exactly the set of keys of the entries.
pub proof fn lemma_map_of_domain(es: Seq<(Seq<char>, Seq<char>)>)
    ensures
        forall|k: Seq<char>| #[trigger]
            map_of(es).contains_key(k) ==> exists|i: int| 0 <= i < es.len() && es[i].0 == k,
        forall|i: int| 0 <= i < es.len() ==> map_of(es).contains_key(#[trigger] es[i].0),
    decreases es.len(),
{
    if es.len() > 0 {
        lemma_map_of_domain(es.drop_last());
        assert forall|k: Seq<char>| #[trigger] map_of(es).contains_key(k) implies exists|i: int|
            0 <= i < es.len() && es[i].0 == k by {
            if k == es.last().0 {
                assert(es[es.len() - 1].0 == k);
            } else {
                assert(map_of(es.drop_last()).contains_key(k));
                let i = choose|i: int| 0 <= i < es.drop_last().len() && es.drop_last()[i].0 == k;
                assert(es.drop_last()[i] == es[i]);
                assert(es[i].0 == k);
            }
        }
        assert forall|i: int| 0 <= i < es.len() implies map_of(es).contains_key(
            #[trigger] es[i].0,
        ) by {
            if i < es.len() - 1 {
                assert(es.drop_last()[i].0 == es[i].0);
            }
        }
    }
}

/// With unique keys, `map_of` maps each entry's key to that entry's value.
pub proof fn lemma_map_of_values(es: Seq<(Seq<char>, Seq<char>)>)
    requires
        forall|i: int, j: int| 0 <= i < j < es.len() ==> (#[trigger] es[i]).0 != (
        #[trigger] es[j]).0,
    ensures
        forall|i: int|
            0 <= i < es.len() ==> map_of(es).contains_key(#[trigger] es[i].0) && map_of(es)[es[i].0]
                == es[i].1,
    decreases es.len(),
{
    lemma_map_of_domain(es);
    if es.len() > 0 {
        lemma_map_of_values(es.drop_last());
        assert forall|i: int| 0 <= i < es.len() implies map_of(es).contains_key(
            #[trigger] es[i].0,
        ) && map_of(es)[es[i].0] == es[i].1 by {
            if i < es.len() - 1 {
                assert(es.drop_last()[i] == es[i]);
                assert(es[i].0 != es[es.len() - 1].0);
            }
        }
    }
}

/// Strictly ascending keys are distinct.
pub proof fn lemma_sorted_keys_distinct(es: Seq<(Seq<char>, Seq<char>)>)
    requires
        entries_sorted(es),
    ensures
        forall|i: int, j: int| 0 <= i < j < es.len() ==> (#[trigger] es[i]).0 != (
        #[trigger] es[j]).0,
{
    assert forall|i: int, j: int| 0 <= i < j < es.len() implies (#[trigger] es[i]).0 != (
    #[trigger] es[j]).0 by {
        assert(lex_lt(es[i].0, es[j].0));
        lemma_lex_trichotomy(es[i].0, es[j].0);
    }
}

/// An ordered key/value attribute set describing one subject. The entries
/// are strictly sorted by key; `wf` states that invariant and every method
/// keeps it.
#[derive(Debug, PartialEq, Eq, PartialOrd, Ord)]
pub struct GroupDescriptor {
    pub groups: Vec<(String, String)>,
}

impl View for GroupDescriptor {
    type V = Map<Seq<char>, Seq<char>>;

    /// The mapping this attribute set stands for.
    open spec fn view(&self) -> Map<Seq<char>, Seq<char>> {
        map_of(entry_views(self.groups@))
    }
}

impl Clone for GroupDescriptor {
    /// A clone stands for the same attribute set.
    fn clone(&self) -> (r: Self)
        ensures
            r.entries() == self.entries(),
            r@ == self@,
            self.wf() ==> r.wf(),
    {
        let mut gs: Vec<(String, String)> = Vec::new();
        let mut i: usize = 0;
        while i < self.groups.len()
            invariant
                0 <= i <= self.groups@.len(),
                gs@.len() == i,
                forall|k: int|
                    0 <= k < i ==> (#[trigger] gs@[k]).0@ == self.groups@[k].0@ && gs@[k].1@
                        == self.groups@[k].1@,
            decreases self.groups@.len() - i,
        {
            gs.push((self.groups[i].0.clone(), self.groups[i].1.clone()));
            i = i + 1;
        }
        let r = GroupDescriptor { groups: gs };
        proof {
            assert(r.entries() =~= self.entries());
        }
        r
    }
}

impl GroupDescriptor {
    /// The entries, sorted strictly by key.
    pub open spec fn entries(self) -> Seq<(Seq<char>, Seq<char>)> {
        entry_views(self.groups@)
    }

    /// Well-formed: entries strictly ascending by key.
    pub open spec fn wf(self) -> bool {
        entries_sorted(self.entries())
    }

    /// Each entry's key is mapped to that entry's value.
    pub proof fn lemma_view_entries(self)
        requires
            self.wf(),
        ensures
            forall|i: int|
                0 <= i < self.entries().len() ==> self@.contains_key(
                    #[trigger] self.entries()[i].0,
                ) && self@[self.entries()[i].0] == self.entries()[i].1,
            forall|k: Seq<char>| #[trigger]
                self@.contains_key(k) ==> exists|i: int|
                    0 <= i < self.entries().len() && self.entries()[i].0 == k,
    {
        lemma_sorted_keys_distinct(self.entries());
        lemma_map_of_values(self.entries());
        lemma_map_of_domain(self.entries());
    }

    /// The position of the entry for `id`, if the key is present.
    fn index_of_key(&self, id: &str) -> (r: Option<usize>)
        ensures
            match r {
                Some(i) => i < self.groups@.len() && self.groups@[i as int].0@ == id@,
                None => forall|i: int|
                    0 <= i < self.groups@.len() ==> (#[trigger] self.groups@[i]).0@ != id@,
            },
    {
        let mut i: usize = 0;
        while i < self.groups.len()
            invariant
                0 <= i <= self.groups@.len(),
                forall|k: int| 0 <= k < i ==> (#[trigger] self.groups@[k]).0@ != id@,
            decreases self.groups@.len() - i,
        {
            if str_eq(self.groups[i].0.as_str(), id) {
                return Some(i);
            }
            i = i + 1;
        }
        None
    }

    /// The value stored under `id`, if any.
    pub fn get(&self, id: &str) -> (r: Option<&String>)
        requires
            self.wf(),
        ensures
            match r {
                Some(v) => self@.contains_key(id@) && self@[id@] == v@,
                None => !self@.contains_key(id@),
            },
    {
        proof {
            self.lemma_view_entries();
        }
        match self.index_of_key(id) {
            Some(i) => {
                proof {
                    assert(self.entries()[i as int] == (self.groups@[i as int].0@, self.groups@[
                        i as int].1@));
                    assert(self.entries()[i as int].0 == id@);
                    assert(self@[id@] == self.entries()[i as int].1);
                }
                Some(&self.groups[i].1)
            },
            None => {
                proof {
                    if self@.contains_key(id@) {
                        let i = choose|i: int|
                            0 <= i < self.entries().len() && self.entries()[i].0 == id@;
                        assert(self.groups@[i].0@ == id@);
                    }
                }
                None
            },
        }
    }

    /// Stores `value` under `id`, keeping the entries sorted; an existing
    /// value for the same key is replaced.
    pub fn insert(&mut self, id: String, value: String)
        requires
            old(self).wf(),
        ensures
            final(self).wf(),
            final(self)@ == old(self)@.insert(id@, value@),
    {
        proof {
            old(self).lemma_view_entries();
        }
        let mut pos: usize = 0;
        while pos < self.groups.len() && str_lt(self.groups[pos].0.as_str(), id.as_str())
            invariant
                0 <= pos <= self.groups@.len(),
                self == old(self),
                forall|k: int| 0 <= k < pos ==> lex_lt((#[trigger] self.groups@[k]).0@, id@),
            decreases self.groups@.len() - pos,
        {
            pos = pos + 1;
        }
        let ghost old_es = old(self).entries();
        if pos < self.groups.len() && str_eq(self.groups[pos].0.as_str(), id.as_str()) {
            self.groups.remove(pos);
            self.groups.insert(pos, (id, value));
            proof {
                let es = self.entries();
                assert forall|i: int, j: int| 0 <= i < j < es.len() implies lex_lt(
                    (#[trigger] es[i]).0,
                    (#[trigger] es[j]).0,
                ) by {
                    assert(old_es[i].0 == es[i].0 || (i == pos && es[i].0 == id@));
                    assert(old_es[j].0 == es[j].0 || (j == pos && es[j].0 == id@));
                    assert(lex_lt(old_es[i].0, old_es[j].0));
                }
                lemma_sorted_keys_distinct(old_es);
                lemma_sorted_keys_distinct(es);
                lemma_map_of_values(old_es);
                lemma_map_of_values(es);
                lemma_map_of_domain(old_es);
                lemma_map_of_domain(es);
                assert forall|k: Seq<char>|
                    #![trigger self@.contains_key(k)]
                    #![trigger old(self)@.insert(id@, value@).contains_key(k)]
                    true implies (self@.contains_key(k) == old(self)@.insert(
                    id@,
                    value@,
                ).contains_key(k)) && (self@.contains_key(k) ==> self@[k] == old(self)@.insert(
                    id@,
                    value@,
                )[k]) by {
                    if k == id@ {
                        assert(es[pos as int].0 == id@);
                        assert(self@.contains_key(k) && self@[k] == value@);
                    } else {
                        if self@.contains_key(k) {
                            let i = choose|i: int| 0 <= i < es.len() && es[i].0 == k;
                            assert(old_es[i].0 == k);
                            assert(old(self)@[k] == old_es[i].1);
                            assert(self@[k] == es[i].1);
                        }
                        if old(self)@.contains_key(k) {
                            let i = choose|i: int| 0 <= i < old_es.len() && old_es[i].0 == k;
                            assert(es[i].0 == k);
                        }
                    }
                }
                assert(self@ =~= old(self)@.insert(id@, value@));
            }
        } else {
            proof {
                if pos < self.groups@.len() {
                    lemma_lex_trichotomy(self.groups@[pos as int].0@, id@);
                }
            }
            self.groups.insert(pos, (id, value));
            proof {
                let es = self.entries();
                assert forall|i: int, j: int| 0 <= i < j < es.len() implies lex_lt(
                    (#[trigger] es[i]).0,
                    (#[trigger] es[j]).0,
                ) by {
                    let oi = if i < pos {
                        i
                    } else {
                        i - 1
                    };
                    let oj = if j < pos {
                        j
                    } else {
                        j - 1
                    };
                    if i == pos {
                        // es[i].0 == id@ and id@ < every key at or after pos
                        assert(es[j].0 == old_es[oj].0);
                        if oj > pos {
                            assert(lex_lt(old_es[pos as int].0, old_es[oj].0));
                            lemma_lex_trans(id@, old_es[pos as int].0, old_es[oj].0);
                        }
                    } else if j == pos {
                        assert(es[i].0 == old_es[oi].0);
                    } else {
                        assert(es[i].0 == old_es[oi].0);
                        assert(es[j].0 == old_es[oj].0);
                        if oi < oj {
                            assert(lex_lt(old_es[oi].0, old_es[oj].0));
                        } else {
                            // oi == oj can only happen across the insertion
                            // point, where one of them is the new entry
                            assert(lex_lt(old_es[oi].0, id@) && lex_lt(id@, old_es[oj].0));
                            lemma_lex_trans(old_es[oi].0, id@, old_es[oj].0);
                        }
                    }
                }
                lemma_sorted_keys_distinct(old_es);
                lemma_sorted_keys_distinct(es);
                lemma_map_of_values(old_es);
                lemma_map_of_values(es);
                lemma_map_of_domain(old_es);
                lemma_map_of_domain(es);
                assert forall|k: Seq<char>|
                    #![trigger self@.contains_key(k)]
                    #![trigger old(self)@.insert(id@, value@).contains_key(k)]
                    true implies (self@.contains_key(k) == old(self)@.insert(
                    id@,
                    value@,
                ).contains_key(k)) && (self@.contains_key(k) ==> self@[k] == old(self)@.insert(
                    id@,
                    value@,
                )[k]) by {
                    if k == id@ {
                        assert(es[pos as int].0 == id@);
                        assert(self@.contains_key(k) && self@[k] == value@);
                    } else {
                        if self@.contains_key(k) {
                            let i = choose|i: int| 0 <= i < es.len() && es[i].0 == k;
                            let oi = if i < pos {
                                i
                            } else {
                                i - 1
                            };
                            assert(old_es[oi].0 == k);
                            assert(self@[k] == es[i].1);
                            assert(old(self)@[k] == old_es[oi].1);
                        }
                        if old(self)@.contains_key(k) {
                            let i = choose|i: int| 0 <= i < old_es.len() && old_es[i].0 == k;
                            let ni = if i < pos {
                                i
                            } else {
                                i + 1
                            };
                            assert(es[ni].0 == k);
                        }
                    }
                }
                assert(self@ =~= old(self)@.insert(id@, value@));
            }
        }
    }

    /// Removes the entry for `id`, if present.
    pub fn remove(&mut self, id: &str)
        requires
            old(self).wf(),
        ensures
            final(self).wf(),
            final(self)@ == old(self)@.remove(id@),
    {
        proof {
            old(self).lemma_view_entries();
        }
        let ghost old_es = old(self).entries();
        match self.index_of_key(id) {
            None => {
                proof {
                    if old(self)@.contains_key(id@) {
                        let i = choose|i: int| 0 <= i < old_es.len() && old_es[i].0 == id@;
                        assert(self.groups@[i].0@ == id@);
                    }
                    assert(self@ =~= old(self)@.remove(id@));
                }
            },
            Some(pos) => {
                self.groups.remove(pos);
                proof {
                    let es = self.entries();
                    assert forall|i: int, j: int| 0 <= i < j < es.len() implies lex_lt(
                        (#[trigger] es[i]).0,
                        (#[trigger] es[j]).0,
                    ) by {
                        let oi = if i < pos {
                            i
                        } else {
                            i + 1
                        };
                        let oj = if j < pos {
                            j
                        } else {
                            j + 1
                        };
                        assert(es[i].0 == old_es[oi].0);
                        assert(es[j].0 == old_es[oj].0);
                        assert(lex_lt(old_es[oi].0, old_es[oj].0));
                    }
                    lemma_sorted_keys_distinct(old_es);
                    lemma_sorted_keys_distinct(es);
                    lemma_map_of_values(old_es);
                    lemma_map_of_values(es);
                    lemma_map_of_domain(old_es);
                    lemma_map_of_domain(es);
                    assert forall|k: Seq<char>|
                        #![trigger self@.contains_key(k)]
                        #![trigger old(self)@.remove(id@).contains_key(k)]
                        true implies (self@.contains_key(k) == old(self)@.remove(
                        id@,
                    ).contains_key(k)) && (self@.contains_key(k) ==> self@[k] == old(self)@.remove(
                        id@,
                    )[k]) by {
                        if self@.contains_key(k) {
                            let i = choose|i: int| 0 <= i < es.len() && es[i].0 == k;
                            let oi = if i < pos {
                                i
                            } else {
                                i + 1
                            };
                            assert(old_es[oi].0 == k);
                            assert(old_es[pos as int].0 == id@);
                            assert(self@[k] == es[i].1);
                            assert(old(self)@[k] == old_es[oi].1);
                        }
                        if old(self)@.contains_key(k) && k != id@ {
                            let i = choose|i: int| 0 <= i < old_es.len() && old_es[i].0 == k;
                            let ni = if i < pos {
                                i
                            } else {
                                i - 1
                            };
                            assert(old_es[pos as int].0 == id@);
                            assert(es[ni].0 == k);
                        }
                    }
                    assert(self@ =~= old(self)@.remove(id@));
                }
            },
        }
    }

    /// Builds an attribute set from the given entries; for entries sharing
    /// one key, the later one wins.
    pub fn new_with_groups(groups: Vec<(String, String)>) -> (r: GroupDescriptor)
        ensures
            r.wf(),
            r@ == map_of(entry_views(groups@)),
    {
        let mut r = GroupDescriptor { groups: Vec::new() };
        proof {
            assert(entry_views(r.groups@) =~= Seq::empty());
            assert(entry_views(groups@.take(0)) =~= Seq::empty());
        }
        let mut k: usize = 0;
        while k < groups.len()
            invariant
                0 <= k <= groups@.len(),
                r.wf(),
                r@ == map_of(entry_views(groups@.take(k as int))),
            decreases groups@.len() - k,
        {
            let id = groups[k].0.clone();
            let value = groups[k].1.clone();
            proof {
                assert(groups@[k as int].0@ == id@ && groups@[k as int].1@ == value@);
            }
            r.insert(id, value);
            proof {
                let pre = entry_views(groups@.take(k as int));
                let post = entry_views(groups@.take(k + 1));
                assert(post.drop_last() =~= pre);
                assert(post.last() == (groups@[k as int].0@, groups@[k as int].1@));
            }
            k = k + 1;
        }
        proof {
            assert(groups@.take(groups@.len() as int) =~= groups@);
        }
        r
    }

    /// The entries, sorted by key.
    pub fn groups(&self) -> (r: &Vec<(String, String)>)
        ensures
            r@ == self.groups@,
    {
        &self.groups
    }

    /// Does the filter hold of this attribute set?
    pub fn matches(&self, filter: &GroupFilter) -> (r: bool)
        requires
            self.wf(),
        ensures
            r == sat(filter@, self@, None),
    {
        self.matches_with_name(filter, None)
    }

    /// Does the filter hold of this attribute set, with `name` as the
    /// optional name context for the reserved `name-after` / `name-before`
    /// keys?
    #[verifier::loop_isolation(false)]
    pub fn matches_with_name(&self, filter: &GroupFilter, name: Option<&str>) -> (r: bool)
        requires
            self.wf(),
        ensures
            r == sat(filter@, self@, name_view(name)),
        decreases filter,
    {
        match filter {
            GroupFilter::Is { id, value } => {
                if let Some(n) = name {
                    if str_eq(id.as_str(), "name-after") {
                        return str_le(value.as_str(), n);
                    }
                    if str_eq(id.as_str(), "name-before") {
                        return str_le(n, value.as_str());
                    }
                }
                match self.get(id.as_str()) {
                    Some(v) => str_eq(v.as_str(), value.as_str()),
                    None => false,
                }
            },
            GroupFilter::All(fs) => {
                let ghost ms = filter@->All_0;
                let mut k: usize = 0;
                while k < fs.len()
                    invariant
                        0 <= k <= fs@.len(),
                        forall|i: int| 0 <= i < k ==> sat(#[trigger] ms[i], self@, name_view(name)),
                    decreases fs@.len() - k,
                {
                    if !self.matches_with_name(&fs[k], name) {
                        proof {
                            assert(ms[k as int] == fs@[k as int]@);
                        }
                        return false;
                    }
                    k = k + 1;
                }
                true
            },
            GroupFilter::Any(fs) => {
                let ghost ms = filter@->Any_0;
                let mut k: usize = 0;
                while k < fs.len()
                    invariant
                        0 <= k <= fs@.len(),
                        forall|i: int|
                            0 <= i < k ==> !sat(#[trigger] ms[i], self@, name_view(name)),
                    decreases fs@.len() - k,
                {
                    if self.matches_with_name(&fs[k], name) {
                        proof {
                            assert(ms[k as int] == fs@[k as int]@);
                        }
                        return true;
                    }
                    k = k + 1;
                }
                false
            },
        }
    }
}

/// One finding of `validate`: pure reporting values, never acted on by the
/// validator itself.
#[derive(Debug, Clone, PartialEq, Eq)]
pub enum ValidationIssue {
    MissingRequiredGroup { group: String },
    InvalidValue { group: String, value: String },
    UnknownGroup { group: String },
}

/// The mathematical shape of a validation issue.
pub enum IssueModel {
    MissingRequiredGroup { group: Seq<char> },
    InvalidValue { group: Seq<char>, value: Seq<char> },
    UnknownGroup { group: Seq<char> },
}

impl View for ValidationIssue {
    type V = IssueModel;

    open spec fn view(&self) -> IssueModel {
        match self {
            ValidationIssue::MissingRequiredGroup { group } => IssueModel::MissingRequiredGroup {
                group: group@,
            },
            ValidationIssue::InvalidValue { group, value } => IssueModel::InvalidValue {
                group: group@,
                value: value@,
            },
            ValidationIssue::UnknownGroup { group } => IssueModel::UnknownGroup { group: group@ },
        }
    }
}

/// The issues as their models.
pub open spec fn issue_views(issues: Seq<ValidationIssue>) -> Seq<IssueModel> {
    issues.map_values(|x: ValidationIssue| x@)
}

/// Is this schema entry required of the subject `m`? Unconditionally so
/// without a condition; else exactly when the condition holds of `m`.
pub open spec fn entry_required(g: Group, m: Map<Seq<char>, Seq<char>>) -> bool {
    match g.required_if {
        Some(f) => sat(f@, m, None),
        None => true,
    }
}

/// Is `v` one of the entry's admissible values?
pub open spec fn value_admissible(g: Group, v: Seq<char>) -> bool {
    exists|i: int| 0 <= i < g.values@.len() && g.values@[i].0@ == v
}

/// The issues one schema entry contributes: a missing-required finding, an
/// inadmissible-value finding, or none.
pub open spec fn entry_issues(g: Group, m: Map<Seq<char>, Seq<char>>) -> Seq<IssueModel> {
    (if entry_required(g, m) && !m.contains_key(g.id@) {
        seq![IssueModel::MissingRequiredGroup { group: g.id@ }]
    } else {
        Seq::empty()
    }) + (if m.contains_key(g.id@) && !value_admissible(g, m[g.id@]) {
        seq![IssueModel::InvalidValue { group: g.id@, value: m[g.id@] }]
    } else {
        Seq::empty()
    })
}

/// The first validation pass: each schema entry's issues, in schema order.
pub open spec fn schema_issues(gs: Seq<Group>, m: Map<Seq<char>, Seq<char>>) -> Seq<IssueModel>
    decreases gs.len(),
{
    if gs.len() == 0 {
        Seq::empty()
    } else {
        entry_issues(gs[0], m) + schema_issues(gs.subrange(1, gs.len() as int), m)
    }
}

/// Some schema entry declares the key `k`.
pub open spec fn schema_has_key(gs: Seq<Group>, k: Seq<char>) -> bool {
    exists|i: int| 0 <= i < gs.len() && gs[i].id@ == k
}

/// The second validation pass: one unknown-group finding for each attribute
/// key that no schema entry declares, in attribute order.
pub open spec fn unknown_issues(es: Seq<(Seq<char>, Seq<char>)>, gs: Seq<Group>) -> Seq<IssueModel>
    decreases es.len(),
{
    if es.len() == 0 {
        Seq::empty()
    } else {
        (if !schema_has_key(gs, es[0].0) {
            seq![IssueModel::UnknownGroup { group: es[0].0 }]
        } else {
            Seq::empty()
        }) + unknown_issues(es.subrange(1, es.len() as int), gs)
    }
}

/// Everything `validate` reports, in order: the schema pass, then the
/// unknown-key pass.
pub open spec fn sp_validate(
    es: Seq<(Seq<char>, Seq<char>)>,
    gs: Seq<Group>,
    m: Map<Seq<char>, Seq<char>>,
) -> Seq<IssueModel> {
    schema_issues(gs, m) + unknown_issues(es, gs)
}

/// The subject must be corrected: some schema entry is required of it and is
/// either absent or carries an inadmissible value. Unknown keys never force
/// a correction.
pub open spec fn sp_needs_correction(gs: Seq<Group>, m: Map<Seq<char>, Seq<char>>) -> bool {
    exists|i: int|
        0 <= i < gs.len() && entry_required(#[trigger] gs[i], m) && !(m.contains_key(gs[i].id@)
            && value_admissible(gs[i], m[gs[i].id@]))
}

/// Extending the schema pass by one entry on the right.
pub proof fn lemma_schema_issues_push(gs: Seq<Group>, g: Group, m: Map<Seq<char>, Seq<char>>)
    ensures
        schema_issues(gs.push(g), m) == schema_issues(gs, m) + entry_issues(g, m),
    decreases gs.len(),
{
    let whole = gs.push(g);
    if gs.len() == 0 {
        assert(whole[0] == g);
        assert(whole.subrange(1, whole.len() as int) =~= gs);
        assert(schema_issues(whole, m) == entry_issues(g, m) + schema_issues(gs, m));
        assert(schema_issues(gs, m) =~= Seq::<IssueModel>::empty());
        assert(schema_issues(whole, m) =~= schema_issues(gs, m) + entry_issues(g, m));
    } else {
        let rest = gs.subrange(1, gs.len() as int);
        assert(whole.subrange(1, whole.len() as int) =~= rest.push(g));
        lemma_schema_issues_push(rest, g, m);
        assert(whole[0] == gs[0]);
        assert(schema_issues(whole, m) =~= schema_issues(gs, m) + entry_issues(g, m));
    }
}

/// Extending the unknown-key pass by one attribute on the right.
pub proof fn lemma_unknown_issues_push(
    es: Seq<(Seq<char>, Seq<char>)>,
    e: (Seq<char>, Seq<char>),
    gs: Seq<Group>,
)
    ensures
        unknown_issues(es.push(e), gs) == unknown_issues(es, gs) + (if !schema_has_key(gs, e.0) {
            seq![IssueModel::UnknownGroup { group: e.0 }]
        } else {
            Seq::<IssueModel>::empty()
        }),
    decreases es.len(),
{
    let whole = es.push(e);
    if es.len() == 0 {
        assert(whole[0] == e);
        assert(whole.subrange(1, whole.len() as int) =~= es);
        assert(unknown_issues(es, gs) =~= Seq::<IssueModel>::empty());
        assert(unknown_issues(whole, gs) =~= unknown_issues(es, gs) + (if !schema_has_key(
            gs,
            e.0,
        ) {
            seq![IssueModel::UnknownGroup { group: e.0 }]
        } else {
            Seq::<IssueModel>::empty()
        }));
    } else {
        let rest = es.subrange(1, es.len() as int);
        assert(whole.subrange(1, whole.len() as int) =~= rest.push(e));
        lemma_unknown_issues_push(rest, e, gs);
        assert(whole[0] == es[0]);
        assert(unknown_issues(whole, gs) =~= unknown_issues(es, gs) + (if !schema_has_key(
            gs,
            e.0,
        ) {
            seq![IssueModel::UnknownGroup { group: e.0 }]
        } else {
            Seq::<IssueModel>::empty()
        }));
    }
}

impl GroupDescriptor {
    /// Is `v` among the admissible values of `g`?
    fn value_allowed(g: &Group, v: &str) -> (r: bool)
        ensures
            r == value_admissible(*g, v@),
    {
        let mut j: usize = 0;
        while j < g.values.len()
            invariant
                0 <= j <= g.values@.len(),
                forall|k: int| 0 <= k < j ==> (#[trigger] g.values@[k]).0@ != v@,
            decreases g.values@.len() - j,
        {
            if str_eq(g.values[j].0.as_str(), v) {
                return true;
            }
            j = j + 1;
        }
        false
    }

    /// Does some schema entry declare the key `k`?
    fn schema_declares(groups: &[Group], k: &str) -> (r: bool)
        ensures
            r == schema_has_key(groups@, k@),
    {
        let mut j: usize = 0;
        while j < groups.len()
            invariant
                0 <= j <= groups@.len(),
                forall|i: int| 0 <= i < j ==> (#[trigger] groups@[i]).id@ != k@,
            decreases groups@.len() - j,
        {
            if str_eq(groups[j].id.as_str(), k) {
                return true;
            }
            j = j + 1;
        }
        false
    }

    /// Checks this attribute set against the schema: for each schema entry,
    /// in schema order, a missing-required or inadmissible-value finding
    /// where one applies; then, in attribute order, an unknown-group finding
    /// for every key the schema does not declare.
    pub fn validate(&self, groups: &[Group]) -> (r: Vec<ValidationIssue>)
        requires
            self.wf(),
        ensures
            issue_views(r@) == sp_validate(self.entries(), groups@, self@),
    {
        let mut issues: Vec<ValidationIssue> = Vec::new();
        proof {
            assert(issue_views(issues@) =~= Seq::empty());
            assert(groups@.take(0) =~= Seq::<Group>::empty());
            assert(issue_views(issues@) =~= schema_issues(groups@.take(0), self@));
        }
        let mut k: usize = 0;
        while k < groups.len()
            invariant
                self.wf(),
                0 <= k <= groups@.len(),
                issue_views(issues@) == schema_issues(groups@.take(k as int), self@),
            decreases groups@.len() - k,
        {
            let g = &groups[k];
            let required = match &g.required_if {
                Some(f) => self.matches(f),
                None => true,
            };
            let stored = self.get(g.id.as_str());
            let ghost pre = issues@;
            match stored {
                None => {
                    if required {
                        issues.push(
                            ValidationIssue::MissingRequiredGroup { group: g.id.clone() },
                        );
                    }
                },
                Some(v) => {
                    if !Self::value_allowed(g, v.as_str()) {
                        issues.push(
                            ValidationIssue::InvalidValue { group: g.id.clone(), value: v.clone() },
                        );
                    }
                },
            }
            proof {
                lemma_schema_issues_push(groups@.take(k as int), groups@[k as int], self@);
                assert(groups@.take(k as int).push(groups@[k as int]) =~= groups@.take(k + 1));
                assert(issue_views(issues@) =~= issue_views(pre) + issue_views(
                    issues@.skip(pre.len() as int),
                ));
                assert(issue_views(issues@) =~= schema_issues(groups@.take(k + 1), self@));
            }
            k = k + 1;
        }
        proof {
            assert(groups@.take(groups@.len() as int) =~= groups@);
            assert(self.entries().take(0) =~= Seq::<(Seq<char>, Seq<char>)>::empty());
            assert(unknown_issues(self.entries().take(0), groups@) =~= Seq::<IssueModel>::empty());
            assert(issue_views(issues@) =~= schema_issues(groups@, self@) + unknown_issues(
                self.entries().take(0),
                groups@,
            ));
        }
        let mut a: usize = 0;
        while a < self.groups.len()
            invariant
                self.wf(),
                0 <= a <= self.groups@.len(),
                issue_views(issues@) == schema_issues(groups@, self@) + unknown_issues(
                    self.entries().take(a as int),
                    groups@,
                ),
            decreases self.groups@.len() - a,
        {
            let ghost pre = issues@;
            if !Self::schema_declares(groups, self.groups[a].0.as_str()) {
                issues.push(ValidationIssue::UnknownGroup { group: self.groups[a].0.clone() });
            }
            proof {
                lemma_unknown_issues_push(
                    self.entries().take(a as int),
                    self.entries()[a as int],
                    groups@,
                );
                assert(self.entries().take(a as int).push(self.entries()[a as int])
                    =~= self.entries().take(a + 1));
                assert(self.entries()[a as int].0 == self.groups@[a as int].0@);
                assert(issue_views(issues@) =~= issue_views(pre) + issue_views(
                    issues@.skip(pre.len() as int),
                ));
                assert(issue_views(issues@) =~= schema_issues(groups@, self@) + unknown_issues(
                    self.entries().take(a + 1),
                    groups@,
                ));
            }
            a = a + 1;
        }
        proof {
            assert(self.entries().take(self.entries().len() as int) =~= self.entries());
        }
        issues
    }

    /// Must this attribute set be corrected? True exactly when some schema
    /// entry is required of it and is either absent or carries a value that
    /// is not admissible. Unknown keys never force a correction.
    pub fn needs_correction(&self, groups: &[Group]) -> (r: bool)
        requires
            self.wf(),
        ensures
            r == sp_needs_correction(groups@, self@),
    {
        let mut k: usize = 0;
        while k < groups.len()
            invariant
                self.wf(),
                0 <= k <= groups@.len(),
                forall|i: int|
                    0 <= i < k ==> !(entry_required(#[trigger] groups@[i], self@) && !(
                    self@.contains_key(groups@[i].id@) && value_admissible(
                        groups@[i],
                        self@[groups@[i].id@],
                    ))),
            decreases groups@.len() - k,
        {
            let g = &groups[k];
            let required = match &g.required_if {
                Some(f) => self.matches(f),
                None => true,
            };
            if required {
                match self.get(g.id.as_str()) {
                    None => {
                        return true;
                    },
                    Some(v) => {
                        if !Self::value_allowed(g, v.as_str()) {
                            return true;
                        }
                    },
                }
            }
            k = k + 1;
        }
        false
    }
}

/// A correction is needed exactly when the schema pass reports a missing
/// required attribute, or an inadmissible value for an attribute that is
/// currently required. Unknown-group findings never enter into it.
pub proof fn lemma_needs_correction_characterized(gs: Seq<Group>, m: Map<Seq<char>, Seq<char>>)
    ensures
        sp_needs_correction(gs, m) <==> exists|i: int|
            0 <= i < gs.len() && (entry_issues(#[trigger] gs[i], m).contains(
                IssueModel::MissingRequiredGroup { group: gs[i].id@ },
            ) || (m.contains_key(gs[i].id@) && entry_issues(gs[i], m).contains(
                IssueModel::InvalidValue { group: gs[i].id@, value: m[gs[i].id@] },
            ) && entry_required(gs[i], m))),
{
    assert forall|i: int| #![trigger gs[i]] 0 <= i < gs.len() implies {
        let g = gs[i];
        &&& entry_issues(g, m).contains(IssueModel::MissingRequiredGroup { group: g.id@ }) == (
        entry_required(g, m) && !m.contains_key(g.id@))
        &&& (m.contains_key(g.id@) ==> entry_issues(g, m).contains(
            IssueModel::InvalidValue { group: g.id@, value: m[g.id@] },
        ) == !value_admissible(g, m[g.id@]))
    } by {
        let g = gs[i];
        let es = entry_issues(g, m);
        if entry_required(g, m) && !m.contains_key(g.id@) {
            assert(es[0] == (IssueModel::MissingRequiredGroup { group: g.id@ }));
        }
        if m.contains_key(g.id@) && !value_admissible(g, m[g.id@]) {
            assert(es[es.len() - 1] == (IssueModel::InvalidValue {
                group: g.id@,
                value: m[g.id@],
            }));
        }
        if es.contains(IssueModel::MissingRequiredGroup { group: g.id@ }) {
            let k = choose|k: int|
                0 <= k < es.len() && es[k] == (IssueModel::MissingRequiredGroup { group: g.id@ });
        }
        if es.contains(IssueModel::InvalidValue { group: g.id@, value: m[g.id@] }) {
            let k = choose|k: int|
                0 <= k < es.len() && es[k] == (IssueModel::InvalidValue {
                    group: g.id@,
                    value: m[g.id@],
                });
        }
    }
    if sp_needs_correction(gs, m) {
        let i = choose|i: int|
            0 <= i < gs.len() && entry_required(#[trigger] gs[i], m) && !(m.contains_key(gs[i].id@)
                && value_admissible(gs[i], m[gs[i].id@]));
        assert(0 <= i < gs.len() && (entry_issues(#[trigger] gs[i], m).contains(
            IssueModel::MissingRequiredGroup { group: gs[i].id@ },
        ) || (m.contains_key(gs[i].id@) && entry_issues(gs[i], m).contains(
            IssueModel::InvalidValue { group: gs[i].id@, value: m[gs[i].id@] },
        ) && entry_required(gs[i], m))));
    }
}

/// An attribute key that no schema entry declares is always reported as an
/// unknown group by the validator, whatever the subject maps it to.
pub proof fn lemma_unknown_always_reported(
    es: Seq<(Seq<char>, Seq<char>)>,
    gs: Seq<Group>,
    m: Map<Seq<char>, Seq<char>>,
    i: int,
)
    requires
        0 <= i < es.len(),
        !schema_has_key(gs, es[i].0),
    ensures
        sp_validate(es, gs, m).contains(IssueModel::UnknownGroup { group: es[i].0 }),
{
    lemma_unknown_issue_in_pass(es, gs, i);
    let x = IssueModel::UnknownGroup { group: es[i].0 };
    let k = choose|k: int| 0 <= k < unknown_issues(es, gs).len() && unknown_issues(es, gs)[k] == x;
    assert(sp_validate(es, gs, m)[schema_issues(gs, m).len() + k] == x);
}

proof fn lemma_unknown_issue_in_pass(es: Seq<(Seq<char>, Seq<char>)>, gs: Seq<Group>, i: int)
    requires
        0 <= i < es.len(),
        !schema_has_key(gs, es[i].0),
    ensures
        unknown_issues(es, gs).contains(IssueModel::UnknownGroup { group: es[i].0 }),
    decreases es.len(),
{
    let x = IssueModel::UnknownGroup { group: es[i].0 };
    let rest = es.subrange(1, es.len() as int);
    if i == 0 {
        assert(unknown_issues(es, gs)[0] == x);
    } else {
        assert(rest[i - 1] == es[i]);
        lemma_unknown_issue_in_pass(rest, gs, i - 1);
        let k = choose|k: int|
            0 <= k < unknown_issues(rest, gs).len() && unknown_issues(rest, gs)[k] == x;
        let head: Seq<IssueModel> = if !schema_has_key(gs, es[0].0) {
            seq![IssueModel::UnknownGroup { group: es[0].0 }]
        } else {
            Seq::empty()
        };
        assert(unknown_issues(es, gs)[head.len() + k] == x);
    }
}

/// Is the key `k` required of the subject `m`? The first schema entry
/// declaring `k` decides; a key that no entry declares is not required.
pub open spec fn sp_key_required(k: Seq<char>, gs: Seq<Group>, m: Map<Seq<char>, Seq<char>>) -> bool
    decreases gs.len(),
{
    if gs.len() == 0 {
        false
    } else if gs[0].id@ == k {
        entry_required(gs[0], m)
    } else {
        sp_key_required(k, gs.subrange(1, gs.len() as int), m)
    }
}

/// The first position at or after `from` whose key is not required of the
/// mapping the entries themselves stand for.
pub open spec fn sp_first_removable(
    es: Seq<(Seq<char>, Seq<char>)>,
    gs: Seq<Group>,
    from: int,
) -> Option<int>
    decreases es.len() - from,
{
    if !(0 <= from < es.len()) {
        None
    } else if !sp_key_required(es[from].0, gs, map_of(es)) {
        Some(from)
    } else {
        sp_first_removable(es, gs, from + 1)
    }
}

/// The sweep: as long as some key is not required, the first such entry is
/// removed and the scan starts over; the result is what remains.
pub open spec fn sp_sweep(es: Seq<(Seq<char>, Seq<char>)>, gs: Seq<Group>) -> Seq<
    (Seq<char>, Seq<char>),
>
    decreases es.len(),
{
    if es.len() == 0 {
        es
    } else {
        match sp_first_removable(es, gs, 0) {
            None => es,
            Some(i) => {
                let j = if 0 <= i < es.len() {
                    i
                } else {
                    0
                };
                sp_sweep(es.remove(j), gs)
            },
        }
    }
}

/// A found position is in range, its key is not required, and every key
/// before it is.
pub proof fn lemma_first_removable_some(
    es: Seq<(Seq<char>, Seq<char>)>,
    gs: Seq<Group>,
    from: int,
    i: int,
)
    requires
        sp_first_removable(es, gs, from) == Some(i),
    ensures
        from <= i < es.len(),
        !sp_key_required(es[i].0, gs, map_of(es)),
        forall|k: int| from <= k < i ==> sp_key_required((#[trigger] es[k]).0, gs, map_of(es)),
    decreases es.len() - from,
{
    if 0 <= from < es.len() && sp_key_required(es[from].0, gs, map_of(es)) {
        lemma_first_removable_some(es, gs, from + 1, i);
    }
}

/// The scan can start anywhere below the first removable position.
pub proof fn lemma_first_removable_from(es: Seq<(Seq<char>, Seq<char>)>, gs: Seq<Group>, j: int)
    requires
        0 <= j <= es.len(),
        forall|k: int| 0 <= k < j ==> sp_key_required((#[trigger] es[k]).0, gs, map_of(es)),
    ensures
        sp_first_removable(es, gs, 0) == sp_first_removable(es, gs, j),
    decreases j,
{
    if j > 0 {
        lemma_first_removable_from(es, gs, j - 1);
        assert(sp_first_removable(es, gs, j - 1) == sp_first_removable(es, gs, j));
    }
}

/// Removing an entry keeps the entries strictly sorted.
pub proof fn lemma_sorted_remove(es: Seq<(Seq<char>, Seq<char>)>, i: int)
    requires
        entries_sorted(es),
        0 <= i < es.len(),
    ensures
        entries_sorted(es.remove(i)),
{
    es.remove_ensures(i);
    let r = es.remove(i);
    assert forall|a: int, b: int| 0 <= a < b < r.len() implies lex_lt(
        (#[trigger] r[a]).0,
        (#[trigger] r[b]).0,
    ) by {
        let oa = if a < i {
            a
        } else {
            a + 1
        };
        let ob = if b < i {
            b
        } else {
            b + 1
        };
        assert(r[a] == es[oa]);
        assert(r[b] == es[ob]);
        assert(lex_lt(es[oa].0, es[ob].0));
    }
}

/// After a sweep nothing more can be removed: the result is a fixpoint.
pub proof fn lemma_sweep_fixpoint(es: Seq<(Seq<char>, Seq<char>)>, gs: Seq<Group>)
    ensures
        sp_first_removable(sp_sweep(es, gs), gs, 0) is None,
    decreases es.len(),
{
    if es.len() > 0 {
        match sp_first_removable(es, gs, 0) {
            None => {},
            Some(i) => {
                lemma_first_removable_some(es, gs, 0, i);
                lemma_sweep_fixpoint(es.remove(i), gs);
            },
        }
    }
}

/// Sweeping a second time changes nothing.
pub proof fn lemma_sweep_idempotent(es: Seq<(Seq<char>, Seq<char>)>, gs: Seq<Group>)
    ensures
        sp_sweep(sp_sweep(es, gs), gs) == sp_sweep(es, gs),
{
    lemma_sweep_fixpoint(es, gs);
}

/// The sweep only removes: every remaining entry was present before.
pub proof fn lemma_sweep_subset(es: Seq<(Seq<char>, Seq<char>)>, gs: Seq<Group>)
    ensures
        forall|k: int|
            0 <= k < sp_sweep(es, gs).len() ==> exists|j: int|
                0 <= j < es.len() && es[j] == #[trigger] sp_sweep(es, gs)[k],
    decreases es.len(),
{
    if es.len() > 0 {
        match sp_first_removable(es, gs, 0) {
            None => {},
            Some(i) => {
                lemma_first_removable_some(es, gs, 0, i);
                es.remove_ensures(i);
                lemma_sweep_subset(es.remove(i), gs);
                assert forall|k: int| 0 <= k < sp_sweep(es, gs).len() implies exists|j: int|
                    0 <= j < es.len() && es[j] == #[trigger] sp_sweep(es, gs)[k] by {
                    let r = es.remove(i);
                    assert(sp_sweep(es, gs) == sp_sweep(r, gs));
                    let j0 = choose|j0: int| 0 <= j0 < r.len() && r[j0] == sp_sweep(r, gs)[k];
                    let j = if j0 < i {
                        j0
                    } else {
                        j0 + 1
                    };
                    assert(es[j] == r[j0]);
                }
            },
        }
    }
}

/// A key that some schema entry requires of `m` is declared by the schema.
pub proof fn lemma_required_is_declared(
    k: Seq<char>,
    gs: Seq<Group>,
    m: Map<Seq<char>, Seq<char>>,
)
    requires
        sp_key_required(k, gs, m),
    ensures
        schema_has_key(gs, k),
    decreases gs.len(),
{
    if gs.len() > 0 {
        if gs[0].id@ == k {
            assert(gs[0].id@ == k);
        } else {
            let rest = gs.subrange(1, gs.len() as int);
            lemma_required_is_declared(k, rest, m);
            let i = choose|i: int| 0 <= i < rest.len() && rest[i].id@ == k;
            assert(gs[i + 1].id@ == k);
        }
    }
}

/// What a sweep leaves behind: every remaining key is required of the
/// remaining attribute set, and in particular is declared by the schema, so
/// no unknown key survives a sweep.
pub proof fn lemma_sweep_all_required(es: Seq<(Seq<char>, Seq<char>)>, gs: Seq<Group>)
    ensures
        forall|k: int|
            0 <= k < sp_sweep(es, gs).len() ==> sp_key_required(
                (#[trigger] sp_sweep(es, gs)[k]).0,
                gs,
                map_of(sp_sweep(es, gs)),
            ),
        forall|k: int|
            0 <= k < sp_sweep(es, gs).len() ==> schema_has_key(
                gs,
                (#[trigger] sp_sweep(es, gs)[k]).0,
            ),
{
    lemma_sweep_fixpoint(es, gs);
    let r = sp_sweep(es, gs);
    assert forall|k: int| 0 <= k < r.len() implies sp_key_required(
        (#[trigger] r[k]).0,
        gs,
        map_of(r),
    ) by {
        if !sp_key_required(r[k].0, gs, map_of(r)) {
            lemma_first_removable_not_none(r, gs, k);
        }
    }
    assert forall|k: int| 0 <= k < r.len() implies schema_has_key(gs, (#[trigger] r[k]).0) by {
        lemma_required_is_declared(r[k].0, gs, map_of(r));
    }
}

/// If some key in range is not required, the scan finds one.
pub proof fn lemma_first_removable_not_none(
    es: Seq<(Seq<char>, Seq<char>)>,
    gs: Seq<Group>,
    k: int,
)
    requires
        0 <= k < es.len(),
        !sp_key_required(es[k].0, gs, map_of(es)),
    ensures
        sp_first_removable(es, gs, 0) is Some,
{
    if sp_first_removable(es, gs, 0) is None {
        lemma_first_removable_none(es, gs, 0);
    }
}

/// A scan that finds nothing means every key from `from` on is required.
pub proof fn lemma_first_removable_none(es: Seq<(Seq<char>, Seq<char>)>, gs: Seq<Group>, from: int)
    requires
        0 <= from,
        sp_first_removable(es, gs, from) is None,
    ensures
        forall|k: int|
            from <= k < es.len() && 0 <= k ==> sp_key_required(
                (#[trigger] es[k]).0,
                gs,
                map_of(es),
            ),
    decreases es.len() - from,
{
    if 0 <= from < es.len() {
        lemma_first_removable_none(es, gs, from + 1);
    }
}

impl GroupDescriptor {
    /// Is the key required of this attribute set? The first schema entry
    /// declaring it decides; an undeclared key is not required.
    fn key_required(&self, key: &str, groups: &[Group]) -> (r: bool)
        requires
            self.wf(),
        ensures
            r == sp_key_required(key@, groups@, self@),
    {
        proof {
            assert(groups@.subrange(0, groups@.len() as int) =~= groups@);
        }
        let mut j: usize = 0;
        while j < groups.len()
            invariant
                self.wf(),
                0 <= j <= groups@.len(),
                sp_key_required(key@, groups@, self@) == sp_key_required(
                    key@,
                    groups@.subrange(j as int, groups@.len() as int),
                    self@,
                ),
            decreases groups@.len() - j,
        {
            let ghost suffix = groups@.subrange(j as int, groups@.len() as int);
            proof {
                assert(suffix[0] == groups@[j as int]);
                assert(suffix.subrange(1, suffix.len() as int) =~= groups@.subrange(
                    j + 1,
                    groups@.len() as int,
                ));
            }
            if str_eq(groups[j].id.as_str(), key) {
                let r = match &groups[j].required_if {
                    Some(f) => self.matches(f),
                    None => true,
                };
                return r;
            }
            j = j + 1;
        }
        proof {
            assert(groups@.subrange(groups@.len() as int, groups@.len() as int).len() == 0);
        }
        false
    }

    /// The position of the first entry whose key is not required, if any.
    fn first_removable(&self, groups: &[Group]) -> (r: Option<usize>)
        requires
            self.wf(),
        ensures
            match r {
                Some(i) => i < self.groups@.len() && sp_first_removable(
                    self.entries(),
                    groups@,
                    0,
                ) == Some(i as int),
                None => sp_first_removable(self.entries(), groups@, 0) is None,
            },
    {
        let ghost es = self.entries();
        let mut idx: usize = 0;
        while idx < self.groups.len()
            invariant
                self.wf(),
                self.entries() == es,
                0 <= idx <= self.groups@.len(),
                forall|k: int|
                    0 <= k < idx ==> sp_key_required((#[trigger] es[k]).0, groups@, map_of(es)),
            decreases self.groups@.len() - idx,
        {
            let key = self.groups[idx].0.clone();
            proof {
                assert(key@ == es[idx as int].0);
            }
            if !self.key_required(key.as_str(), groups) {
                proof {
                    lemma_first_removable_from(es, groups@, idx as int);
                }
                return Some(idx);
            }
            idx = idx + 1;
        }
        proof {
            lemma_first_removable_from(es, groups@, es.len() as int);
        }
        None
    }

    /// Prunes this attribute set against the schema: repeatedly scans the
    /// entries in order and removes the first one whose key is not required,
    /// starting over after each removal, until a full scan removes nothing.
    /// Missing attributes are never added, only surplus ones removed.
    pub fn sweep(&mut self, groups: &[Group])
        requires
            old(self).wf(),
        ensures
            final(self).wf(),
            final(self).entries() == sp_sweep(old(self).entries(), groups@),
    {
        let ghost orig = old(self).entries();
        loop
            invariant_except_break
                self.wf(),
                sp_sweep(orig, groups@) == sp_sweep(self.entries(), groups@),
            ensures
                self.wf(),
                sp_sweep(orig, groups@) == self.entries(),
            decreases self.groups@.len(),
        {
            let ghost es = self.entries();
            match self.first_removable(groups) {
                Some(idx) => {
                    proof {
                        lemma_first_removable_some(es, groups@, 0, idx as int);
                        lemma_sorted_remove(es, idx as int);
                    }
                    self.groups.remove(idx);
                    proof {
                        assert(self.entries() =~= es.remove(idx as int));
                        assert(sp_sweep(es, groups@) == sp_sweep(self.entries(), groups@));
                    }
                },
                None => {
                    proof {
                        assert(sp_sweep(es, groups@) == es);
                    }
                    break;
                },
            }
        }
    }
}

/// The name context as a character sequence, when one is supplied.
pub open spec fn name_view(name: Option<&str>) -> Option<Seq<char>> {
    match name {
        Some(n) => Some(n@),
        None => None,
    }
}

impl Default for GroupDescriptor {
    /// The default subject: a first-year student of the school.
    fn default() -> (r: Self)
        ensures
            r.wf(),
            r@ == Map::<Seq<char>, Seq<char>>::empty().insert("school"@, "insa-rouen"@).insert(
                "insa-rouen:department"@,
                "STPI1"@,
            ).insert("insa-rouen:language"@, "ESP"@).insert("insa-rouen:stpi:class"@, "A"@).insert(
                "insa-rouen:stpi:tp-group"@,
                "1"@,
            ),
    {
        let mut d = GroupDescriptor { groups: Vec::new() };
        proof {
            assert(entry_views(d.groups@) =~= Seq::empty());
        }
        d.insert("school".to_owned(), "insa-rouen".to_owned());
        d.insert("insa-rouen:department".to_owned(), "STPI1".to_owned());
        d.insert("insa-rouen:language".to_owned(), "ESP".to_owned());
        d.insert("insa-rouen:stpi:class".to_owned(), "A".to_owned());
        d.insert("insa-rouen:stpi:tp-group".to_owned(), "1".to_owned());
        d
    }
}

} // verus!
