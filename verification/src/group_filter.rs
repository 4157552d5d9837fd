//! The filter expression tree: a boolean query over flat key/value attribute
//! sets, built from equality leaves combined by conjunction and disjunction.
use vstd::prelude::*;
use crate::text::lex_le;

verus! {

/// A boolean filter over an attribute set.
///
/// `Is` holds exactly when the subject's attributes map `id` to `value`.
/// `All` is a conjunction (vacuously true when empty), `Any` a disjunction
/// (vacuously false when empty).
#[derive(Debug, PartialEq, Eq, PartialOrd, Ord)]
pub enum GroupFilter {
    Is { id: String, value: String },
    All(Vec<GroupFilter>),
    Any(Vec<GroupFilter>),
}

/// The mathematical shape of a filter: the same tree over character
/// sequences, used by every contract of this crate.
pub enum FilterModel {
    Is { id: Seq<char>, value: Seq<char> },
    All(Seq<FilterModel>),
    Any(Seq<FilterModel>),
}

impl View for GroupFilter {
    type V = FilterModel;

    open spec fn view(&self) -> FilterModel
        decreases self,
    {
        match self {
            GroupFilter::Is { id, value } => FilterModel::Is { id: id@, value: value@ },
            GroupFilter::All(fs) => FilterModel::All(
                Seq::new(
                    fs@.len(),
                    |i: int|
                        if 0 <= i < fs@.len() {
                            fs@[i]@
                        } else {
                            FilterModel::All(Seq::empty())
                        },
                ),
            ),
            GroupFilter::Any(fs) => FilterModel::Any(
                Seq::new(
                    fs@.len(),
                    |i: int|
                        if 0 <= i < fs@.len() {
                            fs@[i]@
                        } else {
                            FilterModel::All(Seq::empty())
                        },
                ),
            ),
        }
    }
}

/// The evaluator, as a mathematical function: does `f` hold of the attribute
/// map `attrs`, with `name` as the optional name context?
///
/// With a name context, the reserved keys `name-after` and `name-before`
/// compare the context lexicographically against the leaf's value before any
/// attribute lookup; every other leaf is an exact lookup. An empty `All` is
/// true, an empty `Any` false.
pub open spec fn sat(
    f: FilterModel,
    attrs: Map<Seq<char>, Seq<char>>,
    name: Option<Seq<char>>,
) -> bool
    decreases f,
{
    match f {
        FilterModel::Is { id, value } => if name is Some && id == "name-after"@ {
            lex_le(value, name->0)
        } else if name is Some && id == "name-before"@ {
            lex_le(name->0, value)
        } else {
            attrs.contains_key(id) && attrs[id] == value
        },
        FilterModel::All(fs) => forall|i: int|
            0 <= i < fs.len() ==> sat(#[trigger] fs[i], attrs, name),
        FilterModel::Any(fs) => exists|i: int|
            0 <= i < fs.len() && sat(#[trigger] fs[i], attrs, name),
    }
}

impl Clone for GroupFilter {
    /// A clone stands for the same filter.
    #[verifier::loop_isolation(false)]
    fn clone(&self) -> (r: Self)
        ensures
            r@ == self@,
        decreases self,
    {
        match self {
            GroupFilter::Is { id, value } => GroupFilter::Is {
                id: id.clone(),
                value: value.clone(),
            },
            GroupFilter::All(fs) => {
                let mut copies: Vec<GroupFilter> = Vec::new();
                let mut k: usize = 0;
                while k < fs.len()
                    invariant
                        0 <= k <= fs@.len(),
                        copies@.len() == k,
                        forall|i: int| 0 <= i < k ==> copies@[i]@ == #[trigger] fs@[i]@,
                    decreases fs@.len() - k,
                {
                    copies.push(fs[k].clone());
                    k = k + 1;
                }
                let r = GroupFilter::All(copies);
                proof {
                    let ms = r@->All_0;
                    let os = self@->All_0;
                    assert forall|i: int| 0 <= i < ms.len() implies ms[i] == os[i] by {
                        assert(copies@[i]@ == fs@[i]@);
                    }
                    assert(ms =~= os);
                }
                r
            },
            GroupFilter::Any(fs) => {
                let mut copies: Vec<GroupFilter> = Vec::new();
                let mut k: usize = 0;
                while k < fs.len()
                    invariant
                        0 <= k <= fs@.len(),
                        copies@.len() == k,
                        forall|i: int| 0 <= i < k ==> copies@[i]@ == #[trigger] fs@[i]@,
                    decreases fs@.len() - k,
                {
                    copies.push(fs[k].clone());
                    k = k + 1;
                }
                let r = GroupFilter::Any(copies);
                proof {
                    let ms = r@->Any_0;
                    let os = self@->Any_0;
                    assert forall|i: int| 0 <= i < ms.len() implies ms[i] == os[i] by {
                        assert(copies@[i]@ == fs@[i]@);
                    }
                    assert(ms =~= os);
                }
                r
            },
        }
    }
}

impl GroupFilter {
    /// The leaf filter `id=value`.
    pub fn is(id: String, value: String) -> (r: GroupFilter)
        ensures
            r@ == (FilterModel::Is { id: id@, value: value@ }),
    {
        GroupFilter::Is { id, value }
    }

    /// The conjunction of two filters.
    pub fn both(left: GroupFilter, right: GroupFilter) -> (r: GroupFilter)
        ensures
            r@ == FilterModel::All(seq![left@, right@]),
    {
        let l = Ghost(left@);
        let g = Ghost(right@);
        let r = GroupFilter::All(vec![left, right]);
        proof {
            assert(r@ matches FilterModel::All(ms) && ms =~= seq![l@, g@]);
        }
        r
    }

    /// The conjunction of three filters.
    pub fn three(left: GroupFilter, middle: GroupFilter, right: GroupFilter) -> (r: GroupFilter)
        ensures
            r@ == FilterModel::All(seq![left@, middle@, right@]),
    {
        let l = Ghost(left@);
        let m = Ghost(middle@);
        let g = Ghost(right@);
        let r = GroupFilter::All(vec![left, middle, right]);
        proof {
            assert(r@ matches FilterModel::All(ms) && ms =~= seq![l@, m@, g@]);
        }
        r
    }

    /// The disjunction of two filters.
    pub fn either(left: GroupFilter, right: GroupFilter) -> (r: GroupFilter)
        ensures
            r@ == FilterModel::Any(seq![left@, right@]),
    {
        let l = Ghost(left@);
        let g = Ghost(right@);
        let r = GroupFilter::Any(vec![left, right]);
        proof {
            assert(r@ matches FilterModel::Any(ms) && ms =~= seq![l@, g@]);
        }
        r
    }

    /// The disjunction of the given filters.
    pub fn any(filters: Vec<GroupFilter>) -> (r: GroupFilter)
        ensures
            r@ matches FilterModel::Any(ms) && ms.len() == filters@.len() && forall|i: int|
                0 <= i < filters@.len() ==> ms[i] == #[trigger] filters@[i]@,
    {
        GroupFilter::Any(filters)
    }

    /// The disjunction of the leaves `id=v`, one for each of `values`.
    pub fn any_values(id: String, values: Vec<String>) -> (r: GroupFilter)
        ensures
            r@ matches FilterModel::Any(ms) && ms.len() == values@.len() && forall|i: int|
                0 <= i < values@.len() ==> ms[i] == (FilterModel::Is {
                    id: id@,
                    value: #[trigger] values@[i]@,
                }),
    {
        let mut leaves: Vec<GroupFilter> = Vec::new();
        let mut k: usize = 0;
        while k < values.len()
            invariant
                0 <= k <= values@.len(),
                leaves@.len() == k,
                forall|i: int|
                    0 <= i < k ==> leaves@[i]@ == (FilterModel::Is {
                        id: id@,
                        value: #[trigger] values@[i]@,
                    }),
            decreases values@.len() - k,
        {
            let v = values[k].clone();
            leaves.push(GroupFilter::Is { id: id.clone(), value: v });
            k = k + 1;
        }
        GroupFilter::Any(leaves)
    }
}

} // verus!
