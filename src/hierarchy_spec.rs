use vstd::prelude::*;
use crate::error::HtsError;

verus! {

/// The text of each name, in order.
pub open spec fn names_view(v: Seq<String>) -> Seq<Seq<char>> {
    v.map_values(|s: String| s@)
}

/// Most group columns a structure may have: every subset of them is a level
/// of aggregation, and subsets are numbered by 64-bit masks.
pub const MAX_GROUPS: usize = 63;

/// A valid structure names at least one column, at most `MAX_GROUPS` group
/// columns, and no column that is both a hierarchy column and a group column.
pub open spec fn valid_structure(hierarchy: Seq<Seq<char>>, groups: Seq<Seq<char>>) -> bool {
    &&& hierarchy.len() + groups.len() > 0
    &&& groups.len() <= MAX_GROUPS
    &&& forall|i: int, j: int|
        0 <= i < hierarchy.len() && 0 <= j < groups.len() ==> hierarchy[i] != groups[j]
}

/// Which columns nest strictly (top to bottom) and which cross every level.
#[derive(Debug, Clone)]
pub struct HtsSpec {
    hierarchy: Vec<String>,
    groups: Vec<String>,
}

impl HtsSpec {
    /// The hierarchy column names, top to bottom.
    pub closed spec fn hierarchy_names(&self) -> Seq<Seq<char>> {
        names_view(self.hierarchy@)
    }

    /// The group column names.
    pub closed spec fn group_names(&self) -> Seq<Seq<char>> {
        names_view(self.groups@)
    }

    pub open spec fn wf(&self) -> bool {
        valid_structure(self.hierarchy_names(), self.group_names())
    }

    /// Builds a specification; fails exactly when the two lists overlap or are
    /// both empty.
    pub fn new(hierarchy: Vec<String>, groups: Vec<String>) -> (r: Result<HtsSpec, HtsError>)
        ensures
            r.is_ok() <==> valid_structure(names_view(hierarchy@), names_view(groups@)),
            r matches Ok(s) ==> s.hierarchy_names() == names_view(hierarchy@)
                && s.group_names() == names_view(groups@) && s.wf(),
            r matches Err(e) ==> e == HtsError::InvalidSpecification,
    {
        if hierarchy.len() == 0 && groups.len() == 0 || groups.len() > MAX_GROUPS {
            return Err(HtsError::InvalidSpecification);
        }
        let mut i: usize = 0;
        while i < hierarchy.len()
            invariant
                0 <= i <= hierarchy.len(),
                forall|a: int, b: int|
                    0 <= a < i && 0 <= b < groups.len() ==> hierarchy@[a]@ != groups@[b]@,
            decreases hierarchy.len() - i,
        {
            let mut j: usize = 0;
            while j < groups.len()
                invariant
                    0 <= i < hierarchy.len(),
                    0 <= j <= groups.len(),
                    forall|a: int, b: int|
                        0 <= a < i && 0 <= b < groups.len() ==> hierarchy@[a]@ != groups@[b]@,
                    forall|b: int| 0 <= b < j ==> hierarchy@[i as int]@ != groups@[b]@,
                decreases groups.len() - j,
            {
                if hierarchy[i] == groups[j] {
                    assert(names_view(hierarchy@)[i as int] == names_view(groups@)[j as int]);
                    return Err(HtsError::InvalidSpecification);
                }
                j += 1;
            }
            i += 1;
        }
        Ok(HtsSpec { hierarchy, groups })
    }

    /// A purely hierarchical specification (no group columns).
    pub fn hierarchical(columns: Vec<String>) -> (r: Result<HtsSpec, HtsError>)
        ensures
            r.is_ok() <==> columns.len() > 0,
            r matches Ok(s) ==> s.hierarchy_names() == names_view(columns@)
                && s.group_names() == Seq::<Seq<char>>::empty() && s.wf(),
            r matches Err(e) ==> e == HtsError::InvalidSpecification,
    {
        let r = HtsSpec::new(columns, Vec::new());
        assert(names_view(Seq::<String>::empty()) =~= Seq::<Seq<char>>::empty());
        r
    }

    /// A purely grouped specification (no hierarchy columns).
    pub fn grouped(columns: Vec<String>) -> (r: Result<HtsSpec, HtsError>)
        ensures
            r.is_ok() <==> 0 < columns.len() <= MAX_GROUPS,
            r matches Ok(s) ==> s.group_names() == names_view(columns@)
                && s.hierarchy_names() == Seq::<Seq<char>>::empty() && s.wf(),
            r matches Err(e) ==> e == HtsError::InvalidSpecification,
    {
        let r = HtsSpec::new(Vec::new(), columns);
        assert(names_view(Seq::<String>::empty()) =~= Seq::<Seq<char>>::empty());
        r
    }

    /// The hierarchy column names, top to bottom.
    pub fn hierarchy(&self) -> (r: &Vec<String>)
        ensures
            names_view(r@) == self.hierarchy_names(),
    {
        &self.hierarchy
    }

    /// The group column names.
    pub fn groups(&self) -> (r: &Vec<String>)
        ensures
            names_view(r@) == self.group_names(),
    {
        &self.groups
    }
}

} // verus!
