//! The three views over the entry list: all entries, the active (not yet
//! completed) ones, and the completed ones.

use vstd::prelude::*;

use crate::entry::Entry;
use crate::entry::EntryModel;

verus! {

/// Which subset of the entry list is currently displayed.
#[derive(Clone, Copy, PartialEq, Eq, Structural, Debug)]
pub enum Filter {
    All,
    Active,
    Completed,
}

/// Whether an entry belongs to the view that `f` selects: `Active` keeps the
/// entries that are not completed, `Completed` the completed ones, and `All`
/// keeps everything.
pub open spec fn allows(f: Filter, e: EntryModel) -> bool {
    match f {
        Filter::All => true,
        Filter::Active => !e.completed,
        Filter::Completed => e.completed,
    }
}

impl Filter {
    /// Whether `entry` is visible under this filter.
    pub fn fits(&self, entry: &Entry) -> (r: bool)
        ensures
            r == allows(*self, entry@),
    {
        match self {
            Filter::All => true,
            Filter::Active => !entry.completed,
            Filter::Completed => entry.completed,
        }
    }

    /// The URL fragment that addresses this view.
    pub fn as_href(&self) -> (r: &'static str)
        ensures
            *self == Filter::All ==> r@ == "#/"@,
            *self == Filter::Active ==> r@ == "#/active"@,
            *self == Filter::Completed ==> r@ == "#/completed"@,
    {
        match self {
            Filter::All => "#/",
            Filter::Active => "#/active",
            Filter::Completed => "#/completed",
        }
    }

    /// The label under which this view is shown.
    pub fn label(&self) -> (r: &'static str)
        ensures
            *self == Filter::All ==> r@ == "All"@,
            *self == Filter::Active ==> r@ == "Active"@,
            *self == Filter::Completed ==> r@ == "Completed"@,
    {
        match self {
            Filter::All => "All",
            Filter::Active => "Active",
            Filter::Completed => "Completed",
        }
    }

    /// Every filter, in the order the filter links are shown.
    pub fn all() -> (r: Vec<Filter>)
        ensures
            r@ == seq![Filter::All, Filter::Active, Filter::Completed],
    {
        let mut v: Vec<Filter> = Vec::new();
        v.push(Filter::All);
        v.push(Filter::Active);
        v.push(Filter::Completed);
        proof {
            assert(v@ =~= seq![Filter::All, Filter::Active, Filter::Completed]);
        }
        v
    }
}

} // verus!
