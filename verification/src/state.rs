//! The application state and the reducer that performs every mutation.

use vstd::prelude::*;

use crate::display::find_raw;
use crate::display::lemma_raw_of;
use crate::display::lemma_visible_elem;
use crate::display::lemma_visible_push;
use crate::display::raw_of;
use crate::display::visible_of;
use crate::entry::with_completed;
use crate::entry::with_editing;
use crate::entry::Entry;
use crate::entry::EntryModel;
use crate::filter::Filter;
use crate::text::trim;
use crate::text::trim_spec;

verus! {

/// A user interaction, as handed to the reducer. Every index it carries is a
/// position within the currently visible (filtered) list.
pub enum Msg {
    Add(String),
    Edit((usize, String)),
    Remove(usize),
    Toggle(usize),
    ToggleAll,
    ToggleEdit(usize),
    SetFilter(Filter),
    ClearCompleted,
    Focus,
}

/// The whole application state: the entries in order, the filter in force,
/// and the live text of the entry being edited.
pub struct State {
    entries: Vec<Entry>,
    filter: Filter,
    edit_value: String,
}

/// The model of the application state.
#[verifier::ext_equal]
pub ghost struct StateModel {
    pub entries: Seq<EntryModel>,
    pub filter: Filter,
    pub edit_value: Seq<char>,
}

impl View for State {
    type V = StateModel;

    closed spec fn view(&self) -> StateModel {
        StateModel {
            entries: self.entries.deep_view(),
            filter: self.filter,
            edit_value: self.edit_value@,
        }
    }
}

/// Effect of adding an entry: the input is trimmed; nothing happens when the
/// trimmed text is empty, else an entry with that text, not completed and not
/// in edit mode, is appended.
pub open spec fn spec_add(s: StateModel, d: Seq<char>) -> StateModel {
    let t = trim_spec(d);
    if t.len() == 0 {
        s
    } else {
        StateModel {
            entries: s.entries.push(EntryModel { description: t, completed: false, editing: false }),
            ..s
        }
    }
}

/// Effect of toggling the entry at visible position `i`: its completion flag
/// flips; out of range, nothing happens.
pub open spec fn spec_toggle(s: StateModel, i: int) -> StateModel {
    if 0 <= i < visible_of(s.entries, s.filter).len() {
        let k = raw_of(s.entries, s.filter, i);
        StateModel {
            entries: s.entries.update(k, with_completed(s.entries[k], !s.entries[k].completed)),
            ..s
        }
    } else {
        s
    }
}

/// Effect of marking every entry with the given completion status.
pub open spec fn spec_toggle_all(s: StateModel, status: bool) -> StateModel {
    StateModel { entries: s.entries.map_values(|e: EntryModel| with_completed(e, status)), ..s }
}

/// Whether the list is non-empty and every entry is completed.
pub open spec fn spec_is_all_completed(s: StateModel) -> bool {
    s.entries.len() > 0 && forall|j: int|
        0 <= j < s.entries.len() ==> (#[trigger] s.entries[j]).completed
}

/// Effect of leaving edit mode on every entry.
pub open spec fn spec_clear_all_edit(s: StateModel) -> StateModel {
    StateModel { entries: s.entries.map_values(|e: EntryModel| with_editing(e, false)), ..s }
}

/// Effect of putting the entry at visible position `i` into edit mode: every
/// other entry leaves edit mode first; out of range, nothing happens.
pub open spec fn spec_toggle_edit(s: StateModel, i: int) -> StateModel {
    if 0 <= i < visible_of(s.entries, s.filter).len() {
        let k = raw_of(s.entries, s.filter, i);
        let cleared = s.entries.map_values(|e: EntryModel| with_editing(e, false));
        StateModel { entries: cleared.update(k, with_editing(s.entries[k], true)), ..s }
    } else {
        s
    }
}

/// Effect of starting an edit of the entry at visible position `i`: its
/// description is snapshotted into the live edit text, then it enters edit
/// mode; out of range, nothing happens.
pub open spec fn spec_start_edit(s: StateModel, i: int) -> StateModel {
    if 0 <= i < visible_of(s.entries, s.filter).len() {
        StateModel { edit_value: visible_of(s.entries, s.filter)[i].description, ..spec_toggle_edit(s, i) }
    } else {
        s
    }
}

/// Effect of committing an edit at visible position `i` with text `d`: the
/// text is trimmed and becomes the entry's description even when empty, the
/// entry leaves edit mode, and the live edit text is cleared. Out of range,
/// only the live edit text is cleared.
pub open spec fn spec_complete_edit(s: StateModel, i: int, d: Seq<char>) -> StateModel {
    let t = trim_spec(d);
    let entries = if 0 <= i < visible_of(s.entries, s.filter).len() {
        let k = raw_of(s.entries, s.filter, i);
        s.entries.update(
            k,
            EntryModel { description: t, completed: s.entries[k].completed, editing: false },
        )
    } else {
        s.entries
    };
    StateModel { entries, edit_value: Seq::empty(), ..s }
}

/// Effect of removing the entry at visible position `i`; out of range,
/// nothing happens.
pub open spec fn spec_remove(s: StateModel, i: int) -> StateModel {
    if 0 <= i < visible_of(s.entries, s.filter).len() {
        StateModel { entries: s.entries.remove(raw_of(s.entries, s.filter, i)), ..s }
    } else {
        s
    }
}

/// Effect of deleting every completed entry: exactly the active ones remain,
/// in their original relative order.
pub open spec fn spec_clear_completed(s: StateModel) -> StateModel {
    StateModel { entries: visible_of(s.entries, Filter::Active), ..s }
}

/// Effect of switching the filter.
pub open spec fn spec_set_filter(s: StateModel, f: Filter) -> StateModel {
    StateModel { filter: f, ..s }
}

/// Number of entries the current filter shows.
pub open spec fn spec_total(s: StateModel) -> nat {
    visible_of(s.entries, s.filter).len()
}

/// Number of completed entries among those the current filter shows.
pub open spec fn spec_total_completed(s: StateModel) -> nat {
    visible_of(visible_of(s.entries, s.filter), Filter::Completed).len()
}

/// At most one entry is in edit mode.
pub open spec fn at_most_one_editing(es: Seq<EntryModel>) -> bool {
    forall|i: int, j: int|
        0 <= i < es.len() && 0 <= j < es.len() && (#[trigger] es[i]).editing && (
        #[trigger] es[j]).editing ==> i == j
}

impl State {
    /// A fresh state over the given entries, showing all of them.
    pub fn new(entries: Vec<Entry>) -> (r: State)
        ensures
            r@.entries == entries.deep_view(),
            r@.filter == Filter::All,
            r@.edit_value == Seq::<char>::empty(),
    {
        State { entries, filter: Filter::All, edit_value: String::new() }
    }

    /// The entries, in order.
    pub fn entries(&self) -> (r: &Vec<Entry>)
        ensures
            r.deep_view() == self@.entries,
    {
        &self.entries
    }

    /// The filter in force.
    pub fn filter(&self) -> (r: Filter)
        ensures
            r == self@.filter,
    {
        self.filter
    }

    /// The live text of the entry being edited.
    pub fn edit_value(&self) -> (r: &String)
        ensures
            r@ == self@.edit_value,
    {
        &self.edit_value
    }

    /// Appends an entry with the trimmed text; with nothing left after
    /// trimming, the state is unchanged.
    pub fn add(&mut self, description: &str)
        ensures
            final(self)@ == spec_add(old(self)@, description@),
    {
        let t = trim(description);
        if !t.as_str().is_empty() {
            let ghost em = EntryModel { description: t@, completed: false, editing: false };
            let e = Entry { description: t, completed: false, editing: false };
            self.entries.push(e);
            proof {
                assert(self.entries.deep_view() =~= old(self).entries.deep_view().push(em));
                assert(self@ =~= spec_add(old(self)@, description@));
            }
        }
    }

    /// Flips the completion flag of the entry at visible position `idx`; out
    /// of range, nothing happens.
    pub fn toggle(&mut self, idx: usize)
        ensures
            final(self)@ == spec_toggle(old(self)@, idx as int),
    {
        match find_raw(&self.entries, self.filter, idx) {
            Some(k) => {
                let c = self.entries[k].completed;
                self.entries[k].completed = !c;
                proof {
                    assert(self.entries.deep_view() =~= old(self).entries.deep_view().update(
                        k as int,
                        with_completed(old(self).entries.deep_view()[k as int], !c),
                    ));
                    assert(self@ =~= spec_toggle(old(self)@, idx as int));
                }
            },
            None => {},
        }
    }

    /// Sets the completion flag of every entry to `status`.
    pub fn toggle_all(&mut self, status: bool)
        ensures
            final(self)@ == spec_toggle_all(old(self)@, status),
    {
        let n = self.entries.len();
        let mut k: usize = 0;
        while k < n
            invariant
                k <= n,
                n == self.entries.len(),
                self.filter == old(self).filter,
                self.edit_value == old(self).edit_value,
                forall|j: int|
                    0 <= j < k ==> self.entries.deep_view()[j] == with_completed(
                        old(self).entries.deep_view()[j],
                        status,
                    ),
                forall|j: int|
                    k <= j < n ==> self.entries.deep_view()[j] == old(self).entries.deep_view()[j],
            decreases n - k,
        {
            let ghost prev = self.entries@;
            let ghost prevd = self.entries.deep_view();
            self.entries[k].completed = status;
            proof {
                assert forall|j: int| 0 <= j < n implies #[trigger] self.entries.deep_view()[j]
                    == if j == k as int {
                    with_completed(prevd[j], status)
                } else {
                    prevd[j]
                } by {
                    assert(self.entries@[j] == prev.update(k as int, self.entries@[k as int])[j]);
                    assert(prevd[j] == prev[j]@);
                }
            }
            k = k + 1;
        }
        proof {
            assert(self@.entries =~= spec_toggle_all(old(self)@, status).entries);
            assert(self@ =~= spec_toggle_all(old(self)@, status));
        }
    }

    /// Whether the list is non-empty and every entry is completed; an empty
    /// list gives `false`.
    pub fn is_all_completed(&self) -> (r: bool)
        ensures
            r == spec_is_all_completed(self@),
    {
        if self.entries.len() == 0 {
            return false;
        }
        let mut k: usize = 0;
        while k < self.entries.len()
            invariant
                k <= self.entries.len(),
                forall|j: int| 0 <= j < k ==> (#[trigger] self.entries.deep_view()[j]).completed,
            decreases self.entries.len() - k,
        {
            if !self.entries[k].completed {
                proof {
                    assert(!(self.entries.deep_view()[k as int]).completed);
                }
                return false;
            }
            k = k + 1;
        }
        true
    }

    /// Takes every entry out of edit mode.
    pub fn clear_all_edit(&mut self)
        ensures
            final(self)@ == spec_clear_all_edit(old(self)@),
    {
        let n = self.entries.len();
        let mut k: usize = 0;
        while k < n
            invariant
                k <= n,
                n == self.entries.len(),
                self.filter == old(self).filter,
                self.edit_value == old(self).edit_value,
                forall|j: int|
                    0 <= j < k ==> self.entries.deep_view()[j] == with_editing(
                        old(self).entries.deep_view()[j],
                        false,
                    ),
                forall|j: int|
                    k <= j < n ==> self.entries.deep_view()[j] == old(self).entries.deep_view()[j],
            decreases n - k,
        {
            let ghost prev = self.entries@;
            let ghost prevd = self.entries.deep_view();
            self.entries[k].editing = false;
            proof {
                assert forall|j: int| 0 <= j < n implies #[trigger] self.entries.deep_view()[j]
                    == if j == k as int {
                    with_editing(prevd[j], false)
                } else {
                    prevd[j]
                } by {
                    assert(self.entries@[j] == prev.update(k as int, self.entries@[k as int])[j]);
                    assert(prevd[j] == prev[j]@);
                }
            }
            k = k + 1;
        }
        proof {
            assert(self@.entries =~= spec_clear_all_edit(old(self)@).entries);
            assert(self@ =~= spec_clear_all_edit(old(self)@));
        }
    }

    /// Puts the entry at visible position `idx` into edit mode after taking
    /// every entry out of it; out of range, nothing happens.
    pub fn toggle_edit(&mut self, idx: usize)
        ensures
            final(self)@ == spec_toggle_edit(old(self)@, idx as int),
    {
        match find_raw(&self.entries, self.filter, idx) {
            Some(k) => {
                self.clear_all_edit();
                proof {
                    assert(self.entries.deep_view().len() == old(self).entries.deep_view().len());
                    assert(self.entries@.len() == self.entries.deep_view().len());
                }
                let ghost prev = self.entries@;
                let ghost cleared = self.entries.deep_view();
                self.entries[k].editing = true;
                proof {
                    assert(cleared[k as int] == with_editing(
                        old(self).entries.deep_view()[k as int],
                        false,
                    ));
                    assert forall|j: int|
                        0 <= j < self.entries@.len() implies #[trigger] self.entries.deep_view()[j]
                        == if j == k as int {
                        with_editing(old(self).entries.deep_view()[k as int], true)
                    } else {
                        cleared[j]
                    } by {
                        assert(self.entries@[j] == prev.update(
                            k as int,
                            self.entries@[k as int],
                        )[j]);
                        assert(cleared[j] == prev[j]@);
                    }
                    assert(self@.entries =~= spec_toggle_edit(old(self)@, idx as int).entries);
                    assert(self@ =~= spec_toggle_edit(old(self)@, idx as int));
                }
            },
            None => {},
        }
    }

    /// Starts an edit of the entry at visible position `idx`: snapshots its
    /// description into the live edit text, then puts it into edit mode; out
    /// of range, nothing happens.
    pub fn start_edit(&mut self, idx: usize)
        ensures
            final(self)@ == spec_start_edit(old(self)@, idx as int),
    {
        match find_raw(&self.entries, self.filter, idx) {
            Some(k) => {
                self.edit_value = self.entries[k].description.clone();
                self.toggle_edit(idx);
                proof {
                    assert(self@ =~= spec_start_edit(old(self)@, idx as int));
                }
            },
            None => {},
        }
    }

    /// Commits an edit at visible position `idx`: the trimmed text becomes
    /// the entry's description (even when empty), the entry leaves edit mode,
    /// and the live edit text is cleared.
    pub fn complete_edit(&mut self, idx: usize, description: &str)
        ensures
            final(self)@ == spec_complete_edit(old(self)@, idx as int, description@),
    {
        let t = trim(description);
        match find_raw(&self.entries, self.filter, idx) {
            Some(k) => {
                self.entries[k].description = t;
                self.entries[k].editing = false;
                proof {
                    assert(self.entries.deep_view() =~= old(self).entries.deep_view().update(
                        k as int,
                        EntryModel {
                            description: trim_spec(description@),
                            completed: old(self).entries.deep_view()[k as int].completed,
                            editing: false,
                        },
                    ));
                }
            },
            None => {},
        }
        self.edit_value = String::new();
        proof {
            assert(self@ =~= spec_complete_edit(old(self)@, idx as int, description@));
        }
    }

    /// Deletes the entry at visible position `idx`; out of range, nothing
    /// happens.
    pub fn remove(&mut self, idx: usize)
        ensures
            final(self)@ == spec_remove(old(self)@, idx as int),
    {
        match find_raw(&self.entries, self.filter, idx) {
            Some(k) => {
                self.entries.remove(k);
                proof {
                    assert(self.entries.deep_view() =~= old(self).entries.deep_view().remove(
                        k as int,
                    ));
                    assert(self@ =~= spec_remove(old(self)@, idx as int));
                }
            },
            None => {},
        }
    }

    /// Deletes every completed entry; the active ones remain in order.
    pub fn clear_completed(&mut self)
        ensures
            final(self)@ == spec_clear_completed(old(self)@),
    {
        let mut kept: Vec<Entry> = Vec::new();
        let n = self.entries.len();
        let mut k: usize = 0;
        while k < n
            invariant
                k <= n,
                n == self.entries.len(),
                self.entries@ == old(self).entries@,
                self.filter == old(self).filter,
                self.edit_value == old(self).edit_value,
                kept.deep_view() == visible_of(
                    old(self).entries.deep_view().take(k as int),
                    Filter::Active,
                ),
            decreases n - k,
        {
            let e = &self.entries[k];
            if !e.completed {
                let ghost prev = kept.deep_view();
                kept.push(e.clone());
                proof {
                    assert(kept.deep_view() =~= prev.push(
                        old(self).entries.deep_view()[k as int],
                    ));
                }
            }
            k = k + 1;
            proof {
                let ghost es = old(self).entries.deep_view();
                assert(es.take(k as int) =~= es.take(k as int - 1).push(es[k as int - 1]));
                lemma_visible_push(es.take(k as int - 1), Filter::Active, es[k as int - 1]);
            }
        }
        self.entries = kept;
        proof {
            let ghost es = old(self).entries.deep_view();
            assert(es.take(n as int) =~= es);
            assert(self@ =~= spec_clear_completed(old(self)@));
        }
    }

    /// Switches the filter.
    pub fn set_filter(&mut self, filter: Filter)
        ensures
            final(self)@ == spec_set_filter(old(self)@, filter),
    {
        self.filter = filter;
        proof {
            assert(self@ =~= spec_set_filter(old(self)@, filter));
        }
    }

    /// Number of entries the current filter shows.
    pub fn total(&self) -> (r: usize)
        ensures
            r == spec_total(self@),
    {
        let ghost es = self.entries.deep_view();
        let n = self.entries.len();
        let mut k: usize = 0;
        let mut cnt: usize = 0;
        while k < n
            invariant
                k <= n,
                n == self.entries.len(),
                es == self.entries.deep_view(),
                cnt == visible_of(es.take(k as int), self.filter).len(),
                cnt <= k,
            decreases n - k,
        {
            let e = &self.entries[k];
            let fits = self.filter.fits(e);
            if fits {
                cnt = cnt + 1;
            }
            k = k + 1;
            proof {
                assert(es.take(k as int) =~= es.take(k as int - 1).push(es[k as int - 1]));
                lemma_visible_push(es.take(k as int - 1), self.filter, es[k as int - 1]);
            }
        }
        proof {
            assert(es.take(n as int) =~= es);
        }
        cnt
    }

    /// Number of completed entries among those the current filter shows.
    pub fn total_completed(&self) -> (r: usize)
        ensures
            r == spec_total_completed(self@),
    {
        let ghost es = self.entries.deep_view();
        let n = self.entries.len();
        let mut k: usize = 0;
        let mut cnt: usize = 0;
        while k < n
            invariant
                k <= n,
                n == self.entries.len(),
                es == self.entries.deep_view(),
                cnt == visible_of(
                    visible_of(es.take(k as int), self.filter),
                    Filter::Completed,
                ).len(),
                cnt <= k,
            decreases n - k,
        {
            let e = &self.entries[k];
            let fits = self.filter.fits(e);
            let done = e.completed;
            if fits && done {
                cnt = cnt + 1;
            }
            k = k + 1;
            proof {
                assert(es.take(k as int) =~= es.take(k as int - 1).push(es[k as int - 1]));
                lemma_visible_push(es.take(k as int - 1), self.filter, es[k as int - 1]);
                lemma_visible_push(
                    visible_of(es.take(k as int - 1), self.filter),
                    Filter::Completed,
                    es[k as int - 1],
                );
            }
        }
        proof {
            assert(es.take(n as int) =~= es);
        }
        cnt
    }

    /// The entries the current filter shows, in order.
    pub fn visible(&self) -> (r: Vec<Entry>)
        ensures
            r.deep_view() == visible_of(self@.entries, self@.filter),
    {
        let ghost es = self.entries.deep_view();
        let mut shown: Vec<Entry> = Vec::new();
        let n = self.entries.len();
        let mut k: usize = 0;
        while k < n
            invariant
                k <= n,
                n == self.entries.len(),
                es == self.entries.deep_view(),
                shown.deep_view() == visible_of(es.take(k as int), self.filter),
            decreases n - k,
        {
            let e = &self.entries[k];
            if self.filter.fits(e) {
                let ghost prev = shown.deep_view();
                shown.push(e.clone());
                proof {
                    assert(shown.deep_view() =~= prev.push(es[k as int]));
                }
            }
            k = k + 1;
            proof {
                assert(es.take(k as int) =~= es.take(k as int - 1).push(es[k as int - 1]));
                lemma_visible_push(es.take(k as int - 1), self.filter, es[k as int - 1]);
            }
        }
        proof {
            assert(es.take(n as int) =~= es);
        }
        shown
    }

    /// Performs the mutation a message asks for: the single entry point the
    /// controller dispatches every user interaction through.
    pub fn dispatch(&mut self, msg: Msg)
        ensures
            (msg matches Msg::Add(d) ==> final(self)@ == spec_add(old(self)@, d@)),
            (msg matches Msg::Edit((i, d)) ==> final(self)@ == spec_complete_edit(
                old(self)@,
                i as int,
                d@,
            )),
            (msg matches Msg::Remove(i) ==> final(self)@ == spec_remove(old(self)@, i as int)),
            (msg matches Msg::Toggle(i) ==> final(self)@ == spec_toggle(old(self)@, i as int)),
            (msg matches Msg::ToggleAll ==> final(self)@ == spec_toggle_all(
                old(self)@,
                !spec_is_all_completed(old(self)@),
            )),
            (msg matches Msg::ToggleEdit(i) ==> final(self)@ == spec_start_edit(
                old(self)@,
                i as int,
            )),
            (msg matches Msg::SetFilter(f) ==> final(self)@ == spec_set_filter(old(self)@, f)),
            (msg matches Msg::ClearCompleted ==> final(self)@ == spec_clear_completed(old(self)@)),
            (msg matches Msg::Focus ==> final(self)@ == old(self)@),
    {
        match msg {
            Msg::Add(d) => self.add(d.as_str()),
            Msg::Edit((i, d)) => self.complete_edit(i, d.as_str()),
            Msg::Remove(i) => self.remove(i),
            Msg::Toggle(i) => self.toggle(i),
            Msg::ToggleAll => {
                let status = !self.is_all_completed();
                self.toggle_all(status);
            },
            Msg::ToggleEdit(i) => self.start_edit(i),
            Msg::SetFilter(f) => self.set_filter(f),
            Msg::ClearCompleted => self.clear_completed(),
            Msg::Focus => {},
        }
    }
}

/// Law: marking everything completed makes `is_all_completed` hold on a
/// non-empty list.
pub proof fn law_toggle_all_completes(s: StateModel)
    requires
        s.entries.len() > 0,
    ensures
        spec_is_all_completed(spec_toggle_all(s, true)),
{
}

/// Law: after clearing completed entries, no completed entry remains, and
/// what remains is exactly the active view of the old list, in order.
pub proof fn law_clear_completed_keeps_active(s: StateModel)
    ensures
        spec_clear_completed(s).entries == visible_of(s.entries, Filter::Active),
        forall|i: int|
            0 <= i < spec_clear_completed(s).entries.len() ==> !(#[trigger] spec_clear_completed(
                s,
            ).entries[i]).completed,
{
    crate::display::law_filter_partition(s.entries);
}

/// Law: every mutation keeps at most one entry in edit mode, and entering an
/// edit establishes that on its own.
pub proof fn law_editing_invariant(s: StateModel, d: Seq<char>, i: int, f: Filter, status: bool)
    requires
        at_most_one_editing(s.entries),
    ensures
        at_most_one_editing(spec_add(s, d).entries),
        at_most_one_editing(spec_toggle(s, i).entries),
        at_most_one_editing(spec_toggle_all(s, status).entries),
        at_most_one_editing(spec_clear_all_edit(s).entries),
        at_most_one_editing(spec_toggle_edit(s, i).entries),
        at_most_one_editing(spec_start_edit(s, i).entries),
        at_most_one_editing(spec_complete_edit(s, i, d).entries),
        at_most_one_editing(spec_remove(s, i).entries),
        at_most_one_editing(spec_clear_completed(s).entries),
        at_most_one_editing(spec_set_filter(s, f).entries),
{
    lemma_amoe_visible(s.entries, Filter::Active);
    if 0 <= i < visible_of(s.entries, s.filter).len() {
        let k = raw_of(s.entries, s.filter, i);
        lemma_raw_of(s.entries, s.filter, i);
        lemma_amoe_remove(s.entries, k);
    }
}

/// At most one entry in edit mode survives dropping one entry.
proof fn lemma_amoe_remove(es: Seq<EntryModel>, k: int)
    requires
        0 <= k < es.len(),
        at_most_one_editing(es),
    ensures
        at_most_one_editing(es.remove(k)),
{
    let r = es.remove(k);
    assert forall|i: int, j: int|
        0 <= i < r.len() && 0 <= j < r.len() && (#[trigger] r[i]).editing && (
        #[trigger] r[j]).editing implies i == j by {
        let i0 = if i < k {
            i
        } else {
            i + 1
        };
        let j0 = if j < k {
            j
        } else {
            j + 1
        };
        assert(es[i0] == r[i]);
        assert(es[j0] == r[j]);
    }
}

/// At most one entry in edit mode survives filtering.
proof fn lemma_amoe_visible(es: Seq<EntryModel>, f: Filter)
    requires
        at_most_one_editing(es),
    ensures
        at_most_one_editing(visible_of(es, f)),
    decreases es.len(),
{
    if es.len() == 0 {
    } else {
        assert(at_most_one_editing(es.drop_first())) by {
            assert forall|i: int, j: int|
                0 <= i < es.drop_first().len() && 0 <= j < es.drop_first().len() && (
                #[trigger] es.drop_first()[i]).editing && (
                #[trigger] es.drop_first()[j]).editing implies i == j by {
                assert(es[i + 1] == es.drop_first()[i]);
                assert(es[j + 1] == es.drop_first()[j]);
            }
        }
        lemma_amoe_visible(es.drop_first(), f);
        let v = visible_of(es, f);
        let vt = visible_of(es.drop_first(), f);
        if crate::filter::allows(f, es[0]) {
            assert forall|i: int, j: int|
                0 <= i < v.len() && 0 <= j < v.len() && (#[trigger] v[i]).editing && (
                #[trigger] v[j]).editing implies i == j by {
                if i > 0 && j > 0 {
                    assert(v[i] == vt[i - 1]);
                    assert(v[j] == vt[j - 1]);
                } else if i == 0 && j > 0 {
                    assert(v[j] == vt[j - 1]);
                    lemma_visible_elem(es.drop_first(), f, j - 1);
                    let w = choose|w: int|
                        0 <= w < es.drop_first().len() && es.drop_first()[w] == vt[j - 1];
                    assert(es[w + 1] == vt[j - 1]);
                    assert(es[0].editing && es[w + 1].editing);
                } else if j == 0 && i > 0 {
                    assert(v[i] == vt[i - 1]);
                    lemma_visible_elem(es.drop_first(), f, i - 1);
                    let w = choose|w: int|
                        0 <= w < es.drop_first().len() && es.drop_first()[w] == vt[i - 1];
                    assert(es[w + 1] == vt[i - 1]);
                    assert(es[0].editing && es[w + 1].editing);
                }
            }
        }
    }
}

} // verus!
