//! A single todo entry and its mathematical model.

use vstd::prelude::*;

verus! {

/// One todo item: its text, whether it has been completed, and whether it is
/// currently being edited.
pub struct Entry {
    pub description: String,
    pub completed: bool,
    pub editing: bool,
}

/// The model of an entry: the same three fields, with the text as a sequence
/// of characters.
#[verifier::ext_equal]
pub ghost struct EntryModel {
    pub description: Seq<char>,
    pub completed: bool,
    pub editing: bool,
}

impl View for Entry {
    type V = EntryModel;

    open spec fn view(&self) -> EntryModel {
        EntryModel {
            description: self.description@,
            completed: self.completed,
            editing: self.editing,
        }
    }
}

impl DeepView for Entry {
    type V = EntryModel;

    open spec fn deep_view(&self) -> EntryModel {
        self.view()
    }
}

impl Clone for Entry {
    fn clone(&self) -> (r: Self)
        ensures
            r@ == self@,
    {
        Entry {
            description: self.description.clone(),
            completed: self.completed,
            editing: self.editing,
        }
    }
}

/// The model of `e` with its completion flag set to `status`.
pub open spec fn with_completed(e: EntryModel, status: bool) -> EntryModel {
    EntryModel { completed: status, ..e }
}

/// The model of `e` with its editing flag set to `status`.
pub open spec fn with_editing(e: EntryModel, status: bool) -> EntryModel {
    EntryModel { editing: status, ..e }
}

} // verus!
