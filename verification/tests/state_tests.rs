use todomvc_core::Entry;
use todomvc_core::Filter;
use todomvc_core::Msg;
use todomvc_core::State;

fn entry(description: &str, completed: bool) -> Entry {
    Entry { description: description.to_string(), completed, editing: false }
}

fn descriptions(entries: &[Entry]) -> Vec<String> {
    entries.iter().map(|e| e.description.clone()).collect()
}

#[test]
fn add_trims_input() {
    let mut st = State::new(Vec::new());
    st.add("  buy milk  ");
    assert_eq!(st.entries().len(), 1);
    assert_eq!(st.entries()[0].description, "buy milk");
    assert!(!st.entries()[0].completed);
    assert!(!st.entries()[0].editing);
}

#[test]
fn add_empty_is_ignored() {
    let mut st = State::new(Vec::new());
    st.add("");
    st.add("   ");
    st.add("\t\n  ");
    assert_eq!(st.entries().len(), 0);
}

#[test]
fn toggle_all_completes_everything() {
    let mut st = State::new(vec![entry("a", true), entry("b", true), entry("c", false)]);
    assert!(!st.is_all_completed());
    st.toggle_all(true);
    assert!(st.entries().iter().all(|e| e.completed));
    assert!(st.is_all_completed());
}

#[test]
fn toggle_all_can_uncomplete() {
    let mut st = State::new(vec![entry("a", true), entry("b", false)]);
    st.toggle_all(false);
    assert!(st.entries().iter().all(|e| !e.completed));
    assert!(!st.is_all_completed());
}

#[test]
fn is_all_completed_empty_is_false() {
    let st = State::new(Vec::new());
    assert!(!st.is_all_completed());
}

#[test]
fn clear_completed_keeps_active_in_order() {
    let mut st = State::new(vec![entry("A", true), entry("B", false), entry("C", true)]);
    st.clear_completed();
    assert_eq!(descriptions(st.entries()), vec!["B".to_string()]);
    assert!(!st.entries()[0].completed);
}

#[test]
fn filter_views_partition_entries() {
    let mut st = State::new(vec![entry("A", true), entry("B", false)]);
    st.set_filter(Filter::Completed);
    assert_eq!(descriptions(&st.visible()), vec!["A".to_string()]);
    st.set_filter(Filter::Active);
    assert_eq!(descriptions(&st.visible()), vec!["B".to_string()]);
    st.set_filter(Filter::All);
    assert_eq!(descriptions(&st.visible()), vec!["A".to_string(), "B".to_string()]);
}

#[test]
fn edit_flow_updates_description() {
    let mut st = State::new(vec![entry("old text", false)]);
    st.start_edit(0);
    assert_eq!(st.edit_value(), "old text");
    assert!(st.entries()[0].editing);
    st.complete_edit(0, "new text");
    assert_eq!(st.entries()[0].description, "new text");
    assert!(!st.entries()[0].editing);
    assert_eq!(st.edit_value(), "");
}

#[test]
fn complete_edit_trims_and_keeps_empty_result() {
    let mut st = State::new(vec![entry("something", false)]);
    st.complete_edit(0, "   ");
    assert_eq!(st.entries()[0].description, "");
    assert_eq!(st.entries().len(), 1);
}

#[test]
fn at_most_one_entry_is_editing() {
    let mut st = State::new(vec![entry("a", false), entry("b", false), entry("c", false)]);
    st.start_edit(0);
    st.start_edit(2);
    let editing: Vec<bool> = st.entries().iter().map(|e| e.editing).collect();
    assert_eq!(editing, vec![false, false, true]);
    assert_eq!(st.edit_value(), "c");
}

#[test]
fn toggle_uses_display_index_of_current_filter() {
    let mut st = State::new(vec![entry("A", true), entry("B", false), entry("C", false)]);
    st.set_filter(Filter::Active);
    st.toggle(1);
    let done: Vec<bool> = st.entries().iter().map(|e| e.completed).collect();
    assert_eq!(done, vec![true, false, true]);
}

#[test]
fn remove_uses_display_index_of_current_filter() {
    let mut st = State::new(vec![entry("A", true), entry("B", false), entry("C", true)]);
    st.set_filter(Filter::Completed);
    st.remove(1);
    assert_eq!(descriptions(st.entries()), vec!["A".to_string(), "B".to_string()]);
}

#[test]
fn out_of_range_operations_are_noops() {
    let mut st = State::new(vec![entry("A", false)]);
    st.toggle(5);
    st.remove(5);
    st.toggle_edit(5);
    st.start_edit(5);
    assert_eq!(st.entries().len(), 1);
    assert_eq!(st.entries()[0].description, "A");
    assert!(!st.entries()[0].completed);
    assert!(!st.entries()[0].editing);
}

#[test]
fn totals_are_scoped_to_the_filter() {
    let mut st = State::new(vec![entry("A", true), entry("B", false), entry("C", true)]);
    assert_eq!(st.total(), 3);
    assert_eq!(st.total_completed(), 2);
    st.set_filter(Filter::Active);
    assert_eq!(st.total(), 1);
    assert_eq!(st.total_completed(), 0);
    st.set_filter(Filter::Completed);
    assert_eq!(st.total(), 2);
    assert_eq!(st.total_completed(), 2);
}

#[test]
fn dispatch_drives_all_mutations() {
    let mut st = State::new(Vec::new());
    st.dispatch(Msg::Add("  one  ".to_string()));
    st.dispatch(Msg::Add("two".to_string()));
    st.dispatch(Msg::Toggle(0));
    assert!(st.entries()[0].completed);
    st.dispatch(Msg::ToggleAll);
    assert!(st.is_all_completed());
    st.dispatch(Msg::SetFilter(Filter::Completed));
    assert_eq!(st.filter(), Filter::Completed);
    st.dispatch(Msg::ToggleEdit(1));
    assert_eq!(st.edit_value(), "two");
    st.dispatch(Msg::Edit((1, "  two edited  ".to_string())));
    assert_eq!(st.entries()[1].description, "two edited");
    st.dispatch(Msg::Focus);
    st.dispatch(Msg::ClearCompleted);
    assert_eq!(st.entries().len(), 0);
}

#[test]
fn toggle_all_target_comes_from_is_all_completed() {
    let mut st = State::new(vec![entry("a", true), entry("b", true)]);
    st.dispatch(Msg::ToggleAll);
    assert!(st.entries().iter().all(|e| !e.completed));
    st.dispatch(Msg::ToggleAll);
    assert!(st.entries().iter().all(|e| e.completed));
}

#[test]
fn filter_labels_and_hrefs() {
    assert_eq!(Filter::All.label(), "All");
    assert_eq!(Filter::Active.label(), "Active");
    assert_eq!(Filter::Completed.label(), "Completed");
    assert_eq!(Filter::All.as_href(), "#/");
    assert_eq!(Filter::Active.as_href(), "#/active");
    assert_eq!(Filter::Completed.as_href(), "#/completed");
    assert_eq!(Filter::all(), vec![Filter::All, Filter::Active, Filter::Completed]);
}

#[test]
fn fits_matches_filter_meaning() {
    let done = entry("x", true);
    let open = entry("y", false);
    assert!(Filter::All.fits(&done) && Filter::All.fits(&open));
    assert!(!Filter::Active.fits(&done) && Filter::Active.fits(&open));
    assert!(Filter::Completed.fits(&done) && !Filter::Completed.fits(&open));
}
