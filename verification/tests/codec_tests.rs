use todomvc_core::codec::decode_entries;
use todomvc_core::codec::encode_entries;
use todomvc_core::Entry;
use todomvc_core::Msg;
use todomvc_core::State;

fn entry(description: &str, completed: bool, editing: bool) -> Entry {
    Entry { description: description.to_string(), completed, editing }
}

fn same(a: &[Entry], b: &[Entry]) -> bool {
    a.len() == b.len()
        && a.iter().zip(b.iter()).all(|(x, y)| {
            x.description == y.description && x.completed == y.completed && x.editing == y.editing
        })
}

#[test]
fn round_trip_plain_entries() {
    let entries = vec![entry("buy milk", false, false), entry("call home", true, false)];
    let blob = encode_entries(&entries);
    let back = decode_entries(&blob).expect("well-formed blob");
    assert!(same(&entries, &back));
}

#[test]
fn round_trip_empty_list() {
    let entries: Vec<Entry> = Vec::new();
    let blob = encode_entries(&entries);
    assert_eq!(blob, "");
    let back = decode_entries(&blob).expect("well-formed blob");
    assert!(back.is_empty());
}

#[test]
fn round_trip_escaped_characters() {
    let entries = vec![
        entry("a\\b", false, false),
        entry("line one\nline two", true, false),
        entry("", false, true),
        entry("\\n is not a newline", true, true),
    ];
    let blob = encode_entries(&entries);
    let back = decode_entries(&blob).expect("well-formed blob");
    assert!(same(&entries, &back));
}

#[test]
fn encoding_is_the_documented_line_format() {
    let entries = vec![entry("ab", true, false)];
    assert_eq!(encode_entries(&entries), "10ab\n");
    let entries = vec![entry("x\ny", false, true)];
    assert_eq!(encode_entries(&entries), "01x\\ny\n");
}

#[test]
fn malformed_blobs_decode_to_nothing() {
    assert!(decode_entries("x").is_none());
    assert!(decode_entries("1").is_none());
    assert!(decode_entries("20ab\n").is_none());
    assert!(decode_entries("10ab").is_none());
    assert!(decode_entries("10a\\qb\n").is_none());
    assert!(decode_entries("10ok\n1").is_none());
}

#[test]
fn persisted_state_reloads_identically() {
    let mut st = State::new(Vec::new());
    st.dispatch(Msg::Add("first".to_string()));
    st.dispatch(Msg::Add("  second  ".to_string()));
    st.dispatch(Msg::Toggle(0));
    let blob = encode_entries(st.entries());
    let reloaded = decode_entries(&blob).expect("well-formed blob");
    let fresh = State::new(reloaded);
    assert!(same(st.entries(), fresh.entries()));
}
