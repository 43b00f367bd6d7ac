//! The servers that the viewer remembers.
use simulife::viewer::history::{ServerHistory, MAX_HISTORY};

fn in_memory() -> ServerHistory {
    ServerHistory::load(None)
}

#[test]
fn record_puts_newest_first() {
    let mut h = in_memory();
    h.record("a:1");
    h.record("b:2");
    assert_eq!(h.last(), Some("b:2"));
    assert_eq!(h.entries(), ["b:2", "a:1"]);
}

#[test]
fn record_moves_existing_entry_to_front_without_duplicating() {
    let mut h = in_memory();
    h.record("a:1");
    h.record("b:2");
    h.record("a:1");
    assert_eq!(h.entries(), ["a:1", "b:2"]);
}

#[test]
fn record_is_capped() {
    let mut h = in_memory();
    for i in 0..(MAX_HISTORY + 4) {
        h.record(&format!("host{i}:1"));
    }
    assert_eq!(h.entries().len(), MAX_HISTORY);
    // Newest survives, oldest is evicted.
    assert_eq!(
        h.last(),
        Some(format!("host{}:1", MAX_HISTORY + 3).as_str())
    );
    assert!(!h.entries().iter().any(|e| e == "host0:1"));
}

#[test]
fn record_ignores_empty_and_repeated_current() {
    let mut h = in_memory();
    h.record("a:1");
    h.record("");
    h.record("   ");
    h.record("a:1");
    assert_eq!(h.entries(), ["a:1"]);
}

#[test]
fn record_tells_whether_there_is_something_to_save() {
    let mut h = in_memory();
    assert!(h.record(" a:1 "));
    assert!(!h.record("a:1"));
    assert!(!h.record("\t"));
    assert!(h.record("b:2"));
    assert_eq!(h.entries(), ["b:2", "a:1"]);
}

#[test]
fn load_drops_blank_entries_and_cuts_the_list() {
    let mut saved: Vec<String> = vec!["  ".to_string(), "a:1".to_string(), "".to_string()];
    for i in 0..10 {
        saved.push(format!("h{i}"));
    }
    let h = ServerHistory::load(Some(saved));
    assert_eq!(h.entries(), ["a:1", "h0", "h1", "h2", "h3", "h4", "h5", "h6"]);
    assert_eq!(h.clone().entries(), h.entries());
    assert!(ServerHistory::default().last().is_none());
}

#[test]
fn recording_keeps_the_others_in_order_and_no_blanks() {
    let saved = ["a", " ", "b", "c", "d"].map(String::from).to_vec();
    let mut h = ServerHistory::load(Some(saved));
    h.record(" c ");
    assert_eq!(h.entries(), ["c", "a", "b", "d"]);
    h.record("e");
    assert_eq!(h.entries(), ["e", "c", "a", "b", "d"]);
    assert!(h.entries().iter().all(|e| !e.trim().is_empty()));
}
