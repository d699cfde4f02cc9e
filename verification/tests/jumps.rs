use medit::jumps::{JumpEntry, JumpList};

fn entry(p: &str, off: usize) -> JumpEntry {
    JumpEntry {
        path: p.to_string(),
        offset: off,
    }
}

#[test]
fn record_then_back_returns_entry() {
    let mut j = JumpList::new();
    j.record(entry("a.rs", 10));
    let here = entry("b.rs", 20);
    let got = j.back(Some(here.clone())).unwrap();
    assert_eq!(got.path, String::from("a.rs"));
    assert_eq!(got.offset, 10);
    // The departed location is now on forward.
    assert_eq!(j.forward_len(), 1);
    assert_eq!(j.back_len(), 0);
}

#[test]
fn back_returns_in_lifo_order() {
    let mut j = JumpList::new();
    j.record(entry("a", 1));
    j.record(entry("b", 2));
    j.record(entry("c", 3));
    let here = entry("d", 99);
    assert_eq!(j.back(Some(here.clone())).unwrap().path, String::from("c"));
    assert_eq!(j.back(Some(here.clone())).unwrap().path, String::from("b"));
    assert_eq!(j.back(Some(here.clone())).unwrap().path, String::from("a"));
    assert!(j.back(Some(here)).is_none());
}

#[test]
fn back_then_forward_round_trips() {
    let mut j = JumpList::new();
    j.record(entry("a", 1));
    let here = entry("b", 2);
    let prev = j.back(Some(here.clone())).unwrap();
    assert_eq!(prev.path, String::from("a"));
    let restored = j.forward(Some(prev)).unwrap();
    assert_eq!(restored.path, String::from("b"));
}

#[test]
fn new_record_clears_forward() {
    let mut j = JumpList::new();
    j.record(entry("a", 1));
    j.back(Some(entry("b", 2)));
    assert_eq!(j.forward_len(), 1);
    j.record(entry("c", 3));
    assert_eq!(j.forward_len(), 0);
}

#[test]
fn back_without_current_still_pops() {
    // No-path buffers can't push themselves onto forward but should
    // still be able to navigate backwards.
    let mut j = JumpList::new();
    j.record(entry("a", 1));
    let got = j.back(None).unwrap();
    assert_eq!(got.path, String::from("a"));
    assert_eq!(j.forward_len(), 0);
}
