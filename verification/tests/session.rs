use warden::session::{SessionStore, WindowRecord};

fn rec(loaded: &[&str], active: Option<&str>) -> WindowRecord {
    WindowRecord {
        loaded: loaded.iter().map(|s| s.to_string()).collect(),
        active: active.map(str::to_string),
    }
}

fn ids(words: &[&str]) -> Vec<String> {
    words.iter().map(|w| w.to_string()).collect()
}

#[test]
fn restore_drops_ids_the_window_no_longer_has() {
    let r = rec(&["a", "gone", "c"], Some("gone")).restore(&ids(&["a", "b", "c"]));
    assert_eq!(r.loaded, ids(&["a", "c"]));
    assert_eq!(
        r.active, None,
        "a vanished active tab falls back to the default"
    );
    let r = rec(&[], Some("b")).restore(&ids(&["a", "b"]));
    assert_eq!(r.active.as_deref(), Some("b"));
}

#[test]
fn a_store_gives_back_what_was_set() {
    let mut s = SessionStore::from_records(vec![]);
    assert!(s.get("w").is_none(), "an empty store");
    assert!(s.set("w", Some(rec(&["a", "b"], Some("b")))));
    assert_eq!(s.get("w"), Some(&rec(&["a", "b"], Some("b"))));
    let back = SessionStore::from_records(s.records());
    assert_eq!(back.get("w"), Some(&rec(&["a", "b"], Some("b"))));
    assert!(s.set("w", None));
    assert!(s.get("w").is_none(), "None forgets");
}

#[test]
fn a_store_is_written_only_when_it_changed() {
    let mut s = SessionStore::from_records(vec![]);
    assert!(s.set("w", Some(rec(&["a"], None))));
    assert!(!s.set("w", Some(rec(&["a"], None))), "same record → no write");
    assert!(!s.set("absent", None), "forgetting nothing → no write");
    assert!(s.set("w", Some(rec(&["a", "b"], None))));
}

#[test]
fn a_later_record_of_a_window_wins() {
    let s = SessionStore::from_records(vec![
        ("w".to_string(), rec(&["a"], None)),
        ("w".to_string(), rec(&["b"], None)),
    ]);
    assert_eq!(s.get("w"), Some(&rec(&["b"], None)));
}
