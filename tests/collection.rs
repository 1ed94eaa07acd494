use memori::{Collection, History, Meaning};

fn meaning(text: &str) -> Meaning {
    Meaning { text: text.to_string(), symbol: None }
}

#[test]
fn new_collection_is_empty() {
    let c = Collection::new();
    assert!(c.meanings("x").is_empty());
    assert!(!c.contains("x", "y"));
    assert_eq!(c.title(0), None);
}

#[test]
fn add_and_lookup() {
    let mut c = Collection::new();
    c.add_meaning("사과".to_string(), meaning("æble"), "a");
    c.add_meaning("사과".to_string(), meaning("apple"), "b");
    assert!(c.contains("사과", "apple"));
    assert!(!c.contains("사과", "pear"));
    let ms = c.meanings("사과");
    assert_eq!(ms.len(), 2);
    assert_eq!(ms[0].text, "æble");
    assert_eq!(ms[0].source, 0);
    assert_eq!(ms[1].source, 1);
    assert_eq!(c.title(1).map(|s| s.as_str()), Some("b"));
}

#[test]
fn replace_meaning_errors() {
    let mut c = Collection::new();
    let r = c.replace_meaning("x", 0, "t".to_string(), None, "a");
    assert_eq!(r, Err("No meanings found for term 'x'".to_string()));
    c.add_meaning("x".to_string(), meaning("t"), "a");
    let r = c.replace_meaning("x", 1, "u".to_string(), None, "a");
    assert_eq!(r, Err("Invalid index: 1 >= 1.".to_string()));
    assert_eq!(c.meanings("x")[0].text, "t");
}

#[test]
fn has_room_for_titles() {
    let mut c = Collection::new();
    assert!(c.has_room("a"));
    c.add_meaning("x".to_string(), meaning("t"), "a");
    assert!(c.has_room("a"));
}

#[test]
fn history_records_pairs() {
    let mut h = History::new();
    assert!(!h.contains("x", "y"));
    h.insert("x".to_string(), "y".to_string());
    h.insert("x".to_string(), "y".to_string());
    h.insert("x".to_string(), "z".to_string());
    assert!(h.contains("x", "y"));
    assert!(h.contains("x", "z"));
    assert!(!h.contains("y", "x"));
}
