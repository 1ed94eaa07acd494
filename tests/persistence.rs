use memori::{submit, ColMeaning, Collection, History, Meaning, Outcome};

fn meaning(text: &str, symbol: Option<&str>) -> Meaning {
    Meaning { text: text.to_string(), symbol: symbol.map(|s| s.to_string()) }
}

fn sorted_parts(c: &Collection) -> (Vec<(String, Vec<ColMeaning>)>, Vec<String>, u32) {
    let (mut contents, titles, next) = c.to_parts();
    contents.sort_by(|a, b| a.0.cmp(&b.0));
    (contents, titles, next)
}

#[test]
fn collection_round_trip() {
    let mut c = Collection::new();
    let mut h = History::new();
    submit(&mut c, &mut h, "사과".to_string(), meaning("æble", None), "week1");
    submit(&mut c, &mut h, "학교".to_string(), meaning("skole", Some("學校")), "week1");
    if let Outcome::NeedsDecision(p) = submit(&mut c, &mut h, "사과".to_string(), meaning("apple", None), "week2") {
        p.add_new(&mut c, &mut h);
    } else {
        panic!("expected a decision");
    }
    c.add_meaning("사과".to_string(), meaning("pomme", None), "week3");
    let before = sorted_parts(&c);
    let (contents, titles, next) = c.to_parts();
    let back = Collection::from_parts(contents, titles, next).expect("valid parts");
    let after = sorted_parts(&back);
    assert_eq!(before, after);
    let ms = back.meanings("사과");
    let texts: Vec<&str> = ms.iter().map(|m| m.text.as_str()).collect();
    assert_eq!(texts, vec!["æble", "apple", "pomme"]);
    assert_eq!(back.title(2).map(|t| t.as_str()), Some("week3"));
    assert_eq!(after.2, 3);
}

#[test]
fn invalid_parts_are_refused() {
    let m = |s: u32| ColMeaning { text: "t".to_string(), symbol: None, source: s };
    let titles = vec!["a".to_string()];
    assert!(Collection::from_parts(vec![("x".to_string(), vec![m(0)])], titles.clone(), 1).is_some());
    assert!(Collection::from_parts(vec![("x".to_string(), vec![m(0)])], titles.clone(), 2).is_none());
    assert!(Collection::from_parts(vec![("x".to_string(), vec![m(1)])], titles.clone(), 1).is_none());
    assert!(Collection::from_parts(vec![("x".to_string(), vec![])], titles.clone(), 1).is_none());
    assert!(Collection::from_parts(
        vec![("x".to_string(), vec![m(0)]), ("x".to_string(), vec![m(0)])],
        titles.clone(),
        1
    )
    .is_none());
    assert!(Collection::from_parts(vec![], vec!["a".to_string(), "a".to_string()], 2).is_none());
}

#[test]
fn history_parts_list_every_pair() {
    let mut h = History::new();
    h.insert("x".to_string(), "1".to_string());
    h.insert("y".to_string(), "2".to_string());
    h.insert("x".to_string(), "3".to_string());
    h.insert("x".to_string(), "1".to_string());
    let parts = h.to_parts();
    assert_eq!(parts.len(), 2);
    assert_eq!(parts[0].0, "x");
    assert_eq!(parts[0].1, vec!["1".to_string(), "3".to_string()]);
    assert_eq!(parts[1], ("y".to_string(), vec!["2".to_string()]));
}
