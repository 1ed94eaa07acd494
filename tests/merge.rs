use memori::{submit, Collection, History, Meaning, Outcome};

fn meaning(text: &str, symbol: Option<&str>) -> Meaning {
    Meaning { text: text.to_string(), symbol: symbol.map(|s| s.to_string()) }
}

fn pending(o: Outcome) -> memori::PendingDecision {
    match o {
        Outcome::NeedsDecision(p) => p,
        other => panic!("expected a decision, got {:?}", other),
    }
}

#[test]
fn submit_twice_inserts_then_skips() {
    let mut c = Collection::new();
    let mut h = History::new();
    let r1 = submit(&mut c, &mut h, "사과".to_string(), meaning("æble", None), "week1");
    assert!(matches!(r1, Outcome::AutoInserted));
    let r2 = submit(&mut c, &mut h, "사과".to_string(), meaning("æble", None), "week1");
    assert!(matches!(r2, Outcome::AutoSkipped));
    assert_eq!(c.meanings("사과").len(), 1);
    assert!(h.contains("사과", "æble"));
}

#[test]
fn exact_duplicate_backfills_symbol_without_history() {
    let mut c = Collection::new();
    let mut h = History::new();
    c.add_meaning("학교".to_string(), meaning("skole", None), "week1");
    let r = submit(&mut c, &mut h, "학교".to_string(), meaning("skole", Some("學校")), "week2");
    assert!(matches!(r, Outcome::AutoSkipped));
    assert_eq!(c.meanings("학교")[0].symbol.as_deref(), Some("學校"));
    assert_eq!(c.meanings("학교")[0].source, 0);
    assert!(!h.contains("학교", "skole"));
}

#[test]
fn reject_suppresses_later_prompt() {
    let mut c = Collection::new();
    let mut h = History::new();
    submit(&mut c, &mut h, "배".to_string(), meaning("pære", None), "week1");
    let p = pending(submit(&mut c, &mut h, "배".to_string(), meaning("skib", None), "week2"));
    p.reject(&mut h);
    assert_eq!(c.meanings("배").len(), 1);
    let again = submit(&mut c, &mut h, "배".to_string(), meaning("skib", None), "week3");
    assert!(matches!(again, Outcome::AutoSkipped));
    assert_eq!(c.meanings("배").len(), 1);
}

#[test]
fn add_new_appends_with_new_title() {
    let mut c = Collection::new();
    let mut h = History::new();
    submit(&mut c, &mut h, "배".to_string(), meaning("pære", None), "week1");
    let p = pending(submit(&mut c, &mut h, "배".to_string(), meaning("skib", None), "week2"));
    assert_eq!(p.existing_meanings(&c).len(), 1);
    p.add_new(&mut c, &mut h);
    let ms = c.meanings("배");
    assert_eq!(ms.len(), 2);
    assert_eq!(ms[1].text, "skib");
    assert_eq!(c.title(ms[1].source).map(|s| s.as_str()), Some("week2"));
    assert!(h.contains("배", "skib"));
}

#[test]
fn same_title_shares_one_id() {
    let mut c = Collection::new();
    let mut h = History::new();
    submit(&mut c, &mut h, "사과".to_string(), meaning("æble", None), "week1");
    submit(&mut c, &mut h, "배".to_string(), meaning("pære", None), "week1");
    assert_eq!(c.meanings("사과")[0].source, c.meanings("배")[0].source);
    assert_eq!(c.title(1), None);
}

#[test]
fn replace_takes_new_source_and_keeps_symbol() {
    let mut c = Collection::new();
    let mut h = History::new();
    submit(&mut c, &mut h, "학교".to_string(), meaning("skole", Some("學校")), "week1");
    let p = pending(submit(&mut c, &mut h, "학교".to_string(), meaning("school", None), "week2"));
    assert!(p.replace(&mut c, &mut h, 0).is_ok());
    let ms = c.meanings("학교");
    assert_eq!(ms.len(), 1);
    assert_eq!(ms[0].text, "school");
    assert_eq!(ms[0].symbol.as_deref(), Some("學校"));
    assert_eq!(c.title(ms[0].source).map(|s| s.as_str()), Some("week2"));
    assert!(h.contains("학교", "school"));
}

#[test]
fn replace_with_incoming_symbol_overrides() {
    let mut c = Collection::new();
    let mut h = History::new();
    submit(&mut c, &mut h, "학교".to_string(), meaning("skole", Some("學")), "week1");
    let p = pending(submit(&mut c, &mut h, "학교".to_string(), meaning("school", Some("學校")), "week2"));
    assert!(p.replace(&mut c, &mut h, 0).is_ok());
    assert_eq!(c.meanings("학교")[0].symbol.as_deref(), Some("學校"));
}

#[test]
fn update_uses_given_text_and_records_incoming() {
    let mut c = Collection::new();
    let mut h = History::new();
    submit(&mut c, &mut h, "배".to_string(), meaning("pære", None), "week1");
    let p = pending(submit(&mut c, &mut h, "배".to_string(), meaning("skib", Some("舟")), "week2"));
    assert!(p.update(&mut c, &mut h, 0, "pære; skib".to_string()).is_ok());
    let ms = c.meanings("배");
    assert_eq!(ms[0].text, "pære; skib");
    assert_eq!(ms[0].symbol.as_deref(), Some("舟"));
    assert_eq!(ms[0].source, 1);
    assert!(h.contains("배", "skib"));
    assert!(!h.contains("배", "pære; skib"));
}

#[test]
fn replace_with_same_text_still_moves_source() {
    let mut c = Collection::new();
    let mut h = History::new();
    submit(&mut c, &mut h, "배".to_string(), meaning("pære", None), "week1");
    let p = pending(submit(&mut c, &mut h, "배".to_string(), meaning("skib", None), "week2"));
    assert!(p.update(&mut c, &mut h, 0, "pære".to_string()).is_ok());
    assert_eq!(c.meanings("배")[0].text, "pære");
    assert_eq!(c.title(c.meanings("배")[0].source).map(|s| s.as_str()), Some("week2"));
}

#[test]
fn out_of_bounds_replace_returns_the_decision() {
    let mut c = Collection::new();
    let mut h = History::new();
    submit(&mut c, &mut h, "배".to_string(), meaning("pære", None), "week1");
    let p = pending(submit(&mut c, &mut h, "배".to_string(), meaning("skib", None), "week2"));
    let p = match p.replace(&mut c, &mut h, 1) {
        Err(p) => p,
        Ok(()) => panic!("index 1 is out of bounds"),
    };
    assert_eq!(p.term(), "배");
    assert_eq!(p.meaning().text, "skib");
    assert_eq!(p.source_title(), "week2");
    assert_eq!(c.meanings("배")[0].text, "pære");
    assert!(!h.contains("배", "skib"));
    let p = match p.update(&mut c, &mut h, 5, "x".to_string()) {
        Err(p) => p,
        Ok(()) => panic!("index 5 is out of bounds"),
    };
    p.reject(&mut h);
    assert!(h.contains("배", "skib"));
}
