use memori::pattern::match_vocab;

fn flags(line: &str, marked: &str) -> Vec<bool> {
    line.chars().map(|c| marked.contains(c)).collect()
}

#[test]
fn match_with_given_classes_multi_word_term() {
    let line = "ab cd q r";
    let chars: Vec<char> = line.chars().collect();
    let note = match_vocab(&chars, &flags(line, "abcd"), &flags(line, "")).unwrap();
    assert_eq!(note.term, "ab cd");
    assert_eq!(note.meaning.symbol, None);
    assert_eq!(note.meaning.text, "q r");
}

#[test]
fn match_with_given_classes_symbol() {
    let line = "ab: ZY q";
    let chars: Vec<char> = line.chars().collect();
    let note = match_vocab(&chars, &flags(line, "ab"), &flags(line, "ZY")).unwrap();
    assert_eq!(note.term, "ab");
    assert_eq!(note.meaning.symbol.as_deref(), Some("ZY"));
    assert_eq!(note.meaning.text, "q");
}

#[test]
fn match_with_given_classes_markers_only() {
    let line = "N~(x) q";
    let chars: Vec<char> = line.chars().collect();
    assert!(match_vocab(&chars, &flags(line, ""), &flags(line, "")).is_none());
    let note = match_vocab(&chars, &flags(line, "x"), &flags(line, "")).unwrap();
    assert_eq!(note.term, "N~(x)");
    assert_eq!(note.meaning.text, "q");
}
