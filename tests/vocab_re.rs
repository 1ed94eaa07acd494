use memori::Note;

fn test_re(line: &str, e_korean: &str, e_meaning: &str, e_hanja: Option<&str>) {
    if let Some(note) = Note::from_line(line) {
        assert_eq!(e_korean, note.term);
        assert_eq!(e_meaning, note.meaning.text);
        assert_eq!(e_hanja, note.meaning.symbol.as_deref());
    } else {
        panic!("Could not read line: '{}'", line);
    }
}

#[test]
fn vocab_re_1() {
    let l1 = "적 tidspunkt (situation, oplevelse)";
    test_re(l1, "적", "tidspunkt (situation, oplevelse)", None);
}

#[test]
fn vocab_re_2() {
    let l2 = "AV~(으)ㄴ/는/(으)ㄹ 데 sted";
    test_re(l2, "AV~(으)ㄴ/는/(으)ㄹ 데", "sted", None);
}

#[test]
fn vocab_re_3() {
    let l3 = "~복: 服 ~tøj";
    test_re(l3, "~복", "~tøj", Some("服"));
}

#[test]
fn vocab_re_4() {
    let l4 = "A~(으)ㄴ가요 blød interrogativ";
    test_re(l4, "A~(으)ㄴ가요", "blød interrogativ", None);
}

#[test]
fn vocab_re_5() {
    let l5 = "가상 현실 virtual reality";
    test_re(l5, "가상 현실", "virtual reality", None);
}

#[test]
fn line_without_term_is_rejected() {
    assert!(Note::from_line("hello 가 world").is_none());
    assert!(Note::from_line("").is_none());
    assert!(Note::from_line("가").is_none());
    assert!(Note::from_line("가 ").is_none());
}

#[test]
fn symbol_with_several_han_characters() {
    let note = Note::from_line("학교 學校 skole").unwrap();
    assert_eq!(note.term, "학교");
    assert_eq!(note.meaning.symbol.as_deref(), Some("學校"));
    assert_eq!(note.meaning.text, "skole");
}

#[test]
fn greedy_term_gives_back_last_word() {
    // Nothing but term words: the last word becomes the meaning.
    let note = Note::from_line("가 나 ").unwrap();
    assert_eq!(note.term, "가");
    assert_eq!(note.meaning.text, "나");
    assert_eq!(note.meaning.symbol, None);
}

#[test]
fn greedy_term_gives_back_one_separator() {
    let note = Note::from_line("가  ").unwrap();
    assert_eq!(note.term, "가");
    assert_eq!(note.meaning.text, "");
}

#[test]
fn han_only_remainder_is_the_meaning() {
    let note = Note::from_line("가 服").unwrap();
    assert_eq!(note.term, "가");
    assert_eq!(note.meaning.symbol, None);
    assert_eq!(note.meaning.text, "服");
}

#[test]
fn meaning_keeps_inner_punctuation_and_is_trimmed() {
    let note = Note::from_line("사과:   æble, (frugt)   ").unwrap();
    assert_eq!(note.term, "사과");
    assert_eq!(note.meaning.text, "æble, (frugt)");
    assert_eq!(note.meaning.symbol, None);
}
