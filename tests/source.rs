use memori::{Source, SourceLoadError};

fn parse(text: &str) -> Result<Source, SourceLoadError> {
    Source::parse("notes/week1.txt", "week1.txt", text)
}

#[test]
fn default_title_and_vocabulary() {
    let src = parse("사과 æble\n배 pære\n").unwrap();
    assert_eq!(src.title, "week1.txt");
    assert_eq!(src.contents.len(), 2);
    assert_eq!(src.contents[0].term, "사과");
    assert_eq!(src.contents[1].meaning.text, "pære");
}

#[test]
fn title_directive_with_text() {
    let src = parse("# Title: Lektion 3\n사과 æble").unwrap();
    assert_eq!(src.title, "Lektion 3");
    assert_eq!(src.contents.len(), 1);
}

#[test]
fn title_directive_without_text_takes_next_line() {
    let src = parse("#title\n\n  Lektion 4  \n사과 æble\n").unwrap();
    assert_eq!(src.title, "Lektion 4");
    assert_eq!(src.contents.len(), 1);
    assert_eq!(src.contents[0].term, "사과");
}

#[test]
fn reading_example_is_skipped_and_next_line_is_vocabulary() {
    let text = "# Reading\n나는 학교에 가요.\n학교 學校 skole\n\n저는 사과를 먹어요.\n사과 æble\n";
    let src = parse(text).unwrap();
    assert_eq!(src.contents.len(), 2);
    assert_eq!(src.contents[0].term, "학교");
    assert_eq!(src.contents[0].meaning.symbol.as_deref(), Some("學校"));
    assert_eq!(src.contents[1].term, "사과");
}

#[test]
fn vocab_directive_ends_reading_block() {
    let text = "# read\nexample sentence\n# vocab\n배 pære\n";
    let src = parse(text).unwrap();
    assert_eq!(src.contents.len(), 1);
    assert_eq!(src.contents[0].term, "배");
}

#[test]
fn unknown_directive_is_ignored() {
    let src = parse("# notes from class\n배 pære\n").unwrap();
    assert_eq!(src.contents.len(), 1);
}

#[test]
fn crlf_lines() {
    let src = parse("사과 æble\r\n배 pære\r\n").unwrap();
    assert_eq!(src.contents[0].meaning.text, "æble");
    assert_eq!(src.contents[1].meaning.text, "pære");
}

#[test]
fn invalid_vocabulary_line_is_an_error() {
    match parse("사과 æble\n\nnot a note\n배 pære\n") {
        Err(SourceLoadError::InvalidNote { file, lineno, line }) => {
            assert_eq!(file, "notes/week1.txt");
            assert_eq!(lineno, 2);
            assert_eq!(line, "not a note");
        }
        other => panic!("unexpected: {:?}", other),
    }
}

#[test]
fn empty_text_gives_no_notes() {
    let src = parse("").unwrap();
    assert_eq!(src.title, "week1.txt");
    assert!(src.contents.is_empty());
}
