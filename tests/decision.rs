use memori::decision::{reply, Decision, PromptState, Reply};

#[test]
fn add_and_ignore() {
    assert_eq!(reply(&PromptState::Command, "a\n", 2), Reply::Done(Decision::Add));
    assert_eq!(reply(&PromptState::Command, "  i  ", 2), Reply::Done(Decision::Reject));
}

#[test]
fn unknown_command() {
    assert_eq!(reply(&PromptState::Command, "x", 2), Reply::Unknown);
    assert_eq!(reply(&PromptState::Command, "add", 2), Reply::Unknown);
    assert_eq!(reply(&PromptState::Command, "", 2), Reply::Unknown);
}

#[test]
fn replace_with_inline_index() {
    assert_eq!(reply(&PromptState::Command, "r 1", 2), Reply::Done(Decision::Replace(1)));
    assert_eq!(reply(&PromptState::Command, "r +0", 2), Reply::Done(Decision::Replace(0)));
}

#[test]
fn replace_asks_for_a_valid_index() {
    let ask = Reply::Ask(PromptState::Index { update: false, text: None });
    assert_eq!(reply(&PromptState::Command, "r", 2), ask);
    assert_eq!(reply(&PromptState::Command, "r 2", 2), ask);
    let st = PromptState::Index { update: false, text: None };
    assert_eq!(reply(&st, "two", 2), ask);
    assert_eq!(reply(&st, "99999999999999999999999", 2), ask);
    assert_eq!(reply(&st, " 1 \n", 2), Reply::Done(Decision::Replace(1)));
}

#[test]
fn update_with_inline_index_and_text() {
    assert_eq!(
        reply(&PromptState::Command, "u 0 new text ", 1),
        Reply::Done(Decision::Update(0, "new text".to_string()))
    );
}

#[test]
fn update_asks_for_text() {
    assert_eq!(reply(&PromptState::Command, "u 0", 1), Reply::Ask(PromptState::Text { index: 0 }));
    let st = PromptState::Text { index: 0 };
    assert_eq!(reply(&st, "   ", 1), Reply::Ask(PromptState::Text { index: 0 }));
    assert_eq!(reply(&st, "skib\n", 1), Reply::Done(Decision::Update(0, "skib".to_string())));
}

#[test]
fn update_keeps_text_while_asking_for_index() {
    let ask = Reply::Ask(PromptState::Index { update: true, text: Some("skib".to_string()) });
    assert_eq!(reply(&PromptState::Command, "u 7 skib", 1), ask);
    let st = PromptState::Index { update: true, text: Some("skib".to_string()) };
    assert_eq!(reply(&st, "0", 1), Reply::Done(Decision::Update(0, "skib".to_string())));
}
