use wordle_solve::Letter;
use wordle_solve::LetterState;

#[test]
fn letter_default() {
    let result: Letter = Letter::default();
    assert_eq!(result.value, ' ');
    assert_eq!(result.state, LetterState::Disabled);
}

#[test]
fn set_state() {
    let mut result: Letter = Letter::default();
    result.set_state(LetterState::Correct);
    assert_eq!(result.get_state(), LetterState::Correct);

    result.set_state(LetterState::Incorrect);
    assert_eq!(result.get_state(), LetterState::Incorrect);

    result.set_state(LetterState::Disabled);
    assert_eq!(result.get_state(), LetterState::Disabled);

    result.set_state(LetterState::Present);
    assert_eq!(result.get_state(), LetterState::Present);
}

#[test]
fn letter_toggle_keeps_value() {
    let mut result = Letter::default();
    result.value = 'q';
    result.toggle();
    assert_eq!(result.value, 'q');
    assert_eq!(result.get_state(), LetterState::Disabled);

    result.set_state(LetterState::Incorrect);
    result.toggle();
    assert_eq!(result.value, 'q');
    assert_eq!(result.get_state(), LetterState::Correct);
}
