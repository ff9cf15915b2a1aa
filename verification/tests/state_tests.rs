use wordle_solve::LetterState;
use wordle_solve::SquareState;

#[test]
fn letter_state_default() {
    let result: LetterState = Default::default();
    assert_eq!(result, LetterState::Disabled);
}

#[test]
fn letter_state_toggle() {
    let mut result: LetterState = LetterState::Disabled;
    assert_eq!(result.toggle(), LetterState::Disabled);
    result = LetterState::Present;
    assert_eq!(result.toggle(), LetterState::Incorrect);
    assert_eq!(result.toggle(), LetterState::Correct);
    assert_eq!(result.toggle(), LetterState::Present);
    assert_eq!(result.toggle(), LetterState::Incorrect);
}

#[test]
fn initialization_works() {
    let result: SquareState = Default::default();
    assert_eq!(result, SquareState::Disabled);
}

#[test]
fn square_state_toggle() {
    let mut result: SquareState = SquareState::Disabled;

    assert_eq!(result.toggle(), SquareState::Incorrect);
    assert_eq!(result.toggle(), SquareState::Correct);
    assert_eq!(result.toggle(), SquareState::Present);
    assert_eq!(result.toggle(), SquareState::Incorrect);
}
