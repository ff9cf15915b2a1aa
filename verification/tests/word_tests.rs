use wordle_solve::Board;
use wordle_solve::LetterState;
use wordle_solve::Word;
use wordle_solve::WordleError;
use wordle_solve::MAX_ATTEMPTS;
use wordle_solve::MAX_LETTERS;

#[test]
fn word_default() {
    let result: Word = Default::default();
    assert_eq!(result.len(), MAX_LETTERS);
}

#[test]
fn filter() {
    let mut word: Word = Default::default();
    word.set_cell(0, 'a', LetterState::Present);
    word.set_cell(1, 'b', LetterState::Present);
    word.set_cell(2, 'c', LetterState::Present);
    word.set_cell(3, 'd', LetterState::Present);
    word.set_cell(4, 'e', LetterState::Present);

    let str = String::from("abcde");
    assert_eq!(word.filter(&str), false);

    let str = String::from("abcdf");
    assert_eq!(word.filter(&str), true);

    let str = String::from("abcde");
    word.set_cell(4, 'e', LetterState::Correct);
    assert_eq!(word.filter(&str), false);

    word.set_cell(4, 'e', LetterState::Incorrect);
    assert_eq!(word.filter(&str), true);

    let str = String::from("aaaae");
    word.set_cell(0, 'a', LetterState::Incorrect);
    assert_eq!(word.filter(&str), true);
}

#[test]
fn filter_duplicate_letter_accounting() {
    // Row: 'a' Present at 0, 'a' Incorrect at 1, rest Present (l, e, r).
    // One 'a' is explained; a second one, or one at the Incorrect spot,
    // rejects the candidate.
    let mut word: Word = Default::default();
    word.set_cell(0, 'a', LetterState::Present);
    word.set_cell(1, 'a', LetterState::Incorrect);
    word.set_cell(2, 'l', LetterState::Present);
    word.set_cell(3, 'e', LetterState::Present);
    word.set_cell(4, 'r', LetterState::Present);

    // One 'a', not at position 1: accepted.
    assert_eq!(word.filter(&String::from("regal")), false);
    // Two 'a's: more than the one explained occurrence.
    assert_eq!(word.filter(&String::from("areal")), true);
    // One 'a', but at the position marked Incorrect for 'a'.
    assert_eq!(word.filter(&String::from("lager")), true);
}

#[test]
fn correct_cell_rejects_on_position_mismatch() {
    // Position 0 demands 'a'. "bcdea" carries an 'a', but elsewhere.
    let mut word: Word = Default::default();
    word.set_cell(0, 'a', LetterState::Correct);
    word.set_cell(1, 'c', LetterState::Present);
    word.set_cell(2, 'd', LetterState::Present);
    word.set_cell(3, 'e', LetterState::Present);
    word.set_cell(4, 'b', LetterState::Present);

    assert_eq!(word.filter(&String::from("bcdea")), true);
    assert_eq!(word.filter(&String::from("acdeb")), false);
}

#[test]
fn board_default() {
    let result: Board = Default::default();
    assert_eq!(result.len(), MAX_ATTEMPTS);
    for i in 0..MAX_ATTEMPTS {
        let word = result.row(i);
        assert_eq!(word.len(), MAX_LETTERS);
        for j in 0..MAX_LETTERS {
            let letter = word.letter(j);
            assert_eq!(letter.value, ' ');
            assert_eq!(letter.get_state(), LetterState::Disabled);
        }
    }
}

#[test]
fn board_set_word_reports_bad_indices() {
    let mut board: Board = Default::default();
    assert_eq!(
        board.set_word(MAX_ATTEMPTS, &String::from("abcde")),
        Err(WordleError::IndexOutOfRange)
    );
    assert_eq!(
        board.set_word(0, &String::from("toolong")),
        Err(WordleError::InvalidWordLength)
    );
    assert_eq!(board.set_word(0, &String::from("abcde")), Ok(()));
    for j in 0..MAX_LETTERS {
        assert_eq!(board.row(0).letter(j).get_state(), LetterState::Incorrect);
    }
    assert_eq!(board.row(0).letter(0).value, 'a');
    assert_eq!(board.row(0).letter(4).value, 'e');
}

#[test]
fn board_toggle_cell_reports_bad_indices() {
    let mut board: Board = Default::default();
    assert_eq!(board.toggle_cell(0, MAX_LETTERS), Err(WordleError::IndexOutOfRange));
    assert_eq!(board.toggle_cell(MAX_ATTEMPTS, 0), Err(WordleError::IndexOutOfRange));
    let _ = board.set_word(0, &String::from("abcde"));
    assert_eq!(board.toggle_cell(0, 2), Ok(()));
    assert_eq!(board.row(0).letter(2).get_state(), LetterState::Correct);
    assert_eq!(board.row(0).letter(2).value, 'c');
}
