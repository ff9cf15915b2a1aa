use wordle_solve::LetterState;
use wordle_solve::Statistics;
use wordle_solve::Word;
use wordle_solve::WordleError;

fn default_word() -> Word {
    let mut word: Word = Default::default();
    word.set_cell(0, 'a', LetterState::Present);
    word.set_cell(1, 'b', LetterState::Present);
    word.set_cell(2, 'c', LetterState::Present);
    word.set_cell(3, 'd', LetterState::Present);
    word.set_cell(4, 'e', LetterState::Present);
    word
}

#[test]
fn statistics_default() {
    let result: Statistics = Default::default();
    assert_eq!(result.len(), 0);
    assert_eq!(result.filters_len(), 0);
}

#[test]
fn statistics_add_word() {
    let mut result: Statistics = Default::default();
    result.add_word(&String::from("test"));
    assert_eq!(result.len(), 1);
    assert_eq!(result.candidates().contains(&String::from("test")), true);
}

#[test]
fn add_word_deduplicates() {
    let mut result: Statistics = Default::default();
    result.add_word(&String::from("tests"));
    result.add_word(&String::from("tests"));
    assert_eq!(result.len(), 1);
}

#[test]
fn guess_present() {
    let mut result: Statistics = Default::default();

    result.add_word(&String::from("abcde"));
    assert_eq!(result.push_filter(default_word()), Ok(()));

    // Every letter of "abcde" is Present somewhere, so the word survives the
    // filter and, as the only candidate, is proposed.
    assert_eq!(result.guess(), "abcde");

    // "edbca" also survives; the scores tie and the earlier pool word wins.
    result.add_word(&String::from("edbca"));
    assert_eq!(result.guess(), "abcde");

    // Marking 'a' Incorrect leaves no Correct or Present cell explaining an
    // 'a', so both words (each holding one 'a') are rejected: no candidate.
    let mut filter = default_word();
    filter.set_cell(0, 'a', LetterState::Incorrect);
    assert_eq!(result.push_filter(filter), Ok(()));

    assert_eq!(result.guess(), "");
}

#[test]
fn clear() {
    let mut result: Statistics = Default::default();
    result.add_word(&String::from("test"));
    assert_eq!(result.len(), 1);
    result.clear();
    assert_eq!(result.len(), 0);
}

#[test]
fn guess_on_empty_pool_returns_sentinel() {
    let mut result: Statistics = Default::default();
    assert_eq!(result.guess(), "");
}

#[test]
fn push_filter_rejects_unannotated_row() {
    let mut result: Statistics = Default::default();
    let blank: Word = Default::default();
    assert_eq!(result.push_filter(blank), Err(WordleError::DisabledRow));
    assert_eq!(result.filters_len(), 0);

    let mut partial: Word = Default::default();
    partial.set_cell(0, 'a', LetterState::Correct);
    assert_eq!(result.push_filter(partial), Err(WordleError::DisabledRow));
    assert_eq!(result.filters_len(), 0);

    assert_eq!(result.push_filter(default_word()), Ok(()));
    assert_eq!(result.filters_len(), 1);
}

#[test]
fn all_correct_row_pins_candidates() {
    let mut result: Statistics = Default::default();
    result.add_word(&String::from("hello"));
    result.add_word(&String::from("world"));
    result.add_word(&String::from("horld"));

    let mut row: Word = Default::default();
    row.set_cell(0, 'w', LetterState::Correct);
    row.set_cell(1, 'o', LetterState::Correct);
    row.set_cell(2, 'r', LetterState::Correct);
    row.set_cell(3, 'l', LetterState::Correct);
    row.set_cell(4, 'd', LetterState::Correct);
    assert_eq!(result.push_filter(row), Ok(()));

    assert_eq!(result.candidates(), vec![String::from("world")]);
    assert_eq!(result.guess(), "world");
}

#[test]
fn candidate_count_never_grows_under_filters() {
    let mut result: Statistics = Default::default();
    result.add_word(&String::from("hello"));
    result.add_word(&String::from("world"));
    result.add_word(&String::from("horld"));
    let before = result.candidates().len();
    assert_eq!(before, 3);

    // The feedback "hello" earns against the answer "horld": h Correct,
    // e absent, the first l Present, the second l Correct, o Present.
    let mut row: Word = Default::default();
    row.set_cell(0, 'h', LetterState::Correct);
    row.set_cell(1, 'e', LetterState::Incorrect);
    row.set_cell(2, 'l', LetterState::Present);
    row.set_cell(3, 'l', LetterState::Correct);
    row.set_cell(4, 'o', LetterState::Present);
    assert_eq!(result.push_filter(row), Ok(()));

    let after = result.candidates().len();
    assert!(after <= before);
    assert_eq!(after, 1);
}

#[test]
fn submit_feedback_appends_or_replaces_by_index() {
    let mut result: Statistics = Default::default();
    result.add_word(&String::from("abcde"));

    // Appending at the next free slot.
    assert_eq!(result.submit_feedback(0, default_word()), Ok(()));
    assert_eq!(result.filters_len(), 1);
    // An index beyond the next free slot is reported.
    assert_eq!(
        result.submit_feedback(2, default_word()),
        Err(WordleError::IndexOutOfRange)
    );
    assert_eq!(result.filters_len(), 1);
    // An unannotated row is reported.
    let blank: Word = Default::default();
    assert_eq!(result.submit_feedback(0, blank), Err(WordleError::DisabledRow));

    // Replacing the existing row changes the filtering.
    assert_eq!(result.guess(), "abcde");
    let mut row = default_word();
    row.set_cell(0, 'a', LetterState::Incorrect);
    assert_eq!(result.submit_feedback(0, row), Ok(()));
    assert_eq!(result.filters_len(), 1);
    assert_eq!(result.guess(), "");
}

#[test]
fn remove_word_removes_it_from_guessing() {
    let mut result: Statistics = Default::default();
    result.add_word(&String::from("tests"));
    result.add_word(&String::from("stove"));
    assert_eq!(result.guess(), "tests");
    result.remove_word(&String::from("tests"));
    assert_eq!(result.len(), 1);
    assert_eq!(result.guess(), "stove");
}
