use wordle_solve::LetterState;
use wordle_solve::SessionStatus;
use wordle_solve::Solver;
use wordle_solve::WordleError;
use wordle_solve::MAX_LETTERS;

#[test]
fn load_normalizes_and_deduplicates() {
    let mut solver: Solver = Default::default();
    solver.load("HELLO\nWORLD\nhello\nabc\ntoolong\n");
    // "HELLO" and "hello" collapse; "abc" and "toolong" have the wrong
    // length; the trailing line break yields an empty line, also rejected.
    assert_eq!(solver.word_count(), 2);
    assert_eq!(solver.candidates_count(), 2);
    solver.guess_step();
    // Both words score 6; the earlier pool word wins the tie, lower-cased.
    assert_eq!(solver.current_guess(), "hello");
}

#[test]
fn load_resets_the_session() {
    let mut solver: Solver = Default::default();
    solver.load("hello");
    solver.guess_step();
    assert_eq!(solver.attempt(), 1);
    solver.load("world");
    assert_eq!(solver.attempt(), 0);
    assert_eq!(solver.current_guess(), "");
    assert_eq!(solver.word_count(), 1);
    assert_eq!(solver.status(), SessionStatus::Idle);
}

#[test]
fn ranking_follows_positional_frequency() {
    let mut solver: Solver = Default::default();
    solver.load("hello\nworld\nhorld");
    solver.guess_step();
    // Sums of positional counts: hello 8, world 10, horld 11.
    assert_eq!(solver.current_guess(), "horld");
    assert_eq!(solver.attempt(), 1);
    assert_eq!(solver.status(), SessionStatus::GuessProposed);
}

#[test]
fn empty_pool_gives_sentinel_and_status() {
    let mut solver: Solver = Default::default();
    assert_eq!(solver.status(), SessionStatus::Idle);
    solver.guess_step();
    assert_eq!(solver.current_guess(), "");
    assert_eq!(solver.attempt(), 1);
    assert_eq!(solver.status(), SessionStatus::EmptyPool);
}

#[test]
fn contradictory_feedback_reports_no_candidates() {
    let mut solver: Solver = Default::default();
    solver.load("hello");
    solver.guess_step();
    assert_eq!(solver.current_guess(), "hello");
    // The proposed row stands fully marked Incorrect; stepping again turns it
    // into a filter that rejects the only pool word.
    solver.guess_step();
    assert_eq!(solver.current_guess(), "");
    assert_eq!(solver.status(), SessionStatus::NoCandidatesLeft);
    // A further step changes nothing: the session is exhausted.
    let attempts = solver.attempt();
    solver.guess_step();
    assert_eq!(solver.attempt(), attempts);
}

#[test]
fn toggling_all_cells_to_correct_solves() {
    let mut solver: Solver = Default::default();
    solver.load("hello");
    solver.guess_step();
    for col in 0..MAX_LETTERS {
        assert_eq!(solver.toggle_cell(0, col), Ok(()));
    }
    for col in 0..MAX_LETTERS {
        let (_, state) = solver.cell(0, col).unwrap();
        assert_eq!(state, LetterState::Correct);
    }
    assert_eq!(solver.status(), SessionStatus::Solved);
}

#[test]
fn cell_reports_render_data_and_bad_indices() {
    let mut solver: Solver = Default::default();
    solver.load("hello");
    solver.guess_step();
    assert_eq!(solver.cell(0, 0), Ok(('h', LetterState::Incorrect)));
    assert_eq!(solver.cell(0, 4), Ok(('o', LetterState::Incorrect)));
    assert_eq!(solver.cell(6, 0), Err(WordleError::IndexOutOfRange));
    assert_eq!(solver.cell(0, 5), Err(WordleError::IndexOutOfRange));
    assert_eq!(solver.toggle_cell(9, 9), Err(WordleError::IndexOutOfRange));
}

#[test]
fn reject_word_removes_it_for_good() {
    let mut solver: Solver = Default::default();
    solver.load("tests\nstove");
    solver.guess_step();
    // Both words score 5; the earlier pool word wins the tie.
    assert_eq!(solver.current_guess(), "tests");
    solver.reject_word(&String::from("tests"));
    assert_eq!(solver.word_count(), 1);
    assert_eq!(solver.current_guess(), "stove");
    // Later proposals never return to the rejected word either.
    solver.guess_step();
    assert_ne!(solver.current_guess(), "tests");
}

#[test]
fn attempts_run_out_after_the_last_row() {
    let mut solver: Solver = Default::default();
    solver.load("abcde");
    for attempt in 0..6 {
        solver.guess_step();
        assert_eq!(solver.current_guess(), "abcde");
        assert_eq!(solver.attempt(), attempt + 1);
        // Feedback that keeps the word alive without solving it: the first
        // four letters Correct, the last one merely Present.
        for col in 0..4 {
            assert_eq!(solver.toggle_cell(attempt, col), Ok(()));
        }
        assert_eq!(solver.toggle_cell(attempt, 4), Ok(()));
        assert_eq!(solver.toggle_cell(attempt, 4), Ok(()));
    }
    assert_eq!(solver.status(), SessionStatus::AttemptsExhausted);
    // A further press proposes the word again but cannot pass the last row.
    solver.guess_step();
    assert_eq!(solver.attempt(), 6);
}

#[test]
fn feedback_narrows_the_next_guess() {
    let mut solver: Solver = Default::default();
    solver.load("hello\nworld\nhorld");
    solver.guess_step();
    assert_eq!(solver.current_guess(), "horld");
    // Feedback for "horld" against the answer "world": h absent, the rest
    // Correct. Cycle h's cell not at all (Incorrect already) and o,r,l,d
    // Incorrect -> Correct.
    for col in 1..MAX_LETTERS {
        assert_eq!(solver.toggle_cell(0, col), Ok(()));
    }
    solver.guess_step();
    assert_eq!(solver.current_guess(), "world");
    assert_eq!(solver.attempt(), 2);
    assert_eq!(solver.candidates_count(), 1);
}
