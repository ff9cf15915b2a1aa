use wordle_solve::LetterProbability;
use wordle_solve::MAX_LETTERS;

fn float_compare(a: f64, b: f64, digits: usize) -> bool {
    let a_int = (a * 10f64.powi(digits as i32)).round() as i64;
    let b_int = (b * 10f64.powi(digits as i32)).round() as i64;
    a_int == b_int
}

fn fractional_score(table: &LetterProbability, word: &str) -> f64 {
    let numerator = table.score_word(&String::from(word)) as f64;
    numerator / table.word_count() as f64
}

#[test]
fn letter_probability_default() {
    let result: LetterProbability = Default::default();
    assert_eq!(result.position_count(), MAX_LETTERS);
    assert_eq!(result.word_count(), 0);
}

#[test]
fn letter_probability_add_word() {
    let mut result: LetterProbability = Default::default();
    result.add_word(&String::from("hello"));
    assert_eq!(result.word_count(), 1);
    assert_eq!(result.count(0, 'h'), Some(1u64));
    assert_eq!(result.count(0, 'e'), None);

    assert_eq!(result.count(1, 'e'), Some(1u64));
    assert_eq!(result.count(1, 'k'), None);

    assert_eq!(result.count(2, 'l'), Some(1u64));
    assert_eq!(result.count(2, 'z'), None);

    assert_eq!(result.count(3, 'l'), Some(1u64));
    assert_eq!(result.count(3, 'z'), None);

    assert_eq!(result.count(4, 'o'), Some(1u64));
    assert_eq!(result.count(4, 'z'), None);
}

#[test]
fn score_word() {
    let mut result: LetterProbability = Default::default();
    result.add_word(&String::from("hello"));
    result.add_word(&String::from("world"));
    assert!(float_compare(fractional_score(&result, "hello"), 3.0f64, 3));
    assert_eq!(fractional_score(&result, "world"), 3.0f64);
    assert_eq!(fractional_score(&result, "horld"), 3.0f64);
    result.add_word(&String::from("weird"));
    assert!(float_compare(fractional_score(&result, "hello"), 2.333f64, 3));
    assert!(float_compare(fractional_score(&result, "world"), 2.6666f64, 3));
    assert!(float_compare(fractional_score(&result, "horld"), 2.3333f64, 3));

    assert_eq!(fractional_score(&result, "rends"), 0.0f64);
}

#[test]
fn score_zero_when_letter_absent() {
    let mut table: LetterProbability = Default::default();
    table.add_word(&String::from("hello"));
    // 'h' never occurs at position 1, so the whole score collapses to 0
    // although every other position matches "hhllo" perfectly.
    assert_eq!(table.score_word(&String::from("hhllo")), 0);
    // Case-normalization: tallies are recorded lower-cased.
    table.add_word(&String::from("HELLO"));
    assert_eq!(table.word_count(), 2);
    assert_eq!(table.count(0, 'h'), Some(2u64));
    assert_eq!(table.count(0, 'H'), None);
}
