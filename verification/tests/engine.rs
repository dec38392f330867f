use typetrainer::cursor::{Cursor, Window};
use typetrainer::engine::{process_key, Analytics, Key};
use typetrainer::model::Page;

fn session(text: &str) -> (Page, Page, Cursor, Analytics, Option<u64>) {
    let page = Page::parse(text);
    let copy = Page::new();
    let cursor = Cursor::new(Window { start_line: 0, size: 24 });
    let analytics = Analytics::new();
    (page, copy, cursor, analytics, None)
}

fn type_str(
    page: &Page,
    copy: &mut Page,
    cursor: &mut Cursor,
    analytics: &mut Analytics,
    timer: &mut Option<u64>,
    text: &str,
    start_ms: u64,
) -> u64 {
    let mut now = start_ms;
    for c in text.chars() {
        process_key(page, copy, Key::Char(c), cursor, analytics, timer, now);
        now += 100;
    }
    now
}

#[test]
fn test_correct_word_scores_one_success() {
    let (page, mut copy, mut cursor, mut analytics, mut timer) = session("The quick brown fox");
    type_str(
        &page,
        &mut copy,
        &mut cursor,
        &mut analytics,
        &mut timer,
        "The ",
        1000,
    );
    assert_eq!(analytics.success_count, 1);
    assert_eq!(analytics.failure_count, 0);
    assert_eq!(analytics.cumulative_chars_typed, 3);
    assert_eq!(copy.serialize(), "The \n");
    assert!(timer.is_none());
}

#[test]
fn test_correct_word_records_elapsed_time() {
    let (page, mut copy, mut cursor, mut analytics, mut timer) = session("The quick");
    // 'T' at 1000 starts the timer; the space lands at 1300.
    type_str(
        &page,
        &mut copy,
        &mut cursor,
        &mut analytics,
        &mut timer,
        "The ",
        1000,
    );
    assert_eq!(analytics.cumulative_time_taken_ms, 300);
}

#[test]
fn test_wrong_word_scores_one_failure() {
    let (page, mut copy, mut cursor, mut analytics, mut timer) = session("The quick");
    type_str(
        &page,
        &mut copy,
        &mut cursor,
        &mut analytics,
        &mut timer,
        "Thx ",
        1000,
    );
    assert_eq!(analytics.success_count, 0);
    assert_eq!(analytics.failure_count, 1);
    assert_eq!(analytics.cumulative_chars_typed, 0);
    assert!(timer.is_none());
}

#[test]
fn test_early_space_appends_filler_and_keeps_timer() {
    let (page, mut copy, mut cursor, mut analytics, mut timer) = session("cat dog");
    type_str(
        &page,
        &mut copy,
        &mut cursor,
        &mut analytics,
        &mut timer,
        "ca ",
        1000,
    );
    assert_eq!(analytics.success_count, 0);
    assert_eq!(analytics.failure_count, 0);
    // The filler is the reference 't' with its case flipped, in place of
    // the early space; the typed word gains exactly one character.
    assert_eq!(copy.serialize(), "caT\n");
    assert_eq!(timer, Some(1000));
}

#[test]
fn test_early_space_filler_placeholder_for_non_letter() {
    let (page, mut copy, mut cursor, mut analytics, mut timer) = session("a1c xyz");
    type_str(
        &page,
        &mut copy,
        &mut cursor,
        &mut analytics,
        &mut timer,
        "a ",
        1000,
    );
    // The reference character at the typed length is '1': not alphabetic,
    // so the fixed placeholder goes in.
    assert_eq!(copy.serialize(), "aX\n");
    assert_eq!(analytics.failure_count, 0);
}

#[test]
fn test_backspace_deletes_and_steps_back() {
    let (page, mut copy, mut cursor, mut analytics, mut timer) = session("The quick");
    type_str(
        &page,
        &mut copy,
        &mut cursor,
        &mut analytics,
        &mut timer,
        "Th",
        1000,
    );
    process_key(
        &page,
        &mut copy,
        Key::Backspace,
        &mut cursor,
        &mut analytics,
        &mut timer,
        2000,
    );
    assert_eq!(copy.serialize(), "T\n");
    assert_eq!(cursor.current_char, 1);
    assert_eq!(cursor.current_word, 0);
}

#[test]
fn test_backspace_across_word_boundary_takes_chars_back() {
    let (page, mut copy, mut cursor, mut analytics, mut timer) = session("The quick");
    type_str(
        &page,
        &mut copy,
        &mut cursor,
        &mut analytics,
        &mut timer,
        "The ",
        1000,
    );
    assert_eq!(analytics.cumulative_chars_typed, 3);
    process_key(
        &page,
        &mut copy,
        Key::Backspace,
        &mut cursor,
        &mut analytics,
        &mut timer,
        2000,
    );
    // The cursor steps back from "quick" to "The": the word's three
    // characters come back out of the typed-character count.
    assert_eq!(analytics.cumulative_chars_typed, 0);
    assert_eq!(cursor.current_word, 0);
    assert_eq!(copy.serialize(), "The\n");
}

#[test]
fn test_typing_two_words_reaches_next_line() {
    let (page, mut copy, mut cursor, mut analytics, mut timer) = session("ab\ncd");
    type_str(
        &page,
        &mut copy,
        &mut cursor,
        &mut analytics,
        &mut timer,
        "ab cd ",
        1000,
    );
    assert_eq!(analytics.success_count, 2);
    assert_eq!(analytics.failure_count, 0);
    // Each completing space at a line's end opens a new line on the typed
    // page instead of appending a separator.
    assert_eq!(copy.serialize(), "ab\ncd\n\n");
}

#[test]
fn test_words_per_minute_formula() {
    let analytics = Analytics {
        cumulative_chars_typed: 25,
        cumulative_time_taken_ms: 60000,
        success_count: 0,
        failure_count: 0,
    };
    assert_eq!(analytics.words_per_minute(), 5);
}

#[test]
fn test_words_per_minute_zero_without_time() {
    let analytics = Analytics::new();
    assert_eq!(analytics.words_per_minute(), 0);
}

#[test]
fn test_accuracy_percentage() {
    let analytics = Analytics {
        cumulative_chars_typed: 0,
        cumulative_time_taken_ms: 0,
        success_count: 3,
        failure_count: 1,
    };
    assert_eq!(analytics.accuracy_percentage(), 75);

    let untouched = Analytics::new();
    assert_eq!(untouched.accuracy_percentage(), 0);
}

#[test]
fn test_over_typed_word_closes_on_next_key() {
    let (page, mut copy, mut cursor, mut analytics, mut timer) = session("cat dog");
    // After three characters the typed word has the reference length, so
    // the next printable key closes the word instead of extending it.
    type_str(
        &page,
        &mut copy,
        &mut cursor,
        &mut analytics,
        &mut timer,
        "catx",
        1000,
    );
    assert_eq!(analytics.success_count, 1);
    assert_eq!(copy.serialize(), "cat \n");
}
