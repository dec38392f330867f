use typetrainer::cursor::{Cursor, Window};
use typetrainer::model::Page;

#[test]
fn test_next_then_prev_restores_position() {
    let page = Page::parse("ab cd\nef gh ij\nkl");
    let mut cursor = Cursor::new(Window { start_line: 0, size: 10 });
    let start = (cursor.current_line, cursor.current_word, cursor.current_char);
    for _ in 0..7 {
        cursor.next_char(&page);
    }
    for _ in 0..7 {
        cursor.prev_char(&page);
    }
    assert_eq!(
        (cursor.current_line, cursor.current_word, cursor.current_char),
        start
    );
}

#[test]
fn test_next_char_walks_words_and_lines() {
    let page = Page::parse("ab cd\nef");
    let mut cursor = Cursor::new(Window { start_line: 0, size: 10 });
    // "ab cd" has length 5; offsets 0..=5 live on line 0.
    assert!(!cursor.next_char(&page)); // offset 1, inside "ab"
    assert_eq!(cursor.current_word, 0);
    assert!(!cursor.next_char(&page)); // offset 2, at the separator
    assert!(!cursor.next_char(&page)); // offset 3, inside "cd"
    assert_eq!(cursor.current_word, 1);
    assert!(!cursor.next_char(&page)); // offset 4
    assert!(!cursor.next_char(&page)); // offset 5, end of line
    assert_eq!(cursor.current_word, 1);
    assert!(cursor.next_char(&page)); // moves to line 1
    assert_eq!(cursor.current_line, 1);
    assert_eq!(cursor.current_word, 0);
    assert_eq!(cursor.current_char, 0);
}

#[test]
fn test_prev_char_at_start_is_a_no_op() {
    let page = Page::parse("ab");
    let mut cursor = Cursor::new(Window { start_line: 0, size: 10 });
    cursor.prev_char(&page);
    assert_eq!(cursor.current_line, 0);
    assert_eq!(cursor.current_char, 0);
}

#[test]
fn test_prev_char_moves_to_end_of_previous_line() {
    let page = Page::parse("ab cd\nef");
    let mut cursor = Cursor::new(Window { start_line: 0, size: 10 });
    for _ in 0..6 {
        cursor.next_char(&page);
    }
    assert_eq!(cursor.current_line, 1);
    cursor.prev_char(&page);
    assert_eq!(cursor.current_line, 0);
    assert_eq!(cursor.current_char, 5);
    assert_eq!(cursor.current_word, 1);
}

#[test]
fn test_window_scrolls_down_at_margin() {
    let page = Page::parse("a\nb\nc\nd\ne\nf\ng");
    let mut cursor = Cursor::new(Window { start_line: 0, size: 4 });
    // Each line has length 1: two advances cross into the next line.
    cursor.next_char(&page); // offset 1 on line 0
    assert!(cursor.next_char(&page)); // line 1
    assert_eq!(cursor.window.start_line, 0);
    cursor.next_char(&page);
    assert!(cursor.next_char(&page)); // line 2 = start + size - margin: scrolls
    assert_eq!(cursor.window.start_line, 1);
    cursor.next_char(&page);
    assert!(cursor.next_char(&page)); // line 3: scrolls again
    assert_eq!(cursor.window.start_line, 2);
}

#[test]
fn test_window_scrolls_up_within_margin() {
    let page = Page::parse("a\nb\nc\nd\ne\nf\ng");
    let mut cursor = Cursor::new(Window { start_line: 0, size: 4 });
    for _ in 0..8 {
        cursor.next_char(&page);
    }
    assert_eq!(cursor.current_line, 4);
    assert_eq!(cursor.window.start_line, 3);
    cursor.prev_char(&page); // back to end of line 3, within the margin
    assert_eq!(cursor.current_line, 3);
    assert_eq!(cursor.window.start_line, 2);
}

#[test]
fn test_numbers_are_one_based() {
    let page = Page::parse("ab cd");
    let mut cursor = Cursor::new(Window { start_line: 0, size: 10 });
    assert_eq!(cursor.line_number(), 1);
    assert_eq!(cursor.word_number(), 1);
    assert_eq!(cursor.char_number(), 1);
    for _ in 0..3 {
        cursor.next_char(&page);
    }
    assert_eq!(cursor.line_number(), 1);
    assert_eq!(cursor.word_number(), 2);
    assert_eq!(cursor.char_number(), 4);
}

#[test]
fn test_current_line_past_end_is_empty() {
    let page = Page::parse("a");
    let mut cursor = Cursor::new(Window { start_line: 0, size: 10 });
    cursor.next_char(&page);
    cursor.next_char(&page); // beyond the only line
    assert_eq!(cursor.current_line, 1);
    assert_eq!(cursor.current_line(&page).words.len(), 0);
    assert!(cursor.current_word(&page).is_none());
    assert_eq!(cursor.current_word_or_default(&page).chars.len(), 0);
}
