use typetrainer::cursor::{Cursor, Window};
use typetrainer::model::Page;
use typetrainer::model::Word;

#[test]
fn test_parse() {
    let mut page = Page::parse("The quick brown fox jumps over the lazy dog.");

    let mut cursor = Cursor::new(Window { start_line: 0, size: 1 });

    assert_eq!(cursor.current_line(&page).words.len(), 9);
    assert_eq!(cursor.current_word(&page).unwrap().chars.len(), 3);

    cursor.next_char(&page);
    cursor.next_char(&page);
    cursor.next_char(&page);
    assert_eq!(cursor.current_word(&page).unwrap().chars.len(), 3);
    cursor.next_char(&page);
    assert_eq!(cursor.current_word(&page).unwrap().chars.len(), 5);

    cursor.prev_char(&page);
    assert_eq!(cursor.current_word(&page).unwrap().chars.len(), 3);

    assert_eq!(
        page.serialize(),
        "The quick brown fox jumps over the lazy dog.\n"
    );
    page.push(' ', true);
    page.push('r', false);
    assert_eq!(
        page.serialize(),
        "The quick brown fox jumps over the lazy dog.\nr\n"
    );
    page.push(' ', false);
    page.push('c', false);
    assert_eq!(
        page.serialize(),
        "The quick brown fox jumps over the lazy dog.\nr c\n"
    );
}

#[test]
fn test_parse_one_line_nine_words() {
    let page = Page::parse("The quick brown fox jumps over the lazy dog.");
    assert_eq!(page.lines.len(), 1);
    assert_eq!(page.lines[0].words.len(), 9);
    assert_eq!(page.lines[0].words[0].chars.len(), 3);
}

#[test]
fn test_parse_empty_text() {
    let page = Page::parse("");
    assert_eq!(page.lines.len(), 0);
    assert_eq!(page.serialize(), "");
}

#[test]
fn test_blank_line_run_collapses() {
    let collapsed = Page::parse("alpha\n\n\n\n\nbeta");
    assert_eq!(collapsed.lines.len(), 3);
    assert_eq!(collapsed.lines[1].words.len(), 0);
    assert_eq!(collapsed.serialize(), "alpha\n\nbeta\n");

    let single = Page::parse("alpha\n\nbeta");
    assert_eq!(single.lines.len(), 3);
    assert_eq!(single.serialize(), "alpha\n\nbeta\n");
}

#[test]
fn test_parse_drops_non_ascii() {
    let page = Page::parse("h\u{e9}llo w\u{f6}rld");
    assert_eq!(page.lines.len(), 1);
    assert_eq!(page.lines[0].words.len(), 2);
    assert_eq!(page.lines[0].words[0].chars.len(), 4);
    assert_eq!(page.serialize(), "hllo wrld\n");
}

#[test]
fn test_parse_crlf_and_tabs() {
    let page = Page::parse("one\ttwo\r\nthree");
    assert_eq!(page.lines.len(), 2);
    assert_eq!(page.lines[0].words.len(), 2);
    assert_eq!(page.serialize(), "one two\nthree\n");
}

#[test]
fn test_word_parse_filters() {
    let w = Word::parse("fa\u{e7}ade");
    assert_eq!(w.chars, vec!['f', 'a', 'a', 'd', 'e']);
}

#[test]
fn test_line_len_counts_separators() {
    let page = Page::parse("The quick brown fox jumps over the lazy dog.");
    assert_eq!(page.lines[0].len(), 44);
    let blank = Page::parse("");
    assert_eq!(blank.lines.len(), 0);
}

#[test]
fn test_push_then_deletes_restore_empty_page() {
    let mut page = Page::new();
    page.push('r', false);
    assert_eq!(page.serialize(), "r\n");
    page.delete();
    page.delete();
    page.delete();
    assert_eq!(page.serialize(), "");
    assert_eq!(page.lines.len(), 0);

    let mut page = Page::new();
    page.push(' ', false);
    page.delete();
    page.delete();
    assert_eq!(page.serialize(), "");

    let mut page = Page::new();
    page.push(' ', true);
    page.delete();
    page.delete();
    page.delete();
    page.delete();
    assert_eq!(page.serialize(), "");
}

#[test]
fn test_delete_is_a_no_op_on_empty_page() {
    let mut page = Page::new();
    page.delete();
    assert_eq!(page.lines.len(), 0);
    assert_eq!(page.serialize(), "");
}

#[test]
fn test_double_space_is_a_no_op() {
    let mut page = Page::new();
    page.push('a', false);
    page.push(' ', false);
    page.push(' ', false);
    assert_eq!(page.serialize(), "a \n");
}

#[test]
fn test_serialize_parse_round_trip() {
    let text = "The quick brown fox\njumps over\n\nthe lazy dog.";
    let page = Page::parse(text);
    let rendered = page.serialize();
    let reparsed = Page::parse(&rendered);
    assert_eq!(reparsed.serialize(), rendered);
    assert_eq!(reparsed.lines.len(), page.lines.len());
    for (a, b) in page.lines.iter().zip(reparsed.lines.iter()) {
        assert_eq!(a.words.len(), b.words.len());
        for (wa, wb) in a.words.iter().zip(b.words.iter()) {
            assert_eq!(wa.chars, wb.chars);
        }
    }
}

#[test]
fn test_last_word_or_default() {
    let mut page = Page::new();
    assert_eq!(page.last_word_or_default().chars.len(), 0);
    assert!(page.last_word().is_none());
    page.push('h', false);
    page.push('i', false);
    assert_eq!(page.last_word_or_default().chars, vec!['h', 'i']);
}
