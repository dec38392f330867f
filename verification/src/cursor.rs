//! The cursor: the position inside the reference page as line / word /
//! character indices, together with the scrolling window of visible lines.
//! The character offset counts within the whole line, separator spaces
//! included; the word index is always recomputed from the character offset.
use crate::model::{lemma_sum_word_lens_split, spec_line_len, sum_word_lens, Line, Page, Word};
use vstd::prelude::*;

verus! {

/// How close the cursor may come to the window's edge before it scrolls.
pub const WINDOW_MARGIN: usize = 2;

/// The visible slice of the reference page: lines
/// `[start_line, start_line + size)`.
pub struct Window {
    pub start_line: usize,
    pub size: usize,
}

/// The cursor's position within the reference page.
pub struct Cursor {
    pub current_line: usize,
    pub current_word: usize,
    pub current_char: usize,
    pub window: Window,
}

/// The cursor's position as unbounded integers, for the contracts.
pub ghost struct CurPos {
    pub line: int,
    pub word: int,
    pub chr: int,
    pub start: int,
    pub size: int,
}

impl View for Cursor {
    type V = CurPos;

    open spec fn view(&self) -> CurPos {
        CurPos {
            line: self.current_line as int,
            word: self.current_word as int,
            chr: self.current_char as int,
            start: self.window.start_line as int,
            size: self.window.size as int,
        }
    }
}

/// The reference page's line at index `i`, or the empty line when `i` is out
/// of range.
pub open spec fn line_at(page: Seq<Seq<Seq<char>>>, i: int) -> Seq<Seq<char>> {
    if 0 <= i < page.len() {
        page[i]
    } else {
        Seq::empty()
    }
}

/// The length of the reference page's line at index `i`, with the empty line
/// (length zero) standing in for a missing line.
pub open spec fn line_len_at(page: Seq<Seq<Seq<char>>>, i: int) -> int {
    spec_line_len(line_at(page, i))
}

/// The index of the word that covers character offset `c` of a line: the
/// first word whose cumulative extent (its length plus its separator space)
/// goes past `c`; nothing when the scan runs off the end of the line.
pub open spec fn find_word(words: Seq<Seq<char>>, c: int) -> Option<int>
    decreases words.len(),
{
    if words.len() == 0 {
        None
    } else if words[0].len() >= c {
        Some(0)
    } else {
        match find_word(words.drop_first(), c - (words[0].len() + 1)) {
            Some(i) => Some(i + 1),
            None => None,
        }
    }
}

/// The recomputed word index: the word covering offset `chr` of line `line`,
/// or the previous word index when the scan finds none (a blank or missing
/// line leaves the word index as it was).
pub open spec fn word_after(page: Seq<Seq<Seq<char>>>, line: int, chr: int, prev: int) -> int {
    match find_word(line_at(page, line), chr) {
        Some(i) => i,
        None => prev,
    }
}

/// The reference page's word at the given line and word index, or the empty
/// word when either index is out of range.
pub open spec fn word_at_or_empty(page: Seq<Seq<Seq<char>>>, line: int, word: int) -> Seq<char> {
    let words = line_at(page, line);
    if 0 <= word < words.len() {
        words[word]
    } else {
        Seq::empty()
    }
}

/// What `next_char` does to the cursor: the character offset advances; past
/// the end of the line the cursor resets to the start of the next line, and
/// the window scrolls down once the cursor reaches the lower margin; the
/// word index is recomputed at the new position.
pub open spec fn spec_next(page: Seq<Seq<Seq<char>>>, c: CurPos) -> CurPos {
    if c.chr + 1 <= line_len_at(page, c.line) {
        CurPos { chr: c.chr + 1, word: word_after(page, c.line, c.chr + 1, c.word), ..c }
    } else {
        let nl = c.line + 1;
        let nstart = if nl + WINDOW_MARGIN >= c.size + c.start {
            c.start + 1
        } else {
            c.start
        };
        CurPos { line: nl, chr: 0, word: word_after(page, nl, 0, 0), start: nstart, size: c.size }
    }
}

/// What `prev_char` does to the cursor: the character offset steps back; at
/// the start of a line the cursor moves to the end of the previous line, and
/// the window scrolls up (floored at zero) once the cursor is within the
/// margin; at the very start of the page nothing happens at all. The word
/// index is recomputed at the new position.
pub open spec fn spec_prev(page: Seq<Seq<Seq<char>>>, c: CurPos) -> CurPos {
    if c.chr == 0 {
        if c.line == 0 {
            c
        } else {
            let nl = c.line - 1;
            let nchr = line_len_at(page, nl);
            let nstart = if nl <= c.start + WINDOW_MARGIN {
                if c.start > 0 {
                    c.start - 1
                } else {
                    0
                }
            } else {
                c.start
            };
            CurPos {
                line: nl,
                chr: nchr,
                word: word_after(page, nl, nchr, c.word),
                start: nstart,
                size: c.size,
            }
        }
    } else {
        CurPos { chr: c.chr - 1, word: word_after(page, c.line, c.chr - 1, c.word), ..c }
    }
}

impl Clone for Line {
    /// A copy of the line, word by word.
    fn clone(&self) -> (l: Line)
        ensures
            l@ == self@,
    {
        let mut words: Vec<Word> = Vec::new();
        let mut i: usize = 0;
        while i < self.words.len()
            invariant
                i <= self.words.len(),
                words@.len() == i,
                forall|j: int| 0 <= j < i ==> words@[j]@ == self.words@[j]@,
            decreases self.words.len() - i,
        {
            words.push(self.words[i].clone());
            i = i + 1;
        }
        let l = Line { words };
        proof {
            assert(l@ =~~= self@);
        }
        l
    }
}

/// The length of the page's line at index `i`, with a missing line counting
/// as empty.
fn line_len_of(page: &Page, i: usize) -> (n: usize)
    requires
        line_len_at(page@, i as int) <= usize::MAX,
    ensures
        n == line_len_at(page@, i as int),
{
    if i < page.lines.len() {
        proof {
            assert(page@[i as int] == page.lines@[i as int]@);
        }
        page.lines[i].len()
    } else {
        0
    }
}

impl Cursor {
    /// A cursor at the very start of the page, with the given window.
    pub fn new(window: Window) -> (c: Cursor)
        ensures
            c.current_line == 0,
            c.current_word == 0,
            c.current_char == 0,
            c.window == window,
    {
        Cursor { current_line: 0, current_word: 0, current_char: 0, window }
    }

    /// The one-based line number, for display.
    pub fn line_number(&self) -> (n: u16)
        requires
            self.current_line + 1 <= u16::MAX,
        ensures
            n == self.current_line + 1,
    {
        self.current_line as u16 + 1
    }

    /// The one-based word number, for display.
    pub fn word_number(&self) -> (n: u16)
        requires
            self.current_word + 1 <= u16::MAX,
        ensures
            n == self.current_word + 1,
    {
        self.current_word as u16 + 1
    }

    /// The one-based character number, for display.
    pub fn char_number(&self) -> (n: u16)
        requires
            self.current_char + 1 <= u16::MAX,
        ensures
            n == self.current_char + 1,
    {
        self.current_char as u16 + 1
    }

    /// The reference line under the cursor, or the empty line past the end
    /// of the page.
    pub fn current_line(&self, page: &Page) -> (l: Line)
        ensures
            l@ == line_at(page@, self.current_line as int),
    {
        if self.current_line < page.lines.len() {
            proof {
                assert(page@[self.current_line as int] == page.lines@[self.current_line as int]@);
            }
            page.lines[self.current_line].clone()
        } else {
            Line::new()
        }
    }

    /// The reference word under the cursor, or nothing when the word index
    /// runs past the line.
    pub fn current_word(&self, page: &Page) -> (w: Option<Word>)
        ensures
            match w {
                Some(w) => self.current_word < line_at(page@, self.current_line as int).len()
                    && w@ == line_at(page@, self.current_line as int)[self.current_word as int],
                None => self.current_word >= line_at(page@, self.current_line as int).len(),
            },
    {
        if self.current_line < page.lines.len() {
            let line = &page.lines[self.current_line];
            proof {
                assert(page@[self.current_line as int] == line@);
            }
            if self.current_word < line.words.len() {
                proof {
                    assert(line@[self.current_word as int]
                        == line.words@[self.current_word as int]@);
                }
                Some(line.words[self.current_word].clone())
            } else {
                None
            }
        } else {
            None
        }
    }

    /// The reference word under the cursor, or the empty word when there is
    /// none.
    pub fn current_word_or_default(&self, page: &Page) -> (w: Word)
        ensures
            w@ == word_at_or_empty(page@, self.current_line as int, self.current_word as int),
    {
        match self.current_word(page) {
            Some(w) => w,
            None => Word::new(),
        }
    }

    /// Recomputes the word index from the character offset by scanning the
    /// current line's words; when the scan finds no covering word (a blank
    /// or missing line) the word index keeps its previous value.
    fn calc_current_word(&mut self, page: &Page)
        requires
            line_len_at(page@, old(self).current_line as int) < usize::MAX,
        ensures
            final(self).current_word == word_after(
                page@,
                old(self).current_line as int,
                old(self).current_char as int,
                old(self).current_word as int,
            ),
            final(self).current_line == old(self).current_line,
            final(self).current_char == old(self).current_char,
            final(self).window == old(self).window,
    {
        let ghost lv = line_at(page@, self.current_line as int);
        let ghost c = self.current_char as int;
        if self.current_line >= page.lines.len() {
            proof {
                assert(lv =~~= Seq::<Seq<char>>::empty());
            }
            return ;
        }
        let line = &page.lines[self.current_line];
        proof {
            assert(lv == line@);
        }
        let mut chars: usize = 0;
        let mut i: usize = 0;
        let mut found = false;
        proof {
            assert(lv.skip(0) =~= lv);
            assert(lv.take(0) =~= Seq::<Seq<char>>::empty());
            if lv.len() > 0 {
                assert(sum_word_lens(lv) + lv.len() == spec_line_len(lv) + 1);
            }
        }
        while i < line.words.len() && !found
            invariant
                i <= line.words.len(),
                lv == line@,
                lv == line_at(page@, old(self).current_line as int),
                c == self.current_char as int,
                c == old(self).current_char as int,
                lv.len() == line.words@.len(),
                sum_word_lens(lv) + lv.len() <= usize::MAX,
                self.current_line == old(self).current_line,
                self.current_char == old(self).current_char,
                self.window == old(self).window,
                chars == sum_word_lens(lv.take(i as int)) + i,
                !found ==> self.current_word == old(self).current_word,
                !found ==> chars <= c,
                !found ==> find_word(lv, c) == (match find_word(lv.skip(i as int), c - chars) {
                    Some(k) => Some(i + k),
                    None => None::<int>,
                }),
                found ==> self.current_word as int == word_after(
                    page@,
                    old(self).current_line as int,
                    old(self).current_char as int,
                    old(self).current_word as int,
                ),
            decreases line.words@.len() - i,
        {
            let wl = line.words[i].chars.len();
            proof {
                assert(lv.skip(i as int)[0] == lv[i as int]);
                assert(lv[i as int] == line.words@[i as int]@);
                assert(lv.skip(i as int).drop_first() =~= lv.skip(i + 1));
                assert(lv.take(i + 1) =~= lv.take(i as int).push(lv[i as int]));
                lemma_sum_word_lens_split(lv, i + 1);
                lemma_sum_word_lens_split(lv.take(i + 1), i as int);
                assert(lv.take(i + 1).take(i as int) =~= lv.take(i as int));
                assert(lv.take(i + 1).skip(i as int) =~= seq![lv[i as int]]);
                assert(sum_word_lens(seq![lv[i as int]]) == lv[i as int].len() + sum_word_lens(
                    seq![lv[i as int]].drop_first(),
                ));
                assert(seq![lv[i as int]].drop_first() =~= Seq::<Seq<char>>::empty());
                assert(sum_word_lens(lv.take(i + 1)) == sum_word_lens(lv.take(i as int))
                    + lv[i as int].len());
                assert(sum_word_lens(lv) + lv.len() == spec_line_len(lv) + 1);
                assert(sum_word_lens(lv.take(i + 1)) + i + 1 <= sum_word_lens(lv) + lv.len());
            }
            chars = chars + wl;
            chars = chars + 1;
            if chars > self.current_char {
                self.current_word = i;
                found = true;
                proof {
                    assert(lv[i as int].len() >= c - (chars - wl - 1));
                    assert(find_word(lv.skip(i as int), c - (chars - wl - 1)) == Some(0int));
                }
            } else {
                proof {
                    assert(!(lv[i as int].len() >= c - (chars - wl - 1)));
                }
            }
            i = i + 1;
        }
        proof {
            if !found {
                assert(lv.skip(i as int) =~= Seq::<Seq<char>>::empty());
                assert(find_word(lv, c) is None);
            }
        }
    }

    /// Advances the cursor by one character; returns whether it moved on to
    /// the next line, as `spec_next` says.
    pub fn next_char(&mut self, page: &Page) -> (moved: bool)
        requires
            old(self).current_char < usize::MAX,
            old(self).current_line + 1 + WINDOW_MARGIN <= usize::MAX,
            old(self).window.size + old(self).window.start_line <= usize::MAX,
            old(self).window.start_line < usize::MAX,
            line_len_at(page@, old(self).current_line as int) < usize::MAX,
            line_len_at(page@, old(self).current_line + 1) < usize::MAX,
        ensures
            final(self)@ == spec_next(page@, old(self)@),
            moved == (old(self).current_char + 1 > line_len_at(
                page@,
                old(self).current_line as int,
            )),
    {
        let mut moved_to_next_line = false;
        self.current_char = self.current_char + 1;
        let len = line_len_of(page, self.current_line);
        if self.current_char > len {
            self.current_line = self.current_line + 1;
            self.current_word = 0;
            self.current_char = 0;
            moved_to_next_line = true;

            if self.current_line + WINDOW_MARGIN >= self.window.size + self.window.start_line {
                self.window.start_line = self.window.start_line + 1;
            }
        }
        self.calc_current_word(page);
        moved_to_next_line
    }

    /// Steps the cursor back by one character, as `spec_prev` says.
    pub fn prev_char(&mut self, page: &Page)
        requires
            old(self).window.start_line + WINDOW_MARGIN <= usize::MAX,
            line_len_at(page@, old(self).current_line as int) < usize::MAX,
            old(self).current_line > 0 ==> line_len_at(page@, old(self).current_line - 1)
                < usize::MAX,
        ensures
            final(self)@ == spec_prev(page@, old(self)@),
    {
        if self.current_char == 0 {
            if self.current_line == 0 {
                return ;
            }
            self.current_line = self.current_line - 1;
            self.current_char = line_len_of(page, self.current_line);

            if self.current_line <= self.window.start_line + WINDOW_MARGIN {
                if self.window.start_line > 0 {
                    self.window.start_line = self.window.start_line - 1;
                } else {
                    self.window.start_line = 0;
                }
            }
        } else {
            self.current_char = self.current_char - 1;
        }
        self.calc_current_word(page);
    }
}

/// The cursor after `n` advances in a row.
pub open spec fn iter_next(page: Seq<Seq<Seq<char>>>, c: CurPos, n: nat) -> CurPos
    decreases n,
{
    if n == 0 {
        c
    } else {
        spec_next(page, iter_next(page, c, (n - 1) as nat))
    }
}

/// The cursor after `n` backward steps in a row.
pub open spec fn iter_prev(page: Seq<Seq<Seq<char>>>, c: CurPos, n: nat) -> CurPos
    decreases n,
{
    if n == 0 {
        c
    } else {
        spec_prev(page, iter_prev(page, c, (n - 1) as nat))
    }
}

/// A cursor position in step with the page: non-negative indices, the
/// character offset within the current line's length.
pub open spec fn cursor_in_line(page: Seq<Seq<Seq<char>>>, c: CurPos) -> bool {
    0 <= c.line && 0 <= c.start && 0 <= c.chr <= line_len_at(page, c.line)
}

pub proof fn lemma_next_keeps_in_line(page: Seq<Seq<Seq<char>>>, c: CurPos)
    requires
        cursor_in_line(page, c),
    ensures
        cursor_in_line(page, spec_next(page, c)),
{
}

pub proof fn lemma_prev_keeps_in_line(page: Seq<Seq<Seq<char>>>, c: CurPos)
    requires
        cursor_in_line(page, c),
    ensures
        cursor_in_line(page, spec_prev(page, c)),
{
}

/// One backward step undoes one advance, as far as line and character go.
pub proof fn lemma_prev_of_next_restores(page: Seq<Seq<Seq<char>>>, c: CurPos)
    requires
        cursor_in_line(page, c),
    ensures
        spec_prev(page, spec_next(page, c)).line == c.line,
        spec_prev(page, spec_next(page, c)).chr == c.chr,
{
}

/// Where a backward step lands, in line and character, depends only on the
/// line and character it starts from.
pub proof fn lemma_prev_respects_pos(page: Seq<Seq<Seq<char>>>, a: CurPos, b: CurPos)
    requires
        a.line == b.line,
        a.chr == b.chr,
    ensures
        spec_prev(page, a).line == spec_prev(page, b).line,
        spec_prev(page, a).chr == spec_prev(page, b).chr,
{
}

/// Advancing `n` times from `c` is advancing `n - 1` times from the cursor
/// one step ahead of `c`.
pub proof fn lemma_iter_next_shift(page: Seq<Seq<Seq<char>>>, c: CurPos, n: nat)
    requires
        n >= 1,
    ensures
        iter_next(page, c, n) == iter_next(page, spec_next(page, c), (n - 1) as nat),
    decreases n,
{
    let c1 = spec_next(page, c);
    if n == 1 {
        assert(iter_next(page, c, 1) == spec_next(page, iter_next(page, c, 0)));
        assert(iter_next(page, c, 0) == c);
        assert(iter_next(page, c1, 0) == c1);
    } else {
        lemma_iter_next_shift(page, c, (n - 1) as nat);
        assert(iter_next(page, c, n) == spec_next(page, iter_next(page, c, (n - 1) as nat)));
        assert(iter_next(page, c1, (n - 1) as nat) == spec_next(
            page,
            iter_next(page, c1, (n - 2) as nat),
        ));
    }
}

/// `n` advances followed by `n` backward steps restore the cursor's line and
/// character offset.
pub proof fn lemma_next_prev_position_round_trip(page: Seq<Seq<Seq<char>>>, c: CurPos, n: nat)
    requires
        cursor_in_line(page, c),
    ensures
        iter_prev(page, iter_next(page, c, n), n).line == c.line,
        iter_prev(page, iter_next(page, c, n), n).chr == c.chr,
    decreases n,
{
    if n > 0 {
        let c1 = spec_next(page, c);
        lemma_next_keeps_in_line(page, c);
        lemma_iter_next_shift(page, c, n);
        lemma_next_prev_position_round_trip(page, c1, (n - 1) as nat);
        let y = iter_next(page, c, n);
        let z = iter_prev(page, y, (n - 1) as nat);
        lemma_prev_respects_pos(page, z, c1);
        lemma_prev_of_next_restores(page, c);
    }
}

/// Law: from a position whose word index agrees with its character offset —
/// the scan of the current line finds the word covering the offset, so in
/// particular the line is not blank — any number of advances followed by the
/// same number of backward steps returns the cursor to its original
/// (line, word, character) triple.
pub proof fn lemma_cursor_round_trip(page: Seq<Seq<Seq<char>>>, c: CurPos, n: nat)
    requires
        cursor_in_line(page, c),
        find_word(line_at(page, c.line), c.chr) == Some(c.word),
    ensures
        iter_prev(page, iter_next(page, c, n), n).line == c.line,
        iter_prev(page, iter_next(page, c, n), n).word == c.word,
        iter_prev(page, iter_next(page, c, n), n).chr == c.chr,
{
    lemma_next_prev_position_round_trip(page, c, n);
    if n > 0 {
        let c1 = spec_next(page, c);
        lemma_next_keeps_in_line(page, c);
        lemma_iter_next_shift(page, c, n);
        lemma_next_prev_position_round_trip(page, c1, (n - 1) as nat);
        let y = iter_next(page, c, n);
        let z = iter_prev(page, y, (n - 1) as nat);
        let d = iter_prev(page, y, n);
        assert(d == spec_prev(page, z));
        assert(z.line == c1.line && z.chr == c1.chr);
        if c1.chr == 0 {
            assert(c1.line == c.line + 1);
            assert(d.word == word_after(page, c.line, d.chr, z.word));
        } else {
            assert(d.word == word_after(page, c.line, c.chr, z.word));
        }
        assert(d.word == c.word);
    }
}

} // verus!
