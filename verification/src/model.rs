//! The text model: a `Page` is a sequence of `Line`s, a `Line` a sequence of
//! `Word`s, a `Word` a sequence of characters. One page holds the reference
//! text (parsed once, then read only), a second one holds what the user has
//! typed (grown and shrunk one character at a time).
use vstd::prelude::*;

verus! {

/// A word: an ordered sequence of characters.
#[derive(Debug)]
pub struct Word {
    pub chars: Vec<char>,
}

impl View for Word {
    type V = Seq<char>;

    open spec fn view(&self) -> Seq<char> {
        self.chars@
    }
}

impl Word {
    /// The empty word, used as the neutral value by the accessors.
    pub fn new() -> (w: Word)
        ensures
            w@ == Seq::<char>::empty(),
    {
        Word { chars: Vec::new() }
    }
}

impl Clone for Word {
    fn clone(&self) -> (w: Word)
        ensures
            w@ == self@,
    {
        let mut chars: Vec<char> = Vec::new();
        let mut i: usize = 0;
        while i < self.chars.len()
            invariant
                i <= self.chars.len(),
                chars@ == self.chars@.take(i as int),
            decreases self.chars.len() - i,
        {
            chars.push(self.chars[i]);
            i = i + 1;
            proof {
                assert(chars@ =~= self.chars@.take(i as int));
            }
        }
        proof {
            assert(chars@ =~= self.chars@);
        }
        Word { chars }
    }
}

/// A line: an ordered sequence of words.
#[derive(Debug)]
pub struct Line {
    pub words: Vec<Word>,
}

impl View for Line {
    type V = Seq<Seq<char>>;

    open spec fn view(&self) -> Seq<Seq<char>> {
        self.words@.map_values(|w: Word| w@)
    }
}

impl Line {
    /// The empty line, used as the neutral value by the accessors.
    pub fn new() -> (l: Line)
        ensures
            l@ == Seq::<Seq<char>>::empty(),
    {
        let l = Line { words: Vec::new() };
        proof {
            assert(l@ =~= Seq::<Seq<char>>::empty());
        }
        l
    }
}

/// A page: an ordered sequence of lines.
#[derive(Debug)]
pub struct Page {
    pub lines: Vec<Line>,
}

impl View for Page {
    type V = Seq<Seq<Seq<char>>>;

    open spec fn view(&self) -> Seq<Seq<Seq<char>>> {
        self.lines@.map_values(|l: Line| l@)
    }
}

/// Sum of the lengths of the words of a line.
pub open spec fn sum_word_lens(words: Seq<Seq<char>>) -> nat
    decreases words.len(),
{
    if words.len() == 0 {
        0
    } else {
        words[0].len() + sum_word_lens(words.drop_first())
    }
}

/// The length of a line: the word lengths summed, plus one separator space
/// between each pair of words (no trailing space).
pub open spec fn spec_line_len(words: Seq<Seq<char>>) -> int {
    if words.len() == 0 {
        0
    } else {
        sum_word_lens(words) + words.len() - 1
    }
}

pub proof fn lemma_sum_word_lens_split(words: Seq<Seq<char>>, i: int)
    requires
        0 <= i <= words.len(),
    ensures
        sum_word_lens(words) == sum_word_lens(words.take(i)) + sum_word_lens(words.skip(i)),
    decreases i,
{
    if i == 0 {
        assert(words.take(0) =~= Seq::<Seq<char>>::empty());
        assert(words.skip(0) =~= words);
    } else {
        lemma_sum_word_lens_split(words.drop_first(), i - 1);
        assert(words.take(i).drop_first() =~= words.drop_first().take(i - 1));
        assert(words.skip(i) =~= words.drop_first().skip(i - 1));
        assert(sum_word_lens(words.take(i)) == words[0].len() + sum_word_lens(
            words.drop_first().take(i - 1),
        ));
    }
}

impl Line {
    /// The line's length in characters, counting one separator space
    /// between adjacent words.
    pub fn len(&self) -> (n: usize)
        requires
            spec_line_len(self@) <= usize::MAX,
        ensures
            n == spec_line_len(self@),
    {
        let mut total: usize = 0;
        let mut i: usize = 0;
        proof {
            assert(self@.skip(0) =~= self@);
        }
        while i < self.words.len()
            invariant
                i <= self.words.len(),
                self@.len() == self.words@.len(),
                spec_line_len(self@) <= usize::MAX,
                total + sum_word_lens(self@.skip(i as int)) == sum_word_lens(self@),
            decreases self.words.len() - i,
        {
            proof {
                assert(self@.skip(i as int).drop_first() =~= self@.skip(i + 1));
                assert(self@.skip(i as int)[0] == self@[i as int]);
                lemma_sum_word_lens_split(self@, i as int);
            }
            total = total + self.words[i].chars.len();
            i = i + 1;
        }
        proof {
            assert(self@.skip(i as int) =~= Seq::<Seq<char>>::empty());
        }
        if self.words.len() == 0 {
            total
        } else {
            total + (self.words.len() - 1)
        }
    }
}

/// The word currently being typed: the last word of the last line, or the
/// empty word when the page has no content.
pub open spec fn spec_last_word(p: Seq<Seq<Seq<char>>>) -> Seq<char> {
    if p.len() > 0 && p.last().len() > 0 {
        p.last().last()
    } else {
        Seq::empty()
    }
}

/// What `Page::push` does to the page, at the level of the model: the page
/// is first given a line, and that line a word, if either is missing; a
/// space then either opens a new line (`new_line`), opens a new word (unless
/// the current word is still empty), or does nothing; any other character is
/// appended to the current word.
pub open spec fn spec_push(p: Seq<Seq<Seq<char>>>, arg: char, new_line: bool) -> Seq<
    Seq<Seq<char>>,
> {
    let p1 = if p.len() == 0 {
        p.push(Seq::empty())
    } else {
        p
    };
    let ll = p1.last();
    let ll1 = if ll.len() == 0 {
        ll.push(Seq::empty())
    } else {
        ll
    };
    if arg == ' ' {
        if new_line {
            p1.update(p1.len() - 1, ll1).push(seq![Seq::<char>::empty()])
        } else if ll1.last().len() == 0 {
            p1.update(p1.len() - 1, ll1)
        } else {
            p1.update(p1.len() - 1, ll1.push(Seq::empty()))
        }
    } else {
        p1.update(p1.len() - 1, ll1.update(ll1.len() - 1, ll1.last().push(arg)))
    }
}

/// What `Page::delete` does to the page, at the level of the model: the last
/// character of the last word is removed; if that word was already empty it
/// is removed instead; if the last line had no words at all the line is
/// removed; an empty page is left alone.
pub open spec fn spec_delete(p: Seq<Seq<Seq<char>>>) -> Seq<Seq<Seq<char>>> {
    if p.len() == 0 {
        p
    } else {
        let ll = p.last();
        if ll.len() == 0 {
            p.drop_last()
        } else if ll.last().len() > 0 {
            p.update(p.len() - 1, ll.update(ll.len() - 1, ll.last().drop_last()))
        } else {
            p.update(p.len() - 1, ll.drop_last())
        }
    }
}

impl Page {
    /// The empty page: no lines at all.
    pub fn new() -> (p: Page)
        ensures
            p@ == Seq::<Seq<Seq<char>>>::empty(),
    {
        let p = Page { lines: Vec::new() };
        proof {
            assert(p@ =~~= Seq::<Seq<Seq<char>>>::empty());
        }
        p
    }

    /// The last word of the last line, or nothing when the page has no lines
    /// or its last line has no words.
    pub fn last_word(&self) -> (w: Option<Word>)
        ensures
            match w {
                Some(w) => self@.len() > 0 && self@.last().len() > 0 && w@ == self@.last().last(),
                None => self@.len() == 0 || self@.last().len() == 0,
            },
    {
        if self.lines.len() == 0 {
            return None;
        }
        let line = &self.lines[self.lines.len() - 1];
        proof {
            assert(self@.last() == line@);
        }
        if line.words.len() == 0 {
            return None;
        }
        let w = line.words[line.words.len() - 1].clone();
        proof {
            assert(line@.last() == w@);
        }
        Some(w)
    }

    /// The last word of the last line, or the empty word when there is none.
    pub fn last_word_or_default(&self) -> (w: Word)
        ensures
            w@ == spec_last_word(self@),
    {
        match self.last_word() {
            Some(w) => w,
            None => Word::new(),
        }
    }

    /// Appends one typed character to the page, as `spec_push` says.
    pub fn push(&mut self, arg: char, new_line: bool)
        ensures
            final(self)@ == spec_push(old(self)@, arg, new_line),
    {
        if self.lines.len() == 0 {
            self.lines.push(Line { words: Vec::new() });
            proof {
                assert(self@ =~~= old(self)@.push(Seq::<Seq<char>>::empty()));
            }
        }
        let ghost p1 = self@;
        let mut last_line = self.lines.pop().unwrap();
        let ghost popped = self@;
        proof {
            assert(popped =~~= p1.drop_last());
            assert(last_line@ == p1.last());
        }
        if last_line.words.len() == 0 {
            last_line.words.push(Word { chars: Vec::new() });
            proof {
                assert(last_line@ =~~= p1.last().push(Seq::<char>::empty()));
            }
        }
        let ghost ll1 = last_line@;
        if arg == ' ' {
            if new_line {
                self.lines.push(last_line);
                let mut nl = Line { words: Vec::new() };
                nl.words.push(Word { chars: Vec::new() });
                proof {
                    assert(nl@ =~~= seq![Seq::<char>::empty()]);
                }
                self.lines.push(nl);
                proof {
                    assert(self@ =~~= p1.update(p1.len() - 1, ll1).push(seq![Seq::<char>::empty()]));
                }
            } else {
                let skip = last_line.words[last_line.words.len() - 1].chars.len() == 0;
                proof {
                    assert(ll1.last() == last_line.words@[last_line.words@.len() - 1]@);
                }
                if !skip {
                    last_line.words.push(Word { chars: Vec::new() });
                    proof {
                        assert(last_line@ =~~= ll1.push(Seq::<char>::empty()));
                    }
                }
                self.lines.push(last_line);
                proof {
                    if skip {
                        assert(self@ =~~= p1.update(p1.len() - 1, ll1));
                    } else {
                        assert(self@ =~~= p1.update(p1.len() - 1, ll1.push(Seq::<char>::empty())));
                    }
                }
            }
        } else {
            let mut last_word = last_line.words.pop().unwrap();
            proof {
                assert(last_word@ == ll1.last());
                assert(last_line@ =~~= ll1.drop_last());
            }
            last_word.chars.push(arg);
            last_line.words.push(last_word);
            proof {
                assert(last_line@ =~~= ll1.update(ll1.len() - 1, ll1.last().push(arg)));
            }
            self.lines.push(last_line);
            proof {
                assert(self@ =~~= p1.update(
                    p1.len() - 1,
                    ll1.update(ll1.len() - 1, ll1.last().push(arg)),
                ));
            }
        }
    }

    /// Removes one character (or an exhausted word, or an exhausted line)
    /// from the end of the page, as `spec_delete` says.
    pub fn delete(&mut self)
        ensures
            final(self)@ == spec_delete(old(self)@),
    {
        if self.lines.len() == 0 {
            return ;
        }
        let ghost p0 = self@;
        let mut last_line = self.lines.pop().unwrap();
        proof {
            assert(self@ =~~= p0.drop_last());
            assert(last_line@ == p0.last());
        }
        if last_line.words.len() == 0 {
            return ;
        }
        let ghost ll = last_line@;
        let mut last_word = last_line.words.pop().unwrap();
        proof {
            assert(last_word@ == ll.last());
            assert(last_line@ =~~= ll.drop_last());
        }
        if last_word.chars.len() > 0 {
            last_word.chars.pop();
            proof {
                assert(last_word@ =~~= ll.last().drop_last());
            }
            last_line.words.push(last_word);
            proof {
                assert(last_line@ =~~= ll.update(ll.len() - 1, ll.last().drop_last()));
            }
            self.lines.push(last_line);
            proof {
                assert(self@ =~~= p0.update(p0.len() - 1, ll.update(ll.len() - 1, ll.last().drop_last())));
            }
        } else {
            self.lines.push(last_line);
            proof {
                assert(self@ =~~= p0.update(p0.len() - 1, ll.drop_last()));
            }
        }
    }
}

/// A line rendered as text: its words joined by single separator spaces.
pub open spec fn spec_join_words(words: Seq<Seq<char>>) -> Seq<char>
    decreases words.len(),
{
    if words.len() == 0 {
        Seq::empty()
    } else if words.len() == 1 {
        words[0]
    } else {
        words[0] + seq![' '] + spec_join_words(words.drop_first())
    }
}

/// A page rendered as text: each line's words joined by spaces, each line
/// closed by a newline. This is also the persisted replay format.
pub open spec fn spec_serialize(p: Seq<Seq<Seq<char>>>) -> Seq<char>
    decreases p.len(),
{
    if p.len() == 0 {
        Seq::empty()
    } else {
        spec_join_words(p[0]) + seq!['\n'] + spec_serialize(p.drop_first())
    }
}

/// Relies on `String::push` of std: it appends exactly the one given
/// character to the end of the string.
#[verifier::external_body]
fn push_char(s: &mut String, c: char)
    ensures
        final(s)@ == old(s)@.push(c),
{
    s.push(c)
}

/// The characters of one word as a `String`.
fn word_string(w: &Word) -> (s: String)
    ensures
        s@ == w@,
{
    let mut s = String::new();
    let mut i: usize = 0;
    while i < w.chars.len()
        invariant
            i <= w.chars.len(),
            s@ == w@.take(i as int),
        decreases w.chars.len() - i,
    {
        push_char(&mut s, w.chars[i]);
        i = i + 1;
        proof {
            assert(s@ =~= w@.take(i as int));
        }
    }
    proof {
        assert(s@ =~= w@);
    }
    s
}

/// The words of `line` from index `i` on, joined by single spaces.
fn join_words_from(line: &Line, i: usize) -> (s: String)
    requires
        i <= line@.len(),
    ensures
        s@ == spec_join_words(line@.skip(i as int)),
    decreases line@.len() - i,
{
    if i >= line.words.len() {
        proof {
            assert(line@.skip(i as int) =~= Seq::<Seq<char>>::empty());
        }
        String::new()
    } else if i + 1 == line.words.len() {
        let s = word_string(&line.words[i]);
        proof {
            assert(line@.skip(i as int).len() == 1);
            assert(line@.skip(i as int)[0] == line@[i as int]);
        }
        s
    } else {
        let mut s = word_string(&line.words[i]);
        push_char(&mut s, ' ');
        let rest = join_words_from(line, i + 1);
        s.append(rest.as_str());
        proof {
            assert(line@.skip(i as int).drop_first() =~= line@.skip(i + 1));
            assert(line@.skip(i as int)[0] == line@[i as int]);
            assert(s@ =~= line@[i as int] + seq![' '] + spec_join_words(line@.skip(i + 1)));
        }
        s
    }
}

/// The lines of `p` from index `i` on, rendered as text.
fn serialize_from(p: &Page, i: usize) -> (s: String)
    requires
        i <= p@.len(),
    ensures
        s@ == spec_serialize(p@.skip(i as int)),
    decreases p@.len() - i,
{
    if i >= p.lines.len() {
        proof {
            assert(p@.skip(i as int) =~= Seq::<Seq<Seq<char>>>::empty());
        }
        String::new()
    } else {
        let mut s = join_words_from(&p.lines[i], 0);
        proof {
            assert(p.lines@[i as int]@.skip(0) =~= p.lines@[i as int]@);
            assert(p@.skip(i as int)[0] == p@[i as int]);
        }
        push_char(&mut s, '\n');
        let rest = serialize_from(p, i + 1);
        s.append(rest.as_str());
        proof {
            assert(p@.skip(i as int).drop_first() =~= p@.skip(i + 1));
            assert(s@ =~= spec_join_words(p@[i as int]) + seq!['\n'] + spec_serialize(
                p@.skip(i + 1),
            ));
        }
        s
    }
}

impl Page {
    /// The page rendered as text: lines joined by newlines, each line its
    /// words joined by single spaces.
    pub fn serialize(&self) -> (s: String)
        ensures
            s@ == spec_serialize(self@),
    {
        let s = serialize_from(self, 0);
        proof {
            assert(self@.skip(0) =~= self@);
        }
        s
    }
}

/// Law: on a page that already shows some content — at least one line, whose
/// last line has at least one word — pushing any non-space character and then
/// deleting restores the page exactly.
pub proof fn lemma_push_then_delete(p: Seq<Seq<Seq<char>>>, c: char)
    requires
        c != ' ',
        p.len() > 0,
        p.last().len() > 0,
    ensures
        spec_delete(spec_push(p, c, false)) == p,
{
    let q = spec_push(p, c, false);
    let ll = p.last();
    assert(q =~~= p.update(p.len() - 1, ll.update(ll.len() - 1, ll.last().push(c))));
    assert(q.last().last() =~= ll.last().push(c));
    assert(q.last().last().drop_last() =~= ll.last());
    assert(spec_delete(q) =~~= p);
}

/// Law: starting from the empty page, one `push` (of any character, with or
/// without a line break) followed by at most four `delete` calls brings the
/// page back to the empty page, whose rendering is the empty string. A single
/// `delete` is not enough: `push` materialises a line and a word around the
/// typed character, and `delete` peels one layer per call.
pub proof fn lemma_push_then_deletes_empty(c: char, new_line: bool)
    ensures
        spec_delete(
            spec_delete(spec_delete(spec_delete(spec_push(Seq::empty(), c, new_line)))),
        ) =~~= Seq::<Seq<Seq<char>>>::empty(),
        spec_serialize(Seq::<Seq<Seq<char>>>::empty()) == Seq::<char>::empty(),
{
    let e = Seq::<Seq<Seq<char>>>::empty();
    let q = spec_push(e, c, new_line);
    if c == ' ' {
        if new_line {
            assert(q =~~= seq![seq![Seq::<char>::empty()], seq![Seq::<char>::empty()]]);
            let d1 = spec_delete(q);
            assert(d1 =~~= seq![seq![Seq::<char>::empty()], Seq::<Seq<char>>::empty()]);
            let d2 = spec_delete(d1);
            assert(d2 =~~= seq![seq![Seq::<char>::empty()]]);
            let d3 = spec_delete(d2);
            assert(d3 =~~= seq![Seq::<Seq<char>>::empty()]);
            assert(spec_delete(d3) =~~= e);
        } else {
            assert(q =~~= seq![seq![Seq::<char>::empty()]]);
            let d1 = spec_delete(q);
            assert(d1 =~~= seq![Seq::<Seq<char>>::empty()]);
            let d2 = spec_delete(d1);
            assert(d2 =~~= e);
            assert(spec_delete(spec_delete(d2)) =~~= e);
        }
    } else {
        assert(q =~~= seq![seq![seq![c]]]);
        let d1 = spec_delete(q);
        assert(d1 =~~= seq![seq![Seq::<char>::empty()]]);
        let d2 = spec_delete(d1);
        assert(d2 =~~= seq![Seq::<Seq<char>>::empty()]);
        let d3 = spec_delete(d2);
        assert(d3 =~~= e);
        assert(spec_delete(d3) =~~= e);
    }
}

} // verus!
