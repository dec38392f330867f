//! Parsing of raw text into a `Page`: the text is split into lines, runs of
//! empty input lines collapse to a single blank line, each remaining line is
//! split on whitespace into words, and every word keeps only its ASCII
//! characters (others are dropped, which shifts character positions — a
//! property of the trainer that is kept on purpose).
use crate::model::{Line, Page, Word};
use vstd::prelude::*;
use vstd::string::StrSliceExecFns;

verus! {

/// An ASCII character: one whose scalar value fits in seven bits.
pub open spec fn char_is_ascii(c: char) -> bool {
    c <= '\x7f'
}

/// A character that separates words inside one line: the whitespace
/// characters that can still occur there (the newline is consumed by the
/// line split before words are looked at).
pub open spec fn is_sep(c: char) -> bool {
    c == ' ' || c == '\t' || c == '\r' || c == '\x0b' || c == '\x0c'
}

fn is_sep_exec(c: char) -> (r: bool)
    ensures
        r == is_sep(c),
{
    c == ' ' || c == '\t' || c == '\r' || c == '\x0b' || c == '\x0c'
}

/// The subsequence of ASCII characters of `s`, in order.
pub open spec fn filter_ascii(s: Seq<char>) -> Seq<char>
    decreases s.len(),
{
    if s.len() == 0 {
        Seq::empty()
    } else if char_is_ascii(s[0]) {
        seq![s[0]] + filter_ascii(s.drop_first())
    } else {
        filter_ascii(s.drop_first())
    }
}

/// Filtering ASCII characters distributes over concatenation.
pub proof fn lemma_filter_ascii_append(a: Seq<char>, b: Seq<char>)
    ensures
        filter_ascii(a + b) == filter_ascii(a) + filter_ascii(b),
    decreases a.len(),
{
    if a.len() == 0 {
        assert(a + b =~= b);
        assert(filter_ascii(a) + filter_ascii(b) =~= filter_ascii(b));
    } else {
        lemma_filter_ascii_append(a.drop_first(), b);
        assert((a + b).drop_first() =~= a.drop_first() + b);
        assert((a + b)[0] == a[0]);
        if char_is_ascii(a[0]) {
            assert(seq![a[0]] + (filter_ascii(a.drop_first()) + filter_ascii(b)) =~= (seq![a[0]]
                + filter_ascii(a.drop_first())) + filter_ascii(b));
        }
    }
}

/// A word made of ASCII characters only passes through the filter unchanged.
pub proof fn lemma_filter_ascii_identity(s: Seq<char>)
    requires
        forall|i: int| 0 <= i < s.len() ==> char_is_ascii(#[trigger] s[i]),
    ensures
        filter_ascii(s) == s,
    decreases s.len(),
{
    if s.len() == 0 {
        assert(filter_ascii(s) =~= s);
    } else {
        lemma_filter_ascii_identity(s.drop_first());
        assert(filter_ascii(s) =~= s);
    }
}

/// The token gathered so far, emitted as zero or one words: a non-empty raw
/// token becomes one word holding its ASCII characters (possibly none), an
/// empty token becomes nothing.
pub open spec fn emit_token(cur: Seq<char>) -> Seq<Seq<char>> {
    if cur.len() == 0 {
        Seq::empty()
    } else {
        seq![filter_ascii(cur)]
    }
}

/// One line split into words: `cur` is the raw token read so far; a
/// separator closes it, any other character extends it.
pub open spec fn parse_line_acc(cs: Seq<char>, cur: Seq<char>) -> Seq<Seq<char>>
    decreases cs.len(),
{
    if cs.len() == 0 {
        emit_token(cur)
    } else if is_sep(cs[0]) {
        emit_token(cur) + parse_line_acc(cs.drop_first(), Seq::empty())
    } else {
        parse_line_acc(cs.drop_first(), cur.push(cs[0]))
    }
}

/// A raw line with a final carriage return (from a `\r\n` line ending)
/// loses that carriage return.
pub open spec fn strip_cr(l: Seq<char>) -> Seq<char> {
    if l.len() > 0 && l.last() == '\r' {
        l.drop_last()
    } else {
        l
    }
}

/// The text split into raw lines at newline characters: `cur` is the line
/// read so far. A line closed by a newline drops a final carriage return; a
/// last line without a newline is kept as it stands; a final newline opens
/// no further line.
pub open spec fn split_lines_acc(s: Seq<char>, cur: Seq<char>) -> Seq<Seq<char>>
    decreases s.len(),
{
    if s.len() == 0 {
        if cur.len() == 0 {
            Seq::empty()
        } else {
            seq![cur]
        }
    } else if s[0] == '\n' {
        seq![strip_cr(cur)] + split_lines_acc(s.drop_first(), Seq::empty())
    } else {
        split_lines_acc(s.drop_first(), cur.push(s[0]))
    }
}

/// The raw lines turned into parsed lines: an empty raw line becomes a blank
/// line unless the previous raw line was already empty (runs of empty lines
/// collapse to one blank line); any other raw line is split into words.
pub open spec fn parse_lines(ls: Seq<Seq<char>>, prev_empty: bool) -> Seq<Seq<Seq<char>>>
    decreases ls.len(),
{
    if ls.len() == 0 {
        Seq::empty()
    } else if ls[0].len() == 0 {
        if prev_empty {
            parse_lines(ls.drop_first(), true)
        } else {
            seq![Seq::<Seq<char>>::empty()] + parse_lines(ls.drop_first(), true)
        }
    } else {
        seq![parse_line_acc(ls[0], Seq::empty())] + parse_lines(ls.drop_first(), false)
    }
}

/// What `Page::parse` yields on the given text.
pub open spec fn spec_parse(s: Seq<char>) -> Seq<Seq<Seq<char>>> {
    parse_lines(split_lines_acc(s, Seq::empty()), false)
}

/// The characters of a `&str`, collected one by one.
fn str_to_chars(s: &str) -> (v: Vec<char>)
    ensures
        v@ == s@,
{
    let n = s.unicode_len();
    let mut v: Vec<char> = Vec::new();
    let mut i: usize = 0;
    while i < n
        invariant
            i <= n,
            n == s@.len(),
            v@ == s@.take(i as int),
        decreases n - i,
    {
        v.push(s.get_char(i));
        i = i + 1;
        proof {
            assert(v@ =~= s@.take(i as int));
        }
    }
    proof {
        assert(v@ =~= s@);
    }
    v
}

/// The ASCII characters of `cs`, in order.
fn filter_ascii_exec(cs: &Vec<char>) -> (out: Vec<char>)
    ensures
        out@ == filter_ascii(cs@),
{
    let mut out: Vec<char> = Vec::new();
    let mut i: usize = 0;
    proof {
        assert(cs@.take(0) =~= Seq::<char>::empty());
        assert(filter_ascii(cs@.take(0)) =~= Seq::<char>::empty());
    }
    while i < cs.len()
        invariant
            i <= cs.len(),
            out@ == filter_ascii(cs@.take(i as int)),
        decreases cs.len() - i,
    {
        let c = cs[i];
        proof {
            assert(cs@.take(i + 1) =~= cs@.take(i as int) + seq![c]);
            lemma_filter_ascii_append(cs@.take(i as int), seq![c]);
            assert(seq![c].drop_first() =~= Seq::<char>::empty());
            assert(filter_ascii(Seq::<char>::empty()) =~= Seq::<char>::empty());
            if char_is_ascii(c) {
                assert(filter_ascii(seq![c]) =~= seq![c]);
                assert(out@.push(c) =~= out@ + seq![c]);
            } else {
                assert(filter_ascii(seq![c]) =~= Seq::<char>::empty());
                assert(out@ + Seq::<char>::empty() =~= out@);
            }
        }
        if c <= '\x7f' {
            out.push(c);
        }
        i = i + 1;
    }
    proof {
        assert(cs@.take(i as int) =~= cs@);
    }
    out
}

impl Word {
    /// One whitespace-free token parsed into a word: only its ASCII
    /// characters are kept, so positions shift where others are dropped.
    pub fn parse(text: &str) -> (w: Word)
        ensures
            w@ == filter_ascii(text@),
    {
        let v = str_to_chars(text);
        Word { chars: filter_ascii_exec(&v) }
    }
}

/// The words of the line `cs` from index `i` on, with `cur` the raw token
/// read so far.
fn parse_line_from(cs: &Vec<char>, i: usize, cur: Vec<char>) -> (out: Vec<Word>)
    requires
        i <= cs@.len(),
    ensures
        out@.map_values(|w: Word| w@) == parse_line_acc(cs@.skip(i as int), cur@),
    decreases cs@.len() - i,
{
    if i == cs.len() {
        proof {
            assert(cs@.skip(i as int) =~= Seq::<char>::empty());
        }
        if cur.len() == 0 {
            let out: Vec<Word> = Vec::new();
            proof {
                assert(out@.map_values(|w: Word| w@) =~~= emit_token(cur@));
            }
            out
        } else {
            let w = Word { chars: filter_ascii_exec(&cur) };
            let mut out: Vec<Word> = Vec::new();
            out.push(w);
            proof {
                assert(out@.map_values(|w: Word| w@) =~~= emit_token(cur@));
            }
            out
        }
    } else {
        let c = cs[i];
        proof {
            assert(cs@.skip(i as int)[0] == c);
            assert(cs@.skip(i as int).drop_first() =~= cs@.skip(i + 1));
        }
        if is_sep_exec(c) {
            let rest = parse_line_from(cs, i + 1, Vec::new());
            if cur.len() == 0 {
                proof {
                    assert(rest@.map_values(|w: Word| w@) =~~= parse_line_acc(
                        cs@.skip(i as int),
                        cur@,
                    ));
                }
                rest
            } else {
                let w = Word { chars: filter_ascii_exec(&cur) };
                let mut out = rest;
                out.insert(0, w);
                proof {
                    assert(out@.map_values(|w: Word| w@) =~~= parse_line_acc(
                        cs@.skip(i as int),
                        cur@,
                    ));
                }
                out
            }
        } else {
            let mut cur2 = cur;
            cur2.push(c);
            parse_line_from(cs, i + 1, cur2)
        }
    }
}

/// The raw lines of the text `v` from index `i` on, with `cur` the line
/// read so far.
fn split_lines_from(v: &Vec<char>, i: usize, cur: Vec<char>) -> (out: Vec<Vec<char>>)
    requires
        i <= v@.len(),
    ensures
        out.deep_view() == split_lines_acc(v@.skip(i as int), cur@),
    decreases v@.len() - i,
{
    if i == v.len() {
        proof {
            assert(v@.skip(i as int) =~= Seq::<char>::empty());
        }
        if cur.len() == 0 {
            let out: Vec<Vec<char>> = Vec::new();
            proof {
                assert(out.deep_view() =~~= split_lines_acc(v@.skip(i as int), cur@));
            }
            out
        } else {
            let mut out: Vec<Vec<char>> = Vec::new();
            out.push(cur);
            proof {
                assert(out.deep_view() =~~= split_lines_acc(v@.skip(i as int), cur@));
            }
            out
        }
    } else {
        let c = v[i];
        proof {
            assert(v@.skip(i as int)[0] == c);
            assert(v@.skip(i as int).drop_first() =~= v@.skip(i + 1));
        }
        if c == '\n' {
            let mut stripped = cur;
            if stripped.len() > 0 && stripped[stripped.len() - 1] == '\r' {
                stripped.pop();
            }
            proof {
                assert(stripped@ == strip_cr(cur@));
            }
            let rest = split_lines_from(v, i + 1, Vec::new());
            let mut out = rest;
            out.insert(0, stripped);
            proof {
                assert(out.deep_view() =~~= split_lines_acc(v@.skip(i as int), cur@));
            }
            out
        } else {
            let mut cur2 = cur;
            cur2.push(c);
            split_lines_from(v, i + 1, cur2)
        }
    }
}

/// The parsed lines of the raw lines `raw` from index `j` on, with
/// `prev_empty` telling whether the raw line just before was empty.
fn parse_lines_from(raw: &Vec<Vec<char>>, j: usize, prev_empty: bool) -> (out: Vec<Line>)
    requires
        j <= raw@.len(),
    ensures
        out@.map_values(|l: Line| l@) == parse_lines(raw.deep_view().skip(j as int), prev_empty),
    decreases raw@.len() - j,
{
    if j == raw.len() {
        let out: Vec<Line> = Vec::new();
        proof {
            assert(raw.deep_view().skip(j as int) =~= Seq::<Seq<char>>::empty());
            assert(out@.map_values(|l: Line| l@) =~~= parse_lines(
                raw.deep_view().skip(j as int),
                prev_empty,
            ));
        }
        out
    } else {
        let line = &raw[j];
        proof {
            assert(raw.deep_view().skip(j as int)[0] == line@);
            assert(raw.deep_view().skip(j as int).drop_first() =~= raw.deep_view().skip(j + 1));
        }
        if line.len() == 0 {
            if prev_empty {
                parse_lines_from(raw, j + 1, true)
            } else {
                let rest = parse_lines_from(raw, j + 1, true);
                let mut out = rest;
                out.insert(0, Line { words: Vec::new() });
                proof {
                    assert(out@.map_values(|l: Line| l@) =~~= parse_lines(
                        raw.deep_view().skip(j as int),
                        prev_empty,
                    ));
                }
                out
            }
        } else {
            let words = parse_line_from(line, 0, Vec::new());
            proof {
                assert(line@.skip(0) =~= line@);
            }
            let rest = parse_lines_from(raw, j + 1, false);
            let mut out = rest;
            out.insert(0, Line { words });
            proof {
                assert(out@.map_values(|l: Line| l@) =~~= parse_lines(
                    raw.deep_view().skip(j as int),
                    prev_empty,
                ));
            }
            out
        }
    }
}

impl Page {
    /// The raw text parsed into a page: lines split at newlines, runs of
    /// empty input lines collapsed to one blank line, words split on
    /// whitespace and stripped of non-ASCII characters.
    pub fn parse(text: &str) -> (p: Page)
        ensures
            p@ == spec_parse(text@),
    {
        let v = str_to_chars(text);
        let raw = split_lines_from(&v, 0, Vec::new());
        proof {
            assert(v@.skip(0) =~= v@);
        }
        let lines = parse_lines_from(&raw, 0, false);
        proof {
            assert(raw.deep_view().skip(0) =~= raw.deep_view());
        }
        Page { lines }
    }
}

/// Law: a run of two or more empty input lines parses exactly as a single
/// empty input line does — inserting one more empty raw line beside an
/// already empty one changes nothing, while a lone empty line yields one
/// blank parsed line.
pub proof fn lemma_blank_run_collapses(ls: Seq<Seq<char>>, i: int, prev_empty: bool)
    requires
        0 <= i < ls.len(),
        ls[i].len() == 0,
    ensures
        parse_lines(ls.insert(i, Seq::<char>::empty()), prev_empty) == parse_lines(ls, prev_empty),
    decreases i,
{
    let ls2 = ls.insert(i, Seq::<char>::empty());
    if i == 0 {
        assert(ls2[0].len() == 0);
        assert(ls2.drop_first() =~~= ls);
        if prev_empty {
            assert(parse_lines(ls2, true) == parse_lines(ls, true));
        } else {
            assert(parse_lines(ls2, false) =~~= seq![Seq::<Seq<char>>::empty()] + parse_lines(
                ls,
                true,
            ));
            assert(parse_lines(ls, false) =~~= seq![Seq::<Seq<char>>::empty()] + parse_lines(
                ls.drop_first(),
                true,
            ));
            assert(parse_lines(ls, true) == parse_lines(ls.drop_first(), true));
        }
    } else {
        assert(ls2[0] == ls[0]);
        assert(ls2.drop_first() =~~= ls.drop_first().insert(i - 1, Seq::<char>::empty()));
        assert(ls.drop_first()[i - 1].len() == 0);
        if ls[0].len() == 0 {
            lemma_blank_run_collapses(ls.drop_first(), i - 1, true);
        } else {
            lemma_blank_run_collapses(ls.drop_first(), i - 1, false);
        }
    }
}

/// A word that survives serialization: non-empty, ASCII only, and free of
/// newlines and word separators.
pub open spec fn wf_word(w: Seq<char>) -> bool {
    w.len() > 0 && forall|i: int|
        0 <= i < w.len() ==> char_is_ascii(#[trigger] w[i]) && !is_sep(w[i]) && w[i] != '\n'
}

/// A line whose words all survive serialization.
pub open spec fn wf_line(l: Seq<Seq<char>>) -> bool {
    forall|j: int| 0 <= j < l.len() ==> wf_word(#[trigger] l[j])
}

/// A page that survives serialization: every word well formed, and no two
/// blank lines side by side (parsing would collapse those into one).
pub open spec fn wf_page(p: Seq<Seq<Seq<char>>>) -> bool {
    (forall|i: int| 0 <= i < p.len() ==> wf_line(#[trigger] p[i])) && (forall|i: int|
        0 <= i && i + 1 < p.len() ==> !(#[trigger] p[i].len() == 0 && p[i + 1].len() == 0))
}

/// Reading a stretch of non-separator characters just grows the current
/// token.
proof fn lemma_scan_word(w: Seq<char>, rest: Seq<char>, cur: Seq<char>)
    requires
        forall|i: int| 0 <= i < w.len() ==> !is_sep(#[trigger] w[i]),
    ensures
        parse_line_acc(w + rest, cur) == parse_line_acc(rest, cur + w),
    decreases w.len(),
{
    if w.len() == 0 {
        assert(w + rest =~= rest);
        assert(cur + w =~= cur);
    } else {
        assert((w + rest)[0] == w[0]);
        assert((w + rest).drop_first() =~= w.drop_first() + rest);
        lemma_scan_word(w.drop_first(), rest, cur.push(w[0]));
        assert(cur.push(w[0]) + w.drop_first() =~= cur + w);
    }
}

/// Reading a stretch of characters without a newline just grows the current
/// raw line.
proof fn lemma_scan_line(w: Seq<char>, rest: Seq<char>, cur: Seq<char>)
    requires
        forall|i: int| 0 <= i < w.len() ==> w[i] != '\n',
    ensures
        split_lines_acc(w + rest, cur) == split_lines_acc(rest, cur + w),
    decreases w.len(),
{
    if w.len() == 0 {
        assert(w + rest =~= rest);
        assert(cur + w =~= cur);
    } else {
        assert((w + rest)[0] == w[0]);
        assert((w + rest).drop_first() =~= w.drop_first() + rest);
        lemma_scan_line(w.drop_first(), rest, cur.push(w[0]));
        assert(cur.push(w[0]) + w.drop_first() =~= cur + w);
    }
}

/// A well-formed line's rendering contains no newline, and when the line has
/// words it is non-empty and does not end in a carriage return.
proof fn lemma_join_words_wf(ws: Seq<Seq<char>>)
    requires
        wf_line(ws),
    ensures
        forall|i: int|
            0 <= i < crate::model::spec_join_words(ws).len()
                ==> #[trigger] crate::model::spec_join_words(ws)[i] != '\n',
        ws.len() > 0 ==> crate::model::spec_join_words(ws).len() > 0,
        ws.len() > 0 ==> crate::model::spec_join_words(ws).last() != '\r',
    decreases ws.len(),
{
    let j = crate::model::spec_join_words(ws);
    if ws.len() == 0 {
    } else if ws.len() == 1 {
        assert(j == ws[0]);
        assert(wf_word(ws[0]));
        assert(j.last() != '\r');
    } else {
        assert(wf_line(ws.drop_first())) by {
            assert(forall|k: int|
                0 <= k < ws.drop_first().len() ==> #[trigger] ws.drop_first()[k] == ws[k + 1]);
        }
        lemma_join_words_wf(ws.drop_first());
        let tail = crate::model::spec_join_words(ws.drop_first());
        assert(j == ws[0] + seq![' '] + tail);
        assert(wf_word(ws[0]));
        assert(forall|i: int| 0 <= i < j.len() ==> #[trigger] j[i] != '\n') by {
            assert(forall|i: int| 0 <= i < ws[0].len() ==> #[trigger] j[i] == ws[0][i]);
            assert(j[ws[0].len() as int] == ' ');
            assert(forall|i: int|
                ws[0].len() + 1 <= i < j.len() ==> #[trigger] j[i] == tail[i - (ws[0].len()
                    + 1)]);
        }
        assert(ws.drop_first().len() > 0);
        assert(tail.len() > 0);
        assert(j.last() == tail.last());
    }
}

/// A well-formed non-blank line parses back from its rendering.
proof fn lemma_line_round_trip(ws: Seq<Seq<char>>)
    requires
        wf_line(ws),
    ensures
        parse_line_acc(crate::model::spec_join_words(ws), Seq::empty()) == ws,
    decreases ws.len(),
{
    let j = crate::model::spec_join_words(ws);
    let e = Seq::<char>::empty();
    if ws.len() == 0 {
        assert(parse_line_acc(j, e) =~~= ws);
    } else if ws.len() == 1 {
        assert(j == ws[0]);
        assert(j =~= ws[0] + e);
        lemma_scan_word(ws[0], e, e);
        assert(parse_line_acc(j, e) == parse_line_acc(e, e + ws[0]));
        assert(e + ws[0] =~= ws[0]);
        assert(wf_word(ws[0]));
        lemma_filter_ascii_identity(ws[0]);
        assert(parse_line_acc(e, ws[0]) == emit_token(ws[0]));
        assert(emit_token(ws[0]) =~~= ws);
    } else {
        let tail = crate::model::spec_join_words(ws.drop_first());
        let x = seq![' '] + tail;
        assert(j =~= ws[0] + x);
        assert(wf_word(ws[0]));
        lemma_scan_word(ws[0], x, e);
        assert(parse_line_acc(j, e) == parse_line_acc(x, e + ws[0]));
        assert(e + ws[0] =~= ws[0]);
        assert(x[0] == ' ');
        assert(is_sep(x[0]));
        assert(x.drop_first() =~= tail);
        assert(parse_line_acc(x, ws[0]) == emit_token(ws[0]) + parse_line_acc(tail, e));
        assert(wf_line(ws.drop_first())) by {
            assert(forall|k: int|
                0 <= k < ws.drop_first().len() ==> #[trigger] ws.drop_first()[k] == ws[k + 1]);
        }
        lemma_line_round_trip(ws.drop_first());
        lemma_filter_ascii_identity(ws[0]);
        assert(emit_token(ws[0]) =~= seq![ws[0]]);
        assert(seq![ws[0]] + ws.drop_first() =~~= ws);
    }
}

proof fn lemma_round_trip_rec(p: Seq<Seq<Seq<char>>>, prev_empty: bool)
    requires
        wf_page(p),
        prev_empty ==> (p.len() == 0 || p[0].len() > 0),
    ensures
        parse_lines(split_lines_acc(crate::model::spec_serialize(p), Seq::empty()), prev_empty)
            == p,
    decreases p.len(),
{
    let e = Seq::<char>::empty();
    let s = crate::model::spec_serialize(p);
    if p.len() == 0 {
        assert(parse_lines(split_lines_acc(s, e), prev_empty) =~~= p);
    } else {
        let j = crate::model::spec_join_words(p[0]);
        let rest = crate::model::spec_serialize(p.drop_first());
        let x = seq!['\n'] + rest;
        assert(s =~= j + x);
        assert(wf_line(p[0]));
        lemma_join_words_wf(p[0]);
        lemma_scan_line(j, x, e);
        assert(split_lines_acc(s, e) == split_lines_acc(x, e + j));
        assert(e + j =~= j);
        assert(x[0] == '\n');
        assert(x.drop_first() =~= rest);
        assert(split_lines_acc(x, j) == seq![strip_cr(j)] + split_lines_acc(rest, e));
        assert(strip_cr(j) == j);
        let ls = seq![j] + split_lines_acc(rest, e);
        assert(split_lines_acc(s, e) == ls);
        assert(ls[0] == j);
        assert(ls.drop_first() =~= split_lines_acc(rest, e));
        assert(wf_page(p.drop_first())) by {
            assert(forall|k: int|
                0 <= k < p.drop_first().len() ==> #[trigger] p.drop_first()[k] == p[k + 1]);
        }
        if p[0].len() == 0 {
            assert(j.len() == 0);
            assert(!prev_empty);
            assert(p.drop_first().len() > 0 ==> p.drop_first()[0].len() > 0);
            lemma_round_trip_rec(p.drop_first(), true);
            assert(parse_lines(ls, false) == seq![Seq::<Seq<char>>::empty()] + parse_lines(
                ls.drop_first(),
                true,
            ));
            assert(seq![Seq::<Seq<char>>::empty()] + p.drop_first() =~~= p);
        } else {
            assert(j.len() > 0);
            lemma_line_round_trip(p[0]);
            assert(parse_lines(ls, prev_empty) == seq![parse_line_acc(j, Seq::empty())]
                + parse_lines(ls.drop_first(), false));
            lemma_round_trip_rec(p.drop_first(), false);
            assert(seq![p[0]] + p.drop_first() =~~= p);
        }
    }
}

/// Law: a page whose words contain no internal whitespace — and, with it,
/// nothing a rendering cannot carry: no empty words, no non-ASCII characters,
/// no two blank lines side by side — parses back exactly from its rendering:
/// `parse(serialize(page)) == page`.
pub proof fn lemma_parse_serialize_round_trip(p: Seq<Seq<Seq<char>>>)
    requires
        wf_page(p),
    ensures
        spec_parse(crate::model::spec_serialize(p)) == p,
{
    lemma_round_trip_rec(p, false);
}

} // verus!
