//! The keystroke engine: for each key it decides what the typed page gains
//! or loses, how the cursor moves, and how the session's counters change;
//! and the analytics derived from those counters.
use crate::cursor::{line_len_at, spec_next, spec_prev, word_at_or_empty, CurPos, Cursor};
use crate::model::{spec_delete, spec_last_word, spec_push, Page, Word};
use vstd::prelude::*;

verus! {

/// A key event that reaches the engine: a printable character or the
/// backspace/delete key. Everything else is handled outside (the exit
/// combination ends the process, other keys change nothing).
#[derive(Clone, Copy, Debug, PartialEq, Eq)]
pub enum Key {
    Char(char),
    Backspace,
}

/// The session's cumulative counters, only ever updated by the engine and
/// never reset within a session.
pub struct Analytics {
    pub cumulative_chars_typed: usize,
    pub cumulative_time_taken_ms: u128,
    pub success_count: u32,
    pub failure_count: u32,
}

/// The counters as unbounded integers, for the contracts.
pub ghost struct AnalyticsModel {
    pub chars: int,
    pub time: int,
    pub success: int,
    pub failure: int,
}

impl View for Analytics {
    type V = AnalyticsModel;

    open spec fn view(&self) -> AnalyticsModel {
        AnalyticsModel {
            chars: self.cumulative_chars_typed as int,
            time: self.cumulative_time_taken_ms as int,
            success: self.success_count as int,
            failure: self.failure_count as int,
        }
    }
}

/// Words per minute, with one "word" counted as five characters: zero while
/// no time has been recorded, otherwise characters divided by five, per
/// recorded minute, capped at the largest representable value.
pub open spec fn spec_words_per_minute(a: AnalyticsModel) -> int {
    if a.time == 0 {
        0
    } else {
        let w = (a.chars * 12000) / a.time;
        if w > u32::MAX {
            u32::MAX as int
        } else {
            w
        }
    }
}

/// Accuracy as a whole percentage: zero while nothing has succeeded,
/// otherwise one hundred times the successes over all scored attempts.
pub open spec fn spec_accuracy_percentage(a: AnalyticsModel) -> int {
    if a.success == 0 {
        0
    } else {
        (a.success * 100) / (a.success + a.failure)
    }
}

impl Analytics {
    /// Fresh counters, all zero.
    pub fn new() -> (a: Analytics)
        ensures
            a@.chars == 0,
            a@.time == 0,
            a@.success == 0,
            a@.failure == 0,
    {
        Analytics {
            cumulative_chars_typed: 0,
            cumulative_time_taken_ms: 0,
            success_count: 0,
            failure_count: 0,
        }
    }

    /// Words per minute, as `spec_words_per_minute` says.
    pub fn words_per_minute(&self) -> (wpm: u32)
        ensures
            wpm == spec_words_per_minute(self@),
    {
        if self.cumulative_time_taken_ms == 0 {
            0
        } else {
            let scaled: u128 = (self.cumulative_chars_typed as u128) * 12000;
            let w = scaled / self.cumulative_time_taken_ms;
            if w > u32::MAX as u128 {
                u32::MAX
            } else {
                w as u32
            }
        }
    }

    /// Accuracy as a whole percentage, as `spec_accuracy_percentage` says.
    pub fn accuracy_percentage(&self) -> (p: u32)
        ensures
            p == spec_accuracy_percentage(self@),
    {
        if self.success_count == 0 {
            0
        } else {
            let s = self.success_count as u64;
            let f = self.failure_count as u64;
            let q = s * 100 / (s + f);
            proof {
                vstd::arithmetic::div_mod::lemma_div_is_ordered(
                    s as int * 100,
                    (s + f) as int * 100,
                    (s + f) as int,
                );
                vstd::arithmetic::div_mod::lemma_div_by_multiple(100, (s + f) as int);
            }
            q as u32
        }
    }
}

/// The case-flipped counterpart of an ASCII letter, or the fixed placeholder
/// for anything else: the filler that keeps columns aligned when a space
/// arrives too early.
pub open spec fn spec_flip_case(c: char) -> char {
    if 'a' <= c && c <= 'z' {
        ((c as u8) - 32) as char
    } else if 'A' <= c && c <= 'Z' {
        ((c as u8) + 32) as char
    } else {
        'X'
    }
}

fn flip_case(c: char) -> (r: char)
    ensures
        r == spec_flip_case(c),
{
    if c >= 'a' && c <= 'z' {
        ((c as u8) - 32) as char
    } else if c >= 'A' && c <= 'Z' {
        ((c as u8) + 32) as char
    } else {
        'X'
    }
}

fn words_equal(a: &Word, b: &Word) -> (r: bool)
    ensures
        r == (a@ == b@),
{
    if a.chars.len() != b.chars.len() {
        return false;
    }
    let mut i: usize = 0;
    while i < a.chars.len()
        invariant
            i <= a.chars.len(),
            a.chars.len() == b.chars.len(),
            forall|j: int| 0 <= j < i ==> a@[j] == b@[j],
        decreases a.chars.len() - i,
    {
        if a.chars[i] != b.chars[i] {
            return false;
        }
        i = i + 1;
    }
    proof {
        assert(a@ =~= b@);
    }
    true
}

/// Everything one keystroke changes: the typed page, the cursor, the
/// counters, and the word timer.
pub ghost struct StepOutcome {
    pub copy: Seq<Seq<Seq<char>>>,
    pub cursor: CurPos,
    pub analytics: AnalyticsModel,
    pub timer: Option<u64>,
}

/// What one keystroke does, given the reference page, the typed page, the
/// cursor, the counters, the running word timer (the time its first
/// character was typed, if any) and the present time.
///
/// A backspace deletes from the typed page and steps the cursor back; when
/// that crosses a word boundary, the now-current reference word's length is
/// taken back out of the typed-character count (floored at zero).
///
/// A character while the typed word is still shorter than the reference word
/// is typed in place: the cursor advances, the character lands on the typed
/// page, and the timer starts if it was not running. A space at that point —
/// an early space — is not scored: a case-flipped filler keeps the columns
/// aligned and the timer keeps running. Once the typed word has reached the
/// reference word's length, the next keystroke closes the word: a separator
/// is appended, an exact match counts a success (with the word's characters
/// and, if the timer ran, its time), anything else a failure, and the timer
/// stops either way.
pub open spec fn spec_process_key(
    page: Seq<Seq<Seq<char>>>,
    copy: Seq<Seq<Seq<char>>>,
    cur: CurPos,
    an: AnalyticsModel,
    timer: Option<u64>,
    key: Key,
    now_ms: u64,
) -> StepOutcome {
    match key {
        Key::Backspace => {
            let copy2 = spec_delete(copy);
            let cur2 = spec_prev(page, cur);
            let undone = word_at_or_empty(page, cur2.line, cur2.word).len();
            let an2 = if cur2.word != cur.word {
                AnalyticsModel {
                    chars: if an.chars >= undone {
                        an.chars - undone
                    } else {
                        0
                    },
                    time: an.time,
                    success: an.success,
                    failure: an.failure,
                }
            } else {
                an
            };
            StepOutcome { copy: copy2, cursor: cur2, analytics: an2, timer }
        },
        Key::Char(c) => {
            let ref_word = word_at_or_empty(page, cur.line, cur.word);
            let typed = spec_last_word(copy);
            if c == ' ' || typed.len() == ref_word.len() {
                let cur2 = spec_next(page, cur);
                let moved = cur.chr + 1 > line_len_at(page, cur.line);
                if typed.len() < ref_word.len() {
                    let filler = spec_flip_case(ref_word[typed.len() as int]);
                    StepOutcome {
                        copy: spec_push(copy, filler, false),
                        cursor: cur2,
                        analytics: an,
                        timer,
                    }
                } else {
                    let copy2 = spec_push(copy, ' ', moved);
                    let an2 = if typed == ref_word {
                        AnalyticsModel {
                            chars: an.chars + ref_word.len(),
                            time: an.time + (match timer {
                                Some(start) => now_ms - start,
                                None => 0,
                            }),
                            success: an.success + 1,
                            failure: an.failure,
                        }
                    } else {
                        AnalyticsModel {
                            chars: an.chars,
                            time: an.time,
                            success: an.success,
                            failure: an.failure + 1,
                        }
                    };
                    StepOutcome { copy: copy2, cursor: cur2, analytics: an2, timer: None }
                }
            } else {
                let timer2 = match timer {
                    Some(start) => Some(start),
                    None => Some(now_ms),
                };
                StepOutcome {
                    copy: spec_push(copy, c, false),
                    cursor: spec_next(page, cur),
                    analytics: an,
                    timer: timer2,
                }
            }
        },
    }
}

/// Applies one keystroke to the session: the typed page, the cursor, the
/// counters and the timer all change exactly as `spec_process_key` says.
/// The bounds required are machine limits: index and counter arithmetic must
/// fit the machine word, and a running timer cannot start in the future.
pub fn process_key(
    page: &Page,
    copy: &mut Page,
    key: Key,
    cursor: &mut Cursor,
    analytics: &mut Analytics,
    timer: &mut Option<u64>,
    now_ms: u64,
)
    requires
        old(cursor).current_char < usize::MAX,
        old(cursor).current_line + 1 + crate::cursor::WINDOW_MARGIN <= usize::MAX,
        old(cursor).window.size + old(cursor).window.start_line <= usize::MAX,
        old(cursor).window.start_line + crate::cursor::WINDOW_MARGIN <= usize::MAX,
        line_len_at(page@, old(cursor).current_line as int) < usize::MAX,
        line_len_at(page@, old(cursor).current_line + 1) < usize::MAX,
        old(cursor).current_line > 0 ==> line_len_at(page@, old(cursor).current_line - 1)
            < usize::MAX,
        old(analytics).cumulative_chars_typed + word_at_or_empty(
            page@,
            old(cursor).current_line as int,
            old(cursor).current_word as int,
        ).len() <= usize::MAX,
        old(analytics).success_count < u32::MAX,
        old(analytics).failure_count < u32::MAX,
        (match *old(timer) {
            Some(start) => start <= now_ms && old(analytics).cumulative_time_taken_ms + (now_ms
                - start) <= u128::MAX,
            None => true,
        }),
    ensures
        ({
            let step = spec_process_key(
                page@,
                old(copy)@,
                old(cursor)@,
                old(analytics)@,
                *old(timer),
                key,
                now_ms,
            );
            final(copy)@ == step.copy && final(cursor)@ == step.cursor && final(analytics)@
                == step.analytics && *final(timer) == step.timer
        }),
{
    match key {
        Key::Backspace => {
            copy.delete();
            let word_before = cursor.current_word;
            cursor.prev_char(page);
            if cursor.current_word != word_before {
                let undone = cursor.current_word_or_default(page);
                let n = undone.chars.len();
                if analytics.cumulative_chars_typed >= n {
                    analytics.cumulative_chars_typed = analytics.cumulative_chars_typed - n;
                } else {
                    analytics.cumulative_chars_typed = 0;
                }
            }
        },
        Key::Char(c) => {
            let ref_word = cursor.current_word_or_default(page);
            let typed = copy.last_word_or_default();
            if c == ' ' || typed.chars.len() == ref_word.chars.len() {
                let is_short = typed.chars.len() < ref_word.chars.len();
                let new_line = cursor.next_char(page);
                if is_short {
                    let expected = ref_word.chars[typed.chars.len()];
                    let filler = flip_case(expected);
                    copy.push(filler, false);
                } else {
                    copy.push(' ', new_line);
                    if words_equal(&typed, &ref_word) {
                        analytics.cumulative_chars_typed = analytics.cumulative_chars_typed
                            + ref_word.chars.len();
                        analytics.success_count = analytics.success_count + 1;
                        match *timer {
                            Some(start) => {
                                analytics.cumulative_time_taken_ms =
                                    analytics.cumulative_time_taken_ms + ((now_ms - start)
                                    as u128);
                            },
                            None => {},
                        }
                    } else {
                        analytics.failure_count = analytics.failure_count + 1;
                    }
                    *timer = None;
                }
            } else {
                cursor.next_char(page);
                copy.push(c, false);
                if timer.is_none() {
                    *timer = Some(now_ms);
                }
            }
        },
    }
}

} // verus!
