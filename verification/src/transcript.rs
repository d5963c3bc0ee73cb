//! What the transcript area of the terminal UI shows: how the area is
//! split between results and the LLM answer, which results are listed, and
//! which page of the answer is visible.
//!
//! Drawing the widgets belongs to the caller.
use vstd::prelude::*;
use crate::text::{chars_of, concat2, has_substring, join, lines_of, occurs_at, string_of};
use crate::overlap::{rows, split_lines, join_lines};
use crate::tui::LlmState;

verus! {

/// Rows of the LLM answer area for each answer state.
pub open spec fn answer_rows(s: LlmState) -> u16 {
    match s {
        LlmState::Loading => 2,
        LlmState::Done | LlmState::Error => 5,
        LlmState::Idle => 0,
    }
}

/// How the transcript area is divided.
#[derive(Clone, Copy, Debug, PartialEq, Eq, Structural)]
pub struct TranscriptLayout {
    /// Rows of the results list.
    pub results_height: u16,
    /// Whether the results list is drawn.
    pub show_results: bool,
    /// How many results are listed.
    pub result_items: usize,
    /// Index of the first listed result.
    pub first_result: usize,
    /// Whether the answer area is drawn.
    pub show_answer: bool,
    /// Rows of the answer area.
    pub answer_height: u16,
    /// Columns of the answer area.
    pub answer_width: u16,
}

/// `a - b`, or 0 when `b` is larger.
pub open spec fn sat_sub(a: int, b: int) -> int {
    if a >= b { a - b } else { 0 }
}

/// The smaller of two integers.
pub open spec fn min_int(a: int, b: int) -> int {
    if a <= b { a } else { b }
}

/// The layout of an area `width` x `height` for an answer in state `s`
/// with result `selected` selected.
pub open spec fn layout_of(width: u16, height: u16, s: LlmState, selected: usize) -> TranscriptLayout {
    let llm = answer_rows(s);
    let results_h = sat_sub(height as int, 1 + llm) as u16;
    let show_results = results_h > 2;
    let items = min_int(sat_sub(results_h as int, 4), 5) as usize;
    let remaining = sat_sub(height as int, results_h + 1);
    let show_answer = llm > 0 && remaining >= 2;
    TranscriptLayout {
        results_height: results_h,
        show_results,
        result_items: if show_results { items } else { 0 },
        first_result: if show_results { sat_sub(selected as int, items as int) as usize } else { 0 },
        show_answer,
        answer_height: if show_answer { min_int(llm as int, remaining) as u16 } else { 0 },
        answer_width: if show_answer { min_int(width as int, 80) as u16 } else { 0 },
    }
}

/// Divides the transcript area: the answer takes 2 rows while loading and
/// 5 once done, one row separates it from the results, which list at most
/// 5 entries ending at the selected one.
pub fn transcript_layout(width: u16, height: u16, s: LlmState, selected: usize) -> (l: TranscriptLayout)
    ensures
        l == layout_of(width, height, s, selected),
{
    let llm: u16 = match s {
        LlmState::Loading => 2,
        LlmState::Done | LlmState::Error => 5,
        LlmState::Idle => 0,
    };
    let results_h = height.saturating_sub(1 + llm);
    let show_results = results_h > 2;
    let sub = results_h.saturating_sub(4) as usize;
    let items: usize = if sub < 5 { sub } else { 5 };
    let remaining = height.saturating_sub(results_h + 1);
    let show_answer = llm > 0 && remaining >= 2;
    TranscriptLayout {
        results_height: results_h,
        show_results,
        result_items: if show_results { items } else { 0 },
        first_result: if show_results { selected.saturating_sub(items) } else { 0 },
        show_answer,
        answer_height: if show_answer { if llm < remaining { llm } else { remaining } } else { 0 },
        answer_width: if show_answer { if width < 80 { width } else { 80 } } else { 0 },
    }
}

/// The lines of `text` from `start` on, at most `page` of them.
pub open spec fn page_lines(ls: Seq<Seq<char>>, start: int, page: int) -> Seq<Seq<char>> {
    ls.subrange(start, min_int(start + page, ls.len() as int))
}

/// The visible page of an answer: from line `min(offset, lines)`, `page`
/// lines, with a note when more lies below or above.
pub open spec fn answer_page_of(answer: Seq<char>, offset: usize, page: usize) -> Seq<char> {
    let ls = lines_of(answer);
    let start = min_int(offset as int, ls.len() as int);
    let visible = page_lines(ls, start, page as int);
    let text = if visible.len() == 0 { " (empty answer)"@ } else { join(visible, seq!['\n']) };
    if start + page < ls.len() {
        text + "\n... (scroll down for more)"@
    } else if start > 0 {
        "... (scroll up to see more)\n"@ + text
    } else {
        text
    }
}

proof fn lemma_substring_in_concat(a: Seq<char>, b: Seq<char>, p: Seq<char>)
    requires
        has_substring(a, p),
    ensures
        has_substring(a + b, p),
        has_substring(b + a, p),
{
    let k = choose|k: int| occurs_at(a, p, k);
    assert((a + b).subrange(k, k + p.len()) =~= a.subrange(k, k + p.len()));
    assert(occurs_at(a + b, p, k));
    assert((b + a).subrange(b.len() + k, b.len() + k + p.len()) =~= a.subrange(k, k + p.len()));
    assert(occurs_at(b + a, p, b.len() + k));
}

/// Every answer line from `offset` on, up to `page` of them, is shown on the
/// page; an answer whose lines all fit on the first page is shown whole, its
/// lines joined by newlines.
pub proof fn lemma_answer_page_shows_lines(answer: Seq<char>, offset: usize, page: usize, j: int)
    requires
        offset <= j < offset + page,
        j < lines_of(answer).len(),
    ensures
        has_substring(answer_page_of(answer, offset, page), lines_of(answer)[j]),
        (offset == 0 && lines_of(answer).len() <= page) ==>
            answer_page_of(answer, offset, page) == join(lines_of(answer), seq!['\n']),
{
    let ls = lines_of(answer);
    let start = min_int(offset as int, ls.len() as int);
    assert(start == offset);
    let visible = page_lines(ls, start, page as int);
    assert(visible[j - start] == ls[j]);
    crate::text::lemma_join_holds_each_part(visible, seq!['\n'], j - start);
    let text = join(visible, seq!['\n']);
    lemma_substring_in_concat(text, "\n... (scroll down for more)"@, ls[j]);
    lemma_substring_in_concat(text, "... (scroll up to see more)\n"@, ls[j]);
    if offset == 0 && ls.len() <= page {
        assert(visible =~= ls);
    }
}

/// The visible page of an error: from line `min(offset, lines)`, `page` lines.
pub open spec fn error_page_of(message: Seq<char>, offset: usize, page: usize) -> Seq<char> {
    let ls = lines_of(message);
    let start = min_int(offset as int, ls.len() as int);
    let visible = page_lines(ls, start, page as int);
    if visible.len() == 0 { " (empty)"@ } else { join(visible, seq!['\n']) }
}

/// Lines `[start, start + page)` of `lines`, clipped, joined by newlines.
fn visible_text(lines: &Vec<Vec<char>>, start: usize, page: usize) -> (r: Option<Vec<char>>)
    requires
        start <= lines@.len(),
    ensures
        page_lines(rows(lines@), start as int, page as int).len() == 0 ==> r is None,
        page_lines(rows(lines@), start as int, page as int).len() > 0 ==> (r matches Some(v)
            && v@ == join(page_lines(rows(lines@), start as int, page as int), seq!['\n'])),
{
    let room = lines.len() - start;
    let end = if page < room { start + page } else { lines.len() };
    if start < end {
        let v = join_lines(lines, start, end);
        proof {
            assert(seq!['\n'] =~= crate::overlap::nl());
        }
        Some(v)
    } else {
        None
    }
}

/// The visible page of an LLM answer (see [`answer_page_of`]).
pub fn answer_page(answer: &str, offset: usize, page: usize) -> (r: String)
    ensures
        r@ == answer_page_of(answer@, offset, page),
{
    let chars = chars_of(answer);
    let lines = split_lines(&chars);
    let n = lines.len();
    let start = if offset < n { offset } else { n };
    let text = match visible_text(&lines, start, page) {
        Some(v) => string_of(v.as_slice()),
        None => " (empty answer)".to_owned(),
    };
    if page < n - start {
        concat2(text.as_str(), "\n... (scroll down for more)")
    } else if start > 0 {
        concat2("... (scroll up to see more)\n", text.as_str())
    } else {
        text
    }
}

/// The visible page of an LLM error (see [`error_page_of`]).
pub fn error_page(message: &str, offset: usize, page: usize) -> (r: String)
    ensures
        r@ == error_page_of(message@, offset, page),
{
    let chars = chars_of(message);
    let lines = split_lines(&chars);
    let n = lines.len();
    let start = if offset < n { offset } else { n };
    match visible_text(&lines, start, page) {
        Some(v) => string_of(v.as_slice()),
        None => " (empty)".to_owned(),
    }
}

/// The text shown while the answer streams in.
pub open spec fn streaming_text_of(partial: Seq<char>) -> Seq<char> {
    if partial.len() == 0 { "  LLM is thinking..."@ } else { seq!['\u{258A}', ' '] + partial }
}

/// The text shown while the answer streams in: the partial answer behind a
/// bar, or a note that the model is thinking.
pub fn streaming_text(partial: &str) -> (r: String)
    ensures
        r@ == streaming_text_of(partial@),
{
    let p = chars_of(partial);
    if p.len() == 0 {
        return "  LLM is thinking...".to_owned();
    }
    let mut v: Vec<char> = Vec::new();
    v.push('\u{258A}');
    v.push(' ');
    let mut q = p;
    v.append(&mut q);
    proof {
        assert(v@ =~= seq!['\u{258A}', ' '] + partial@);
    }
    string_of(v.as_slice())
}

/// The error line of the transcript.
pub fn error_line(message: &str) -> (r: String)
    ensures
        r@ == "! "@ + message@,
{
    concat2("! ", message)
}

} // verus!
