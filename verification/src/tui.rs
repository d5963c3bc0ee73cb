//! The terminal UI's state machine: the query editor's key handling, the
//! LLM answer state and navigation through search results.
//!
//! Drawing and reading key events belong to the caller, which hands each
//! key over as a [`Key`].
use vstd::prelude::*;
use crate::text::push_char;

verus! {

/// LLM state tracking (shared between components).
#[derive(Clone, Copy, Debug, PartialEq, Eq, Structural)]
pub enum LlmState {
    Idle,
    Loading,
    /// The answer is stored beside the state.
    Done,
    /// The error is stored beside the state.
    Error,
}

impl Default for LlmState {
    fn default() -> (s: Self)
        ensures
            s == LlmState::Idle,
    {
        LlmState::Idle
    }
}

/// A key press, as the terminal reports it.
#[derive(Clone, Copy, Debug, PartialEq, Eq, Structural)]
pub enum Key {
    Char(char),
    Backspace,
    Enter,
    Esc,
    Tab,
    BackTab,
    Left,
    Right,
    Up,
    Down,
    PageUp,
    PageDown,
    Home,
    End,
    Delete,
    Insert,
    F(u8),
    /// Any other key.
    Other,
}

/// What a key press asks of the application.
#[derive(Clone, Copy, Debug, PartialEq, Eq, Structural)]
pub enum Action {
    Quit,
    Submit,
}

/// Removes the last character of `s` (`String::pop`).
#[verifier::external_body]
fn pop_char(s: &mut String) -> (r: Option<char>)
    ensures
        old(s)@.len() == 0 ==> r is None && final(s)@ == old(s)@,
        old(s)@.len() > 0 ==> r == Some(old(s)@.last()) && final(s)@ == old(s)@.drop_last(),
{
    s.pop()
}

/// The action of `key` and the query after it.
pub open spec fn key_effect(key: Key, query: Seq<char>) -> (Option<Action>, Seq<char>) {
    match key {
        Key::Char(c) => if c == 'q' || c == 'Q' {
            (Some(Action::Quit), query)
        } else {
            (None, query.push(c))
        },
        Key::Backspace => (None, if query.len() > 0 { query.drop_last() } else { query }),
        Key::Enter => (Some(Action::Submit), query),
        _ => (None, query),
    }
}

/// Applies a key press to the query being edited: `q`/`Q` quits, Enter
/// submits, other characters are typed and Backspace deletes the last one.
pub fn handle_key(key: Key, query: &mut String) -> (a: Option<Action>)
    ensures
        (a, final(query)@) == key_effect(key, old(query)@),
{
    match key {
        Key::Char(c) => {
            if c == 'q' || c == 'Q' {
                Some(Action::Quit)
            } else {
                push_char(query, c);
                None
            }
        },
        Key::Backspace => {
            pop_char(query);
            None
        },
        Key::Enter => Some(Action::Submit),
        _ => None,
    }
}

/// Phase of the application.
#[derive(Clone, Copy, Debug, PartialEq, Eq, Structural)]
pub enum AppState {
    Idle,
    Searching,
    Results,
}

/// What navigation through the results looks at and changes.
#[derive(Clone, Copy, Debug, PartialEq, Eq, Structural)]
pub struct Navigation {
    /// Number of search results shown.
    pub result_count: usize,
    /// Index of the selected result.
    pub selected_result: usize,
    /// State of the LLM answer.
    pub llm_state: LlmState,
    /// Number of lines of the LLM answer (0 when there is none).
    pub answer_lines: usize,
    /// First line of the LLM answer shown.
    pub llm_scroll_offset: usize,
    /// Phase of the application.
    pub app_state: AppState,
}

/// Results move by this many entries per page.
pub const PAGE_SIZE: usize = 5;

/// The answer scrolls by this many lines per page.
pub const SCROLL_STEP: usize = 3;

/// `n - 1`, or 0 when `n` is 0.
pub open spec fn pred_or_zero(n: nat) -> nat {
    if n > 0 { (n - 1) as nat } else { 0 }
}

/// The answer area scrolls when there are results and the answer is final.
pub open spec fn answer_scrolls(n: Navigation) -> bool {
    n.result_count > 0 && (n.llm_state == LlmState::Done || n.llm_state == LlmState::Error)
}

/// Navigation after `key`; `None` for Esc, which also empties the results.
pub open spec fn navigated(n: Navigation, key: Key) -> Navigation {
    match key {
        Key::Esc => Navigation {
            result_count: 0,
            selected_result: 0,
            llm_state: LlmState::Idle,
            app_state: AppState::Idle,
            ..n
        },
        Key::PageUp | Key::BackTab => Navigation {
            selected_result: if n.selected_result > PAGE_SIZE { (n.selected_result - PAGE_SIZE) as usize } else { 0 },
            llm_scroll_offset: if answer_scrolls(n) {
                if n.llm_scroll_offset > SCROLL_STEP { (n.llm_scroll_offset - SCROLL_STEP) as usize } else { 0 }
            } else {
                n.llm_scroll_offset
            },
            ..n
        },
        Key::PageDown => {
            let max_idx = pred_or_zero(n.result_count as nat);
            let max_scroll = pred_or_zero(n.answer_lines as nat);
            Navigation {
                selected_result: if n.selected_result + PAGE_SIZE < max_idx {
                    (n.selected_result + PAGE_SIZE) as usize
                } else {
                    max_idx as usize
                },
                llm_scroll_offset: if answer_scrolls(n) {
                    if n.llm_scroll_offset + SCROLL_STEP < max_scroll {
                        (n.llm_scroll_offset + SCROLL_STEP) as usize
                    } else {
                        max_scroll as usize
                    }
                } else {
                    n.llm_scroll_offset
                },
                ..n
            }
        },
        Key::Home => Navigation {
            selected_result: 0,
            llm_scroll_offset: if answer_scrolls(n) { 0 } else { n.llm_scroll_offset },
            ..n
        },
        Key::End => Navigation {
            selected_result: pred_or_zero(n.result_count as nat) as usize,
            llm_scroll_offset: if answer_scrolls(n) { pred_or_zero(n.answer_lines as nat) as usize } else { n.llm_scroll_offset },
            ..n
        },
        Key::Up => Navigation {
            selected_result: if n.selected_result > 0 { (n.selected_result - 1) as usize } else { 0 },
            ..n
        },
        Key::Down => Navigation {
            selected_result: if n.selected_result < pred_or_zero(n.result_count as nat) {
                (n.selected_result + 1) as usize
            } else {
                n.selected_result
            },
            ..n
        },
        _ => n,
    }
}

/// Moves through the results and the answer for a navigation key (Up and
/// Down move by one, PageUp/PageDown by a page, Home/End to either end,
/// the answer pane too once an answer or error is shown);
/// Esc clears the results and returns to the idle state.
pub fn navigate(n: Navigation, key: Key) -> (r: Navigation)
    ensures
        r == navigated(n, key),
{
    match key {
        Key::Esc => Navigation {
            result_count: 0,
            selected_result: 0,
            llm_state: LlmState::Idle,
            app_state: AppState::Idle,
            ..n
        },
        Key::PageUp | Key::BackTab => {
            let selected_result = if n.selected_result > PAGE_SIZE { n.selected_result - PAGE_SIZE } else { 0 };
            let scrolls = n.result_count > 0 && (n.llm_state == LlmState::Done || n.llm_state == LlmState::Error);
            let llm_scroll_offset = if scrolls {
                if n.llm_scroll_offset > SCROLL_STEP { n.llm_scroll_offset - SCROLL_STEP } else { 0 }
            } else {
                n.llm_scroll_offset
            };
            Navigation { selected_result, llm_scroll_offset, ..n }
        },
        Key::PageDown => {
            let max_idx = n.result_count.saturating_sub(1);
            let max_scroll = n.answer_lines.saturating_sub(1);
            let selected_result = if n.selected_result.saturating_add(PAGE_SIZE) < max_idx {
                n.selected_result + PAGE_SIZE
            } else {
                max_idx
            };
            let scrolls = n.result_count > 0 && (n.llm_state == LlmState::Done || n.llm_state == LlmState::Error);
            let llm_scroll_offset = if scrolls {
                if n.llm_scroll_offset.saturating_add(SCROLL_STEP) < max_scroll {
                    n.llm_scroll_offset + SCROLL_STEP
                } else {
                    max_scroll
                }
            } else {
                n.llm_scroll_offset
            };
            Navigation { selected_result, llm_scroll_offset, ..n }
        },
        Key::Home => {
            let scrolls = n.result_count > 0 && (n.llm_state == LlmState::Done || n.llm_state == LlmState::Error);
            Navigation { selected_result: 0, llm_scroll_offset: if scrolls { 0 } else { n.llm_scroll_offset }, ..n }
        },
        Key::End => {
            let scrolls = n.result_count > 0 && (n.llm_state == LlmState::Done || n.llm_state == LlmState::Error);
            let llm_scroll_offset = if scrolls { n.answer_lines.saturating_sub(1) } else { n.llm_scroll_offset };
            Navigation { selected_result: n.result_count.saturating_sub(1), llm_scroll_offset, ..n }
        },
        Key::Up => Navigation {
            selected_result: if n.selected_result > 0 { n.selected_result - 1 } else { 0 },
            ..n
        },
        Key::Down => Navigation {
            selected_result: if n.selected_result < n.result_count.saturating_sub(1) {
                n.selected_result + 1
            } else {
                n.selected_result
            },
            ..n
        },
        _ => n,
    }
}

/// Whatever key is pressed, the selected result stays within the results.
pub proof fn lemma_selection_in_range(n: Navigation, key: Key)
    requires
        n.result_count == 0 ==> n.selected_result == 0,
        n.result_count > 0 ==> n.selected_result < n.result_count,
    ensures
        navigated(n, key).result_count == 0 ==> navigated(n, key).selected_result == 0,
        navigated(n, key).result_count > 0 ==> navigated(n, key).selected_result < navigated(n, key).result_count,
{
}

/// Typing a character other than `q` or `Q` and then Backspace gives the query back.
pub proof fn lemma_type_then_erase(c: char, query: Seq<char>)
    requires
        c != 'q' && c != 'Q',
    ensures
        key_effect(Key::Backspace, key_effect(Key::Char(c), query).1).1 == query,
{
    assert(query.push(c).drop_last() =~= query);
}

/// A message from the task that streams the LLM answer.
#[derive(Debug)]
pub enum LlmEvent {
    /// A piece of the answer.
    Chunk(String),
    /// The answer is complete.
    Done,
    /// The call failed with this message.
    Failed(String),
}

/// The answer as the UI holds it.
#[derive(Debug)]
pub struct AnswerState {
    /// State of the answer.
    pub llm_state: LlmState,
    /// The final answer or error text.
    pub llm_answer: Option<String>,
    /// The text received so far.
    pub partial: String,
}

/// The answer after an event: pieces accumulate; when done, a non-empty
/// accumulated text becomes the answer; a failure shows `LLM Error: ...`.
pub open spec fn after_event(llm_state: LlmState, answer: Option<Seq<char>>, partial: Seq<char>, e: LlmEvent)
    -> (LlmState, Option<Seq<char>>, Seq<char>) {
    match e {
        LlmEvent::Chunk(c) => (llm_state, answer, partial + c@),
        LlmEvent::Done => if partial.len() > 0 {
            (LlmState::Done, Some(partial), seq![])
        } else {
            (llm_state, answer, seq![])
        },
        LlmEvent::Failed(m) => (LlmState::Error, Some("LLM Error: "@ + m@), partial),
    }
}

/// The answer as plain values.
pub open spec fn answer_view(a: AnswerState) -> (LlmState, Option<Seq<char>>, Seq<char>) {
    (a.llm_state, match a.llm_answer { Some(s) => Some(s@), None => None }, a.partial@)
}

/// Applies an event of the answer stream.
pub fn apply_llm_event(a: &mut AnswerState, e: LlmEvent)
    ensures
        answer_view(*final(a)) == after_event(old(a).llm_state,
            match old(a).llm_answer { Some(s) => Some(s@), None => None }, old(a).partial@, e),
{
    match e {
        LlmEvent::Chunk(c) => {
            a.partial = crate::text::concat2(a.partial.as_str(), c.as_str());
        },
        LlmEvent::Done => {
            if crate::text::chars_of(a.partial.as_str()).len() > 0 {
                a.llm_answer = Some(a.partial.clone());
                a.llm_state = LlmState::Done;
            }
            a.partial = String::new();
        },
        LlmEvent::Failed(m) => {
            a.llm_state = LlmState::Error;
            a.llm_answer = Some(crate::text::concat2("LLM Error: ", m.as_str()));
        },
    }
}

} // verus!
