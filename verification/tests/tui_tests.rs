use rust_rag::tui::{handle_key, navigate, Action, AppState, Key, LlmState, Navigation};

#[test]
fn test_ui_module_is_public() {
    let _idle: LlmState = LlmState::Idle;
    let _loading = LlmState::Loading;
    let _done = LlmState::Done;
    let _error = LlmState::Error;
}

#[test]
#[allow(unused_assignments)]
fn test_llmstate_can_transition_idle_to_loading() {
    let mut state = LlmState::Idle;
    assert!(matches!(state, LlmState::Idle));

    state = LlmState::Loading;
    assert!(matches!(state, LlmState::Loading));
}

#[test]
#[allow(unused_assignments)]
fn test_llmstate_can_transition_loading_to_done() {
    let mut state = LlmState::Loading;
    state = LlmState::Done;
    assert!(matches!(state, LlmState::Done));
}

#[test]
#[allow(unused_assignments)]
fn test_llmstate_can_transition_loading_to_error() {
    let mut state = LlmState::Loading;
    state = LlmState::Error;
    assert!(matches!(state, LlmState::Error));
}

#[test]
fn test_llmstate_default_is_idle_via_trait() {
    let default_state: LlmState = Default::default();
    assert!(matches!(default_state, LlmState::Idle));
}

#[test]
fn test_llmstate_all_variants_are_distinct() {
    let idle = LlmState::Idle;
    let loading = LlmState::Loading;
    let done = LlmState::Done;
    let error = LlmState::Error;

    assert_ne!(idle, loading);
    assert_ne!(idle, done);
    assert_ne!(idle, error);
    assert_ne!(loading, done);
    assert_ne!(loading, error);
    assert_ne!(done, error);
}

#[test]
fn test_all_llm_state_variants_accessible() {
    let states = vec![LlmState::Idle, LlmState::Loading, LlmState::Done, LlmState::Error];
    assert_eq!(states.len(), 4);
    for state in &states {
        let _cloned = state.clone();
    }
}

#[test]
fn test_lowercase_q_returns_quit() {
    let mut query = String::new();
    let result = handle_key(Key::Char('q'), &mut query);
    assert_eq!(result, Some(Action::Quit));
}

#[test]
#[allow(non_snake_case)]
fn test_uppercase_Q_returns_quit() {
    let mut query = String::new();
    let result = handle_key(Key::Char('Q'), &mut query);
    assert_eq!(result, Some(Action::Quit));
}

#[test]
fn test_q_does_not_modify_query() {
    let mut query = "hello".to_string();
    handle_key(Key::Char('q'), &mut query);
    assert_eq!(query, "hello");
}

#[test]
fn test_enter_returns_submit() {
    let mut query = String::new();
    let result = handle_key(Key::Enter, &mut query);
    assert_eq!(result, Some(Action::Submit));
}

#[test]
fn test_lowercase_char_pushes_to_query() {
    let mut query = String::new();
    handle_key(Key::Char('a'), &mut query);
    assert_eq!(query, "a");
}

#[test]
fn test_backspace_removes_last_char() {
    let mut query = "abc".to_string();
    let result = handle_key(Key::Backspace, &mut query);
    assert_eq!(query, "ab");
    assert_eq!(result, None);
}

#[test]
fn test_backspace_on_empty_query_does_not_panic() {
    let mut query = String::new();
    handle_key(Key::Backspace, &mut query);
    assert_eq!(query, "");
}

#[test]
fn test_unicode_char_pushes_to_query() {
    let mut query = String::new();
    handle_key(Key::Char('é'), &mut query);
    handle_key(Key::Char('日'), &mut query);
    assert_eq!(query, "é日");
}

#[test]
fn test_type_and_backspace_cycle() {
    let mut query = String::new();
    handle_key(Key::Char('h'), &mut query);
    handle_key(Key::Char('i'), &mut query);
    handle_key(Key::Backspace, &mut query);
    assert_eq!(query, "h");
}

#[test]
fn test_tab_key_noop() {
    let mut query = "x".to_string();
    assert_eq!(handle_key(Key::Tab, &mut query), None);
    assert_eq!(query, "x");
}

fn nav(count: usize, selected: usize) -> Navigation {
    Navigation {
        result_count: count,
        selected_result: selected,
        llm_state: LlmState::Done,
        answer_lines: 10,
        llm_scroll_offset: 0,
        app_state: AppState::Results,
    }
}

#[test]
fn test_page_down_increments_selected_result() {
    let n = navigate(nav(20, 0), Key::PageDown);
    assert_eq!(n.selected_result, 5);
    assert_eq!(n.llm_scroll_offset, 3);
}

#[test]
fn test_page_down_clamps_to_last_result() {
    let n = navigate(nav(3, 0), Key::PageDown);
    assert_eq!(n.selected_result, 2);
}

#[test]
fn test_home_resets_to_zero() {
    let n = navigate(nav(20, 7), Key::Home);
    assert_eq!(n.selected_result, 0);
}

#[test]
fn test_end_jumps_to_last_item() {
    let n = navigate(nav(20, 0), Key::End);
    assert_eq!(n.selected_result, 19);
}

#[test]
fn test_esc_clears_results() {
    let n = navigate(nav(20, 4), Key::Esc);
    assert_eq!(n.result_count, 0);
    assert_eq!(n.selected_result, 0);
    assert_eq!(n.llm_state, LlmState::Idle);
    assert_eq!(n.app_state, AppState::Idle);
}

#[test]
fn test_page_up_moves_back_a_page() {
    let mut start = nav(20, 12);
    start.llm_scroll_offset = 7;
    let n = navigate(start, Key::PageUp);
    assert_eq!(n.selected_result, 7);
    assert_eq!(n.llm_scroll_offset, 4);
}

#[test]
fn test_home_and_end_scroll_the_answer_pane() {
    let mut start = nav(20, 7);
    start.llm_scroll_offset = 6;
    let n = navigate(start, Key::Home);
    assert_eq!((n.selected_result, n.llm_scroll_offset), (0, 0));
    let n = navigate(nav(20, 0), Key::End);
    assert_eq!((n.selected_result, n.llm_scroll_offset), (19, 9));
    let mut idle = nav(20, 0);
    idle.llm_state = LlmState::Idle;
    idle.llm_scroll_offset = 2;
    assert_eq!(navigate(idle, Key::End).llm_scroll_offset, 2);
}
