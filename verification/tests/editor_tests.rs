use rust_rag::tui::{handle_key, Action, AppState, Key, LlmState};

#[test]
fn test_enter_does_not_modify_query() {
    let mut query = "search term".to_string();
    handle_key(Key::Enter, &mut query);
    assert_eq!(query, "search term");
}

#[test]
fn test_uppercase_char_pushes_to_query() {
    let mut query = String::new();
    let result = handle_key(Key::Char('Z'), &mut query);
    assert_eq!(result, None);
    assert_eq!(query, "Z");
}

#[test]
fn test_digit_char_pushes_to_query() {
    let mut query = String::new();
    let result = handle_key(Key::Char('4'), &mut query);
    assert_eq!(result, None);
    assert_eq!(query, "4");
}

#[test]
fn test_space_char_pushes_to_query() {
    let mut query = String::new();
    let result = handle_key(Key::Char(' '), &mut query);
    assert_eq!(result, None);
    assert_eq!(query, " ");
}

#[test]
fn test_special_chars_pushed_to_query() {
    let mut query = String::new();
    for ch in ['.', '/', '-', '_', ':', '=', '+', '@', '#'] {
        handle_key(Key::Char(ch), &mut query);
    }
    assert_eq!(query, "./-_:=+@#");
}

#[test]
fn test_multiple_chars_appended() {
    let mut query = String::new();
    for c in ['h', 'e', 'l', 'l', 'o'] {
        handle_key(Key::Char(c), &mut query);
    }
    assert_eq!(query, "hello");
}

#[test]
fn test_char_action_is_none() {
    let mut query = String::new();
    let result = handle_key(Key::Char('x'), &mut query);
    assert!(result.is_none());
}

#[test]
fn test_backspace_multiple_times() {
    let mut query = "abcd".to_string();
    handle_key(Key::Backspace, &mut query);
    handle_key(Key::Backspace, &mut query);
    handle_key(Key::Backspace, &mut query);
    assert_eq!(query, "a");
}

#[test]
fn test_backspace_action_is_none() {
    let mut query = "x".to_string();
    let result = handle_key(Key::Backspace, &mut query);
    assert!(result.is_none());
}

#[test]
fn test_unknown_key_returns_none() {
    let mut query = String::new();
    let result = handle_key(Key::F(1), &mut query);
    assert!(result.is_none());
}

#[test]
fn test_left_arrow_key_noop() {
    let mut query = String::new();
    let result = handle_key(Key::Left, &mut query);
    assert!(result.is_none());
    assert!(query.is_empty());
}

#[test]
fn test_right_arrow_key_noop() {
    let mut query = String::new();
    let result = handle_key(Key::Right, &mut query);
    assert!(result.is_none());
    assert!(query.is_empty());
}

#[test]
fn test_up_arrow_key_noop() {
    let mut query = String::new();
    let result = handle_key(Key::Up, &mut query);
    assert!(result.is_none());
    assert!(query.is_empty());
}

#[test]
fn test_down_arrow_key_noop() {
    let mut query = String::new();
    let result = handle_key(Key::Down, &mut query);
    assert!(result.is_none());
    assert!(query.is_empty());
}

#[test]
fn test_esc_key_noop_at_editor_level() {
    let mut query = "partial".to_string();
    let result = handle_key(Key::Esc, &mut query);
    assert!(result.is_none());
}

#[test]
fn test_page_down_noop() {
    let mut query = String::new();
    let result = handle_key(Key::PageDown, &mut query);
    assert!(result.is_none());
}

#[test]
fn test_home_key_noop() {
    let mut query = "text".to_string();
    let result = handle_key(Key::Home, &mut query);
    assert_eq!(result, None);
    assert_eq!(query, "text");
}

#[test]
fn test_end_key_noop() {
    let mut query = "text".to_string();
    let result = handle_key(Key::End, &mut query);
    assert_eq!(result, None);
    assert_eq!(query, "text");
}

#[test]
fn test_type_enter_submit() {
    let mut query = String::new();
    handle_key(Key::Char('w'), &mut query);
    handle_key(Key::Char('h'), &mut query);
    assert_eq!(query, "wh");
    let result = handle_key(Key::Enter, &mut query);
    assert_eq!(result, Some(Action::Submit));
}

#[test]
fn test_type_q_quit() {
    let mut query = String::new();
    handle_key(Key::Char('w'), &mut query);
    let result = handle_key(Key::Char('q'), &mut query);
    assert_eq!(result, Some(Action::Quit));
    assert_eq!(query, "w");
}

#[test]
fn test_action_debug() {
    let quit = format!("{:?}", Action::Quit);
    let submit = format!("{:?}", Action::Submit);
    assert!(quit.contains("Quit"));
    assert!(submit.contains("Submit"));
}

#[test]
fn test_handle_key_with_long_query() {
    let mut query = String::new();
    for i in 0..200u8 {
        let c = char::from(49 + (i % 75));
        handle_key(Key::Char(c), &mut query);
    }
    assert!(query.len() >= 190);
}

#[test]
fn test_alternative_input_noop() {
    let mut query = String::new();
    let result = handle_key(Key::F(2), &mut query);
    assert!(result.is_none());
}

#[test]
fn test_f_keys_are_noops() {
    let mut query = String::new();
    for f_key in [
        Key::F(1),
        Key::F(2),
        Key::F(12),
    ] {
        let result = handle_key(f_key, &mut query);
        assert!(result.is_none());
        assert!(query.is_empty());
    }
}

#[test]
fn test_delete_key_is_noop() {
    let mut query = "text".to_string();
    let result = handle_key(Key::Delete, &mut query);
    assert_eq!(result, None);
    assert_eq!(query, "text");
}

#[test]
fn test_insert_key_is_noop() {
    let mut query = String::new();
    let result = handle_key(Key::Insert, &mut query);
    assert!(result.is_none());
}

#[test]
fn test_backspace_after_enter_still_works() {
    let mut query = "abc".to_string();
    handle_key(Key::Enter, &mut query);
    assert_eq!(query, "abc");
    handle_key(Key::Backspace, &mut query);
    assert_eq!(query, "ab");
}

#[test]
fn test_q_quit_clears_no_query() {
    let mut query = String::new();
    let result = handle_key(Key::Char('q'), &mut query);
    assert_eq!(result, Some(Action::Quit));
    assert!(query.is_empty());
}

#[test]
fn test_multiple_backspaces_on_single_char() {
    let mut query = "x".to_string();
    handle_key(Key::Backspace, &mut query); // -> ""
    assert_eq!(query, "");
    handle_key(Key::Backspace, &mut query); // still ""
    assert_eq!(query, "");
}

#[test]
fn test_submit_preserves_query_content() {
    let mut query = "find me".to_string();
    let result = handle_key(Key::Enter, &mut query);
    assert_eq!(result, Some(Action::Submit));
    assert_eq!(query, "find me");
}

#[test]
fn test_char_input_with_existing_query() {
    let mut query = "pre".to_string();
    handle_key(Key::Char('f'), &mut query);
    assert_eq!(query, "pref");
}

#[test]
fn test_app_state_idle() {
    let state = AppState::Idle;
    assert!(matches!(state, AppState::Idle));
}

#[test]
fn test_app_state_searching() {
    let state = AppState::Searching;
    assert!(matches!(state, AppState::Searching));
}

#[test]
fn test_app_state_results() {
    let state = AppState::Results;
    assert!(matches!(state, AppState::Results));
}

#[test]
fn test_app_state_clone() {
    let state1 = AppState::Idle;
    let state2 = state1.clone();
    assert_eq!(state1, state2);
}

#[test]
fn test_app_state_partial_eq() {
    assert_eq!(AppState::Idle, AppState::Idle);
    assert_ne!(AppState::Idle, AppState::Searching);
    assert_ne!(AppState::Searching, AppState::Results);
}

#[test]
fn test_app_state_debug() {
    let debug_str = format!("{:?}", AppState::Idle);
    assert!(debug_str.contains("Idle"));
}

#[test]
#[allow(non_snake_case)]
fn test_handle_Q_sets_running_false() {
    let mut query = String::new();
    assert_eq!(handle_key(Key::Char('Q'), &mut query), Some(Action::Quit));
}

#[test]
fn test_key_sequence_type_and_submit() {
    let mut query = String::new();
    for c in "what is rust".chars() {
        handle_key(Key::Char(c), &mut query);
    }
    assert_eq!(query, "what is rust");
    let result = handle_key(Key::Enter, &mut query);
    assert!(matches!(result, Some(Action::Submit)));
}

#[test]
fn test_key_sequence_type_backspace_and_submit() {
    let mut query = String::new();
    for c in "hello".chars() {
        handle_key(Key::Char(c), &mut query);
    }
    assert_eq!(query, "hello");
    handle_key(Key::Backspace, &mut query);
    assert_eq!(query, "hell");
    let result = handle_key(Key::Enter, &mut query);
    assert!(matches!(result, Some(Action::Submit)));
}

#[test]
fn test_key_sequence_q_quit() {
    let mut query = String::new();
    let result = handle_key(Key::Char('q'), &mut query);
    assert!(matches!(result, Some(Action::Quit)));
}

#[test]
fn test_llmstate_reexport_in_app_module() {
    let state: LlmState = LlmState::Idle;
    assert!(matches!(state, LlmState::Idle));
}

#[test]
fn test_reexported_llmstate_done() {
    let state: LlmState = LlmState::Done;
    assert_eq!(state, LlmState::Done);
}

#[test]
fn test_reexported_llmstate_loading() {
    let state: LlmState = LlmState::Loading;
    assert_eq!(state, LlmState::Loading);
}

#[test]
fn test_reexported_llmstate_error() {
    let state: LlmState = LlmState::Error;
    assert_eq!(state, LlmState::Error);
}

#[test]
fn test_editor_handle_key_is_public() {
    let mut query = String::new();
    handle_key(Key::Char('t'), &mut query);
    assert_eq!(query, "t");
    let result = handle_key(Key::Enter, &mut query);
    assert_eq!(result, Some(Action::Submit));
}

#[test]
fn test_editor_action_quit_is_public() {
    let mut query = String::new();
    let result = handle_key(Key::Char('q'), &mut query);
    assert!(matches!(result, Some(Action::Quit)));
}

#[test]
fn test_editor_action_submit_is_public() {
    let mut query = String::new();
    let result = handle_key(Key::Enter, &mut query);
    assert!(matches!(result, Some(Action::Submit)));
}

#[test]
fn test_full_key_press_to_action_flow() {
    let mut query = String::new();
    for ch in ['h', 'e', 'l', 'l', 'o'] {
        handle_key(Key::Char(ch), &mut query);
    }
    assert_eq!(query, "hello");
    let result = handle_key(Key::Enter, &mut query);
    assert_eq!(result, Some(Action::Submit));
    assert_eq!(query, "hello");
    for ch in ['w', 'o', 'r', 'l', 'd'] {
        handle_key(Key::Char(ch), &mut query);
    }
    assert_eq!(query, "helloworld");
    let result = handle_key(Key::Char('q'), &mut query);
    assert_eq!(result, Some(Action::Quit));
}

#[test]
fn test_backspace_then_retype_flow() {
    let mut query = String::new();
    for ch in ['a', 'b', 'c'] {
        handle_key(Key::Char(ch), &mut query);
    }
    assert_eq!(query, "abc");
    handle_key(Key::Backspace, &mut query);
    handle_key(Key::Backspace, &mut query);
    assert_eq!(query, "a");
    handle_key(Key::Char('d'), &mut query);
    assert_eq!(query, "ad");
    let result = handle_key(Key::Enter, &mut query);
    assert_eq!(result, Some(Action::Submit));
}

#[test]
fn test_llmstate_clone() {
    let state = LlmState::Loading;
    let cloned = state.clone();
    assert!(matches!(cloned, LlmState::Loading));
}

#[test]
fn test_llmstate_partial_eq() {
    let idle1 = LlmState::Idle;
    let idle2 = LlmState::Idle;
    let done = LlmState::Done;
    assert_eq!(idle1, idle2);
    assert_ne!(idle1, done);
}

#[test]
fn test_llmstate_default_is_idle() {
    let state: LlmState = Default::default();
    assert!(matches!(state, LlmState::Idle));
}

#[test]
fn test_all_llm_state_variants() {
    let states = vec![LlmState::Idle, LlmState::Loading, LlmState::Done, LlmState::Error];
    assert_eq!(states.len(), 4);
    for state in &states {
        let _cloned = state.clone();
    }
}
