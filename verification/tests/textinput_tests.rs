use acme_native::platform::PlatformKey;
use acme_native::textinput::{handle_key, handle_keyboard_shortcut, handle_text, TextInputState};
use acme_native::textbuf::{next_word_boundary, prev_word_boundary};
// ---- TextInputState: insert ----


#[test]
fn insert_into_empty() {
    let mut s = TextInputState::new();
    assert!(s.insert_char('a'));
    assert_eq!(s.text, "a");
    assert_eq!(s.cursor, 1);
    assert_eq!(s.selection, None);
}


#[test]
fn insert_at_end() {
    let mut s = TextInputState::new();
    s.text = "hi".to_string();
    s.cursor = 2;
    assert!(s.insert_char('!'));
    assert_eq!(s.text, "hi!");
    assert_eq!(s.cursor, 3);
}


#[test]
fn insert_in_middle() {
    let mut s = TextInputState::new();
    s.text = "helo".to_string();
    s.cursor = 3;
    assert!(s.insert_char('l'));
    assert_eq!(s.text, "hello");
    assert_eq!(s.cursor, 4);
}


#[test]
fn insert_replaces_selection() {
    let mut s = TextInputState::new();
    s.text = "hello world".to_string();
    s.cursor = 5;
    s.selection = Some((5, 11)); // select " world"
    assert!(s.insert_char('!'));
    assert_eq!(s.text, "hello!");
    assert_eq!(s.cursor, 6);
    assert_eq!(s.selection, None);
}

// ---- TextInputState: delete ----


#[test]
fn delete_before_empty() {
    let mut s = TextInputState::new();
    assert!(!s.delete_before_cursor());
}


#[test]
fn delete_before_at_start() {
    let mut s = TextInputState::new();
    s.text = "abc".to_string();
    s.cursor = 0;
    assert!(!s.delete_before_cursor());
    assert_eq!(s.text, "abc");
}


#[test]
fn delete_before_single_ascii() {
    let mut s = TextInputState::new();
    s.text = "abc".to_string();
    s.cursor = 1;
    assert!(s.delete_before_cursor());
    assert_eq!(s.text, "bc");
    assert_eq!(s.cursor, 0);
}


#[test]
fn delete_before_grapheme() {
    let mut s = TextInputState::new();
    s.text = "a😊b".to_string();
    s.cursor = 5; // after the emoji (byte offset: 'a'=1, 😊=4, so after 😊 is at 5)
    assert!(s.delete_before_cursor());
    assert_eq!(s.text, "ab");
    assert_eq!(s.cursor, 1);
}


#[test]
fn delete_before_with_selection() {
    let mut s = TextInputState::new();
    s.text = "hello world".to_string();
    s.cursor = 11;
    s.selection = Some((6, 11)); // select "world"
    assert!(s.delete_before_cursor());
    assert_eq!(s.text, "hello ");
    assert_eq!(s.cursor, 6);
    assert_eq!(s.selection, None);
}


#[test]
fn delete_after_at_end() {
    let mut s = TextInputState::new();
    s.text = "abc".to_string();
    s.cursor = 3;
    assert!(!s.delete_after_cursor());
}


#[test]
fn delete_after_single() {
    let mut s = TextInputState::new();
    s.text = "abc".to_string();
    s.cursor = 0;
    assert!(s.delete_after_cursor());
    assert_eq!(s.text, "bc");
    assert_eq!(s.cursor, 0);
}


#[test]
fn delete_after_grapheme() {
    let mut s = TextInputState::new();
    s.text = "a😊b".to_string();
    s.cursor = 0;
    // The 'a' is a single ASCII grapheme (1 byte)
    assert!(s.delete_after_cursor());
    assert_eq!(s.text, "😊b");
    assert_eq!(s.cursor, 0);
}


#[test]
fn delete_after_with_selection() {
    let mut s = TextInputState::new();
    s.text = "hello world".to_string();
    s.cursor = 0;
    s.selection = Some((0, 6)); // select "hello "
    assert!(s.delete_after_cursor());
    assert_eq!(s.text, "world");
    assert_eq!(s.cursor, 0);
    assert_eq!(s.selection, None);
}

// ---- TextInputState: cursor movement ----


#[test]
fn cursor_prev_empty() {
    let mut s = TextInputState::new();
    s.cursor_prev();
    assert_eq!(s.cursor, 0);
}


#[test]
fn cursor_prev_ascii() {
    let mut s = TextInputState::new();
    s.text = "abc".to_string();
    s.cursor = 2;
    s.cursor_prev();
    assert_eq!(s.cursor, 1);
}


#[test]
fn cursor_prev_grapheme() {
    let mut s = TextInputState::new();
    s.text = "a😊b".to_string();
    s.cursor = 5; // after 'a' (1) + 😊 (4) = 5 bytes
    s.cursor_prev();
    assert_eq!(s.cursor, 1); // Before the emoji
    s.cursor_prev();
    assert_eq!(s.cursor, 0);
}


#[test]
fn cursor_next_empty() {
    let mut s = TextInputState::new();
    s.cursor_next();
    assert_eq!(s.cursor, 0);
}


#[test]
fn cursor_next_ascii() {
    let mut s = TextInputState::new();
    s.text = "abc".to_string();
    s.cursor = 0;
    s.cursor_next();
    assert_eq!(s.cursor, 1);
    s.cursor_next();
    assert_eq!(s.cursor, 2);
    s.cursor_next();
    assert_eq!(s.cursor, 3);
    // at end
    s.cursor_next();
    assert_eq!(s.cursor, 3);
}


#[test]
fn cursor_next_grapheme() {
    let mut s = TextInputState::new();
    s.text = "a😊b".to_string();
    s.cursor = 0;
    s.cursor_next();
    assert_eq!(s.cursor, 1); // after 'a'
    s.cursor_next();
    assert_eq!(s.cursor, 5); // after '😊' (1 + 4)
    s.cursor_next();
    assert_eq!(s.cursor, 6); // after 'b'
}


#[test]
fn cursor_home_end() {
    let mut s = TextInputState::new();
    s.text = "hello world".to_string();
    s.cursor = 5;
    s.cursor_home();
    assert_eq!(s.cursor, 0);
    s.cursor_end();
    assert_eq!(s.cursor, 11);
}


#[test]
fn cursor_movement_clears_selection() {
    let mut s = TextInputState::new();
    s.text = "hello".to_string();
    s.cursor = 4;
    s.selection = Some((1, 4));
    s.cursor_prev();
    assert_eq!(s.selection, None);
    // Cursor moves to previous grapheme boundary from 4
    assert_eq!(s.cursor, 3);

    s.text = "hello".to_string();
    s.cursor = 1;
    s.selection = Some((1, 4));
    s.cursor_next();
    assert_eq!(s.selection, None);
    assert_eq!(s.cursor, 2);

    s.text = "hello".to_string();
    s.selection = Some((1, 4));
    s.cursor_home();
    assert_eq!(s.selection, None);

    s.text = "hello".to_string();
    s.selection = Some((1, 4));
    s.cursor_end();
    assert_eq!(s.selection, None);
}

// ---- TextInputState: selection ----


#[test]
fn select_all_empty() {
    let mut s = TextInputState::new();
    s.select_all();
    assert_eq!(s.selection, None);
}


#[test]
fn select_all_nonempty() {
    let mut s = TextInputState::new();
    s.text = "hello".to_string();
    s.select_all();
    assert_eq!(s.selection, Some((0, 5)));
}

// ---- TextInputState: IME preedit/commit/cancel ----


#[test]
fn preedit_set_and_cancel() {
    let mut s = TextInputState::new();
    s.set_preedit("hello", Some((2, 2)));
    assert_eq!(s.preedit, "hello");
    assert_eq!(s.preedit_cursor, Some((2, 2)));

    s.cancel_preedit();
    assert!(s.preedit.is_empty());
    assert_eq!(s.preedit_cursor, None);
}


#[test]
fn preedit_commit_into_empty() {
    let mut s = TextInputState::new();
    s.set_preedit("hello", None);
    s.commit_preedit();
    assert_eq!(s.text, "hello");
    assert_eq!(s.cursor, 5);
    assert!(s.preedit.is_empty());
}


#[test]
fn preedit_commit_in_middle() {
    let mut s = TextInputState::new();
    s.text = "ab".to_string();
    s.cursor = 1;
    s.set_preedit("123", None);
    s.commit_preedit();
    assert_eq!(s.text, "a123b");
    assert_eq!(s.cursor, 4);
}


#[test]
fn preedit_commit_replaces_selection() {
    let mut s = TextInputState::new();
    s.text = "hello world".to_string();
    s.cursor = 11;
    s.selection = Some((6, 11));
    s.set_preedit("there", None);
    s.commit_preedit();
    assert_eq!(s.text, "hello there");
    assert_eq!(s.cursor, 11);
}


#[test]
fn preedit_commit_empty_is_noop() {
    let mut s = TextInputState::new();
    s.text = "hi".to_string();
    s.cursor = 2;
    s.set_preedit("", None);
    s.commit_preedit();
    assert_eq!(s.text, "hi");
    assert_eq!(s.cursor, 2);
}

// ---- TextInputState: password masking ----


#[test]
fn password_masking_empty() {
    let s = TextInputState::new();
    assert_eq!(s.display_text(), "");
}


#[test]
fn password_masking_nonempty() {
    let mut s = TextInputState::new();
    s.password = true;
    s.password_char = '*';
    s.text = "hello".to_string();
    assert_eq!(s.display_text(), "*****");
}


#[test]
fn password_masking_default_char() {
    let mut s = TextInputState::new();
    s.password = true;
    s.text = "secret".to_string();
    let masked = s.display_text();
    assert_eq!(masked.len(), 6 * '•'.len_utf8());
    assert!(masked.chars().all(|c| c == '•'));
}


#[test]
fn password_masking_graphemes() {
    let mut s = TextInputState::new();
    s.password = true;
    s.password_char = '*';
    // Multi-byte characters — count grapheme clusters, not bytes
    s.text = "a😊b".to_string();
    assert_eq!(s.display_text(), "***");
}


#[test]
fn display_text_normal() {
    let mut s = TextInputState::new();
    s.text = "hello".to_string();
    assert_eq!(s.display_text(), "hello");
}

// ---- handle_text ----


#[test]
fn handle_text_inserts_at_cursor() {
    let mut s = TextInputState::new();
    s.text = "ab".to_string();
    s.cursor = 1;
    assert!(handle_text(&mut s, "123"));
    assert_eq!(s.text, "a123b");
    assert_eq!(s.cursor, 4);
}


#[test]
fn handle_text_replaces_selection() {
    let mut s = TextInputState::new();
    s.text = "hello world".to_string();
    s.cursor = 11;
    s.selection = Some((6, 11));
    assert!(handle_text(&mut s, "there"));
    assert_eq!(s.text, "hello there");
    assert_eq!(s.cursor, 11);
    assert_eq!(s.selection, None);
}


#[test]
fn handle_text_empty_is_noop() {
    let mut s = TextInputState::new();
    s.text = "hi".to_string();
    s.cursor = 2;
    assert!(!handle_text(&mut s, ""));
    assert_eq!(s.text, "hi");
}


#[test]
fn handle_text_commits_single_char() {
    let mut s = TextInputState::new();
    assert!(handle_text(&mut s, "x"));
    assert_eq!(s.text, "x");
    assert_eq!(s.cursor, 1);
}

// ---- handle_key ----


#[test]
fn handle_key_escape_blurs() {
    let mut s = TextInputState::new();
    s.focused = true;
    assert!(handle_key(
        &mut s,
        &PlatformKey::Escape,
        true,
        None,
        false,
        false
    ));
    assert!(!s.focused);
}


#[test]
fn handle_key_escape_noop_when_not_focused() {
    let mut s = TextInputState::new();
    s.focused = false;
    assert!(!handle_key(
        &mut s,
        &PlatformKey::Escape,
        true,
        None,
        false,
        false
    ));
}


#[test]
fn handle_key_tab_is_noop() {
    let mut s = TextInputState::new();
    assert!(!handle_key(
        &mut s,
        &PlatformKey::Tab,
        true,
        None,
        false,
        false
    ));
}


#[test]
fn handle_key_enter_is_noop() {
    let mut s = TextInputState::new();
    assert!(!handle_key(
        &mut s,
        &PlatformKey::Enter,
        true,
        None,
        false,
        false
    ));
}


#[test]
fn handle_key_noop_on_release() {
    let mut s = TextInputState::new();
    s.focused = true;
    assert!(!handle_key(
        &mut s,
        &PlatformKey::Escape,
        false,
        None,
        false,
        false
    ));
}

// ---- handle_key: new PlatformKey variants ----


#[test]
fn handle_key_arrow_left_moves_cursor() {
    let mut s = TextInputState::new();
    s.text = "hello".to_string();
    s.cursor = 3;
    s.focused = true;
    assert!(handle_key(
        &mut s,
        &PlatformKey::ArrowLeft,
        true,
        None,
        false,
        false
    ));
    assert_eq!(s.cursor, 2);
}


#[test]
fn handle_key_arrow_left_noop_when_not_focused() {
    let mut s = TextInputState::new();
    s.text = "hello".to_string();
    s.cursor = 3;
    s.focused = false;
    assert!(!handle_key(
        &mut s,
        &PlatformKey::ArrowLeft,
        true,
        None,
        false,
        false
    ));
    assert_eq!(s.cursor, 3);
}


#[test]
fn handle_key_arrow_right_moves_cursor() {
    let mut s = TextInputState::new();
    s.text = "hello".to_string();
    s.cursor = 2;
    s.focused = true;
    assert!(handle_key(
        &mut s,
        &PlatformKey::ArrowRight,
        true,
        None,
        false,
        false
    ));
    assert_eq!(s.cursor, 3);
}


#[test]
fn handle_key_backspace_deletes_before() {
    let mut s = TextInputState::new();
    s.text = "hello".to_string();
    s.cursor = 5;
    s.focused = true;
    assert!(handle_key(
        &mut s,
        &PlatformKey::Backspace,
        true,
        None,
        false,
        false
    ));
    assert_eq!(s.text, "hell");
    assert_eq!(s.cursor, 4);
}


#[test]
fn handle_key_backspace_noop_when_not_focused() {
    let mut s = TextInputState::new();
    s.text = "hello".to_string();
    s.cursor = 5;
    s.focused = false;
    assert!(!handle_key(
        &mut s,
        &PlatformKey::Backspace,
        true,
        None,
        false,
        false
    ));
}


#[test]
fn handle_key_delete_deletes_after() {
    let mut s = TextInputState::new();
    s.text = "hello".to_string();
    s.cursor = 0;
    s.focused = true;
    assert!(handle_key(
        &mut s,
        &PlatformKey::Delete,
        true,
        None,
        false,
        false
    ));
    assert_eq!(s.text, "ello");
    assert_eq!(s.cursor, 0);
}


#[test]
fn handle_key_home_moves_to_start() {
    let mut s = TextInputState::new();
    s.text = "hello".to_string();
    s.cursor = 3;
    s.focused = true;
    assert!(handle_key(
        &mut s,
        &PlatformKey::Home,
        true,
        None,
        false,
        false
    ));
    assert_eq!(s.cursor, 0);
}


#[test]
fn handle_key_end_moves_to_end() {
    let mut s = TextInputState::new();
    s.text = "hello".to_string();
    s.cursor = 0;
    s.focused = true;
    assert!(handle_key(
        &mut s,
        &PlatformKey::End,
        true,
        None,
        false,
        false
    ));
    assert_eq!(s.cursor, 5);
}


#[test]
fn handle_key_navigation_clears_selection() {
    let mut s = TextInputState::new();
    s.text = "hello world".to_string();
    s.cursor = 5;
    s.selection = Some((2, 8));
    s.focused = true;
    handle_key(&mut s, &PlatformKey::ArrowLeft, true, None, false, false);
    assert_eq!(s.selection, None);
}

// ---- handle_keyboard_shortcut ----


#[test]
fn shortcut_ctrl_a_selects_all() {
    let mut s = TextInputState::new();
    s.text = "hello".to_string();
    s.cursor = 2;
    s.focused = true;
    assert!(handle_keyboard_shortcut(&mut s, "a", &mut None));
    assert_eq!(s.selection, Some((0, 5)));
}


#[test]
fn shortcut_ctrl_c_does_not_panic() {
    let mut s = TextInputState::new();
    s.text = "select".to_string();
    s.selection = Some((0, 6));
    s.focused = true;
    // Without a real clipboard, copy should be a no-op that returns true
    assert!(handle_keyboard_shortcut(&mut s, "c", &mut None));
}


#[test]
fn shortcut_ctrl_x_cuts_selection() {
    let mut s = TextInputState::new();
    s.text = "cut me".to_string();
    s.cursor = 6;
    s.selection = Some((0, 6));
    s.focused = true;
    assert!(handle_keyboard_shortcut(&mut s, "x", &mut None));
    assert!(s.text.is_empty());
    assert_eq!(s.cursor, 0);
}


#[test]
fn shortcut_ctrl_v_noop_without_clipboard() {
    let mut s = TextInputState::new();
    s.text = "hello ".to_string();
    s.cursor = 6;
    s.focused = true;
    // Without clipboard, paste is a no-op that returns true
    assert!(handle_keyboard_shortcut(&mut s, "v", &mut None));
}


#[test]
fn shortcut_ctrl_a_noop_when_not_focused() {
    let mut s = TextInputState::new();
    s.text = "hello".to_string();
    s.focused = false;
    assert!(!handle_keyboard_shortcut(&mut s, "a", &mut None));
}


#[test]
fn shortcut_unknown_key_is_noop() {
    let mut s = TextInputState::new();
    s.text = "hello".to_string();
    s.focused = true;
    assert!(!handle_keyboard_shortcut(&mut s, "z", &mut None));
}

// ---- Clipboard integration test ----
// Tests clipboard read/write through state manipulation directly,
// since the full clipboard keyboard shortcuts require PlatformKey
// extension for Ctrl+C/V/X.


#[test]
fn copy_via_text_access() {
    // Simulate Ctrl+C: read from state.text using selection
    let mut s = TextInputState::new();
    s.text = "select me".to_string();
    s.selection = Some((0, 9));
    let copied = if let Some((start, end)) = s.selection {
        if start < s.text.len() && end <= s.text.len() {
            Some(s.text[start..end].to_string())
        } else {
            None
        }
    } else {
        None
    };
    assert_eq!(copied.as_deref(), Some("select me"));
}


#[test]
fn cut_via_text_access() {
    // Simulate Ctrl+X: read selection, then delete it
    let mut s = TextInputState::new();
    s.text = "select me".to_string();
    s.cursor = 9;
    s.selection = Some((0, 9));
    let cut = if let Some((start, end)) = s.selection {
        if start < s.text.len() && end <= s.text.len() {
            let t = s.text[start..end].to_string();
            s.text.drain(start..end);
            s.cursor = start;
            s.selection = None;
            Some(t)
        } else {
            None
        }
    } else {
        None
    };
    assert_eq!(cut.as_deref(), Some("select me"));
    assert!(s.text.is_empty());
    assert_eq!(s.cursor, 0);
}


#[test]
fn paste_via_text_handle() {
    // Simulate Ctrl+V: insert clipboard content via handle_text
    let mut s = TextInputState::new();
    s.text = "hello ".to_string();
    s.cursor = 6;
    let clipboard_content = "world";
    handle_text(&mut s, clipboard_content);
    assert_eq!(s.text, "hello world");
    assert_eq!(s.cursor, 11);
}

// ---- New: accessors ----


#[test]
fn accessors_return_expected_values() {
    let mut s = TextInputState::new();
    assert_eq!(s.cursor(), 0);
    assert_eq!(s.selection(), None);
    assert!(!s.has_selection());

    s.text = "hello".to_string();
    s.cursor = 3;
    assert_eq!(s.cursor(), 3);

    s.selection = Some((1, 4));
    assert_eq!(s.selection(), Some((1, 4)));
    assert!(s.has_selection());
}

// ---- New: readonly guard ----


#[test]
fn readonly_prevents_insert_char() {
    let mut s = TextInputState::new();
    s.text = "abc".to_string();
    s.cursor = 1;
    s.readonly = true;
    assert!(!s.insert_char('x'));
    assert_eq!(s.text, "abc");
}


#[test]
fn readonly_prevents_delete_before() {
    let mut s = TextInputState::new();
    s.text = "abc".to_string();
    s.cursor = 2;
    s.readonly = true;
    assert!(!s.delete_before_cursor());
    assert_eq!(s.text, "abc");
}


#[test]
fn readonly_prevents_delete_after() {
    let mut s = TextInputState::new();
    s.text = "abc".to_string();
    s.cursor = 1;
    s.readonly = true;
    assert!(!s.delete_after_cursor());
    assert_eq!(s.text, "abc");
}


#[test]
fn readonly_prevents_handle_text() {
    let mut s = TextInputState::new();
    s.text = "abc".to_string();
    s.cursor = 1;
    s.readonly = true;
    assert!(!handle_text(&mut s, "xyz"));
    assert_eq!(s.text, "abc");
}


#[test]
fn readonly_prevents_commit_preedit() {
    let mut s = TextInputState::new();
    s.text = "abc".to_string();
    s.cursor = 1;
    s.readonly = true;
    s.set_preedit("xyz", None);
    s.commit_preedit();
    assert_eq!(s.text, "abc");
}


#[test]
fn readonly_prevents_keyboard_cut() {
    let mut s = TextInputState::new();
    s.text = "hello".to_string();
    s.cursor = 5;
    s.selection = Some((0, 5));
    s.focused = true;
    s.readonly = true;
    // Cut returns false when readonly because the mutation is rejected
    assert!(!handle_keyboard_shortcut(&mut s, "x", &mut None));
    assert_eq!(s.text, "hello");
}

// ---- New: undo / redo ----


#[test]
fn undo_redo_basic() {
    let mut s = TextInputState::new();
    s.insert_char('a');
    s.insert_char('b');
    s.insert_char('c');
    assert_eq!(s.text, "abc");
    assert_eq!(s.cursor, 3);

    assert!(s.undo());
    assert_eq!(s.text, "ab");
    assert_eq!(s.cursor, 2);

    assert!(s.undo());
    assert_eq!(s.text, "a");
    assert_eq!(s.cursor, 1);

    assert!(s.redo());
    assert_eq!(s.text, "ab");
    assert_eq!(s.cursor, 2);
}


#[test]
fn undo_redo_empty_stacks() {
    let mut s = TextInputState::new();
    assert!(!s.undo());
    assert!(!s.redo());
}


#[test]
fn undo_after_delete() {
    let mut s = TextInputState::new();
    s.text = "hello".to_string();
    s.cursor = 5;
    s.delete_before_cursor();
    assert_eq!(s.text, "hell");
    s.undo();
    assert_eq!(s.text, "hello");
}


#[test]
fn undo_redo_clear_history() {
    let mut s = TextInputState::new();
    s.insert_char('a');
    s.insert_char('b');
    s.clear_history();
    assert!(!s.undo());
    assert!(!s.redo());
}


#[test]
fn redo_cleared_on_new_mutation() {
    let mut s = TextInputState::new();
    s.insert_char('a');
    s.undo();
    assert_eq!(s.text, "");
    // New mutation clears redo stack
    s.insert_char('b');
    assert!(!s.redo());
    assert_eq!(s.text, "b");
}


#[test]
fn undo_after_redo_restores_previous_state() {
    let mut s = TextInputState::new();
    s.insert_char('a');
    assert_eq!(s.text, "a");
    assert!(s.undo());
    assert_eq!(s.text, "");
    assert!(s.redo());
    assert_eq!(s.text, "a");
    assert!(s.undo());
    assert_eq!(
        s.text,
        "",
        "undo after redo should restore pre-redo state"
    );
}


#[test]
fn undo_after_redo_multiple_chars() {
    let mut s = TextInputState::new();
    handle_text(&mut s, "abc");
    assert_eq!(s.text, "abc");
    assert!(s.undo()); // abc → ""
    assert_eq!(s.text, "");
    assert!(s.redo()); // "" → abc
    assert_eq!(s.text, "abc");
    s.insert_char('d');
    assert_eq!(s.text, "abcd"); // new mutation clears redo
    assert!(!s.redo()); // redo stack empty
}


#[test]
fn undo_after_handle_text() {
    let mut s = TextInputState::new();
    s.text = "ab".to_string();
    s.cursor = 1;
    handle_text(&mut s, "123");
    assert_eq!(s.text, "a123b");
    s.undo();
    assert_eq!(s.text, "ab");
    assert_eq!(s.cursor, 1);
}

// ---- New: mouse click/drag selection ----


#[test]
fn move_cursor_to_offset_basic() {
    let mut s = TextInputState::new();
    s.text = "hello".to_string();
    s.cursor = 0;
    s.move_cursor_to_offset(3);
    assert_eq!(s.cursor, 3);
    assert_eq!(s.selection, None);
}


#[test]
fn move_cursor_to_offset_clamps() {
    let mut s = TextInputState::new();
    s.text = "hi".to_string();
    s.move_cursor_to_offset(999);
    assert_eq!(s.cursor, 2);
}


#[test]
fn move_cursor_to_offset_clears_selection() {
    let mut s = TextInputState::new();
    s.text = "hello".to_string();
    s.selection = Some((1, 4));
    s.move_cursor_to_offset(2);
    assert_eq!(s.selection, None);
}


#[test]
fn set_selection_range_basic() {
    let mut s = TextInputState::new();
    s.text = "hello world".to_string();
    s.set_selection_range(2, 7);
    assert_eq!(s.selection, Some((2, 7)));
    assert_eq!(s.cursor, 7);
}


#[test]
fn set_selection_range_clamps() {
    let mut s = TextInputState::new();
    s.text = "hi".to_string();
    s.set_selection_range(0, 999);
    assert_eq!(s.selection, Some((0, 2)));
    assert_eq!(s.cursor, 2);
}


#[test]
fn set_selection_range_empty_when_start_equals_end() {
    let mut s = TextInputState::new();
    s.text = "hello".to_string();
    s.set_selection_range(3, 3);
    assert_eq!(s.selection, None);
}


#[test]
fn select_word_at_offset_double_click() {
    let mut s = TextInputState::new();
    s.text = "hello world foo".to_string();
    s.select_word_at_offset(7); // inside "world"
    assert_eq!(s.selection, Some((6, 11)));
    assert_eq!(s.cursor, 11);
}


#[test]
fn select_word_at_offset_empty_text() {
    let mut s = TextInputState::new();
    s.select_word_at_offset(0);
    assert_eq!(s.selection, None);
    assert_eq!(s.cursor, 0);
}

// ---- New: extended keyboard shortcuts ----


#[test]
fn shift_arrow_left_extends_selection() {
    let mut s = TextInputState::new();
    s.text = "hello world".to_string();
    s.cursor = 5;
    s.focused = true;
    handle_key(&mut s, &PlatformKey::ArrowLeft, true, None, false, true);
    assert_eq!(s.selection, Some((4, 5)));
}


#[test]
fn shift_arrow_right_extends_selection() {
    let mut s = TextInputState::new();
    s.text = "hello world".to_string();
    s.cursor = 5;
    s.focused = true;
    handle_key(&mut s, &PlatformKey::ArrowRight, true, None, false, true);
    assert_eq!(s.selection, Some((5, 6)));
}


#[test]
fn shift_home_extends_to_start() {
    let mut s = TextInputState::new();
    s.text = "hello".to_string();
    s.cursor = 3;
    s.focused = true;
    handle_key(&mut s, &PlatformKey::Home, true, None, false, true);
    assert_eq!(s.selection, Some((0, 3)));
    assert_eq!(s.cursor, 0);
}


#[test]
fn shift_end_extends_to_end() {
    let mut s = TextInputState::new();
    s.text = "hello".to_string();
    s.cursor = 2;
    s.focused = true;
    handle_key(&mut s, &PlatformKey::End, true, None, false, true);
    assert_eq!(s.selection, Some((2, 5)));
    assert_eq!(s.cursor, 5);
}


#[test]
fn ctrl_arrow_left_jumps_word() {
    let mut s = TextInputState::new();
    s.text = "hello world foo".to_string();
    s.cursor = 15;
    s.focused = true;
    handle_key(&mut s, &PlatformKey::ArrowLeft, true, None, true, false);
    // Should jump from end to start of "foo"
    assert_eq!(s.cursor, 12); // "foo" starts at 12
}


#[test]
fn ctrl_arrow_right_jumps_word() {
    let mut s = TextInputState::new();
    s.text = "hello world".to_string();
    s.cursor = 0;
    s.focused = true;
    handle_key(&mut s, &PlatformKey::ArrowRight, true, None, true, false);
    // Should jump from start to end of first word "hello"
    assert_eq!(s.cursor, 5);
}


#[test]
fn ctrl_backspace_deletes_prev_word() {
    let mut s = TextInputState::new();
    s.text = "hello world".to_string();
    s.cursor = 11;
    s.focused = true;
    handle_key(&mut s, &PlatformKey::Backspace, true, None, true, false);
    assert_eq!(s.text, "hello ");
    assert_eq!(s.cursor, 6);
}


#[test]
fn ctrl_delete_deletes_next_word() {
    let mut s = TextInputState::new();
    s.text = "hello world".to_string();
    s.cursor = 0;
    s.focused = true;
    handle_key(&mut s, &PlatformKey::Delete, true, None, true, false);
    assert_eq!(s.text, " world");
    assert_eq!(s.cursor, 0);
}

// ---- New: placeholder state ----


#[test]
fn placeholder_default_is_empty() {
    let s = TextInputState::new();
    assert_eq!(s.placeholder, "");
}


#[test]
fn invalid_default_is_false() {
    let s = TextInputState::new();
    assert!(!s.invalid);
}


#[test]
fn prev_word_boundary_empty() {
    assert_eq!(prev_word_boundary("", 0), 0);
}


#[test]
fn next_word_boundary_empty() {
    assert_eq!(next_word_boundary("", 0), 0);
}


#[test]
fn prev_word_boundary_works() {
    // "hello world" — split_word_bound_indices gives:
    //   (0, "hello"), (5, " "), (6, "world")
    // So the previous word boundary from 11 is 6 (start of "world"),
    // from 6 it's 5 (the space boundary), from 0 it's 0.
    assert_eq!(prev_word_boundary("hello world", 11), 6);
    assert_eq!(prev_word_boundary("hello world", 6), 5);
    assert_eq!(prev_word_boundary("hello world", 0), 0);
}


#[test]
fn next_word_boundary_works() {
    assert_eq!(next_word_boundary("hello world", 0), 5);
    assert_eq!(next_word_boundary("hello world", 6), 11);
    assert_eq!(next_word_boundary("hello world", 11), 11);
}

// ---- IME caret area geometry ----
