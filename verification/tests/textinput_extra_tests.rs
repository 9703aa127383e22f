use acme_native::platform::PlatformKey;
use acme_native::textbuf::{
    next_grapheme_boundary, prev_grapheme_boundary, prev_start_before, next_start_after, substring,
};
use acme_native::textinput::{handle_key, handle_keyboard_shortcut, handle_text, BorderRole, TextInputState};

fn state(text: &str, cursor: usize) -> TextInputState {
    let mut s = TextInputState::new();
    s.text = text.to_string();
    s.cursor = cursor;
    s.focused = true;
    s
}

#[test]
fn copy_and_cut_write_the_clipboard() {
    let mut s = state("hello world", 0);
    s.selection = Some((6, 11));
    let mut clip = Some(String::from("old"));
    assert!(handle_keyboard_shortcut(&mut s, "c", &mut clip));
    assert_eq!(clip.as_deref(), Some("world"));
    assert_eq!(s.text, "hello world");
    let mut clip = Some(String::new());
    assert!(handle_keyboard_shortcut(&mut s, "x", &mut clip));
    assert_eq!(clip.as_deref(), Some("world"));
    assert_eq!(s.text, "hello ");
    assert_eq!(s.cursor, 6);
    assert!(s.undo());
    assert_eq!(s.text, "hello world");
}

#[test]
fn paste_inserts_clipboard_text() {
    let mut s = state("ab", 1);
    let mut clip = Some(String::from("XY"));
    assert!(handle_keyboard_shortcut(&mut s, "v", &mut clip));
    assert_eq!(s.text, "aXYb");
    assert_eq!(s.cursor, 3);
    assert_eq!(clip.as_deref(), Some("XY"));
}

#[test]
fn copy_without_live_selection_leaves_clipboard() {
    let mut s = state("hello", 0);
    s.selection = Some((4, 2));
    let mut clip = Some(String::from("keep"));
    assert!(handle_keyboard_shortcut(&mut s, "c", &mut clip));
    assert_eq!(clip.as_deref(), Some("keep"));
    assert!(!handle_keyboard_shortcut(&mut s, "ab", &mut clip));
}

#[test]
fn history_keeps_at_most_fifty_edits() {
    let mut s = TextInputState::new();
    for _ in 0..60 {
        assert!(s.insert_char('x'));
    }
    let mut undone = 0;
    while s.undo() {
        undone += 1;
    }
    assert_eq!(undone, 50);
    assert_eq!(s.text.len(), 10);
}

#[test]
fn edit_undo_redo_returns_to_edited_state() {
    let mut s = state("abc", 3);
    assert!(s.delete_before_cursor());
    let after = (s.text.clone(), s.cursor, s.selection);
    assert!(s.undo());
    assert_eq!((s.text.as_str(), s.cursor), ("abc", 3));
    assert!(s.redo());
    assert_eq!((s.text.clone(), s.cursor, s.selection), after);
    assert!(s.undo());
    assert!(s.undo() == false);
}

#[test]
fn undo_drops_preedit() {
    let mut s = state("", 0);
    handle_text(&mut s, "hi");
    s.set_preedit("ni", Some((1, 1)));
    assert!(s.undo());
    assert!(s.preedit.is_empty());
    assert_eq!(s.preedit_cursor, None);
}

#[test]
fn extend_selection_keeps_anchor() {
    let mut s = state("hello", 2);
    handle_key(&mut s, &PlatformKey::ArrowRight, true, None, false, true);
    handle_key(&mut s, &PlatformKey::ArrowRight, true, None, false, true);
    assert_eq!(s.selection, Some((2, 4)));
    handle_key(&mut s, &PlatformKey::ArrowLeft, true, None, false, true);
    assert_eq!(s.selection, Some((2, 3)));
    assert_eq!(s.cursor, 3);
}

#[test]
fn select_word_at_shared_boundary_picks_first_word() {
    let mut s = state("hello world", 0);
    s.select_word_at_offset(5);
    assert_eq!(s.selection, Some((0, 5)));
    s.select_word_at_offset(100);
    assert_eq!(s.selection, Some((6, 11)));
}

#[test]
fn graphemes_keep_combining_marks_together() {
    let text = "e\u{301}x";
    assert_eq!(next_grapheme_boundary(text, 0), 3);
    assert_eq!(prev_grapheme_boundary(text, 3), 0);
    assert_eq!(prev_grapheme_boundary(text, 99), 3);
    let mut s = state(text, 0);
    s.password = true;
    s.password_char = '*';
    assert_eq!(s.display_text(), "**");
}

#[test]
fn boundary_search_over_starts() {
    let starts = [0usize, 5, 6];
    assert_eq!(prev_start_before(&starts, 6), 5);
    assert_eq!(prev_start_before(&starts, 0), 0);
    assert_eq!(next_start_after(&starts, 5, 11), 6);
    assert_eq!(next_start_after(&starts, 6, 11), 11);
    assert_eq!(substring("a\u{1F60A}b", 1, 5), "\u{1F60A}");
}

#[test]
fn escape_blurs_and_release_is_ignored() {
    let mut s = state("x", 1);
    assert!(!handle_key(&mut s, &PlatformKey::Backspace, false, None, false, false));
    assert_eq!(s.text, "x");
    assert!(handle_key(&mut s, &PlatformKey::Escape, true, None, false, false));
    assert!(!s.focused);
    assert!(!handle_key(&mut s, &PlatformKey::Backspace, true, None, false, false));
    assert_eq!(s.text, "x");
}

#[test]
fn delete_word_with_selection_is_not_recorded() {
    let mut s = state("hello world", 11);
    s.selection = Some((0, 5));
    assert!(handle_key(&mut s, &PlatformKey::Backspace, true, None, true, false));
    assert_eq!(s.text, " world");
    assert!(!s.undo());
}

#[test]
fn default_state_is_the_new_state() {
    let s = TextInputState::default();
    assert_eq!(s.text, "");
    assert_eq!(s.cursor(), 0);
    assert_eq!(s.selection(), None);
    assert!(!s.focused && !s.password && !s.readonly && !s.invalid);
    assert_eq!(s.password_char, '\u{2022}');
    assert_eq!(s.placeholder, "");
}

#[test]
fn cut_ignores_a_cursor_inside_a_character_and_undo_restores_it() {
    let mut s = TextInputState::new();
    s.text = "héllo".to_string();
    // Byte 2 lies inside the two-byte 'é'.
    s.cursor = 2;
    s.selection = Some((3, 6));
    s.focused = true;
    let mut clip = Some(String::new());
    assert!(handle_keyboard_shortcut(&mut s, "x", &mut clip));
    assert_eq!(s.text, "hé");
    assert_eq!(s.cursor, 3);
    assert_eq!(s.selection, None);
    assert_eq!(clip.as_deref(), Some("llo"));
    assert!(s.undo());
    assert_eq!(s.text, "héllo");
    assert_eq!(s.cursor, 2);
    assert_eq!(s.selection, Some((3, 6)));
}

#[test]
fn copy_ignores_a_cursor_inside_a_character() {
    let mut s = TextInputState::new();
    s.text = "héllo".to_string();
    s.cursor = 2;
    s.selection = Some((0, 3));
    s.focused = true;
    let mut clip = Some(String::new());
    assert!(handle_keyboard_shortcut(&mut s, "c", &mut clip));
    assert_eq!(clip.as_deref(), Some("hé"));
    assert_eq!(s.text, "héllo");
    assert_eq!(s.cursor, 2);
}

#[test]
fn border_shows_invalid_over_focus_and_dims_when_read_only() {
    let mut s = TextInputState::new();
    assert_eq!(s.border_style(false), (BorderRole::Border, false));
    assert_eq!(s.border_style(true), (BorderRole::Ring, false));
    s.invalid = true;
    assert_eq!(s.border_style(true), (BorderRole::Danger, false));
    s.readonly = true;
    assert_eq!(s.border_style(false), (BorderRole::Danger, true));
}
