use acme_native::layout::{map_wrap, LayoutError, TextWrapMode};
use acme_native::platform::{allocate_pointer_id, PlatformError, PlatformKey, WindowId};
use acme_native::text::TextWrap;
use acme_native::theme::{available_themes, NordPack, OneDarkPack};
use acme_native::tree::NodeId;
use std::sync::atomic::AtomicU64;

#[test]
fn platform_events_are_backend_agnostic() {
    assert_eq!(PlatformKey::Tab, PlatformKey::Tab);
}

#[test]
fn window_id_equality() {
    assert_eq!(WindowId(1), WindowId(1));
    assert_ne!(WindowId(1), WindowId(2));
    let set: std::collections::HashSet<WindowId> = [WindowId(1), WindowId(1), WindowId(2)]
        .into_iter()
        .collect();
    assert_eq!(set.len(), 2);
}

#[test]
fn pointer_ids_count_up_from_the_counter() {
    let counter = AtomicU64::new(1);
    assert_eq!(allocate_pointer_id(&counter), 1);
    assert_eq!(allocate_pointer_id(&counter), 2);
}

#[test]
fn platform_error_message() {
    let e = PlatformError::EventLoop("boom".to_string());
    assert_eq!(e.message(), "event loop error: boom");
}

#[test]
fn layout_error_messages_and_wrap_mapping() {
    assert_eq!(LayoutError::DuplicateId(NodeId(0)).message(), "duplicate layout id 0");
    assert_eq!(LayoutError::DuplicateId(NodeId(1207)).message(), "duplicate layout id 1207");
    assert_eq!(
        LayoutError::InvalidViewport.message(),
        "viewport must be finite and non-negative"
    );
    assert_eq!(LayoutError::Engine("x".to_string()).message(), "x");
    assert_eq!(map_wrap(TextWrapMode::Character), TextWrap::Glyph);
    assert_eq!(map_wrap(TextWrapMode::Word), TextWrap::Word);
    assert_eq!(map_wrap(TextWrapMode::NoWrap), TextWrap::NoWrap);
}

#[test]
fn theme_registry_lists_every_pack() {
    let names = available_themes();
    assert_eq!(names.len(), 10);
    assert_eq!(names[0], "apple");
    assert_eq!(names[9], "one-dark");
    assert!(names.contains(&NordPack.name()));
    assert!(names.contains(&OneDarkPack.name()));
}
