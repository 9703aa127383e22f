use acme_native::theme::{available_themes, pack_by_name, ThemePackId};

#[test]
fn packs_resolve_by_name_and_alias() {
    assert_eq!(pack_by_name("nord"), Some(ThemePackId::Nord));
    assert_eq!(pack_by_name("one-dark"), Some(ThemePackId::OneDark));
    assert_eq!(pack_by_name("onedark"), Some(ThemePackId::OneDark));
    assert_eq!(pack_by_name("Nord"), None);
    assert_eq!(pack_by_name(""), None);
}

#[test]
fn every_registered_name_resolves() {
    for name in available_themes() {
        assert!(pack_by_name(name).is_some(), "{name} should resolve");
    }
}
