use app_defaulter::mimetype_manager::MimetypeManager;

fn manager(content: Option<&str>) -> MimetypeManager {
    MimetypeManager::new(String::from("/home/user/.config/mimeapps.list"), content)
}

fn sorted_mimetypes(m: &MimetypeManager) -> Vec<String> {
    let mut v = m.get_all_mimetypes();
    v.sort();
    v
}

#[test]
fn missing_file_gives_empty_mapping() {
    let m = manager(None);
    assert!(m.get_all_mimetypes().is_empty());
    assert_eq!(m.get_default_app("text/plain"), None);
}

#[test]
fn config_path_is_kept() {
    let m = manager(None);
    assert_eq!(m.config_path(), "/home/user/.config/mimeapps.list");
}

#[test]
fn round_trip_through_saved_text() {
    let mut m = manager(None);
    m.set_default_app("text/plain", "gedit");
    let text = m.set_default_app("image/png", "gimp");
    let reloaded = manager(Some(&text));
    assert_eq!(sorted_mimetypes(&reloaded), vec!["image/png".to_string(), "text/plain".to_string()]);
    assert_eq!(reloaded.get_default_app("text/plain"), Some(&"gedit".to_string()));
    assert_eq!(reloaded.get_default_app("image/png"), Some(&"gimp".to_string()));
}

#[test]
fn other_sections_are_ignored() {
    let m = manager(Some("[Default Applications]\ntext/plain=gedit\n[Other]\nfoo=bar\n"));
    assert_eq!(sorted_mimetypes(&m), vec!["text/plain".to_string()]);
    assert_eq!(m.get_default_app("text/plain"), Some(&"gedit".to_string()));
    assert_eq!(m.get_default_app("foo"), None);
}

#[test]
fn section_reopens_after_other_section() {
    let m = manager(Some(
        "a/b=before\n[Added Associations]\nx/y=z\n[Default Applications]\ntext/html=firefox\n",
    ));
    assert_eq!(sorted_mimetypes(&m), vec!["text/html".to_string()]);
    assert_eq!(m.get_default_app("text/html"), Some(&"firefox".to_string()));
}

#[test]
fn set_replaces_existing_value() {
    let mut m = manager(Some("[Default Applications]\ntext/plain=gedit\n"));
    let text = m.set_default_app("text/plain", "kate");
    assert_eq!(m.get_default_app("text/plain"), Some(&"kate".to_string()));
    assert_eq!(text, "[Default Applications]\ntext/plain=kate\n");
    assert_eq!(text.lines().filter(|l| l.starts_with("text/plain=")).count(), 1);
    assert_eq!(m.get_all_mimetypes().len(), 1);
}

#[test]
fn lines_and_parts_are_trimmed() {
    let m = manager(Some(
        "  [Default Applications]  \r\n  text/plain =  gedit.desktop  \r\n\tnoequals\n\n",
    ));
    assert_eq!(sorted_mimetypes(&m), vec!["text/plain".to_string()]);
    assert_eq!(m.get_default_app("text/plain"), Some(&"gedit.desktop".to_string()));
}

#[test]
fn split_on_first_equals_only() {
    let m = manager(Some("[Default Applications]\nx-scheme-handler/a=b=c\n"));
    assert_eq!(m.get_default_app("x-scheme-handler/a"), Some(&"b=c".to_string()));
}

#[test]
fn later_line_overrides_earlier() {
    let m = manager(Some("[Default Applications]\ntext/plain=gedit\ntext/plain=kate\n"));
    assert_eq!(m.get_default_app("text/plain"), Some(&"kate".to_string()));
    assert_eq!(m.get_all_mimetypes().len(), 1);
}

#[test]
fn lookup_is_exact() {
    let m = manager(Some("[Default Applications]\ntext/*=gedit\n"));
    assert_eq!(m.get_default_app("text/plain"), None);
    assert_eq!(m.get_default_app("Text/*"), None);
    assert_eq!(m.get_default_app("text/*"), Some(&"gedit".to_string()));
}

#[test]
fn render_of_empty_mapping_is_header_only() {
    let m = manager(None);
    assert_eq!(m.render_defaults(), "[Default Applications]\n");
}

#[test]
fn render_keeps_insertion_order() {
    let mut m = manager(None);
    m.set_default_app("text/plain", "gedit");
    m.set_default_app("image/png", "gimp");
    assert_eq!(m.render_defaults(), "[Default Applications]\ntext/plain=gedit\nimage/png=gimp\n");
}

#[test]
fn saved_text_reloads_to_same_mapping_after_replacement() {
    let mut m = manager(Some("[Default Applications]\ntext/plain=gedit\nimage/png=gimp\n"));
    let text = m.set_default_app("text/plain", "kate");
    assert_eq!(text.lines().count(), 3);
    assert!(!text.contains("gedit"));
    let reloaded = manager(Some(&text));
    assert_eq!(sorted_mimetypes(&reloaded), vec!["image/png".to_string(), "text/plain".to_string()]);
    assert_eq!(reloaded.get_default_app("text/plain"), Some(&"kate".to_string()));
    assert_eq!(reloaded.get_default_app("image/png"), Some(&"gimp".to_string()));
}
