use app_defaulter::desktop_entries::{AppEntry, DesktopEntryManager, DesktopFile};

fn file(path: &str, name: Option<&str>, exec: Option<&str>, mimes: &[&str], cats: &[&str]) -> DesktopFile {
    DesktopFile {
        path: path.to_string(),
        name: name.map(|s| s.to_string()),
        icon: Some("icon".to_string()),
        exec_line: exec.map(|s| s.to_string()),
        mimetypes: mimes.iter().map(|s| s.to_string()).collect(),
        categories: cats.iter().map(|s| s.to_string()).collect(),
    }
}

fn names(v: &[&AppEntry]) -> Vec<String> {
    let mut n: Vec<String> = v.iter().map(|e| e.name.clone()).collect();
    n.sort();
    n
}

fn sample() -> DesktopEntryManager {
    let mut m = DesktopEntryManager::new();
    m.load_entries(vec![
        file("/usr/share/applications/org.gnome.gedit.desktop", Some("Gedit"), Some("gedit %U"), &["text/plain", "text/html"], &["Utility", "TextEditor", ""]),
        file("/usr/share/applications/gimp.desktop", Some("GNU Image Manipulation Program"), Some("gimp %U"), &["image/png", "image/jpeg", ""], &["Graphics"]),
        file("/usr/share/applications/firefox.desktop", Some("Firefox"), Some("firefox %u"), &["text/html", "x-scheme-handler/http"], &["Network", "WebBrowser"]),
    ]);
    m
}

#[test]
fn missing_exec_is_rejected() {
    let f = file("/a/x.desktop", Some("X"), None, &["text/plain"], &[]);
    assert!(DesktopEntryManager::parse_entry(f).is_none());
}

#[test]
fn blank_name_or_exec_is_rejected() {
    assert!(DesktopEntryManager::parse_entry(file("/a/x.desktop", Some("  \t"), Some("x"), &["a/b"], &[])).is_none());
    assert!(DesktopEntryManager::parse_entry(file("/a/x.desktop", Some("X"), Some(""), &["a/b"], &[])).is_none());
    assert!(DesktopEntryManager::parse_entry(file("/a/x.desktop", None, Some("x"), &["a/b"], &[])).is_none());
}

#[test]
fn parse_keeps_fields_and_drops_empty_items() {
    let e = DesktopEntryManager::parse_entry(file("/a/x.desktop", Some("X"), Some("x %f"), &["a/b", "", "c/d"], &["", "Cat"])).unwrap();
    assert_eq!(e.name, "X");
    assert_eq!(e.exec_line, "x %f");
    assert_eq!(e.icon, Some("icon".to_string()));
    assert_eq!(e.mimetypes, vec!["a/b".to_string(), "c/d".to_string()]);
    assert_eq!(e.categories, vec!["Cat".to_string()]);
    assert_eq!(e.path, "/a/x.desktop");
}

#[test]
fn entry_key_is_file_stem() {
    let e = DesktopEntryManager::parse_entry(file("/usr/share/applications/org.gnome.Gedit.desktop", Some("Text Editor"), Some("gedit"), &["text/plain"], &[])).unwrap();
    assert_eq!(DesktopEntryManager::entry_key(&e), "org.gnome.Gedit");
}

#[test]
fn file_without_exec_is_not_loaded() {
    let mut m = DesktopEntryManager::new();
    m.load_entries(vec![file("/a/x.desktop", Some("X"), None, &["text/plain"], &["Utility"])]);
    assert!(m.get_entries().is_empty());
}

#[test]
fn file_without_mimetypes_is_not_loaded() {
    let mut m = DesktopEntryManager::new();
    m.load_entries(vec![
        file("/a/x.desktop", Some("X"), Some("x"), &[], &["Utility"]),
        file("/a/y.desktop", Some("Y"), Some("y"), &[""], &["Utility"]),
        file("/a/z.desktop", Some("Z"), Some("z"), &["text/plain"], &[]),
    ]);
    assert_eq!(names(&m.get_entries()), vec!["Z".to_string()]);
}

#[test]
fn later_directory_overrides_same_key() {
    let mut m = DesktopEntryManager::new();
    m.load_entries(vec![
        file("/usr/share/applications/gedit.desktop", Some("System Gedit"), Some("gedit"), &["text/plain"], &[]),
        file("/home/u/.local/share/applications/gedit.desktop", Some("User Gedit"), Some("gedit --new"), &["text/markdown"], &[]),
    ]);
    let all = m.get_entries();
    assert_eq!(all.len(), 1);
    assert_eq!(all[0].name, "User Gedit");
    assert_eq!(all[0].exec_line, "gedit --new");
    assert_eq!(all[0].mimetypes, vec!["text/markdown".to_string()]);
}

#[test]
fn reload_replaces_registry() {
    let mut m = sample();
    m.load_entries(vec![file("/a/z.desktop", Some("Z"), Some("z"), &["text/plain"], &[])]);
    assert_eq!(names(&m.get_entries()), vec!["Z".to_string()]);
}

#[test]
fn entries_for_mimetype_are_exact_matches() {
    let m = sample();
    assert_eq!(names(&m.get_entries_for_mimetype("text/html")), vec!["Firefox".to_string(), "Gedit".to_string()]);
    assert_eq!(names(&m.get_entries_for_mimetype("text/plain")), vec!["Gedit".to_string()]);
    assert!(m.get_entries_for_mimetype("text/*").is_empty());
    assert!(m.get_entries_for_mimetype("TEXT/PLAIN").is_empty());
    assert!(m.get_entries_for_mimetype("").is_empty());
}

#[test]
fn search_ignores_case_in_name_and_categories() {
    let m = sample();
    assert_eq!(names(&m.search_entries("GEDIT")), vec!["Gedit".to_string()]);
    assert_eq!(names(&m.search_entries("image")), vec!["GNU Image Manipulation Program".to_string()]);
    assert_eq!(names(&m.search_entries("browser")), vec!["Firefox".to_string()]);
    assert_eq!(m.search_entries("").len(), 3);
    assert!(m.search_entries("nothing-like-this").is_empty());
}

#[test]
fn all_categories_sorted_distinct_non_empty() {
    let mut m = sample();
    assert_eq!(m.get_all_categories(), vec!["Graphics", "Network", "TextEditor", "Utility", "WebBrowser"]);
    m.load_entries(vec![file("/a/q.desktop", Some("Q"), Some("q"), &["a/b"], &["Utility", "Utility"])]);
    assert_eq!(m.get_all_categories(), vec!["Utility"]);
}

#[test]
fn all_mimetypes_sorted_distinct_non_empty() {
    let m = sample();
    assert_eq!(
        m.get_all_mimetypes(),
        vec!["image/jpeg", "image/png", "text/html", "text/plain", "x-scheme-handler/http"]
    );
}

#[test]
fn main_classes_sorted_distinct() {
    let m = sample();
    assert_eq!(m.get_main_mimetype_categories(), vec!["image", "text", "x-scheme-handler"]);
}

#[test]
fn main_classes_skip_missing_or_empty_prefix() {
    let mut m = DesktopEntryManager::new();
    m.load_entries(vec![file("/a/q.desktop", Some("Q"), Some("q"), &["noslash", "/x", "b/c", "a/"], &[])]);
    assert_eq!(m.get_main_mimetype_categories(), vec!["a", "b"]);
}

#[test]
fn derived_views_of_empty_registry_are_empty() {
    let m = DesktopEntryManager::default();
    assert!(m.get_entries().is_empty());
    assert!(m.get_all_categories().is_empty());
    assert!(m.get_all_mimetypes().is_empty());
    assert!(m.get_main_mimetype_categories().is_empty());
}

#[test]
fn find_by_name_finds_first() {
    let m = sample();
    assert_eq!(m.find_by_name("Firefox").map(|e| e.exec_line.clone()), Some("firefox %u".to_string()));
    assert!(m.find_by_name("firefox").is_none());
}

#[test]
fn insert_entry_replaces_under_key() {
    let mut m = DesktopEntryManager::new();
    let a = DesktopEntryManager::parse_entry(file("/a/k.desktop", Some("A"), Some("a"), &["a/b"], &[])).unwrap();
    let b = DesktopEntryManager::parse_entry(file("/b/k.desktop", Some("B"), Some("b"), &["a/b"], &[])).unwrap();
    let ka = DesktopEntryManager::entry_key(&a);
    let kb = DesktopEntryManager::entry_key(&b);
    assert_eq!(ka, "k");
    m.insert_entry(ka, a);
    m.insert_entry(kb, b);
    assert_eq!(names(&m.get_entries()), vec!["B".to_string()]);
}
