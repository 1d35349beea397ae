use app_defaulter::filter::{name_matches_filter, shown_for_score};

#[test]
fn empty_filter_shows_everything() {
    assert!(name_matches_filter("Firefox", ""));
    assert!(name_matches_filter("", ""));
}

#[test]
fn fuzzy_filter_matches_subsequence() {
    assert!(name_matches_filter("Firefox", "ffx"));
    assert!(name_matches_filter("Text Editor", "txed"));
    assert!(!name_matches_filter("Firefox", "zzz"));
}

#[test]
fn score_decides_visibility() {
    assert!(shown_for_score(Some(0)));
    assert!(!shown_for_score(None));
}

#[test]
fn capital_in_filter_makes_it_case_sensitive() {
    assert!(!name_matches_filter("Firefox", "FF"));
    assert!(name_matches_filter("Firefox", "Ff"));
    assert!(!name_matches_filter("firefox", "Fi"));
    assert!(name_matches_filter("FIREFOX", "fi"));
}
