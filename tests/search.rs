use media_search::distance::levenshtein;
use media_search::links::asset_href;
use media_search::lister::{list_files, media_name, Entry};
use media_search::matcher::{find_files, search_entries, Fallback, MatchPolicy};
use media_search::normalize::{contains_run, fold, normalize};

fn names(v: &[&str]) -> Vec<String> {
    v.iter().map(|s| s.to_string()).collect()
}

fn file(name: &str) -> Entry {
    Entry::new(name.to_string(), false)
}

fn codes(s: &str) -> Vec<u32> {
    s.chars().map(|c| c as u32).collect()
}

fn nearest() -> MatchPolicy {
    MatchPolicy::new(false, Fallback::Nearest)
}

fn all() -> MatchPolicy {
    MatchPolicy::new(false, Fallback::All)
}

#[test]
fn listing_keeps_media_extensions_only() {
    let entries = vec![file("doc.txt"), file("image.jpg"), file("clip.mp4")];
    assert_eq!(list_files(&entries), names(&["image.jpg", "clip.mp4"]));
}

#[test]
fn listing_skips_directories_and_names_without_extension() {
    let entries = vec![
        Entry::new("album.jpg".to_string(), true),
        file("README"),
        file(".jpg"),
        file("trailing."),
        file("movie.webm"),
    ];
    assert_eq!(list_files(&entries), names(&["movie.webm"]));
}

#[test]
fn listing_lower_cases_names_and_extensions() {
    let entries = vec![file("Holiday.JPG"), file("CLIP.Mp4"), file("notes.TXT")];
    assert_eq!(list_files(&entries), names(&["holiday.jpg", "clip.mp4"]));
}

#[test]
fn every_media_extension_is_recognised() {
    for ext in ["jpg", "png", "jpeg", "webp", "gif", "mp4", "mkv", "webm"] {
        assert!(media_name(&format!("a.{}", ext)));
        assert!(media_name(&format!("a.{}", ext.to_uppercase())));
    }
    assert!(!media_name("a.txt"));
    assert!(!media_name("jpg"));
    assert!(!media_name(".png"));
    assert!(!media_name("a.jpg.txt"));
    assert!(media_name("..jpg"));
    assert!(media_name("a.txt.jpg"));
}

#[test]
fn empty_directory_lists_and_finds_nothing() {
    let entries = vec![file("doc.txt"), Entry::new("sub".to_string(), true)];
    let listed = list_files(&entries);
    assert!(listed.is_empty());
    for q in ["", "cat", "..--"] {
        assert!(find_files(q, &listed, nearest()).is_empty());
        assert!(find_files(q, &listed, all()).is_empty());
    }
}

#[test]
fn blank_queries_find_every_name() {
    let c = names(&["cat.jpg", "dog.png", "cat.jpg"]);
    for q in ["", "   ", "..--", " _-. "] {
        assert_eq!(find_files(q, &c, nearest()), c);
        assert_eq!(find_files(q, &c, all()), c);
    }
}

#[test]
fn case_blind_substring_is_found() {
    let c = names(&["my_cat.jpg", "dog.png"]);
    assert_eq!(find_files("CAT.J", &c, nearest()), names(&["my_cat.jpg"]));
    assert_eq!(find_files("y_c", &c, all()), names(&["my_cat.jpg"]));
}

#[test]
fn punctuation_and_spaces_are_ignored() {
    let c = names(&["summer-trip_01.mp4", "winter.mkv"]);
    assert_eq!(find_files("summer trip", &c, all()), names(&["summer-trip_01.mp4"]));
    assert_eq!(find_files("s.u.m", &c, all()), names(&["summer-trip_01.mp4"]));
}

#[test]
fn searching_twice_gives_the_same_result() {
    let c = names(&["cat.jpg", "dog.jpg", "catalog.png"]);
    for q in ["cat", "caat", "zzz", ""] {
        assert_eq!(find_files(q, &c, nearest()), find_files(q, &c, nearest()));
        assert_eq!(find_files(q, &c, all()), find_files(q, &c, all()));
    }
}

#[test]
fn digit_stripping_joins_numbered_names() {
    let c = names(&["photo1.jpg", "photo2.jpg", "video.mp4"]);
    let strip = MatchPolicy::new(true, Fallback::Nearest);
    assert_eq!(find_files("photo", &c, strip), names(&["photo1.jpg", "photo2.jpg"]));
    assert_eq!(find_files("photo2", &c, strip), names(&["photo1.jpg", "photo2.jpg"]));
    assert_eq!(find_files("photo2", &c, nearest()), names(&["photo2.jpg"]));
}

#[test]
fn nearest_fallback_corrects_a_typo() {
    let c = names(&["cat.jpg", "dog.jpg"]);
    assert_eq!(find_files("caat", &c, nearest()), names(&["cat.jpg"]));
}

#[test]
fn all_fallback_returns_the_listing() {
    let c = names(&["cat.jpg", "dog.jpg"]);
    assert_eq!(find_files("caat", &c, all()), c);
}

#[test]
fn nearest_fallback_prefers_the_first_of_equals() {
    let c = names(&["aaa.jpg", "bbb.jpg"]);
    assert_eq!(find_files("zzz", &c, nearest()), names(&["aaa.jpg"]));
}

#[test]
fn upper_and_lower_case_queries_agree() {
    let c = names(&["cat.jpg", "Concat.png", "dog.jpg"]);
    for p in [nearest(), all(), MatchPolicy::new(true, Fallback::Nearest)] {
        assert_eq!(find_files("CAT", &c, p), find_files("cat", &c, p));
        assert_eq!(find_files("CAAT", &c, p), find_files("caat", &c, p));
    }
    assert_eq!(find_files("CAT", &c, all()), names(&["cat.jpg", "Concat.png"]));
}

#[test]
fn duplicates_are_kept() {
    let c = names(&["cat.jpg", "cat.jpg"]);
    assert_eq!(find_files("cat", &c, nearest()), c);
}

#[test]
fn levenshtein_values() {
    assert_eq!(levenshtein(&codes("kitten"), &codes("sitting")), 3);
    assert_eq!(levenshtein(&codes(""), &codes("abc")), 3);
    assert_eq!(levenshtein(&codes("abc"), &codes("")), 3);
    assert_eq!(levenshtein(&codes("flaw"), &codes("lawn")), 2);
    assert_eq!(levenshtein(&codes("same"), &codes("same")), 0);
    assert_eq!(levenshtein(&codes("caat"), &codes("cat.jpg")), 5);
}

#[test]
fn normal_forms() {
    assert_eq!(normalize("My_Photo-1.JPG", false), codes("myphoto1jpg"));
    assert_eq!(normalize("My_Photo-1.JPG", true), codes("myphotojpg"));
    assert_eq!(normalize(" a\tb\nc ", false), codes("abc"));
    assert_eq!(normalize("Ünï.X", false), codes("Ünïx"));
    assert_eq!(fold("AbZ-9"), codes("abz-9"));
}

#[test]
fn runs_inside_code_sequences() {
    assert!(contains_run(&codes("catjpg"), &codes("tjp")));
    assert!(contains_run(&codes("catjpg"), &codes("")));
    assert!(contains_run(&codes("catjpg"), &codes("catjpg")));
    assert!(!contains_run(&codes("catjpg"), &codes("catjpgx")));
    assert!(!contains_run(&codes("catjpg"), &codes("cj")));
    assert!(!contains_run(&codes(""), &codes("a")));
}

#[test]
fn asset_paths() {
    assert_eq!(asset_href("cat.jpg"), "/assets/cat.jpg");
    assert_eq!(asset_href(""), "/assets/");
}

#[test]
fn searching_entries_lists_then_matches() {
    let entries = vec![
        file("Cat.JPG"),
        file("cat.txt"),
        Entry::new("cat.png".to_string(), true),
        file("dog.gif"),
    ];
    assert_eq!(search_entries("CAT", &entries, nearest()), names(&["cat.jpg"]));
    assert_eq!(search_entries("caat", &entries, nearest()), names(&["cat.jpg"]));
    assert_eq!(search_entries("bird", &entries, all()), names(&["cat.jpg", "dog.gif"]));
}
