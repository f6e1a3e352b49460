use blame_tally::{extension_of, matches_extension, str_eqi};

fn exts(list: &[&str]) -> Vec<String> {
    list.iter().map(|s| s.to_string()).collect()
}

#[test]
fn extension_is_text_after_last_dot() {
    assert_eq!(extension_of("a/b/c.tar.gz"), Some("gz".to_string()));
    assert_eq!(extension_of("main.rs"), Some("rs".to_string()));
    assert_eq!(extension_of("noext"), None);
}

#[test]
fn dot_file_extension_is_text_after_its_dot() {
    assert_eq!(extension_of(".gitignore"), Some("gitignore".to_string()));
    assert_eq!(extension_of("dir/.profile"), Some("profile".to_string()));
    let list = exts(&["gitignore"]);
    assert!(matches_extension(".gitignore", &list));
}

#[test]
fn trailing_dot_gives_empty_extension() {
    assert_eq!(extension_of("foo."), Some("".to_string()));
}

#[test]
fn dot_in_directory_is_not_an_extension() {
    assert_eq!(extension_of("dir.d/file"), None);
}

#[test]
fn matching_is_case_insensitive_and_exact() {
    let list = exts(&["rs", "js", "py"]);
    assert!(matches_extension("Main.RS", &list));
    assert!(matches_extension("app.Js", &list));
    assert!(!matches_extension("main", &list));
    assert!(!matches_extension("main.rss", &list));
    assert!(!matches_extension("main.r", &list));
}

#[test]
fn no_dot_never_matches_even_empty_entry() {
    let list = exts(&[""]);
    assert!(!matches_extension("main", &list));
    // but a name ending in a dot has the empty extension
    assert!(matches_extension("main.", &list));
}

#[test]
fn empty_allow_list_matches_nothing() {
    let list: Vec<String> = Vec::new();
    assert!(!matches_extension("main.rs", &list));
}

#[test]
fn case_insensitive_string_compare() {
    assert!(str_eqi("RS", "rs"));
    assert!(str_eqi("TaR", "tAr"));
    assert!(!str_eqi("rs", "r"));
    assert!(!str_eqi("rs", "js"));
    // case folding is ASCII-only: these differ
    assert!(!str_eqi("É", "é"));
}
