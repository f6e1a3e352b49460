use blame_tally::{Tally, parse_blame_output};

fn counts(t: &Tally) -> Vec<(String, u64)> {
    let mut v = Vec::new();
    let n = t.author_count();
    let mut i = 0;
    while i < n {
        v.push(t.entry_at(i));
        i += 1;
    }
    v
}

fn count_of(t: &Tally, author: &str) -> Option<u64> {
    for (a, c) in counts(t) {
        if a == author {
            return Some(c);
        }
    }
    None
}

#[test]
fn parses_single_author_line() {
    let mut t = Tally::new();
    parse_blame_output("author Alice\n", &mut t);
    assert_eq!(t.total(), 1);
    assert_eq!(count_of(&t, "Alice"), Some(1));
}

#[test]
fn one_event_per_matching_line_with_noise() {
    // three `author` lines among other porcelain fields
    let text = "f00dcafe 1 1 1\n\
                author Alice\n\
                author-mail <alice@example.com>\n\
                author-time 1700000000\n\
                summary does things\n\
                \tsome line content\n\
                author Bob\n\
                committer Carol\n\
                author Alice\n\
                filename src/lib.rs\n";
    let mut t = Tally::new();
    parse_blame_output(text, &mut t);
    assert_eq!(t.total(), 3);
    assert_eq!(count_of(&t, "Alice"), Some(2));
    assert_eq!(count_of(&t, "Bob"), Some(1));
    assert_eq!(count_of(&t, "Carol"), None);
}

#[test]
fn empty_author_name_is_a_distinct_key() {
    let mut t = Tally::new();
    parse_blame_output("author \nauthor X\nauthor \n", &mut t);
    assert_eq!(t.total(), 3);
    assert_eq!(count_of(&t, ""), Some(2));
    assert_eq!(count_of(&t, "X"), Some(1));
}

#[test]
fn author_without_space_is_not_an_event() {
    let mut t = Tally::new();
    parse_blame_output("author\nauthors everywhere\nauthor-tz +0000\n", &mut t);
    assert_eq!(t.total(), 0);
    assert_eq!(t.author_count(), 0);
}

#[test]
fn crlf_line_endings_are_tolerated() {
    let mut t = Tally::new();
    parse_blame_output("author Bob\r\nauthor Bob\r\n", &mut t);
    assert_eq!(t.total(), 2);
    assert_eq!(count_of(&t, "Bob"), Some(2));
}

#[test]
fn final_line_without_newline_counts() {
    let mut t = Tally::new();
    parse_blame_output("author Ann", &mut t);
    assert_eq!(t.total(), 1);
    assert_eq!(count_of(&t, "Ann"), Some(1));
}

#[test]
fn names_with_arbitrary_characters() {
    let mut t = Tally::new();
    parse_blame_output("author Jean-Luc de l'Été \u{1F600}\n", &mut t);
    assert_eq!(count_of(&t, "Jean-Luc de l'Été \u{1F600}"), Some(1));
}

#[test]
fn merging_across_files_accumulates() {
    let mut t = Tally::new();
    parse_blame_output("author Alice\nauthor Bob\n", &mut t);
    parse_blame_output("author Alice\n", &mut t);
    assert_eq!(t.total(), 3);
    assert_eq!(count_of(&t, "Alice"), Some(2));
    assert_eq!(count_of(&t, "Bob"), Some(1));
}
