use blame_tally::{Tally, build_report, parse_blame_output, render_report, format_count, to_decimal, render_entry_line};

#[test]
fn two_files_alice_three_bob_one() {
    let mut t = Tally::new();
    parse_blame_output("author Alice\nauthor Bob\nauthor Alice\n", &mut t);
    parse_blame_output("author Alice\n", &mut t);
    let r = build_report(&t);
    assert_eq!(r.total, 4);
    assert_eq!(r.entries.len(), 2);
    // Alice first: 75.0% over 25.0%
    assert_eq!(r.entries[0].author, "Alice");
    assert_eq!(r.entries[0].lines, 3);
    assert_eq!(r.entries[0].percent_whole, 75);
    assert_eq!(r.entries[0].percent_tenths, 750);
    assert_eq!(r.entries[1].author, "Bob");
    assert_eq!(r.entries[1].lines, 1);
    assert_eq!(r.entries[1].percent_whole, 25);
    assert_eq!(r.entries[1].percent_tenths, 250);
    let lines = render_report(&r);
    assert_eq!(lines[0], "Alice: 3, 75.0%");
    assert_eq!(lines[1], "Bob: 1, 25.0%");
}

#[test]
fn sum_of_entries_equals_total() {
    let mut t = Tally::new();
    parse_blame_output("author A\nauthor B\nauthor B\nauthor C\nauthor C\nauthor C\n", &mut t);
    let r = build_report(&t);
    let sum: u64 = r.entries.iter().map(|e| e.lines).sum();
    assert_eq!(sum, r.total);
    assert_eq!(r.total, 6);
}

#[test]
fn zero_total_report_is_empty_and_does_not_crash() {
    let t = Tally::new();
    let r = build_report(&t);
    assert_eq!(r.total, 0);
    assert!(r.entries.is_empty());
    let lines = render_report(&r);
    assert!(lines.is_empty());
    assert_eq!(format_count(r.total), "0");
}

#[test]
fn entries_sorted_by_descending_truncated_percent() {
    let mut t = Tally::new();
    // D:5, A:1, C:3, B:1 out of 10
    parse_blame_output(
        "author D\nauthor D\nauthor D\nauthor D\nauthor D\n\
         author A\n\
         author C\nauthor C\nauthor C\n\
         author B\n",
        &mut t,
    );
    let r = build_report(&t);
    assert_eq!(r.total, 10);
    for w in r.entries.windows(2) {
        assert!(w[0].percent_whole >= w[1].percent_whole);
    }
    assert_eq!(r.entries[0].author, "D");
    assert_eq!(r.entries[1].author, "C");
    // A and B tie at 10%: both present, order left open
    let tail: Vec<&str> = r.entries[2..].iter().map(|e| e.author.as_str()).collect();
    assert!(tail == ["A", "B"] || tail == ["B", "A"]);
}

#[test]
fn percent_rounding_is_half_up_on_tenths() {
    let mut t = Tally::new();
    parse_blame_output("author X\nauthor X\nauthor Y\n", &mut t);
    let r = build_report(&t);
    // X: 2/3 = 66.66..% -> 66.7; Y: 1/3 = 33.33..% -> 33.3
    assert_eq!(r.entries[0].author, "X");
    assert_eq!(r.entries[0].percent_tenths, 667);
    assert_eq!(r.entries[0].percent_whole, 66);
    assert_eq!(r.entries[1].percent_tenths, 333);
    let lines = render_report(&r);
    assert_eq!(lines[0], "X: 2, 66.7%");
    assert_eq!(lines[1], "Y: 1, 33.3%");
}

#[test]
fn single_author_is_one_hundred_percent() {
    let mut t = Tally::new();
    parse_blame_output("author Solo\n", &mut t);
    let r = build_report(&t);
    assert_eq!(r.entries[0].percent_whole, 100);
    assert_eq!(r.entries[0].percent_tenths, 1000);
    assert_eq!(render_entry_line(&r.entries[0]), "Solo: 1, 100.0%");
}

#[test]
fn runs_are_reproducible() {
    let texts = ["author Alice\nauthor Bob\n", "author Alice\nnoise\n"];
    let run = || {
        let mut t = Tally::new();
        for x in texts {
            parse_blame_output(x, &mut t);
        }
        build_report(&t)
    };
    let r1 = run();
    let r2 = run();
    assert_eq!(r1.total, r2.total);
    let mut c1: Vec<(String, u64)> =
        r1.entries.iter().map(|e| (e.author.clone(), e.lines)).collect();
    let mut c2: Vec<(String, u64)> =
        r2.entries.iter().map(|e| (e.author.clone(), e.lines)).collect();
    c1.sort();
    c2.sort();
    assert_eq!(c1, c2);
}

#[test]
fn locale_formatting_groups_thousands() {
    assert_eq!(format_count(0), "0");
    assert_eq!(format_count(100), "100");
    assert_eq!(format_count(1000), "1,000");
    assert_eq!(format_count(1234567), "1,234,567");
    assert_eq!(format_count(987654321012345678), "987,654,321,012,345,678");
}

#[test]
fn plain_decimal_rendering() {
    assert_eq!(to_decimal(0), "0");
    assert_eq!(to_decimal(905), "905");
    assert_eq!(to_decimal(u64::MAX), "18446744073709551615");
}

#[test]
fn large_count_line_uses_grouped_digits() {
    let mut t = Tally::new();
    let mut text = String::new();
    for _ in 0..1500 {
        text.push_str("author Big\n");
    }
    parse_blame_output(&text, &mut t);
    let r = build_report(&t);
    let lines = render_report(&r);
    assert_eq!(lines[0], "Big: 1,500, 100.0%");
}
