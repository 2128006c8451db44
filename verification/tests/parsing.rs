use copurchase::record::{parse_records, Record, RecordParser};
use copurchase::text::{
    chars_of, is_blank, is_white_space, remove_all, split_words, starts_with, string_of,
    trim_bounds,
};

fn lines(text: &[&str]) -> Vec<String> {
    text.iter().map(|s| s.to_string()).collect()
}

fn chars(text: &str) -> Vec<char> {
    text.chars().collect()
}

fn assert_record(record: &Record, identifier: &str, title: &str, category: &str, related: &[&str]) {
    assert_eq!(record.identifier, identifier);
    assert_eq!(record.title, title);
    assert_eq!(record.category, category);
    let expected: Vec<String> = related.iter().map(|s| s.to_string()).collect();
    assert_eq!(record.related, expected);
}

#[test]
fn white_space_is_the_unicode_property() {
    let mut code: u32 = 0;
    while code <= 0x10FFFF {
        if let Some(c) = char::from_u32(code) {
            assert_eq!(is_white_space(c), c.is_whitespace(), "U+{:04X}", code);
        }
        code += 1;
    }
}

#[test]
fn chars_of_keeps_every_character() {
    assert_eq!(chars_of("a b\u{3000}é"), vec!['a', ' ', 'b', '\u{3000}', 'é']);
    assert_eq!(chars_of(""), Vec::<char>::new());
}

#[test]
fn string_of_takes_the_range() {
    let text = chars("hello world");
    assert_eq!(string_of(&text, 6, 11), "world");
    assert_eq!(string_of(&text, 3, 3), "");
    assert_eq!(string_of(&text, 0, 11), "hello world");
}

#[test]
fn blank_lines() {
    assert!(is_blank(&chars("")));
    assert!(is_blank(&chars("   \t ")));
    assert!(is_blank(&chars("\u{00A0}\u{2003}")));
    assert!(!is_blank(&chars("  x ")));
}

#[test]
fn starts_with_is_an_exact_prefix_match() {
    assert!(starts_with(&chars("ASIN: 123"), &chars("ASIN: ")));
    assert!(starts_with(&chars("ASIN: "), &chars("ASIN: ")));
    assert!(!starts_with(&chars("ASIN:"), &chars("ASIN: ")));
    assert!(!starts_with(&chars("asin: 123"), &chars("ASIN: ")));
    assert!(!starts_with(&chars(" ASIN: 123"), &chars("ASIN: ")));
    assert!(starts_with(&chars("anything"), &chars("")));
}

#[test]
fn remove_all_cuts_every_occurrence() {
    assert_eq!(remove_all(&chars("ASIN: 12ASIN: 34"), &chars("ASIN: ")), chars("1234"));
    assert_eq!(remove_all(&chars("aaa"), &chars("aa")), chars("a"));
    assert_eq!(remove_all(&chars("abab"), &chars("ab")), chars(""));
    assert_eq!(remove_all(&chars("abc"), &chars("x")), chars("abc"));
    assert_eq!(remove_all(&chars("abc"), &chars("")), chars("abc"));
    assert_eq!(remove_all(&chars("ab"), &chars("abc")), chars("ab"));
}

#[test]
fn remove_all_agrees_with_str_replace() {
    let samples = [
        ("ASIN: 0827229534", "ASIN: "),
        ("  title: a  title: b", "  title: "),
        ("xxxx", "xx"),
        ("xyxyx", "xyx"),
        ("", "a"),
        ("ééé", "é"),
    ];
    for (text, marker) in samples {
        let expected: Vec<char> = text.replace(marker, "").chars().collect();
        assert_eq!(remove_all(&chars(text), &chars(marker)), expected);
    }
}

#[test]
fn trim_bounds_agree_with_str_trim() {
    let samples = ["", "   ", "a", "  a b  ", "\t\u{00A0}x y\u{2028}\n", "x  ", "  x"];
    for text in samples {
        let text_chars = chars(text);
        let (from, to) = trim_bounds(&text_chars);
        assert_eq!(string_of(&text_chars, from, to), text.trim());
    }
}

#[test]
fn split_words_agrees_with_split_whitespace() {
    let samples = ["", "   ", "5 a b  c", " 5\ta\u{3000}b \n", "word", "a  b"];
    for text in samples {
        let expected: Vec<String> = text.split_whitespace().map(|s| s.to_string()).collect();
        assert_eq!(split_words(&chars(text)), expected);
    }
}

#[test]
fn one_record() {
    let input = lines(&[
        "Id:   1",
        "ASIN: 0827229534",
        "  title: Patterns of Preaching",
        "  group: Book",
        "  salesrank: 396585",
        "  similar: 2  0804215715  156101074X",
        "",
    ]);
    let records = parse_records(&input);
    assert_eq!(records.len(), 1);
    assert_record(
        &records[0],
        "0827229534",
        "Patterns of Preaching",
        "Book",
        &["0804215715", "156101074X"],
    );
}

#[test]
fn trailing_record_without_blank_line_is_dropped() {
    let input = lines(&[
        "ASIN: A",
        "  title: first",
        "  group: Book",
        "  similar: 1  B",
        "",
        "ASIN: B",
        "  title: second",
        "  group: Music",
        "  similar: 1  A",
    ]);
    let records = parse_records(&input);
    assert_eq!(records.len(), 1);
    assert_record(&records[0], "A", "first", "Book", &["B"]);
}

#[test]
fn input_ending_mid_record_emits_nothing() {
    let input = lines(&["ASIN: A", "  title: only"]);
    assert_eq!(parse_records(&input).len(), 0);
    assert_eq!(parse_records(&Vec::new()).len(), 0);
}

#[test]
fn blank_line_before_any_identifier_emits_nothing() {
    let input = lines(&["# header", "Total items: 2", "", "Id:   0", "ASIN: A", ""]);
    let records = parse_records(&input);
    assert_eq!(records.len(), 1);
    assert_record(&records[0], "A", "", "", &[]);
}

#[test]
fn fields_carry_over_to_the_next_record() {
    let input = lines(&[
        "ASIN: A",
        "  title: first",
        "  group: Book",
        "  similar: 2  X  Y",
        "",
        "ASIN: B",
        "  discontinued product",
        "",
    ]);
    let records = parse_records(&input);
    assert_eq!(records.len(), 2);
    assert_record(&records[0], "A", "first", "Book", &["X", "Y"]);
    assert_record(&records[1], "B", "first", "Book", &["X", "Y"]);
}

#[test]
fn two_blank_lines_emit_the_record_twice() {
    let input = lines(&["ASIN: A", "  group: Book", "", ""]);
    let records = parse_records(&input);
    assert_eq!(records.len(), 2);
    assert_record(&records[0], "A", "", "Book", &[]);
    assert_record(&records[1], "A", "", "Book", &[]);
}

#[test]
fn white_space_only_line_closes_a_record() {
    let input = lines(&["ASIN: A", "  \t "]);
    assert_eq!(parse_records(&input).len(), 1);
}

#[test]
fn count_token_is_dropped_and_not_checked() {
    let input = lines(&["ASIN: A", "  similar: 5  X  Y", ""]);
    let records = parse_records(&input);
    assert_record(&records[0], "A", "", "", &["X", "Y"]);

    let input = lines(&["ASIN: A", "  similar: X  Y", ""]);
    let records = parse_records(&input);
    assert_record(&records[0], "A", "", "", &["Y"]);

    let input = lines(&["ASIN: A", "  similar: 0", ""]);
    let records = parse_records(&input);
    assert_record(&records[0], "A", "", "", &[]);

    let input = lines(&["ASIN: A", "  similar: ", ""]);
    let records = parse_records(&input);
    assert_record(&records[0], "A", "", "", &[]);
}

#[test]
fn a_later_marker_line_overwrites_the_field() {
    let input = lines(&[
        "ASIN: A",
        "ASIN: B",
        "  title: one",
        "  title: two",
        "  group: Book",
        "  group: DVD",
        "  similar: 1  X",
        "  similar: 1  Y",
        "",
    ]);
    let records = parse_records(&input);
    assert_eq!(records.len(), 1);
    assert_record(&records[0], "B", "two", "DVD", &["Y"]);
}

#[test]
fn markers_need_their_leading_spaces_and_case() {
    let input = lines(&[
        "ASIN: A",
        "title: not a title",
        " title: not a title",
        "  Title: not a title",
        "  group:Book",
        "similar: 1  X",
        "",
    ]);
    let records = parse_records(&input);
    assert_record(&records[0], "A", "", "", &[]);
}

#[test]
fn values_are_trimmed_and_the_marker_is_cut_wherever_it_stands() {
    let input = lines(&[
        "ASIN:   A1  ",
        "  title:   The  title: of it  ",
        "  group: Book\t",
        "",
    ]);
    let records = parse_records(&input);
    assert_record(&records[0], "A1", "Theof it", "Book", &[]);
}

#[test]
fn feeding_line_by_line_gives_the_same_records() {
    let mut parser = RecordParser::new();
    assert!(parser.feed("").is_none());
    assert!(parser.feed("ASIN: A").is_none());
    assert!(parser.feed("  title: t").is_none());
    assert!(parser.feed("  group: g").is_none());
    assert!(parser.feed("  similar: 1 B").is_none());
    assert!(parser.feed("something else").is_none());
    let record = parser.feed("").unwrap();
    assert_record(&record, "A", "t", "g", &["B"]);
    assert!(parser.feed("ASIN: C").is_none());
    let record = parser.feed(" ").unwrap();
    assert_record(&record, "C", "t", "g", &["B"]);
}
