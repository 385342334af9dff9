use desktop_entries::parser::parse_lines;

fn lines(ls: &[&str]) -> Vec<String> {
    ls.iter().map(|l| l.to_string()).collect()
}

#[test]
fn parse_twice_identical() {
    let input = lines(&["[Desktop Entry]", "Name=Alpha", "Exec=alpha %U"]);
    let first = parse_lines(&input);
    let second = parse_lines(&input);
    assert_eq!(first, second);
}

#[test]
fn key_before_header_ignored() {
    let input = lines(&["Stray=1", "[Desktop Entry]", "Name=Alpha"]);
    let rec = parse_lines(&input);
    assert_eq!(rec.get("Stray"), None);
    assert_eq!(rec.get("Name"), Some(&"Alpha".to_string()));
}

#[test]
fn only_first_section_parsed() {
    let input = lines(&["[Desktop Entry]", "First=1", "[Desktop Entry]", "Second=2"]);
    let rec = parse_lines(&input);
    assert_eq!(rec.get("First"), Some(&"1".to_string()));
    assert_eq!(rec.get("Second"), None);
}

#[test]
fn foreign_section_ends_parsing() {
    let input = lines(&["[Desktop Entry]", "First=1", "[Desktop Action new]", "Second=2"]);
    let rec = parse_lines(&input);
    assert_eq!(rec.get("First"), Some(&"1".to_string()));
    assert_eq!(rec.get("Second"), None);
}

#[test]
fn header_must_match_exactly() {
    let input = lines(&["[Desktop Entry]x", "Name=Alpha"]);
    let rec = parse_lines(&input);
    assert_eq!(rec.get("Name"), None);
}

#[test]
fn file_starting_with_foreign_header_yields_empty_record() {
    let input = lines(&["[Other]", "Name=Alpha"]);
    let rec = parse_lines(&input);
    assert_eq!(rec.get("Name"), None);
}

#[test]
fn key_and_value_are_trimmed() {
    let input = lines(&["[Desktop Entry]", "  Name =  Foo Bar  "]);
    let rec = parse_lines(&input);
    assert_eq!(rec.get("Name"), Some(&"Foo Bar".to_string()));
}

#[test]
fn comments_and_blank_lines_skipped() {
    let input = lines(&["# leading comment", "", "[Desktop Entry]", "# inner comment", "", "Name=Alpha"]);
    let rec = parse_lines(&input);
    assert_eq!(rec.get("Name"), Some(&"Alpha".to_string()));
    assert_eq!(rec.get("# inner comment"), None);
}

#[test]
fn empty_value_is_kept_as_empty_string() {
    let input = lines(&["[Desktop Entry]", "Icon="]);
    let rec = parse_lines(&input);
    assert_eq!(rec.get("Icon"), Some(&String::new()));
}

#[test]
fn value_keeps_later_equals_signs() {
    let input = lines(&["[Desktop Entry]", "Exec=env A=1 run"]);
    let rec = parse_lines(&input);
    assert_eq!(rec.get("Exec"), Some(&"env A=1 run".to_string()));
}

#[test]
fn line_without_equals_is_skipped() {
    let input = lines(&["[Desktop Entry]", "malformed line", "Name=Alpha"]);
    let rec = parse_lines(&input);
    assert_eq!(rec.get("malformed line"), None);
    assert_eq!(rec.get("Name"), Some(&"Alpha".to_string()));
}

#[test]
fn empty_key_is_skipped() {
    let input = lines(&["[Desktop Entry]", "=ghost", "Name=Alpha"]);
    let rec = parse_lines(&input);
    assert_eq!(rec.get(""), None);
    assert_eq!(rec.get("Name"), Some(&"Alpha".to_string()));
}

#[test]
fn later_occurrence_overwrites_earlier() {
    let input = lines(&["[Desktop Entry]", "Name=Old", "Name=New"]);
    let rec = parse_lines(&input);
    assert_eq!(rec.get("Name"), Some(&"New".to_string()));
}

#[test]
fn empty_input_yields_empty_record() {
    let rec = parse_lines(&Vec::new());
    assert_eq!(rec.get("Name"), None);
    assert_eq!(rec, desktop_entries::record::Record::new());
}
