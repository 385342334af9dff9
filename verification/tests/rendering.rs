use desktop_entries::parser::parse_lines;
use desktop_entries::record::Record;
use desktop_entries::render::{render, strip_tokens};

fn record(pairs: &[(&str, &str)]) -> Record {
    let mut rec = Record::new();
    for (k, v) in pairs {
        rec.insert(k.to_string(), v.to_string());
    }
    rec
}

#[test]
fn missing_key_renders_empty() {
    let recs = vec![record(&[("Name", "Editor")])];
    let out = render(&recs, "%Icon|%Name", false);
    assert_eq!(out, vec!["|Editor\n".to_string()]);
}

#[test]
fn clean_exec_strips_tokens() {
    let recs = vec![record(&[("Exec", "app %f %U")])];
    let out = render(&recs, "%Exec", true);
    assert_eq!(out, vec!["app  \n".to_string()]);
}

#[test]
fn clean_exec_off_preserves_tokens() {
    let recs = vec![record(&[("Exec", "app %f %U")])];
    let out = render(&recs, "%Exec", false);
    assert_eq!(out, vec!["app %f %U\n".to_string()]);
}

#[test]
fn clean_applies_only_to_exec() {
    let recs = vec![record(&[("Name", "x %f"), ("Exec", "run %u")])];
    let out = render(&recs, "%Name|%Exec", true);
    assert_eq!(out, vec!["x %f|run \n".to_string()]);
}

#[test]
fn duplicate_placeholder_replaced_everywhere() {
    let recs = vec![record(&[("Name", "A")])];
    let out = render(&recs, "%Name-%Name", false);
    assert_eq!(out, vec!["A-A\n".to_string()]);
}

#[test]
fn bracketed_placeholder_names_recognized() {
    let recs = vec![record(&[("Name[de]", "Editor")])];
    let out = render(&recs, "%Name[de]", false);
    assert_eq!(out, vec!["Editor\n".to_string()]);
}

#[test]
fn sigil_without_name_is_literal() {
    let recs = vec![record(&[("Name", "A")])];
    let out = render(&recs, "% |%Name", false);
    assert_eq!(out, vec!["% |A\n".to_string()]);
}

#[test]
fn no_records_renders_nothing() {
    let out = render(&Vec::new(), "%Name", false);
    assert_eq!(out, Vec::<String>::new());
}

#[test]
fn strip_tokens_removes_bracketed_tokens() {
    assert_eq!(strip_tokens("run %[file] now"), "run  now".to_string());
    assert_eq!(strip_tokens("plain"), "plain".to_string());
    assert_eq!(strip_tokens("%f"), String::new());
}

#[test]
fn end_to_end_two_files_default_format() {
    let file_a = vec![
        "[Desktop Entry]".to_string(),
        "Name=Alpha".to_string(),
        "Exec=alpha %U".to_string(),
    ];
    let file_b = vec![
        "[Desktop Entry]".to_string(),
        "Name=Beta".to_string(),
        "Exec=beta".to_string(),
    ];
    let recs = vec![parse_lines(&file_a), parse_lines(&file_b)];
    let out = render(&recs, "%Name|%Exec", false);
    assert_eq!(
        out,
        vec!["Alpha|alpha %U\n".to_string(), "Beta|beta\n".to_string()]
    );
}
