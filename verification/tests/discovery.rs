use desktop_entries::discover::{applications_dir, data_dirs, desktop_name, select_desktop_files, split_list};

#[test]
fn unset_variable_falls_back_to_usr_share() {
    let dirs = data_dirs(None);
    assert_eq!(dirs, vec!["/usr/share".to_string()]);
    assert_eq!(applications_dir(&dirs[0]), "/usr/share/applications".to_string());
}

#[test]
fn set_variable_is_split_on_colons() {
    let dirs = data_dirs(Some("/usr/local/share:/usr/share"));
    assert_eq!(
        dirs,
        vec!["/usr/local/share".to_string(), "/usr/share".to_string()]
    );
}

#[test]
fn empty_segments_are_kept() {
    assert_eq!(
        split_list("/a::/b:", ':'),
        vec!["/a".to_string(), String::new(), "/b".to_string(), String::new()]
    );
}

#[test]
fn applications_dir_respects_trailing_separator() {
    assert_eq!(applications_dir("/base/"), "/base/applications".to_string());
    assert_eq!(applications_dir(""), "applications".to_string());
}

#[test]
fn non_desktop_files_ignored() {
    let names = vec!["foo.txt".to_string(), "bar.desktop".to_string()];
    assert_eq!(select_desktop_files(&names), vec!["bar.desktop".to_string()]);
}

#[test]
fn bare_extension_is_not_a_desktop_file() {
    assert!(!desktop_name(".desktop"));
    assert!(desktop_name("a.desktop"));
    assert!(desktop_name("archive.tar.desktop"));
    assert!(!desktop_name("desktop"));
    assert!(!desktop_name("note.desktop.bak"));
}
