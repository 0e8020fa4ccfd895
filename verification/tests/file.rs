use doorstop_rs::doorstop::file::{is_doorstop_config, is_hidden_dir, is_yml_with_prefix, DirEntry};

fn entry(name: Option<&str>, is_dir: bool, is_file: bool) -> DirEntry {
    DirEntry {
        path: format!("some/where/{}", name.unwrap_or("?")),
        file_name: name.map(|n| n.to_string()),
        is_dir,
        is_file,
    }
}

#[test]
fn hidden_directories_begin_with_a_dot() {
    assert!(is_hidden_dir(&entry(Some(".git"), true, false)));
    assert!(is_hidden_dir(&entry(Some("."), true, false)));
    assert!(!is_hidden_dir(&entry(Some(".git"), false, true)));
    assert!(!is_hidden_dir(&entry(Some("git"), true, false)));
    assert!(!is_hidden_dir(&entry(Some("a.b"), true, false)));
    assert!(!is_hidden_dir(&entry(Some(""), true, false)));
    assert!(!is_hidden_dir(&entry(None, true, false)));
}

#[test]
fn descriptors_go_by_their_name() {
    assert!(is_doorstop_config(&entry(Some(".doorstop.yml"), false, true)));
    assert!(is_doorstop_config(&entry(Some(".doorstop.yml"), true, false)));
    assert!(!is_doorstop_config(&entry(Some("doorstop.yml"), false, true)));
    assert!(!is_doorstop_config(&entry(Some(".doorstop.yml "), false, true)));
    assert!(!is_doorstop_config(&entry(Some(".DOORSTOP.YML"), false, true)));
    assert!(!is_doorstop_config(&entry(Some(""), false, true)));
    assert!(!is_doorstop_config(&entry(None, false, true)));
}

#[test]
fn item_files_go_by_prefix_and_ending() {
    assert!(is_yml_with_prefix(&entry(Some("REQ001.yml"), false, true), "REQ"));
    assert!(is_yml_with_prefix(&entry(Some("REQ.yml"), false, true), "REQ"));
    assert!(is_yml_with_prefix(&entry(Some("REQ001.yml"), false, true), ""));
    assert!(is_yml_with_prefix(&entry(Some(".yml"), false, true), ".yml"));
    assert!(!is_yml_with_prefix(&entry(Some("REQ001.yml"), true, false), "REQ"));
    assert!(!is_yml_with_prefix(&entry(Some("REQ001.yml"), false, false), "REQ"));
    assert!(!is_yml_with_prefix(&entry(Some("REQ001.yaml"), false, true), "REQ"));
    assert!(!is_yml_with_prefix(&entry(Some("TUT001.yml"), false, true), "REQ"));
    assert!(!is_yml_with_prefix(&entry(Some("req001.yml"), false, true), "REQ"));
    assert!(!is_yml_with_prefix(&entry(Some("RE.yml"), false, true), "REQ"));
    assert!(!is_yml_with_prefix(&entry(None, false, true), "REQ"));
}
