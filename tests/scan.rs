use password_mover::{count_files, is_target_entry, is_target_name, lowercase_name, DirEntryInfo};

fn entry(is_file: bool, name: &str) -> DirEntryInfo {
    DirEntryInfo { is_file, name: name.to_string() }
}

#[test]
fn count_finds_targets_at_every_depth() {
    // root, A/, A/passwords.txt, A/B/, A/B/password.txt, PasswordS.TXT
    let tree = vec![
        entry(false, "root"),
        entry(false, "A"),
        entry(true, "passwords.txt"),
        entry(false, "B"),
        entry(true, "password.txt"),
        entry(true, "PasswordS.TXT"),
    ];
    assert_eq!(count_files(&tree), 3);
}

#[test]
fn top_level_pass_selects_only_top_level_file() {
    let top = vec![entry(false, "A"), entry(true, "PasswordS.TXT")];
    let picked: Vec<&str> = top
        .iter()
        .filter(|e| is_target_entry(e.is_file, &e.name))
        .map(|e| e.name.as_str())
        .collect();
    assert_eq!(picked, vec!["PasswordS.TXT"]);
    assert_eq!(count_files(&top), 1);
}

#[test]
fn count_of_empty_tree_is_zero() {
    assert_eq!(count_files(&vec![]), 0);
    assert_eq!(count_files(&vec![entry(false, "root")]), 0);
}

#[test]
fn directories_and_near_names_are_not_targets() {
    assert!(!is_target_entry(false, "password.txt"));
    assert!(!is_target_entry(true, "password.txt.bak"));
    assert!(!is_target_entry(true, "mypassword.txt"));
    assert!(!is_target_entry(true, "password.tx"));
    assert!(!is_target_entry(true, "passwords"));
    assert!(is_target_entry(true, "PASSWORD.TXT"));
    assert!(is_target_entry(true, "Passwords.Txt"));
}

#[test]
fn target_names_are_exact_lowercase() {
    assert!(is_target_name("password.txt"));
    assert!(is_target_name("passwords.txt"));
    assert!(!is_target_name("Password.txt"));
    assert!(!is_target_name(""));
}

#[test]
fn lowercase_name_folds_case() {
    assert_eq!(lowercase_name("PassWordS.TXT"), "passwords.txt");
    assert_eq!(lowercase_name(""), "");
}
