use password_mover::{chars_of, decimal_chars, extension, make_name, same_chars, NameError, Run};

#[test]
fn name_holds_stamp_and_sequence() {
    assert_eq!(
        make_name("password.txt", 1700000000123456, 3),
        Ok("password.txt_1700000000123456_3.txt".to_string())
    );
    assert_eq!(make_name("PasswordS.TXT", 0, 0), Ok("PasswordS.TXT_0_0.TXT".to_string()));
}

#[test]
fn names_differ_by_sequence_with_equal_stamps() {
    let a = make_name("password.txt", 42, 9).unwrap();
    let b = make_name("password.txt", 42, 10).unwrap();
    assert_ne!(a, b);
    assert_eq!(a, "password.txt_42_9.txt");
    assert_eq!(b, "password.txt_42_10.txt");
}

#[test]
fn name_without_extension_is_refused() {
    assert_eq!(make_name("README", 1, 1), Err(NameError::NoExtension));
    assert_eq!(make_name(".hidden", 1, 1), Err(NameError::NoExtension));
    assert_eq!(make_name("..", 1, 1), Err(NameError::NoExtension));
    assert_eq!(make_name("", 1, 1), Err(NameError::NoExtension));
}

#[test]
fn trailing_dot_gives_empty_extension() {
    assert_eq!(make_name("a.", 1, 2), Ok("a._1_2.".to_string()));
}

#[test]
fn extension_follows_last_dot() {
    assert_eq!(extension(&chars_of("archive.tar.gz")), Some(chars_of("gz")));
    assert_eq!(extension(&chars_of(".bashrc")), None);
    assert_eq!(extension(&chars_of(".config.toml")), Some(chars_of("toml")));
    assert_eq!(extension(&chars_of("plain")), None);
}

#[test]
fn decimal_digits_of_extremes() {
    assert_eq!(decimal_chars(0), vec!['0']);
    assert_eq!(decimal_chars(10), vec!['1', '0']);
    assert_eq!(
        decimal_chars(u128::MAX),
        chars_of("340282366920938463463374607431768211455")
    );
}

#[test]
fn run_hands_out_increasing_sequence_numbers() {
    let mut run = Run::start(2).unwrap();
    assert_eq!(run.next_name("password.txt", 7), Ok("password.txt_7_0.txt".to_string()));
    assert_eq!(run.next_name("password.txt", 7), Ok("password.txt_7_1.txt".to_string()));
    assert_eq!(run.next_name("noext", 7), Err(NameError::NoExtension));
    assert_eq!(run.next_seq(), 3);
    assert_eq!(run.completed(), 0);
}

#[test]
fn empty_count_starts_no_run() {
    assert!(Run::start(0).is_none());
}

#[test]
fn position_passes_total_when_files_are_met_twice() {
    // one top-level file attempted in the first pass, then all three again
    let mut run = Run::start(3).unwrap();
    assert_eq!(run.record_attempt(), 1);
    assert_eq!(run.record_attempt(), 2);
    assert_eq!(run.record_attempt(), 3);
    assert_eq!(run.record_attempt(), 4);
    assert!(run.completed() > run.total());
    assert_eq!(run.total(), 3);
}

#[test]
fn chars_are_split_one_by_one() {
    assert_eq!(chars_of("päss"), vec!['p', 'ä', 's', 's']);
    assert!(same_chars("päss", "päss"));
    assert!(!same_chars("päss", "pass"));
    assert!(!same_chars("päss", "päs"));
}
