use jwalk::{file_name_of, is_hidden, join};

#[test]
fn join_puts_a_separator_between() {
    assert_eq!(join(&b"a".to_vec(), &b"b".to_vec()), b"a/b".to_vec());
    assert_eq!(join(&b"a/".to_vec(), &b"b".to_vec()), b"a/b".to_vec());
    assert_eq!(join(&b"".to_vec(), &b"b".to_vec()), b"b".to_vec());
    assert_eq!(join(&b"a".to_vec(), &b"/b".to_vec()), b"/b".to_vec());
}

#[test]
fn hidden_names_start_with_a_dot() {
    assert!(is_hidden(&b".git".to_vec()));
    assert!(!is_hidden(&b"a.txt".to_vec()));
    assert!(!is_hidden(&b"".to_vec()));
}

#[test]
fn file_name_is_the_last_component() {
    assert_eq!(file_name_of(&b"/tmp/test_dir/a.txt".to_vec()), b"a.txt".to_vec());
    assert_eq!(file_name_of(&b"/tmp/test_dir/".to_vec()), b"test_dir".to_vec());
    assert_eq!(file_name_of(&b"/".to_vec()), b"/".to_vec());
    assert_eq!(file_name_of(&b"name".to_vec()), b"name".to_vec());
}
