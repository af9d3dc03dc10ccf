use zsplit::source::{Input, Source};

#[test]
fn hyphen_as_stdout() {
    assert_eq!(Source::from_os_str("-".as_ref()), Source::StdIn);
}

#[test]
fn path_as_path_buf() {
    let path = "test.txt";
    assert_eq!(
        Source::from_os_str(path.as_ref()),
        Source::PathBuf(String::from(path))
    );
}

#[test]
fn input_test_hyphen_as_stdout() {
    assert_eq!(Input::from_os_str("-".as_ref()), Input::StdIn);
}

#[test]
fn input_test_path_as_path_buf() {
    let path = "test.txt";
    assert_eq!(
        Input::from_os_str(path.as_ref()),
        Input::PathBuf(String::from(path))
    );
}

#[test]
fn only_a_single_hyphen_is_stdin() {
    assert_eq!(Source::from_os_str(""), Source::PathBuf(String::new()));
    assert_eq!(
        Source::from_os_str("--"),
        Source::PathBuf(String::from("--"))
    );
    assert_eq!(
        Source::from_os_str("-a"),
        Source::PathBuf(String::from("-a"))
    );
    assert_eq!(
        Source::from_os_str("\u{2010}"),
        Source::PathBuf(String::from("\u{2010}"))
    );
    assert_eq!(
        Source::from_os_str("./-"),
        Source::PathBuf(String::from("./-"))
    );
}

#[test]
fn source_test_hyphen_as_stdout() {
    assert_eq!(Source::from_os_str("-".as_ref()), Source::StdIn);
}

#[test]
fn source_test_path_as_path_buf() {
    let path = "test.txt";
    assert_eq!(
        Source::from_os_str(path.as_ref()),
        Source::PathBuf(String::from(path))
    );
}
