use lookup::command::{parse_args, ArgError, Command};

fn args(words: &[&str]) -> Vec<Vec<u8>> {
    words.iter().map(|w| w.as_bytes().to_vec()).collect()
}

#[test]
fn no_arguments_is_an_error() {
    assert!(matches!(parse_args(&args(&[])), Err(ArgError::NotEnoughArguments)));
}

#[test]
fn five_or_more_arguments_is_an_error() {
    assert!(matches!(
        parse_args(&args(&["set", "p", "s", "v", "extra"])),
        Err(ArgError::TooManyArguments)
    ));
    assert!(matches!(
        parse_args(&args(&["a", "b", "c", "d", "e", "f"])),
        Err(ArgError::TooManyArguments)
    ));
}

#[test]
fn unrecognized_command_is_an_error() {
    assert!(matches!(parse_args(&args(&["frobnicate"])), Err(ArgError::InvalidCommand)));
    assert!(matches!(parse_args(&args(&["GET", "p", "s"])), Err(ArgError::InvalidCommand)));
}

#[test]
fn help_parses_alone_only() {
    assert!(matches!(parse_args(&args(&["help"])), Ok(Command::Help)));
    assert!(matches!(parse_args(&args(&["help", "me"])), Err(ArgError::TooManyArguments)));
}

#[test]
fn get_needs_exactly_two_values() {
    assert!(matches!(parse_args(&args(&["get"])), Err(ArgError::MissingValueForGet)));
    assert!(matches!(parse_args(&args(&["get", "p"])), Err(ArgError::MissingValueForGet)));
    match parse_args(&args(&["get", "p1", "s1"])) {
        Ok(Command::Get { project, sample }) => {
            assert_eq!(project, b"p1".to_vec());
            assert_eq!(sample, b"s1".to_vec());
        }
        other => panic!("unexpected parse: {:?}", other.is_ok()),
    }
    assert!(matches!(parse_args(&args(&["get", "p", "s", "x"])), Err(ArgError::TooManyArguments)));
}

#[test]
fn set_needs_exactly_three_values() {
    assert!(matches!(parse_args(&args(&["set"])), Err(ArgError::MissingValueForSet)));
    assert!(matches!(parse_args(&args(&["set", "p"])), Err(ArgError::MissingValueForSet)));
    assert!(matches!(parse_args(&args(&["set", "p", "s"])), Err(ArgError::MissingValueForSet)));
    match parse_args(&args(&["set", "p1", "s1", "/a/b"])) {
        Ok(Command::SetPath { project, sample, path }) => {
            assert_eq!(project, b"p1".to_vec());
            assert_eq!(sample, b"s1".to_vec());
            assert_eq!(path, b"/a/b".to_vec());
        }
        other => panic!("unexpected parse: {:?}", other.is_ok()),
    }
}

#[test]
fn delete_takes_one_or_two_values() {
    assert!(matches!(parse_args(&args(&["delete"])), Err(ArgError::MissingValueForDelete)));
    match parse_args(&args(&["delete", "p1"])) {
        Ok(Command::DeleteProject { project }) => assert_eq!(project, b"p1".to_vec()),
        other => panic!("unexpected parse: {:?}", other.is_ok()),
    }
    match parse_args(&args(&["delete", "p1", "s1"])) {
        Ok(Command::DeleteSample { project, sample }) => {
            assert_eq!(project, b"p1".to_vec());
            assert_eq!(sample, b"s1".to_vec());
        }
        other => panic!("unexpected parse: {:?}", other.is_ok()),
    }
    assert!(matches!(
        parse_args(&args(&["delete", "p", "s", "x"])),
        Err(ArgError::TooManyArguments)
    ));
}

#[test]
fn list_parses_alone_only() {
    assert!(matches!(parse_args(&args(&["list"])), Ok(Command::List)));
    assert!(matches!(parse_args(&args(&["list", "x"])), Err(ArgError::TooManyArguments)));
}
