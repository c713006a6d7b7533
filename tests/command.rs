use minkdb::{parse_command, CommandError, Request};

#[test]
fn parse_command_splits_words() {
    let cmd = parse_command("  put   alice\t30 \n").unwrap();
    assert_eq!(cmd.operation, b"put".to_vec());
    assert_eq!(cmd.arguments, vec![b"alice".to_vec(), b"30".to_vec()]);
}

#[test]
fn parse_command_empty_input() {
    assert_eq!(parse_command("").unwrap_err(), CommandError::Empty);
    assert_eq!(parse_command(" \t\n").unwrap_err(), CommandError::Empty);
}

#[test]
fn parse_command_missing_arguments() {
    assert_eq!(parse_command("get\n").unwrap_err(), CommandError::MissingArguments);
}

#[test]
fn parse_command_keeps_extra_arguments() {
    let cmd = parse_command("put a b c").unwrap();
    assert_eq!(cmd.arguments.len(), 3);
}

#[test]
fn request_put_and_get() {
    match parse_command("put alice 30\n").unwrap().request() {
        Ok(Request::Put { key, value }) => {
            assert_eq!(key, b"alice".to_vec());
            assert_eq!(value, b"30".to_vec());
        }
        other => panic!("unexpected {:?}", other),
    }
    match parse_command("get bob").unwrap().request() {
        Ok(Request::Get { key }) => assert_eq!(key, b"bob".to_vec()),
        other => panic!("unexpected {:?}", other),
    }
}

#[test]
fn request_wrong_arity() {
    let r = parse_command("put alice").unwrap().request();
    assert!(matches!(r, Err(CommandError::WrongArity)));
    let r = parse_command("put a b c").unwrap().request();
    assert!(matches!(r, Err(CommandError::WrongArity)));
    let r = parse_command("get a b").unwrap().request();
    assert!(matches!(r, Err(CommandError::WrongArity)));
}

#[test]
fn request_unknown_operation() {
    let r = parse_command("delete alice").unwrap().request();
    assert!(matches!(r, Err(CommandError::UnknownOperation)));
    let r = parse_command("PUT a b").unwrap().request();
    assert!(matches!(r, Err(CommandError::UnknownOperation)));
}

#[test]
fn parse_command_splits_on_unicode_whitespace() {
    let cmd = parse_command("a\u{3000}b").unwrap();
    assert_eq!(cmd.operation, b"a".to_vec());
    assert_eq!(cmd.arguments, vec![b"b".to_vec()]);
    let cmd = parse_command("put\u{a0}k\u{2009}v\u{85}").unwrap();
    assert_eq!(cmd.operation, b"put".to_vec());
    assert_eq!(cmd.arguments, vec![b"k".to_vec(), b"v".to_vec()]);
}

#[test]
fn parse_command_unicode_whitespace_only_is_empty() {
    assert_eq!(parse_command("\u{3000}").unwrap_err(), CommandError::Empty);
    assert_eq!(parse_command("\u{1680}\u{2028} \u{205f}").unwrap_err(), CommandError::Empty);
}

#[test]
fn parse_command_unicode_space_then_one_word_misses_arguments() {
    assert_eq!(
        parse_command("\u{3000} a").unwrap_err(),
        CommandError::MissingArguments
    );
}

#[test]
fn parse_command_arguments_hold_no_unicode_whitespace() {
    let cmd = parse_command("a b\u{3000}c").unwrap();
    assert_eq!(cmd.arguments, vec![b"b".to_vec(), b"c".to_vec()]);
}

#[test]
fn parse_command_agrees_on_equal_tokens() {
    let a = parse_command("a b").unwrap();
    let b = parse_command("a\u{3000}b").unwrap();
    assert_eq!(a.operation, b.operation);
    assert_eq!(a.arguments, b.arguments);
}

#[test]
fn parse_command_keeps_non_space_multibyte_characters() {
    let cmd = parse_command("get cl\u{e9}\u{2010}x").unwrap();
    assert_eq!(cmd.arguments, vec!["cl\u{e9}\u{2010}x".as_bytes().to_vec()]);
}
