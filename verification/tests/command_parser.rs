use r2d2::command::Command;
use r2d2::command_parser::{parse, Error};

#[test]
fn parse_ignored_whitespace() {
    assert_eq!(parse(&String::from("   :list_keys    ")), Ok(Command::ListKeys))
}

#[test]
fn parse_insert_succeeds() {
    assert_eq!(
        parse(&String::from(":insert foo bar")),
        Ok(Command::Insert(String::from("foo"), String::from("bar")))
    )
}

#[test]
fn parse_insert_fails_when_key_is_missing() {
    assert_eq!(parse(&String::from(":insert")), Err(Error::ParseError))
}

#[test]
fn parse_insert_fails_when_value_is_missing() {
    assert_eq!(parse(&String::from(":insert bar")), Err(Error::ParseError))
}

#[test]
fn parse_delete_succeeds() {
    assert_eq!(
        parse(&String::from(":delete foo")),
        Ok(Command::Delete(String::from("foo")))
    );
}

#[test]
fn parse_delete_fails_when_key_is_missing() {
    assert_eq!(parse(&String::from(":delete  ")), Err(Error::ParseError))
}

#[test]
fn parse_lookup_succeeds() {
    assert_eq!(
        parse(&String::from(":lookup foo")),
        Ok(Command::Lookup(String::from("foo")))
    )
}

#[test]
fn parse_lookup_fails_when_key_is_missing() {
    assert_eq!(parse(&String::from(":lookup  ")), Err(Error::ParseError))
}

#[test]
fn parse_list_keys_succeeds() {
    assert_eq!(parse(&String::from(":list_keys")), Ok(Command::ListKeys))
}

#[test]
fn parse_help_succeeds() {
    assert_eq!(parse(&String::from(":help")), Ok(Command::Help))
}

#[test]
fn parse_quit_succeeds() {
    assert_eq!(parse(&String::from(":quit")), Ok(Command::Quit))
}

#[test]
fn parse_rejects_extra_words() {
    assert_eq!(parse(&String::from(":quit now")), Err(Error::ParseError));
    assert_eq!(parse(&String::from(":insert a b c")), Err(Error::ParseError));
}

#[test]
fn parse_rejects_empty_line() {
    assert_eq!(parse(&String::from("")), Err(Error::ParseError));
    assert_eq!(parse(&String::from("   ")), Err(Error::ParseError));
}

#[test]
fn parse_handles_tabs_between_words() {
    assert_eq!(
        parse(&String::from("\t:insert\tfoo\tbar\t")),
        Ok(Command::Insert(String::from("foo"), String::from("bar")))
    )
}
