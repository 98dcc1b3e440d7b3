use thethacore::{parse_value, ErrorKind, ParseError, ThethaCoreConfig};

fn error(kind: ErrorKind, line: usize, text: &str) -> ParseError {
    ParseError { kind, line, text: text.to_string() }
}

#[test]
fn messages_say_what_went_wrong() {
    assert_eq!(
        error(ErrorKind::Syntax, 3, "what is this").message(),
        "❌ Syntax error on line 3: 'what is this'"
    );
    assert_eq!(
        error(ErrorKind::KeyOutsideSection, 1, "a == 1").message(),
        "❌ Error on line 1: Key-value pair found outside of a section"
    );
    assert_eq!(
        error(ErrorKind::SectionNotInitialized, 12, "database/advanced").message(),
        "❌ Error on line 12: Section 'database/advanced' not initialized"
    );
    assert_eq!(
        error(ErrorKind::InvalidValue, 40, "42x").message(),
        "❌ Syntax error on line 40: Unable to parse value '42x'"
    );
    assert_eq!(
        error(ErrorKind::InvalidPair, 105, " b = 2").message(),
        "❌ Syntax error on line 105: Invalid object pair ' b = 2'"
    );
    assert_eq!(
        error(ErrorKind::NestingTooDeep, 7, "[1]").message(),
        "❌ Syntax error on line 7: Value nested too deeply '[1]'"
    );
}

#[test]
fn messages_of_parse_errors() {
    let failure = ThethaCoreConfig::parse_structured("<s>\na == 1\nbroken line\n").unwrap_err();
    assert_eq!(failure.message(), "❌ Syntax error on line 3: 'broken line'");
    let failure = ThethaCoreConfig::parse_structured("\n\na == 1\n").unwrap_err();
    assert_eq!(
        failure.message(),
        "❌ Error on line 3: Key-value pair found outside of a section"
    );
    let failure = parse_value("{a}", 10).unwrap_err();
    assert_eq!(failure.message(), "❌ Syntax error on line 10: Invalid object pair 'a'");
    let failure = ThethaCoreConfig::parse_structured("<s>\nv == [1, ?]").unwrap_err();
    assert_eq!(failure.message(), "❌ Syntax error on line 2: Unable to parse value '?'");
}

#[test]
fn errors_are_copied_and_compared() {
    let first = error(ErrorKind::InvalidValue, 2, "x");
    let copy = first.clone();
    assert_eq!(first, copy);
    assert_eq!(copy.kind, ErrorKind::InvalidValue);
    assert_eq!(copy.line, 2);
    assert_eq!(copy.text, "x");
    assert_ne!(first, error(ErrorKind::InvalidValue, 3, "x"));
    assert_ne!(first, error(ErrorKind::InvalidPair, 2, "x"));
    assert_ne!(first, error(ErrorKind::InvalidValue, 2, "y"));
}
