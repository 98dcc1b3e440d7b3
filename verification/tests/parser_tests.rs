use thethacore::parser::{classify, ignorable, read_header, read_key_value, section_path, Line};
use thethacore::{ErrorKind, ThethaCoreConfig, Value};

fn chars(s: &str) -> Vec<char> {
    s.chars().collect()
}


#[test]
fn test_basic_config() {
    let input = r#"
        <general>
        app_name == "TestApp"
        version == 1.0
        enabled == True
        "#;
    let config = ThethaCoreConfig::parse(input).unwrap();
    let general = config.sections.get("general").unwrap();
    assert_eq!(
        general.get("app_name"),
        Some(&Value::String("TestApp".to_string()))
    );
}

#[test]
fn test_nested_sections() {
    let input = r#"
        <database<advanced>>
        pool_size == 10
        timeout == 30
        "#;
    let config = ThethaCoreConfig::parse(input).unwrap();
    // Expect nested section to be stored as "database/advanced"
    let section = config.sections.get("database/advanced").unwrap();
    assert_eq!(section.get("pool_size"), Some(&Value::Integer(10)));
    assert_eq!(section.get("timeout"), Some(&Value::Integer(30)));
}

#[test]
fn test_array_parsing() {
    let input = r#"
        <data>
        items == ["one", "two", "three"]
        "#;
    let config = ThethaCoreConfig::parse(input).unwrap();
    if let Some(Value::Array(arr)) = config.sections.get("data").unwrap().get("items") {
        assert_eq!(arr.len(), 3);
        assert_eq!(arr[0], Value::String("one".to_string()));
    } else {
        panic!("Failed to parse array");
    }
}

#[test]
fn test_object_parsing() {
    let input = r#"
        <api>
        headers == { "Authorization" == "Bearer token", "Content-Type" == "application/json" }
        "#;
    let config = ThethaCoreConfig::parse(input).unwrap();
    if let Some(Value::Object(obj)) = config.sections.get("api").unwrap().get("headers") {
        assert_eq!(
            obj.get("Authorization"),
            Some(&Value::String("Bearer token".to_string()))
        );
        assert_eq!(
            obj.get("Content-Type"),
            Some(&Value::String("application/json".to_string()))
        );
    } else {
        panic!("Failed to parse object");
    }
}

#[test]
fn end_to_end_example() {
    let input = "<general>\napp_name == \"TestApp\"\nversion == 1.0\nenabled == True\n";
    let config = ThethaCoreConfig::parse(input).unwrap();
    assert_eq!(config.sections.len(), 1);
    let general = config.sections.get("general").unwrap();
    assert_eq!(general.len(), 3);
    assert_eq!(general.get("app_name"), Some(&Value::String("TestApp".to_string())));
    match general.get("version") {
        Some(Value::Float(text)) => assert_eq!(text.parse::<f64>().unwrap(), 1.0),
        other => panic!("not a float: {:?}", other),
    }
    assert_eq!(general.get("enabled"), Some(&Value::Boolean(true)));
    assert_eq!(general.entries[0].0, "app_name");
    assert_eq!(general.entries[1].0, "version");
    assert_eq!(general.entries[2].0, "enabled");
}

#[test]
fn empty_document_has_no_sections() {
    assert!(ThethaCoreConfig::parse("").unwrap().sections.is_empty());
    assert!(ThethaCoreConfig::parse("\n\n   \n\t\n").unwrap().sections.is_empty());
    assert!(ThethaCoreConfig::new().sections.is_empty());
}

#[test]
fn blank_lines_and_comments_are_skipped() {
    let input = "# a comment\n\n// another\n<s>\n   # indented comment\n  //x\na == 1\n\n#b == 2\n";
    let config = ThethaCoreConfig::parse(input).unwrap();
    let section = config.sections.get("s").unwrap();
    assert_eq!(section.len(), 1);
    assert_eq!(section.get("a"), Some(&Value::Integer(1)));
}

#[test]
fn comments_before_any_section_are_fine() {
    let config = ThethaCoreConfig::parse("# only\n// comments\n").unwrap();
    assert_eq!(config.sections.len(), 0);
}

#[test]
fn carriage_returns_are_white_space() {
    let config = ThethaCoreConfig::parse("<s>\r\na == 1\r\nb == \"x\"\r\n").unwrap();
    let section = config.sections.get("s").unwrap();
    assert_eq!(section.get("a"), Some(&Value::Integer(1)));
    assert_eq!(section.get("b"), Some(&Value::String("x".to_string())));
}

#[test]
fn section_path_is_canonical() {
    let input = "<database<advanced>>\npool_size == 10\n";
    let config = ThethaCoreConfig::parse(input).unwrap();
    assert_eq!(config.sections.len(), 1);
    assert_eq!(config.sections.entries[0].0, "database/advanced");
    assert!(config.sections.get("database").is_none());
    assert!(config.sections.get("advanced").is_none());
}

#[test]
fn reopened_section_keeps_its_entries() {
    let input = "<database<advanced>>\npool_size == 10\n<other>\nx == 1\n<database<advanced>>\ntimeout == 30\npool_size == 11\n";
    let config = ThethaCoreConfig::parse(input).unwrap();
    assert_eq!(config.sections.len(), 2);
    assert_eq!(config.sections.entries[0].0, "database/advanced");
    assert_eq!(config.sections.entries[1].0, "other");
    let section = config.sections.get("database/advanced").unwrap();
    assert_eq!(section.len(), 2);
    assert_eq!(section.get("pool_size"), Some(&Value::Integer(11)));
    assert_eq!(section.get("timeout"), Some(&Value::Integer(30)));
    assert_eq!(section.entries[0].0, "pool_size");
    assert_eq!(section.entries[1].0, "timeout");
    assert_eq!(config.sections.get("other").unwrap().get("x"), Some(&Value::Integer(1)));
}

#[test]
fn header_forms() {
    for (header, path) in [
        ("<a>", "a"),
        ("<a<b>", "a/b"),
        ("<a<b>>", "a/b"),
        ("<a<b<c>>>", "a/b/c"),
        ("< a < b >", "a/b"),
        ("<my section>", "my section"),
        ("<a.b-c>", "a.b-c"),
        ("<<>", "/"),
        ("< >", ""),
        ("<a<>", "a/"),
    ] {
        let config = ThethaCoreConfig::parse(&format!("{}\nk == 1\n", header)).unwrap();
        assert_eq!(config.sections.len(), 1, "{}", header);
        assert_eq!(config.sections.entries[0].0, path, "{}", header);
        assert_eq!(config.sections.get(path).unwrap().get("k"), Some(&Value::Integer(1)));
    }
}

#[test]
fn malformed_headers_are_syntax_errors() {
    for line in [
        "<>", "<a", "a>", "<a>b", "<a>b>", "<a> <b>", "<", ">", "<>>", "<a>>", "<a<b>>>", "<a> >",
    ] {
        let error = ThethaCoreConfig::parse_structured(&format!("<ok>\n{}\n", line)).unwrap_err();
        assert_eq!(error.kind, ErrorKind::Syntax, "{}", line);
        assert_eq!(error.line, 2);
        assert_eq!(error.text, line);
    }
}

#[test]
fn empty_section_is_kept() {
    let config = ThethaCoreConfig::parse("<empty>\n<full>\na == 1\n").unwrap();
    assert_eq!(config.sections.len(), 2);
    assert!(config.sections.get("empty").unwrap().is_empty());
    assert_eq!(config.sections.get("full").unwrap().len(), 1);
}

#[test]
fn later_value_overwrites() {
    let config = ThethaCoreConfig::parse("<s>\na == 1\nb == 2\na == \"three\"\n").unwrap();
    let section = config.sections.get("s").unwrap();
    assert_eq!(section.len(), 2);
    assert_eq!(section.get("a"), Some(&Value::String("three".to_string())));
    assert_eq!(section.entries[0].0, "a");
    assert_eq!(section.entries[1].0, "b");
}

#[test]
fn key_before_any_section_fails() {
    let error = ThethaCoreConfig::parse_structured("a == 1\n").unwrap_err();
    assert_eq!(error.kind, ErrorKind::KeyOutsideSection);
    assert_eq!(error.line, 1);
    assert_eq!(error.text, "a == 1");
}

#[test]
fn key_before_any_section_fails_whatever_follows() {
    let input = "# heading\n\n  a == 1  \n<s>\nb == 2\n";
    let error = ThethaCoreConfig::parse_structured(input).unwrap_err();
    assert_eq!(error.kind, ErrorKind::KeyOutsideSection);
    assert_eq!(error.line, 3);
    assert_eq!(error.text, "a == 1");
}

#[test]
fn key_outside_section_wins_over_a_bad_value() {
    let error = ThethaCoreConfig::parse_structured("a == oops\n").unwrap_err();
    assert_eq!(error.kind, ErrorKind::KeyOutsideSection);
    assert_eq!(error.line, 1);
}

#[test]
fn first_error_wins() {
    let input = "<s>\na == 1\nb == 2\nthis is not a line\nc == oops\n<t\n";
    let error = ThethaCoreConfig::parse_structured(input).unwrap_err();
    assert_eq!(error.kind, ErrorKind::Syntax);
    assert_eq!(error.line, 4);
    assert_eq!(error.text, "this is not a line");
}

#[test]
fn malformed_last_line_fails_the_whole_document() {
    let input = "<s>\na == 1\nb == 2\n<t>\nc == 3\n???";
    let error = ThethaCoreConfig::parse_structured(input).unwrap_err();
    assert_eq!(error.kind, ErrorKind::Syntax);
    assert_eq!(error.line, 6);
    assert_eq!(error.text, "???");
}

#[test]
fn value_error_carries_the_line_of_its_key() {
    let input = "<s>\n\n# c\nlist == [1, [2, nope], 3]\n";
    let error = ThethaCoreConfig::parse_structured(input).unwrap_err();
    assert_eq!(error.kind, ErrorKind::InvalidValue);
    assert_eq!(error.line, 4);
    assert_eq!(error.text, "nope");
    let input = "<s>\nobject == {a == 1, b}\n";
    let error = ThethaCoreConfig::parse_structured(input).unwrap_err();
    assert_eq!(error.kind, ErrorKind::InvalidPair);
    assert_eq!(error.line, 2);
    assert_eq!(error.text, " b");
}

#[test]
fn reparse_gives_the_same() {
    let input = "<a>\nx == [1, {k == \"v\"}]\ny == 2.50\n<b<c>>\nz == Null\n<a>\nx == 0\n";
    let first = ThethaCoreConfig::parse(input).unwrap();
    let second = ThethaCoreConfig::parse(input).unwrap();
    assert_eq!(first.sections.len(), second.sections.len());
    for i in 0..first.sections.len() {
        let (path_a, section_a) = &first.sections.entries[i];
        let (path_b, section_b) = &second.sections.entries[i];
        assert_eq!(path_a, path_b);
        assert_eq!(section_a.len(), section_b.len());
        for j in 0..section_a.len() {
            assert_eq!(section_a.entries[j].0, section_b.entries[j].0);
            assert_eq!(section_a.entries[j].1, section_b.entries[j].1);
        }
    }
    let bad = "<a>\nx == 1\noops\n";
    assert_eq!(
        ThethaCoreConfig::parse_structured(bad).unwrap_err(),
        ThethaCoreConfig::parse_structured(bad).unwrap_err()
    );
}

#[test]
fn key_value_spacing() {
    let config =
        ThethaCoreConfig::parse("<s>\na==1\nb ==2\nc== 3\nd   ==   4\ne\t==\t5\n").unwrap();
    let section = config.sections.get("s").unwrap();
    for (key, number) in [("a", 1), ("b", 2), ("c", 3), ("d", 4), ("e", 5)] {
        assert_eq!(section.get(key), Some(&Value::Integer(number)));
    }
}

#[test]
fn identifiers_hold_letters_digits_and_underscores() {
    let config =
        ThethaCoreConfig::parse("<s>\n_a1 == 1\n9lives == 2\ngröße == 3\n名前 == 4\n").unwrap();
    let section = config.sections.get("s").unwrap();
    assert_eq!(section.get("_a1"), Some(&Value::Integer(1)));
    assert_eq!(section.get("9lives"), Some(&Value::Integer(2)));
    assert_eq!(section.get("größe"), Some(&Value::Integer(3)));
    assert_eq!(section.get("名前"), Some(&Value::Integer(4)));
}

#[test]
fn malformed_key_value_lines_are_syntax_errors() {
    for line in ["a = 1", "a ==", "== 1", "a-b == 1", "a b == 1", "a: 1", "a", "a.b == 1", "\"a\" == 1"] {
        let error = ThethaCoreConfig::parse_structured(&format!("<s>\n{}\n", line)).unwrap_err();
        assert_eq!(error.kind, ErrorKind::Syntax, "{}", line);
        assert_eq!(error.line, 2);
        assert_eq!(error.text, line);
    }
}

#[test]
fn value_may_start_with_the_marker_sign() {
    let error = ThethaCoreConfig::parse_structured("<s>\na === 1\n").unwrap_err();
    assert_eq!(error.kind, ErrorKind::InvalidValue);
    assert_eq!(error.text, "= 1");
}

#[test]
fn sections_are_opened_and_filled_by_hand() {
    let mut config = ThethaCoreConfig::new();
    assert_eq!(
        config.insert("s", "k".to_string(), Value::Integer(1)),
        Err(ErrorKind::SectionNotInitialized)
    );
    assert!(config.sections.is_empty());
    config.open_section("s".to_string());
    assert_eq!(config.insert("s", "k".to_string(), Value::Integer(1)), Ok(()));
    assert_eq!(config.insert("s", "l".to_string(), Value::Null), Ok(()));
    assert_eq!(config.insert("s", "k".to_string(), Value::Integer(2)), Ok(()));
    assert_eq!(
        config.insert("t", "k".to_string(), Value::Integer(3)),
        Err(ErrorKind::SectionNotInitialized)
    );
    config.open_section("t".to_string());
    config.open_section("s".to_string());
    assert_eq!(config.sections.len(), 2);
    let section = config.sections.get("s").unwrap();
    assert_eq!(section.len(), 2);
    assert_eq!(section.get("k"), Some(&Value::Integer(2)));
    assert_eq!(section.get("l"), Some(&Value::Null));
    assert!(config.sections.get("t").unwrap().is_empty());
}

#[test]
fn clone_of_a_configuration_holds_the_same() {
    let config = ThethaCoreConfig::parse("<a>\nx == [1, {k == \"v\"}]\n<b>\ny == 2.5\n").unwrap();
    let copy = config.clone();
    assert_eq!(copy.sections.len(), 2);
    assert_eq!(copy.sections.entries[0].0, "a");
    assert_eq!(copy.sections.entries[1].0, "b");
    assert_eq!(
        copy.sections.get("a").unwrap().get("x"),
        config.sections.get("a").unwrap().get("x")
    );
    assert_eq!(
        copy.sections.get("b").unwrap().get("y"),
        Some(&Value::Float("2.5".to_string()))
    );
}

#[test]
fn lines_are_classified() {
    let line = chars("# note");
    assert!(matches!(classify(&line), Line::Ignorable));
    let line = chars("");
    assert!(matches!(classify(&line), Line::Ignorable));
    let line = chars("//");
    assert!(matches!(classify(&line), Line::Ignorable));
    let line = chars("/ x");
    assert!(matches!(classify(&line), Line::Unrecognized));
    let line = chars("<a<b>>");
    match classify(&line) {
        Line::Header(names) => assert_eq!(names, &chars("a<b")[..]),
        _ => panic!("not a header"),
    }
    let line = chars("key  ==  [1, 2]");
    match classify(&line) {
        Line::KeyValue(key, token) => {
            assert_eq!(key, &chars("key")[..]);
            assert_eq!(token, &chars("[1, 2]")[..]);
        }
        _ => panic!("not a key with its value"),
    }
    let line = chars("key == value   ");
    match classify(&line) {
        Line::KeyValue(_, token) => assert_eq!(token, &chars("value")[..]),
        _ => panic!("not a key with its value"),
    }
}

#[test]
fn header_and_key_value_readers() {
    assert_eq!(read_header(&chars("<a>")), Some(&chars("a")[..]));
    assert_eq!(read_header(&chars("<a>>>")), None);
    assert_eq!(read_header(&chars("<a<b<c>>>")), Some(&chars("a<b<c")[..]));
    assert_eq!(read_header(&chars("<a<b<c>>")), Some(&chars("a<b<c")[..]));
    assert_eq!(read_header(&chars("<a<b<c>>>>")), None);
    assert_eq!(read_header(&chars("<>")), None);
    assert_eq!(read_header(&chars("<a>b>")), None);
    assert_eq!(read_header(&chars(" <a>")), None);
    assert_eq!(read_header(&chars("")), None);
    assert_eq!(
        read_key_value(&chars("k==v")),
        Some((&chars("k")[..], &chars("v")[..]))
    );
    assert_eq!(read_key_value(&chars("k== ")), None);
    assert_eq!(read_key_value(&chars("k=")), None);
    assert_eq!(read_key_value(&chars("k")), None);
    assert_eq!(read_key_value(&chars("")), None);
    assert!(ignorable(&chars("#")));
    assert!(!ignorable(&chars(" #")));
}

#[test]
fn section_paths_are_joined_with_slashes() {
    assert_eq!(section_path(&chars("database<advanced")), "database/advanced");
    assert_eq!(section_path(&chars("  a  <  b  <c")), "a/b/c");
    assert_eq!(section_path(&chars("single")), "single");
    assert_eq!(section_path(&chars("")), "");
    assert_eq!(section_path(&chars("<<")), "//");
}

#[test]
fn parse_gives_an_error_as_its_message() {
    assert_eq!(
        ThethaCoreConfig::parse("<s>\na == 1\nbroken line\n").unwrap_err(),
        "❌ Syntax error on line 3: 'broken line'"
    );
    assert_eq!(
        ThethaCoreConfig::parse("a == 1\n<s>\n").unwrap_err(),
        "❌ Error on line 1: Key-value pair found outside of a section"
    );
    assert_eq!(
        ThethaCoreConfig::parse("<s>\n\na == [1, 2x]\n").unwrap_err(),
        "❌ Syntax error on line 3: Unable to parse value '2x'"
    );
    assert_eq!(
        ThethaCoreConfig::parse("<s>\na == {b: 1}\n").unwrap_err(),
        "❌ Syntax error on line 2: Invalid object pair 'b: 1'"
    );
    let bad = "<s>\noops\n";
    assert_eq!(ThethaCoreConfig::parse(bad).unwrap_err(), ThethaCoreConfig::parse(bad).unwrap_err());
    assert_eq!(
        ThethaCoreConfig::parse(bad).unwrap_err(),
        ThethaCoreConfig::parse_structured(bad).unwrap_err().message()
    );
}

#[test]
fn both_parsers_read_the_same_document() {
    let input = "<a>\nx == [1, {k == \"v\"}]\n<b<c>>\ny == -2.5e3\nz == Null\n";
    let plain = ThethaCoreConfig::parse(input).unwrap();
    let structured = ThethaCoreConfig::parse_structured(input).unwrap();
    assert_eq!(plain.sections.len(), structured.sections.len());
    for i in 0..plain.sections.len() {
        assert_eq!(plain.sections.entries[i].0, structured.sections.entries[i].0);
        assert_eq!(plain.sections.entries[i].1.entries, structured.sections.entries[i].1.entries);
    }
}

#[test]
fn document_with_every_kind_of_line() {
    let input = "# the service\n<general>\napp_name == \"TestApp\"\nversion == 1.0\nenabled == True\n<database<advanced>>\nhosts == [\"a\", \"b\"]\nlimits == { \"soft\" == 10, \"hard\" == 20 }\n";
    let config = ThethaCoreConfig::parse(input).unwrap();
    assert_eq!(config.sections.len(), 2);
    let general = config.sections.get("general").unwrap();
    assert_eq!(general.len(), 3);
    assert_eq!(general.get("enabled"), Some(&Value::Boolean(true)));
    let advanced = config.sections.get("database/advanced").unwrap();
    assert_eq!(
        advanced.get("hosts"),
        Some(&Value::Array(vec![Value::String("a".to_string()), Value::String("b".to_string())]))
    );
    match advanced.get("limits") {
        Some(Value::Object(limits)) => {
            assert_eq!(limits.get("soft"), Some(&Value::Integer(10)));
            assert_eq!(limits.get("hard"), Some(&Value::Integer(20)));
        }
        other => panic!("not an object: {:?}", other),
    }
}
