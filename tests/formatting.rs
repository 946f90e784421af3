use ecf::errors::RetrieveSettingError;
use ecf::{merge_values, File, FormatEntryError, LayoutEntry, MergePolicy, ParseEntryError, Value, ValueMap};

fn parse(text: &str) -> (File, bool, Vec<ParseEntryError>) {
    let none: [fn(&mut ValueMap, &mut ()); 0] = [];
    File::from_str(text, &none, &mut ())
}

fn pairs(m: &ValueMap) -> Vec<(String, Value)> {
    let mut out = Vec::new();
    for i in 0..m.len() {
        out.push((m.key_at(i).clone(), m.value_at(i).clone()));
    }
    out
}

fn map_of(items: &[(&str, i64)]) -> ValueMap {
    let mut m = ValueMap::new();
    for (k, v) in items {
        m.insert(k.to_string(), Value::I64(*v));
    }
    m
}

#[test]
fn value_rendering() {
    assert_eq!(Value::Empty.format(), "empty");
    assert_eq!(Value::I64(42).format(), "42");
    assert_eq!(Value::I64(-5).format(), "-5");
    assert_eq!(Value::I64(i64::MIN).format(), "-9223372036854775808");
    assert_eq!(Value::F64("3.5".to_string()).format(), "3.5");
    assert_eq!(Value::Bool(true).format(), "true");
    assert_eq!(Value::Bool(false).format(), "false");
    assert_eq!(Value::String("x y".to_string()).format(), "\"x y\"");
    assert_eq!(Value::String("a\nb".to_string()).format(), "\"\n\"a\n\"b");
    assert_eq!(Value::String(String::new()).format(), "\"\"");
}

#[test]
fn kind_names() {
    assert_eq!(Value::Empty.type_as_string(), "Empty");
    assert_eq!(Value::I64(1).type_as_string(), "Int");
    assert_eq!(Value::F64("1.5".to_string()).type_as_string(), "Float");
    assert_eq!(Value::Bool(true).type_as_string(), "Bool");
    assert_eq!(Value::String(String::new()).type_as_string(), "String");
    assert_eq!(Value::Empty.type_as_singular_string(), "an Empty");
    assert_eq!(Value::I64(1).type_as_singular_string(), "an Int");
    assert_eq!(Value::F64("1.5".to_string()).type_as_singular_string(), "a Float");
    assert_eq!(Value::Bool(true).type_as_singular_string(), "a Bool");
    assert_eq!(Value::String(String::new()).type_as_singular_string(), "a String");
}

#[test]
fn format_writes_layout_then_new_keys() {
    let (mut file, _, _) = parse("format 1\na: 1\na: 2\n\n# note\nm: \"\n\"x\n\"y");
    file.insert("new".to_string(), Value::Bool(true));
    let (text, errors) = file.to_str();
    assert!(errors.is_empty());
    assert_eq!(text, "format 1\na: 1\n#a: 2\n\n# note\nm: \"\n\"x\n\"y\nnew: true");
}

#[test]
fn format_multiline_comment_and_empty_file() {
    let (file, _, _) = parse("format 2\n##\nx\ny\n##");
    assert_eq!(file.to_str().0, "format 1\n##\nx\ny\n##");
    let file = File { values: ValueMap::new(), layout: Vec::new(), version: 4 };
    let (text, errors) = file.to_str();
    assert_eq!(text, "format 4");
    assert!(errors.is_empty());
}

#[test]
fn format_reports_missing_key_and_omits_line() {
    let file = File {
        values: map_of(&[("y", 2)]),
        layout: vec![
            LayoutEntry::Key("x".to_string()),
            LayoutEntry::Key("y".to_string()),
        ],
        version: 1,
    };
    let (text, errors) = file.to_str();
    assert_eq!(text, "format 1\ny: 2");
    assert_eq!(errors, vec![FormatEntryError { missing_key: "x".to_string() }]);
    assert_eq!(
        errors[0].describe(),
        "Failed to format configuration entry, no value found for key x"
    );
}

#[test]
fn round_trip_keeps_values() {
    let text = "format 1\n# c\nname: \"ecf\"\ncount: 12\nratio: 0.25\nflag: FALSE\nnothing: empty\nlong: \"\n\"one\n\" two\n\n##\nblock\n##\nbroken line\nname: \"again\"";
    let (first, _, errors) = parse(text);
    assert_eq!(errors.len(), 2);
    let (written, format_errors) = first.to_str();
    assert!(format_errors.is_empty());
    let (second, _, errors) = parse(&written);
    assert!(errors.is_empty());
    assert_eq!(pairs(&second.values), pairs(&first.values));
    let (again, _) = second.to_str();
    let (third, _, errors) = parse(&again);
    assert!(errors.is_empty());
    assert_eq!(pairs(&third.values), pairs(&first.values));
}

#[test]
fn typed_getters() {
    let (mut file, _, _) = parse("format 1\ns: \"hi\"\nn: 5\nf: 2.5\nb: false\ne: empty");
    assert_eq!(file.get_str("s"), Ok("hi"));
    assert_eq!(file.get_int("n"), Ok(5));
    assert_eq!(file.get_bool("b"), Ok(false));
    assert_eq!(file.get_empty("e"), Ok(()));
    assert_eq!(file.get_float_literal("f"), Ok("2.5"));
    assert_eq!(file.get_number_literal("n"), Ok("5".to_string()));
    assert_eq!(file.get_number_literal("f"), Ok("2.5".to_string()));
    assert_eq!(
        file.get_int("s"),
        Err(RetrieveSettingError::WrongSingularType {
            key: "s".to_string(),
            expected: "Int".to_string(),
            encountered: "String".to_string(),
        })
    );
    assert_eq!(
        file.get_empty("n"),
        Err(RetrieveSettingError::WrongSingularType {
            key: "n".to_string(),
            expected: "empty".to_string(),
            encountered: "Int".to_string(),
        })
    );
    assert_eq!(
        file.get_bool("missing"),
        Err(RetrieveSettingError::Missing { key: "missing".to_string() })
    );
    let err = file.get_number_literal("b").unwrap_err();
    assert_eq!(
        err,
        RetrieveSettingError::WrongMultipleType {
            key: "b".to_string(),
            expected: vec!["Int".to_string(), "Float".to_string()],
            encountered: "Bool".to_string(),
        }
    );
    assert_eq!(err.describe(), "Setting 'b' was expected to be of type Int or Float but found type 'Bool'");
    assert_eq!(file.get_str("n").unwrap_err().describe(), "Setting 'n' was expected to be of type 'String', but is of type 'Int'");
    assert_eq!(file.get_int("zz").unwrap_err().describe(), "Setting 'zz' does not exist");

    *file.get_int_mut("n").unwrap() = 7;
    assert_eq!(file.get_int("n"), Ok(7));
    *file.get_bool_mut("b").unwrap() = true;
    assert_eq!(file.get_bool("b"), Ok(true));
    file.get_string_mut("s").unwrap().push_str(" there");
    assert_eq!(file.get_str("s"), Ok("hi there"));
    *file.get_float_literal_mut("f").unwrap() = "4.75".to_string();
    assert_eq!(file.get("f"), Some(&Value::F64("4.75".to_string())));
    assert!(file.get_int_mut("s").is_err());
    assert!(file.get_string_mut("absent").is_err());
}

#[test]
fn describe_lists_of_kinds() {
    let one = RetrieveSettingError::new_wrong_multiple_type("k", vec!["Int".to_string()], "Bool");
    assert_eq!(one.describe(), "Setting 'k' was expected to be of type Int but found type 'Bool'");
    let three = RetrieveSettingError::new_wrong_multiple_type(
        "k",
        vec!["Int".to_string(), "Float".to_string(), "Bool".to_string()],
        "String",
    );
    assert_eq!(
        three.describe(),
        "Setting 'k' was expected to be of type Int, Float, or Bool but found type 'String'"
    );
    let e = ParseEntryError::new(2, "bad".to_string());
    assert_eq!(e.line, 3);
    assert_eq!(e.describe(), "Invalid configuration entry at line 3: bad");
}

#[test]
fn add_missing_values_never_overwrites() {
    let (mut file, _, _) = parse("format 1\na: 1");
    file.add_missing_values(vec![("a", Value::I64(9)), ("b", Value::Bool(true)), ("b", Value::I64(3))]);
    assert_eq!(
        pairs(&file.values),
        vec![("a".to_string(), Value::I64(1)), ("b".to_string(), Value::Bool(true))]
    );
}

#[test]
fn map_operations() {
    let mut m = map_of(&[("a", 1), ("b", 2)]);
    assert_eq!(m.insert("a".to_string(), Value::I64(5)), Some(Value::I64(1)));
    assert_eq!(m.remove("a"), Some(Value::I64(5)));
    assert_eq!(m.remove("a"), None);
    assert!(m.contains_key("b"));
    assert!(!m.contains_key("a"));
    assert_eq!(m.len(), 1);
}

#[test]
fn merge_update_only() {
    let mut existing = map_of(&[("a", 1), ("b", 2)]);
    merge_values(&mut existing, &map_of(&[("b", 3), ("c", 4)]), MergePolicy::UpdateOnly);
    assert_eq!(pairs(&existing), pairs(&map_of(&[("a", 1), ("b", 3)])));
}

#[test]
fn merge_update_and_add() {
    let mut existing = map_of(&[("a", 1), ("b", 2)]);
    merge_values(&mut existing, &map_of(&[("b", 3), ("c", 4)]), MergePolicy::UpdateAndAdd);
    assert_eq!(pairs(&existing), pairs(&map_of(&[("a", 1), ("b", 3), ("c", 4)])));
}

#[test]
fn merge_add_only() {
    let mut existing = map_of(&[("a", 1), ("b", 2)]);
    merge_values(&mut existing, &map_of(&[("b", 3), ("c", 4)]), MergePolicy::AddOnly);
    assert_eq!(pairs(&existing), pairs(&map_of(&[("a", 1), ("b", 2), ("c", 4)])));
}

#[test]
fn merge_fully_replace() {
    let mut existing = map_of(&[("a", 1), ("b", 2)]);
    merge_values(&mut existing, &map_of(&[("b", 3), ("c", 4)]), MergePolicy::FullyReplace);
    assert_eq!(pairs(&existing), pairs(&map_of(&[("b", 3), ("c", 4)])));
}

#[test]
fn short_message_getters() {
    let mut m = ValueMap::new();
    m.insert("s".to_string(), Value::String("x".to_string()));
    m.insert("n".to_string(), Value::I64(3));
    m.insert("b".to_string(), Value::Bool(false));
    assert_eq!(ecf::utils::get_str("s", &m), Ok("x"));
    assert_eq!(ecf::utils::get_int("n", &m), Ok(3));
    assert_eq!(ecf::utils::get_bool("b", &m), Ok(false));
    assert_eq!(
        ecf::utils::get_int("s", &m),
        Err("setting \"s\" needs to be an Int, but it currently is a String".to_string())
    );
    assert_eq!(
        ecf::utils::get_str("b", &m),
        Err("setting \"b\" needs to be a String, but it currently is a Bool".to_string())
    );
    assert_eq!(ecf::utils::get_bool("q", &m), Err("could not find setting \"q\"".to_string()));
    *ecf::utils::get_int_mut("n", &mut m).unwrap() += 1;
    assert_eq!(ecf::utils::get_int("n", &m), Ok(4));
    *ecf::utils::get_bool_mut("b", &mut m).unwrap() = true;
    assert_eq!(ecf::utils::get_bool("b", &m), Ok(true));
    ecf::utils::get_string_mut("s", &mut m).unwrap().push('y');
    assert_eq!(ecf::utils::get_str("s", &m), Ok("xy"));
    assert!(ecf::utils::get_bool_mut("n", &mut m).is_err());
    assert!(ecf::utils::get_string_mut("zz", &mut m).is_err());
}

#[test]
fn multiline_string_block_ends_at_its_last_line() {
    let mut values = ValueMap::new();
    values.insert("k".to_string(), Value::String("a\nb".to_string()));
    let file = File {
        values,
        layout: vec![LayoutEntry::Key("k".to_string()), LayoutEntry::Comment("x".to_string())],
        version: 1,
    };
    let (text, errors) = file.to_str();
    assert!(errors.is_empty());
    assert_eq!(text, "format 1\nk: \"\n\"a\n\"b\n#x");
    let (again, _, errors) = parse(&text);
    assert!(errors.is_empty());
    assert_eq!(again.layout, file.layout);
    assert_eq!(again.get("k"), Some(&Value::String("a\nb".to_string())));
    assert_eq!(again.to_str().0, text);
}

#[test]
fn float_literal_constructor() {
    assert_eq!(Value::from_float_literal("3.5"), Some(Value::F64("3.5".to_string())));
    assert_eq!(Value::from_float_literal("1e5"), Some(Value::F64("1e5".to_string())));
    assert_eq!(Value::from_float_literal("3"), None);
    assert_eq!(Value::from_float_literal(".3"), None);
    assert_eq!(Value::from_float_literal("1.5\n"), None);
    assert_eq!(Value::from_float_literal("-2.5"), None);
}
