use ecf::{File, LayoutEntry, ParseEntryError, Value, ValueMap};

fn parse(text: &str) -> (File, bool, Vec<ParseEntryError>) {
    let none: [fn(&mut ValueMap, &mut ()); 0] = [];
    File::from_str(text, &none, &mut ())
}

fn pairs(m: &ValueMap) -> Vec<(String, Value)> {
    let mut out = Vec::new();
    for i in 0..m.len() {
        out.push((m.key_at(i).clone(), m.value_at(i).clone()));
    }
    out
}

#[test]
fn duplicate_key_keeps_first() {
    let (file, ran, errors) = parse("format 1\na: 1\na: 2\n");
    assert!(!ran);
    assert_eq!(file.get("a"), Some(&Value::I64(1)));
    assert_eq!(errors.len(), 1);
    assert_eq!(errors[0].line, 3);
    assert_eq!(errors[0].message, "Key \"a\" is already defined.");
    assert_eq!(
        file.layout,
        vec![
            LayoutEntry::Key("a".to_string()),
            LayoutEntry::Comment("a: 2".to_string()),
            LayoutEntry::Empty,
        ]
    );
}

#[test]
fn literal_precedence() {
    let (file, _, errors) = parse("format 1\nx: 3\ny: 3.5\nz: .3\nw: TRUE\nv: False\nu: EMPTY");
    assert_eq!(file.get("x"), Some(&Value::I64(3)));
    assert_eq!(file.get("y"), Some(&Value::F64("3.5".to_string())));
    assert_eq!(file.get("z"), None);
    assert_eq!(file.get("w"), Some(&Value::Bool(true)));
    assert_eq!(file.get("v"), Some(&Value::Bool(false)));
    assert_eq!(file.get("u"), Some(&Value::Empty));
    assert_eq!(errors.len(), 1);
    assert_eq!(errors[0].line, 4);
    assert!(errors[0].message.starts_with("Invalid value, must be"));
}

#[test]
fn float_forms_and_large_ints() {
    let (file, _, errors) = parse("format 1\na: 1e5\nb: 2.\nc: 9223372036854775807\nd: 9223372036854775808\ne: 1.5E-3\nf: 3x");
    assert_eq!(file.get("a"), Some(&Value::F64("1e5".to_string())));
    assert_eq!(file.get("b"), Some(&Value::F64("2.".to_string())));
    assert_eq!(file.get("c"), Some(&Value::I64(i64::MAX)));
    assert_eq!(file.get("d"), Some(&Value::F64("9223372036854775808".to_string())));
    assert_eq!(file.get("e"), Some(&Value::F64("1.5E-3".to_string())));
    assert_eq!(file.get("f"), None);
    assert_eq!(errors.len(), 1);
    assert_eq!(errors[0].line, 7);
}

#[test]
fn multiline_string() {
    let (file, _, errors) = parse("format 1\nkey: \"\n\"line one\n\"line two\n");
    assert!(errors.is_empty());
    assert_eq!(file.get("key"), Some(&Value::String("line one\nline two".to_string())));
    assert_eq!(
        file.layout,
        vec![LayoutEntry::Key("key".to_string()), LayoutEntry::Empty]
    );
}

#[test]
fn multiline_string_at_end_and_indented() {
    let (file, _, errors) = parse("format 1\nkey: \"\n  \"a \n\"\"b");
    assert!(errors.is_empty());
    assert_eq!(file.get("key"), Some(&Value::String("a \n\"b".to_string())));
}

#[test]
fn empty_multiline_string_is_an_error() {
    let (file, _, errors) = parse("format 1\nkey: \"\nnext: 1");
    assert_eq!(errors.len(), 1);
    assert_eq!(errors[0].line, 2);
    assert_eq!(errors[0].message, "Invalid value, multiline strings cannot be empty");
    assert_eq!(file.get("key"), None);
    assert_eq!(file.get("next"), Some(&Value::I64(1)));
    assert_eq!(file.layout[0], LayoutEntry::Comment("key: \"".to_string()));
}

#[test]
fn empty_multiline_string_on_last_line() {
    let (file, _, errors) = parse("format 1\nkey: \"");
    assert_eq!(errors.len(), 1);
    assert_eq!(errors[0].line, 2);
    assert_eq!(file.layout, vec![LayoutEntry::Comment("key: \"".to_string())]);
}

#[test]
fn comments_and_blank_lines() {
    let (file, _, errors) = parse("format 1\n# one\n\n##\nfirst\n  second\n##\n  #two  ");
    assert!(errors.is_empty());
    assert_eq!(
        file.layout,
        vec![
            LayoutEntry::Comment(" one".to_string()),
            LayoutEntry::Empty,
            LayoutEntry::Comment("first\n  second".to_string()),
            LayoutEntry::Comment("two".to_string()),
        ]
    );
}

#[test]
fn unterminated_multiline_comment_recovers() {
    let (file, _, errors) = parse("format 1\n##\nk: 1");
    assert_eq!(errors.len(), 1);
    assert_eq!(errors[0].line, 2);
    assert!(errors[0].message.starts_with("Could not find an end of this multiline comment."));
    assert_eq!(file.layout[0], LayoutEntry::Comment("##".to_string()));
    assert_eq!(file.get("k"), Some(&Value::I64(1)));
}

#[test]
fn multiline_comment_opener_on_last_line() {
    let (file, _, errors) = parse("format 1\n##");
    assert_eq!(errors.len(), 1);
    assert_eq!(errors[0].line, 2);
    assert_eq!(file.layout, vec![LayoutEntry::Comment("##".to_string())]);
}

#[test]
fn each_line_error() {
    let (file, _, errors) = parse(
        "format 1\nno colon here\n: starts\nk:\nq: \"abc\nr: abc\ns: \"ok\"",
    );
    let lines: Vec<usize> = errors.iter().map(|e| e.line).collect();
    assert_eq!(lines, vec![2, 3, 4, 5, 6]);
    assert_eq!(
        errors[0].message,
        "No colon was found, either add a colon after the key or mark this as a comment."
    );
    assert_eq!(errors[1].message, "Lines cannot start with a colon.");
    assert_eq!(
        errors[2].message,
        "No value was found for this key (if this is meant to be empty, please set the value as 'empty')."
    );
    assert!(errors[3].message.starts_with("Invalid string, no ending quote found."));
    assert!(errors[4].message.starts_with("Invalid value, must be"));
    assert_eq!(file.get("s"), Some(&Value::String("ok".to_string())));
    assert_eq!(file.layout[0], LayoutEntry::Comment("no colon here".to_string()));
}

#[test]
fn malformed_line_leaves_the_others_alone() {
    let good = parse("format 1\na: 1\nb: 2\nc: 3");
    let bad = parse("format 1\na: 1\nb 2\nc: 3");
    assert!(good.2.is_empty());
    assert_eq!(bad.2.len(), 1);
    assert_eq!(bad.2[0].line, 3);
    assert_eq!(good.0.layout[0], bad.0.layout[0]);
    assert_eq!(good.0.layout[2], bad.0.layout[2]);
    assert_eq!(bad.0.layout[1], LayoutEntry::Comment("b 2".to_string()));
    assert_eq!(bad.0.get("a"), Some(&Value::I64(1)));
    assert_eq!(bad.0.get("c"), Some(&Value::I64(3)));
}

#[test]
fn missing_header() {
    let (file, ran, errors) = parse("a: 1\nb: 2");
    assert!(!ran);
    assert_eq!(file.version, 1);
    assert_eq!(file.get("a"), None);
    assert_eq!(file.get("b"), Some(&Value::I64(2)));
    assert_eq!(errors.len(), 1);
    assert_eq!(errors[0].line, 1);
    assert_eq!(errors[0].message, "Could not find version, assuming version is latest");
}

#[test]
fn empty_and_header_only_texts() {
    let (file, _, errors) = parse("");
    assert!(file.layout.is_empty());
    assert_eq!(errors.len(), 1);
    assert_eq!(errors[0].line, 1);
    let (file, _, errors) = parse("format 1");
    assert!(file.layout.is_empty());
    assert!(file.values.is_empty());
    assert!(errors.is_empty());
}

#[test]
fn header_versions() {
    assert_eq!(ecf::parser::get_file_version("format 3"), Some(3));
    assert_eq!(ecf::parser::get_file_version("format +3"), Some(3));
    assert_eq!(ecf::parser::get_file_version("format  3"), None);
    assert_eq!(ecf::parser::get_file_version("format x"), None);
    assert_eq!(ecf::parser::get_file_version("version 3"), None);
    assert_eq!(ecf::parser::get_file_version("format 18446744073709551616"), None);
}

#[test]
fn key_keeps_inner_spaces_and_trailing_whitespace_is_trimmed() {
    let (file, _, errors) = parse("format 1\n  my key : \"v\"  \t");
    assert!(errors.is_empty());
    assert_eq!(file.get("my key "), Some(&Value::String("v".to_string())));
    assert_eq!(pairs(&file.values).len(), 1);
}

fn add_one(values: &mut ValueMap, log: &mut Vec<u32>) {
    values.insert("one".to_string(), Value::I64(1));
    log.push(1);
}

fn add_two(values: &mut ValueMap, log: &mut Vec<u32>) {
    values.insert("two".to_string(), Value::I64(2));
    log.push(2);
}

#[test]
fn version_pipeline_runs_a_suffix() {
    let updaters: [fn(&mut ValueMap, &mut Vec<u32>); 2] = [add_one, add_two];
    let mut log = Vec::new();
    let (file, ran, errors) = File::from_str("format 1\nv: 0", &updaters, &mut log);
    assert!(ran);
    assert!(errors.is_empty());
    assert_eq!(log, vec![1, 2]);
    assert_eq!(file.version, 3);
    assert_eq!(file.get("one"), Some(&Value::I64(1)));
    assert_eq!(file.get("two"), Some(&Value::I64(2)));

    let mut log = Vec::new();
    let (file, ran, _) = File::from_str("format 2\nv: 0", &updaters, &mut log);
    assert!(ran);
    assert_eq!(log, vec![2]);
    assert_eq!(file.get("one"), None);
    assert_eq!(file.version, 3);

    let mut log = Vec::new();
    let (file, ran, _) = File::from_str("format 3\nv: 0", &updaters, &mut log);
    assert!(!ran);
    assert!(log.is_empty());
    assert_eq!(pairs(&file.values), vec![("v".to_string(), Value::I64(0))]);

    let mut log = Vec::new();
    let (_, ran, errors) = File::from_str("v: 0", &updaters, &mut log);
    assert!(!ran);
    assert!(log.is_empty());
    assert_eq!(errors.len(), 1);
}

#[test]
fn zero_version_reads_as_latest() {
    let updaters: [fn(&mut ValueMap, &mut Vec<u32>); 2] = [add_one, add_two];
    let mut log = Vec::new();
    let (file, ran, errors) = File::from_str("format 0\nv: 1", &updaters, &mut log);
    assert!(!ran);
    assert!(log.is_empty());
    assert_eq!(file.version, 3);
    assert_eq!(file.get("v"), Some(&Value::I64(1)));
    assert_eq!(errors.len(), 1);
    assert_eq!(errors[0].line, 1);
    assert_eq!(errors[0].message, "Could not find version, assuming version is latest");
}
