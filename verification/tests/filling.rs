use fillout::data::{load, DataError, Reading, Row};
use fillout::fill::{collect_names, difference, render};
use fillout::names::{Bindings, Names};
use fillout::template::{parse, Token};

fn bindings(pairs: &[(&str, &str)]) -> Bindings {
    let mut b = Bindings::new();
    for (name, value) in pairs {
        assert!(b.define(name, value));
    }
    b
}

fn listed(names: &Names) -> Vec<String> {
    (0..names.len()).map(|i| names.get(i).to_string()).collect()
}

#[test]
fn names_keep_order_and_come_once() {
    let mut names = Names::new();
    assert_eq!(names.len(), 0);
    assert!(names.insert("b"));
    assert!(names.insert("a"));
    assert!(!names.insert("b"));
    assert!(names.insert(""));
    assert_eq!(listed(&names), vec!["b", "a", ""]);
    assert!(names.contains("a"));
    assert!(names.contains(""));
    assert!(!names.contains("c"));
}

#[test]
fn bindings_keep_the_first_value() {
    let mut b = Bindings::new();
    assert!(!b.contains("a"));
    assert_eq!(b.get("a"), None);
    assert!(b.define("a", "1"));
    assert!(b.define("b", "2"));
    assert!(!b.define("a", "3"));
    assert_eq!(b.get("a"), Some("1"));
    assert_eq!(b.get("b"), Some("2"));
    assert_eq!(b.get("c"), None);
    assert!(b.contains("b"));
    assert_eq!(listed(b.names()), vec!["a", "b"]);
}

#[test]
fn eval_gives_text_or_value() {
    let b = bindings(&[("who", "world")]);
    assert_eq!(Token::Lit("hello ").eval(&b), "hello ");
    assert_eq!(Token::Var("who").eval(&b), "world");
}

#[test]
fn render_fills_the_placeholders() {
    let b = bindings(&[("who", "world"), ("greeting", "Hello"), ("unused", "x")]);
    let tokens = parse("{{ greeting }}, {{who}}! {{who}}?").unwrap();
    assert_eq!(render(&tokens, &b), "Hello, world! world?");
    assert_eq!(render(&Vec::new(), &b), "");
    assert_eq!(render(&parse("no placeholders").unwrap(), &Bindings::new()), "no placeholders");
}

#[test]
fn names_of_several_templates() {
    let mut used = Names::new();
    collect_names(&parse("{{b}} and {{a}} and {{b}}").unwrap(), &mut used);
    assert_eq!(listed(&used), vec!["b", "a"]);
    collect_names(&parse("{{a}}{{c}} text").unwrap(), &mut used);
    assert_eq!(listed(&used), vec!["b", "a", "c"]);
    collect_names(&parse("text").unwrap(), &mut used);
    assert_eq!(listed(&used), vec!["b", "a", "c"]);
}

#[test]
fn missing_and_unused_names() {
    let data = bindings(&[("a", "1"), ("x", "2"), ("c", "3"), ("y", "4")]);
    let mut used = Names::new();
    collect_names(&parse("{{c}}{{m}}{{a}}{{n}}{{m}}").unwrap(), &mut used);
    assert_eq!(difference(&used, data.names()), vec!["m", "n"]);
    assert_eq!(difference(data.names(), &used), vec!["x", "y"]);
    assert_eq!(difference(&used, &used), Vec::<String>::new());
    assert_eq!(difference(&Names::new(), &used), Vec::<String>::new());
    assert_eq!(difference(&used, &Names::new()), vec!["c", "m", "a", "n"]);
}

fn row(line: u64, fields: &[&str]) -> Row {
    Row { line: Some(line), fields: fields.iter().map(|f| f.to_string()).collect() }
}

#[test]
fn load_binds_trimmed_names_and_values() {
    let reading = Reading {
        rows: vec![row(1, &[" a ", "1"]), row(2, &["b", "\ttwo words\n"])],
        failure: None,
    };
    let b = load(reading).unwrap();
    assert_eq!(b.get("a"), Some("1"));
    assert_eq!(b.get("b"), Some("two words"));
    assert_eq!(listed(b.names()), vec!["a", "b"]);
}

#[test]
fn load_of_nothing() {
    let b = load(Reading { rows: vec![], failure: None }).unwrap();
    assert_eq!(b.names().len(), 0);
}

#[test]
fn load_refuses_wrong_field_counts() {
    let reading = Reading { rows: vec![row(1, &["a", "1"]), row(3, &["b"])], failure: None };
    assert_eq!(load(reading).err(), Some(DataError::FieldCount { line: 3, found: 1 }));
    let reading = Reading { rows: vec![row(7, &["a", "1", "x"])], failure: None };
    assert_eq!(load(reading).err(), Some(DataError::FieldCount { line: 7, found: 3 }));
    let reading = Reading { rows: vec![row(1, &[])], failure: None };
    assert_eq!(load(reading).err(), Some(DataError::FieldCount { line: 1, found: 0 }));
}

#[test]
fn load_refuses_a_name_bound_twice() {
    let reading = Reading {
        rows: vec![row(1, &["a", "1"]), row(2, &["b", "2"]), row(3, &[" a", "3"])],
        failure: None,
    };
    assert_eq!(load(reading).err(), Some(DataError::DuplicateKey("a".to_string())));
}

#[test]
fn load_reports_the_first_fault() {
    let reading = Reading {
        rows: vec![row(1, &["a", "1"]), row(2, &["a", "2"]), row(3, &["b"])],
        failure: Some("broken".to_string()),
    };
    assert_eq!(load(reading).err(), Some(DataError::DuplicateKey("a".to_string())));
    let reading = Reading {
        rows: vec![row(1, &["a", "1"]), row(2, &["b"]), row(3, &["a", "2"])],
        failure: Some("broken".to_string()),
    };
    assert_eq!(load(reading).err(), Some(DataError::FieldCount { line: 2, found: 1 }));
    let reading =
        Reading { rows: vec![row(1, &["a", "1"])], failure: Some("broken".to_string()) };
    assert_eq!(load(reading).err(), Some(DataError::Reader("broken".to_string())));
}

#[test]
fn data_error_messages() {
    assert_eq!(
        DataError::FieldCount { line: 12, found: 3 }.message(),
        "Failed to validate data: line 12: expected record with 2 fields, found 3 fields"
    );
    assert_eq!(DataError::DuplicateKey("who".to_string()).message(), "Duplicate key who");
    assert_eq!(DataError::Reader("broken".to_string()).message(), "broken");
}
