use fillout::data::{parse, DataError};

#[test]
fn reads_names_and_values() {
    let b = parse(b"who,world\ngreeting,Hello\n").unwrap();
    assert_eq!(b.get("who"), Some("world"));
    assert_eq!(b.get("greeting"), Some("Hello"));
    assert_eq!(b.names().len(), 2);
    assert_eq!(b.names().get(0), "who");
    assert_eq!(b.names().get(1), "greeting");
}

#[test]
fn first_record_is_no_header() {
    let b = parse(b"name,value\n").unwrap();
    assert_eq!(b.get("name"), Some("value"));
}

#[test]
fn empty_input_binds_nothing() {
    let b = parse(b"").unwrap();
    assert_eq!(b.names().len(), 0);
}

#[test]
fn trims_and_unquotes() {
    let b = parse(b"  who  ,  big world \r\n\"a,b\",\"say \"\"hi\"\"\"\n").unwrap();
    assert_eq!(b.get("who"), Some("big world"));
    assert_eq!(b.get("a,b"), Some("say \"hi\""));
}

#[test]
fn skips_comment_lines() {
    let b = parse(b"# names\nwho,world\n#x,y\n").unwrap();
    assert_eq!(b.get("who"), Some("world"));
    assert_eq!(b.get("x"), None);
    assert_eq!(b.names().len(), 1);
}

#[test]
fn refuses_one_field() {
    assert_eq!(
        parse(b"who,world\nalone\n").err(),
        Some(DataError::FieldCount { line: 2, found: 1 })
    );
}

#[test]
fn refuses_three_fields_on_the_first_line() {
    assert_eq!(parse(b"a,b,c\nwho,world\n").err(), Some(DataError::FieldCount { line: 1, found: 3 }));
}

#[test]
fn refuses_a_name_given_twice() {
    assert_eq!(
        parse(b"who,world\nwhat,thing\n who ,moon\n").err(),
        Some(DataError::DuplicateKey("who".to_string()))
    );
}

#[test]
fn reports_what_the_reader_says() {
    match parse(b"who,world\nbad,\xff\n") {
        Err(DataError::Reader(text)) => assert!(text.contains("invalid utf-8")),
        other => panic!("{:?}", other.err()),
    }
}

#[test]
fn a_fault_before_the_reader_fails_wins() {
    assert_eq!(
        parse(b"alone\nbad,\xff\n").err(),
        Some(DataError::FieldCount { line: 1, found: 1 })
    );
}
