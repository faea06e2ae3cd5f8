use quake::{CsvProcessor, RawValue};

#[test]
fn entry_parse() {
    let text = "---
title: hello, world
authors: Phodal HUANG<h@phodal.com>
description: a hello, world
created_date: 2021.11.23
updated_date: 2021.11.21
---

sample

";

    let map = CsvProcessor::entry_from_markdown(String::from(text))
        .expect("parse error")
        .expect("parse error");
    assert_eq!("hello, world", map.get("title").unwrap());
    assert_eq!("Phodal HUANG<h@phodal.com>", map.get("authors").unwrap());
    assert_eq!("a hello, world", map.get("description").unwrap());
    assert_eq!("2021.11.23", map.get("created_date").unwrap());
    assert_eq!("2021.11.21", map.get("updated_date").unwrap());
}

#[test]
fn entry_parse_key_order() {
    let text = "---
title: hello, world
authors: Phodal HUANG<h@phodal.com>
description: a hello, world
created_date: 2021.11.23
updated_date: 2021.11.21
---
sample
";

    let map = CsvProcessor::entry_from_markdown(String::from(text))
        .expect("parse error")
        .expect("parse error");
    assert_eq!(5, map.len());
    let expected = ["title", "authors", "description", "created_date", "updated_date"];
    for (i, key) in expected.iter().enumerate() {
        assert_eq!(*key, map.pair(i).0);
    }
}

#[test]
fn no_front_matter_is_none() {
    let r = CsvProcessor::entry_from_markdown(String::from("plain text, no metadata"));
    assert_eq!(Ok(None), r.map(|o| o.map(|m| m.len())));
    let r2 = CsvProcessor::entry_from_markdown(String::new());
    assert!(matches!(r2, Ok(None)));
}

#[test]
fn malformed_block_is_parse_error() {
    let text = "---\n[unclosed\n---\nbody";
    let r = CsvProcessor::entry_from_markdown(String::from(text));
    assert_eq!(Err(quake::ParseError), r.map(|o| o.map(|m| m.len())));
}

#[test]
fn nested_mapping_flattens_to_sentinel() {
    let text = "---\nmeta:\n  inner: 1\n---\nbody";
    let map = CsvProcessor::entry_from_markdown(String::from(text))
        .expect("parse error")
        .expect("no metadata");
    assert_eq!("unsupported: nested mapping", map.get("meta").unwrap());
}

#[test]
fn sequence_flattens_to_comma_joined() {
    let text = "---\ntags: [alpha, beta, gamma]\nempty: []\nnum: 42\nflag: true\nnothing: ~\n---\n";
    let map = CsvProcessor::entry_from_markdown(String::from(text))
        .expect("parse error")
        .expect("no metadata");
    assert_eq!("alpha,beta,gamma", map.get("tags").unwrap());
    assert_eq!("", map.get("empty").unwrap());
    assert_eq!("42", map.get("num").unwrap());
    assert_eq!("true", map.get("flag").unwrap());
    assert_eq!("", map.get("nothing").unwrap());
}

#[test]
fn flatten_is_deterministic() {
    let tree = RawValue::Sequence(vec![
        RawValue::Text(String::from("a")),
        RawValue::Number(String::from("1")),
        RawValue::Null,
        RawValue::Bool(false),
    ]);
    let once = quake::raw_value::flatten(&tree);
    let twice = quake::raw_value::flatten(&tree);
    assert_eq!(once, twice);
    assert_eq!("a,1,,false", once);
}

#[test]
fn from_value_flattens() {
    assert_eq!("", CsvProcessor::from_value(RawValue::Null));
    assert_eq!("true", CsvProcessor::from_value(RawValue::Bool(true)));
    assert_eq!("3.25", CsvProcessor::from_value(RawValue::Number(String::from("3.25"))));
    assert_eq!(
        "unsupported: nested mapping",
        CsvProcessor::from_value(RawValue::Mapping(vec![]))
    );
}

#[test]
fn rebuild() {
    let docs = vec![
        (
            "_fixtures/todo/0001-hello.md".to_string(),
            "---\ntitle: hello, world\nauthor: phodal\n---\nsample\n".to_string(),
        ),
        (
            "_fixtures/todo/0002-world.md".to_string(),
            "---\ntitle: second\nauthor: quake\n---\nmore\n".to_string(),
        ),
    ];
    let (table, errors) = CsvProcessor::rebuild(&docs);
    let _ = CsvProcessor::write(&table.header, &table.rows);
    assert!(errors.is_empty());
    assert_eq!(vec!["title".to_string(), "author".to_string()], table.header);
    assert_eq!(2, table.rows.len());
    assert_eq!(vec!["hello, world".to_string(), "phodal".to_string()], table.rows[0]);
    assert_eq!(vec!["second".to_string(), "quake".to_string()], table.rows[1]);
}

#[test]
fn rebuild_union_header() {
    let docs = vec![
        ("a.md".to_string(), "---\na: 1\nb: 2\n---\n".to_string()),
        ("b.md".to_string(), "---\nb: 3\nc: 4\n---\n".to_string()),
    ];
    let (table, errors) = CsvProcessor::rebuild(&docs);
    assert!(errors.is_empty());
    assert_eq!(vec!["a".to_string(), "b".to_string(), "c".to_string()], table.header);
    assert_eq!(2, table.rows.len());
    assert_eq!(vec!["1".to_string(), "2".to_string(), "".to_string()], table.rows[0]);
    assert_eq!(vec!["".to_string(), "3".to_string(), "4".to_string()], table.rows[1]);
}

#[test]
fn rebuild_is_idempotent() {
    let docs = vec![
        ("x.md".to_string(), "---\nk: v\n---\n".to_string()),
        ("y.md".to_string(), "no metadata".to_string()),
        ("z.md".to_string(), "---\n[broken\n---\n".to_string()),
    ];
    let (t1, e1) = CsvProcessor::rebuild(&docs);
    let (t2, e2) = CsvProcessor::rebuild(&docs);
    assert_eq!(t1, t2);
    assert_eq!(e1.len(), e2.len());
    assert_eq!(1, e1.len());
    assert_eq!("z.md", e1[0].0);
}
