use quake::{CustomType, EntryMetadata, FieldKind};

#[test]
fn custom_type() {
    let mut map = EntryMetadata::new();
    map.insert("title".to_string(), "Title".to_string());

    let custom_type = CustomType::from(map);

    let option = custom_type.field("title").unwrap();
    assert_eq!(&FieldKind::Title(String::from("Title")), option)
}

#[test]
fn keys_in_order() {
    let mut map = EntryMetadata::new();
    map.insert("title".to_string(), "Title".to_string());
    map.insert("content".to_string(), "content".to_string());

    let custom_type = CustomType::from(map);

    assert_eq!("title", custom_type.keys()[0]);
    assert_eq!("content", custom_type.keys()[1]);
}

#[test]
fn missing_field_is_none() {
    let mut map = EntryMetadata::new();
    map.insert("title".to_string(), "Title".to_string());

    let custom_type = CustomType::from(map);

    assert!(custom_type.field("title").is_some());
    assert!(custom_type.field("missing").is_none());
}

#[test]
fn keyword_kinds() {
    let mut map = EntryMetadata::new();
    map.insert("name".to_string(), "Text".to_string());
    map.insert("tags".to_string(), "Tagged".to_string());
    map.insert("author".to_string(), "Author".to_string());
    map.insert("dates".to_string(), "EntryDate".to_string());
    map.insert("other".to_string(), "Whatever".to_string());

    let custom_type = CustomType::from(map);

    assert_eq!(
        &FieldKind::Text(String::from("Text")),
        custom_type.field("name").unwrap()
    );
    assert_eq!(&FieldKind::Tagged(vec![]), custom_type.field("tags").unwrap());
    match custom_type.field("author").unwrap() {
        FieldKind::Author(a) => assert_eq!(&quake::Author::default(), a),
        other => panic!("unexpected kind: {:?}", other),
    }
    match custom_type.field("dates").unwrap() {
        FieldKind::EntryDate(d) => assert_eq!(&quake::EntryDate::default(), d),
        other => panic!("unexpected kind: {:?}", other),
    }
    assert_eq!(
        &FieldKind::Unknown(String::from("Whatever")),
        custom_type.field("other").unwrap()
    );
}

#[test]
fn metadata_update_in_place() {
    let mut map = EntryMetadata::new();
    map.insert("a".to_string(), "1".to_string());
    map.insert("b".to_string(), "2".to_string());
    map.insert("a".to_string(), "3".to_string());

    assert_eq!(2, map.len());
    assert_eq!("a", map.pair(0).0);
    assert_eq!("3", map.pair(0).1);
    assert_eq!("b", map.pair(1).0);
    assert_eq!("3", map.get("a").unwrap());
    assert!(map.get("c").is_none());
}

#[test]
fn server_config_default_is_empty() {
    let config = quake::QuakeServerConfig::default();
    assert_eq!("", config.workspace);
    let err = quake::ApiError { msg: "bad request".to_string() };
    assert_eq!("bad request", err.msg);
}
