use neo4j_csv::header::{parse_header, ColumnKind, FileKind};
use neo4j_csv::Neo4jCsvError;

#[test]
fn parse_node_header() {
    let fields = vec![":ID", "name:string", "age:int", ":LABEL"];
    let parsed = parse_header(&fields).unwrap();
    assert_eq!(parsed.file_kind, FileKind::Node);
    assert_eq!(parsed.columns.len(), 4);
    assert_eq!(parsed.columns[0], ColumnKind::Id);
    assert_eq!(
        parsed.columns[1],
        ColumnKind::Property {
            name: "name".to_owned(),
            type_hint: Some("string".to_owned()),
        }
    );
    assert_eq!(
        parsed.columns[2],
        ColumnKind::Property {
            name: "age".to_owned(),
            type_hint: Some("int".to_owned()),
        }
    );
    assert_eq!(parsed.columns[3], ColumnKind::Label);
}

#[test]
fn parse_relationship_header() {
    let fields = vec![":START_ID", ":END_ID", ":TYPE", "since:int"];
    let parsed = parse_header(&fields).unwrap();
    assert_eq!(parsed.file_kind, FileKind::Relationship);
    assert_eq!(parsed.columns.len(), 4);
    assert_eq!(parsed.columns[0], ColumnKind::StartId);
    assert_eq!(parsed.columns[1], ColumnKind::EndId);
    assert_eq!(parsed.columns[2], ColumnKind::RelType);
}

#[test]
fn property_without_type_hint() {
    let fields = vec![":ID", "name"];
    let parsed = parse_header(&fields).unwrap();
    assert_eq!(
        parsed.columns[1],
        ColumnKind::Property {
            name: "name".to_owned(),
            type_hint: None,
        }
    );
}

#[test]
fn empty_header_is_error() {
    let err = parse_header(&[]).unwrap_err();
    assert!(matches!(err, Neo4jCsvError::EmptyHeader));
}

#[test]
fn ambiguous_header_is_error() {
    let fields = vec![":ID", ":START_ID", ":END_ID", ":TYPE"];
    let err = parse_header(&fields).unwrap_err();
    assert!(matches!(err, Neo4jCsvError::AmbiguousHeader));
}

#[test]
fn missing_end_id_is_error() {
    let fields = vec![":START_ID", ":TYPE"];
    let err = parse_header(&fields).unwrap_err();
    assert!(matches!(
        err,
        Neo4jCsvError::MissingColumn { column } if column == ":END_ID"
    ));
}

#[test]
fn duplicate_id_is_error() {
    let fields = vec![":ID", ":ID"];
    let err = parse_header(&fields).unwrap_err();
    assert!(matches!(
        err,
        Neo4jCsvError::DuplicateColumn { column } if column == ":ID"
    ));
}

#[test]
fn unrecognized_file_type() {
    let fields = vec!["name:string", "age:int"];
    let err = parse_header(&fields).unwrap_err();
    assert!(matches!(err, Neo4jCsvError::UnrecognizedFileType));
}

// Further cases.

#[test]
fn header_fields_are_trimmed_with_unicode_whitespace() {
    let fields = vec!["\u{3000} :ID\u{a0}", "\t:LABEL\n", " name : int "];
    let parsed = parse_header(&fields).unwrap();
    assert_eq!(parsed.file_kind, FileKind::Node);
    assert_eq!(parsed.columns[0], ColumnKind::Id);
    assert_eq!(parsed.columns[1], ColumnKind::Label);
    assert_eq!(
        parsed.columns[2],
        ColumnKind::Property {
            name: "name ".to_owned(),
            type_hint: Some(" int".to_owned()),
        }
    );
}

#[test]
fn property_splits_at_first_colon() {
    let fields = vec![":ID", "when:date:iso", ":odd"];
    let parsed = parse_header(&fields).unwrap();
    assert_eq!(
        parsed.columns[1],
        ColumnKind::Property {
            name: "when".to_owned(),
            type_hint: Some("date:iso".to_owned()),
        }
    );
    assert_eq!(
        parsed.columns[2],
        ColumnKind::Property {
            name: "".to_owned(),
            type_hint: Some("odd".to_owned()),
        }
    );
}

#[test]
fn annotations_are_case_sensitive() {
    let fields = vec![":id", ":label"];
    let err = parse_header(&fields).unwrap_err();
    assert!(matches!(err, Neo4jCsvError::UnrecognizedFileType));
}

#[test]
fn first_repeated_annotation_is_reported() {
    let fields = vec![":ID", ":LABEL", "x", ":LABEL", ":ID"];
    let err = parse_header(&fields).unwrap_err();
    assert!(matches!(
        err,
        Neo4jCsvError::DuplicateColumn { column } if column == ":LABEL"
    ));
}

#[test]
fn duplicate_is_reported_before_ambiguity() {
    let fields = vec![":ID", ":START_ID", ":START_ID"];
    let err = parse_header(&fields).unwrap_err();
    assert!(matches!(
        err,
        Neo4jCsvError::DuplicateColumn { column } if column == ":START_ID"
    ));
}

#[test]
fn missing_start_id_and_type_are_errors() {
    let err = parse_header(&[":END_ID", ":TYPE"]).unwrap_err();
    assert!(matches!(
        err,
        Neo4jCsvError::MissingColumn { column } if column == ":START_ID"
    ));
    let err = parse_header(&[":START_ID", ":END_ID"]).unwrap_err();
    assert!(matches!(
        err,
        Neo4jCsvError::MissingColumn { column } if column == ":TYPE"
    ));
}

#[test]
fn duplicate_property_names_are_allowed() {
    let parsed = parse_header(&[":ID", "a", "a"]).unwrap();
    assert_eq!(parsed.columns.len(), 3);
    assert_eq!(parsed.columns[1], parsed.columns[2]);
}

#[test]
fn node_header_may_hold_properties_only_besides_id() {
    let parsed = parse_header(&[":ID"]).unwrap();
    assert_eq!(parsed.file_kind, FileKind::Node);
    assert_eq!(parsed.columns, vec![ColumnKind::Id]);
}
