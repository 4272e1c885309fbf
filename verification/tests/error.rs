use neo4j_csv::Neo4jCsvError;

#[test]
fn display_empty_header() {
    let err = Neo4jCsvError::EmptyHeader;
    assert_eq!(err.to_string(), "Neo4j CSV: empty or missing header");
}

#[test]
fn display_field_count_mismatch() {
    let err = Neo4jCsvError::FieldCountMismatch {
        row: 3,
        found: 4,
        expected: 5,
    };
    assert_eq!(err.to_string(), "Neo4j CSV: row 3 has 4 fields, expected 5");
}

// Further cases.

#[test]
fn display_every_other_variant() {
    assert_eq!(
        Neo4jCsvError::AmbiguousHeader.to_string(),
        "Neo4j CSV: ambiguous header — contains both :ID and :START_ID"
    );
    assert_eq!(
        Neo4jCsvError::MissingColumn {
            column: ":TYPE".to_owned()
        }
        .to_string(),
        "Neo4j CSV: missing required column: :TYPE"
    );
    assert_eq!(
        Neo4jCsvError::DuplicateColumn {
            column: ":LABEL".to_owned()
        }
        .to_string(),
        "Neo4j CSV: duplicate column: :LABEL"
    );
    assert_eq!(
        Neo4jCsvError::UnrecognizedFileType.to_string(),
        "Neo4j CSV: header is neither a node file (:ID) nor a relationship file (:START_ID + :END_ID + :TYPE)"
    );
}

#[test]
fn display_multi_digit_numbers() {
    let err = Neo4jCsvError::FieldCountMismatch {
        row: 0,
        found: 10,
        expected: 1234567,
    };
    assert_eq!(
        err.to_string(),
        "Neo4j CSV: row 0 has 10 fields, expected 1234567"
    );
    let err = Neo4jCsvError::FieldCountMismatch {
        row: usize::MAX,
        found: 909,
        expected: 100,
    };
    assert_eq!(
        err.to_string(),
        format!("Neo4j CSV: row {} has 909 fields, expected 100", usize::MAX)
    );
}
