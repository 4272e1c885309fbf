use neo4j_csv::parse::parse_csv_line;
use neo4j_csv::{parse_neo4j_csv, parse_neo4j_csv_with, Neo4jCsvError, Neo4jCsvRecord, Neo4jCsvStreamParser};

fn quote(field: &str) -> String {
    format!("\"{}\"", field.replace('"', "\"\""))
}

#[test]
fn quoted_fields_round_trip() {
    let fields = vec!["a,b", "say \"hi\"", "", "x", "\"", ",,", "end\""];
    let line = fields.iter().map(|f| quote(f)).collect::<Vec<_>>().join(",");
    assert_eq!(parse_csv_line(&line), fields);
    assert_eq!(parse_csv_line(&quote("")), vec![""]);
    assert_eq!(parse_csv_line(&quote("only \"one\", field")), vec!["only \"one\", field"]);
}

#[test]
fn plain_fields_round_trip() {
    let fields = vec!["alpha", " spaced ", "", "ünïcødé", "x;y"];
    assert_eq!(parse_csv_line(&fields.join(",")), fields);
    assert_eq!(parse_csv_line(""), vec![""]);
}

#[test]
fn quotes_inside_a_field_toggle_quoting() {
    assert_eq!(parse_csv_line("a\"b,c\"d,e"), vec!["ab,cd", "e"]);
    assert_eq!(parse_csv_line("\"abc,def"), vec!["abc,def"]);
    assert_eq!(parse_csv_line("\"a\"\""), vec!["a\""]);
}

#[test]
fn labels_are_trimmed_and_empty_ones_dropped() {
    let input = ":ID,:LABEL\nx, A ;;  ; B\u{3000};C \n";
    let (nodes, _) = parse_neo4j_csv(input).unwrap();
    assert_eq!(nodes[0].labels, vec!["A", "B", "C"]);
    let (nodes, _) = parse_neo4j_csv(":ID,:LABEL\nx,\n").unwrap();
    assert!(nodes[0].labels.is_empty());
}

#[test]
fn node_file_yields_only_nodes_and_one_per_nonblank_row() {
    let input = ":ID,name\na,1\n   \n\nb,2\r\nc,3";
    let (nodes, edges) = parse_neo4j_csv(input).unwrap();
    assert!(edges.is_empty());
    assert_eq!(nodes.len(), 3);
    assert_eq!(nodes[1].properties[0].value, "2");
    assert_eq!(nodes[2].id, "c");
}

#[test]
fn relationship_file_yields_only_relationships() {
    let input = ":TYPE,w:float,:END_ID,:START_ID\nR,0.5,b,a\n\nS,1,c,b\n";
    let (nodes, edges) = parse_neo4j_csv(input).unwrap();
    assert!(nodes.is_empty());
    assert_eq!(edges.len(), 2);
    assert_eq!(edges[0].start_id, "a");
    assert_eq!(edges[0].end_id, "b");
    assert_eq!(edges[0].rel_type, "R");
    assert_eq!(edges[0].properties[0].type_hint.as_deref(), Some("float"));
    assert_eq!(edges[1].rel_type, "S");
}

#[test]
fn every_data_line_counts_as_a_row() {
    let mut parser = Neo4jCsvStreamParser::default();
    assert!(parser.parse_line(":ID,x").unwrap().is_none());
    assert!(parser.parse_line("").unwrap().is_none());
    assert!(parser.parse_line(" \t ").unwrap().is_none());
    assert!(parser.parse_line("a,1").unwrap().is_some());
    let err = parser.parse_line("b").unwrap_err();
    assert!(matches!(
        err,
        Neo4jCsvError::FieldCountMismatch {
            row: 4,
            found: 1,
            expected: 2
        }
    ));
    let err = parser.parse_line("c,2,3").unwrap_err();
    assert!(matches!(
        err,
        Neo4jCsvError::FieldCountMismatch { row: 5, found: 3, .. }
    ));
}

#[test]
fn header_is_read_once() {
    let mut parser = Neo4jCsvStreamParser::new();
    parser.parse_line(":ID,:LABEL").unwrap();
    let record = parser.parse_line(":START_ID,:TYPE").unwrap().unwrap();
    let Neo4jCsvRecord::Node(node) = record else {
        panic!("node expected");
    };
    assert_eq!(node.id, ":START_ID");
    assert_eq!(node.labels, vec![":TYPE"]);
}

#[test]
fn refused_header_leaves_parser_waiting_for_a_header() {
    let mut parser = Neo4jCsvStreamParser::new();
    let err = parser.parse_line("a,b").unwrap_err();
    assert!(matches!(err, Neo4jCsvError::UnrecognizedFileType));
    assert!(!parser.has_header());
    assert!(parser.parse_line(":ID").unwrap().is_none());
    assert!(parser.has_header());
    let err = parser.parse_line("x,y").unwrap_err();
    assert!(matches!(
        err,
        Neo4jCsvError::FieldCountMismatch { row: 1, found: 2, expected: 1 }
    ));
}

#[test]
fn carriage_returns_before_newlines_are_dropped() {
    let input = ":ID,:LABEL\r\nalice,Person\r\nbob,Admin\r";
    let (nodes, _) = parse_neo4j_csv(input).unwrap();
    assert_eq!(nodes.len(), 2);
    assert_eq!(nodes[0].labels, vec!["Person"]);
    assert_eq!(nodes[1].labels, vec!["Admin"]);
}

#[test]
fn data_rows_are_trimmed_before_splitting() {
    let (nodes, _) = parse_neo4j_csv(":ID,:LABEL\n  alice , Person  \n").unwrap();
    assert_eq!(nodes[0].id, "alice ");
    assert_eq!(nodes[0].labels, vec!["Person"]);
}

#[test]
fn blank_header_line_is_an_empty_header() {
    let err = parse_neo4j_csv("\n:ID\n").unwrap_err();
    assert!(matches!(err, Neo4jCsvError::EmptyHeader));
    let err = parse_neo4j_csv("\n").unwrap_err();
    assert!(matches!(err, Neo4jCsvError::EmptyHeader));
    let err = parse_neo4j_csv(" \t\r\nx\n").unwrap_err();
    assert!(matches!(err, Neo4jCsvError::EmptyHeader));
    let err = parse_neo4j_csv_with(
        "\r\na\n",
        |_| panic!("no node expected"),
        |_| panic!("no relationship expected"),
    )
    .unwrap_err();
    assert!(matches!(err, Neo4jCsvError::EmptyHeader));
    let mut parser = Neo4jCsvStreamParser::new();
    assert!(matches!(parser.parse_line("").unwrap_err(), Neo4jCsvError::EmptyHeader));
    assert!(!parser.has_header());
    assert!(parser.parse_line(":ID").unwrap().is_none());
}

#[test]
fn callbacks_receive_every_record_in_order() {
    let mut nodes = Vec::new();
    let mut edges = 0;
    parse_neo4j_csv_with(
        ":ID,:LABEL\nalice,Person\n\nbob,Person;Admin\n",
        |node| nodes.push(node),
        |_| edges += 1,
    )
    .unwrap();
    assert_eq!(edges, 0);
    assert_eq!(nodes.len(), 2);
    assert_eq!(nodes[0].id, "alice");
    assert_eq!(nodes[1].id, "bob");
    assert_eq!(nodes[1].labels, vec!["Person", "Admin"]);
    let mut rels = Vec::new();
    parse_neo4j_csv_with(
        ":START_ID,:END_ID,:TYPE\na,b,X\nb,c,Y\n",
        |_| panic!("no node expected"),
        |r| rels.push(r),
    )
    .unwrap();
    assert_eq!(rels.len(), 2);
    assert_eq!((rels[0].start_id.as_str(), rels[0].rel_type.as_str()), ("a", "X"));
    assert_eq!((rels[1].end_id.as_str(), rels[1].rel_type.as_str()), ("c", "Y"));
}

#[test]
fn records_take_cells_by_column_whatever_the_order() {
    let (nodes, _) = parse_neo4j_csv("p:int,:LABEL,:ID,q\n1,A;B,n1,two\n").unwrap();
    assert_eq!(nodes[0].id, "n1");
    assert_eq!(nodes[0].labels, vec!["A", "B"]);
    assert_eq!(nodes[0].properties.len(), 2);
    assert_eq!(nodes[0].properties[0].name, "p");
    assert_eq!(nodes[0].properties[0].value, "1");
    assert_eq!(nodes[0].properties[0].type_hint.as_deref(), Some("int"));
    assert_eq!(nodes[0].properties[1].name, "q");
    assert_eq!(nodes[0].properties[1].value, "two");
    let (nodes, _) = parse_neo4j_csv(":ID,name\nx,y\n").unwrap();
    assert!(nodes[0].labels.is_empty());
}

#[test]
fn header_errors_surface_from_whole_input() {
    let err = parse_neo4j_csv(":ID,:ID\n").unwrap_err();
    assert!(matches!(err, Neo4jCsvError::DuplicateColumn { column } if column == ":ID"));
    let err = parse_neo4j_csv(":ID,:TYPE\n").unwrap_err();
    assert!(matches!(err, Neo4jCsvError::AmbiguousHeader));
    let err = parse_neo4j_csv(":START_ID,:END_ID\n").unwrap_err();
    assert!(matches!(err, Neo4jCsvError::MissingColumn { column } if column == ":TYPE"));
}

#[test]
fn header_only_input_yields_nothing() {
    let (nodes, edges) = parse_neo4j_csv(":ID\n").unwrap();
    assert!(nodes.is_empty() && edges.is_empty());
}

#[test]
fn streaming_stops_at_the_first_bad_row() {
    let mut seen = Vec::new();
    let err = parse_neo4j_csv_with(
        ":ID,n\na,1\nb\nc,3\n",
        |node| seen.push(node.id),
        |_| {},
    )
    .unwrap_err();
    assert!(matches!(
        err,
        Neo4jCsvError::FieldCountMismatch { row: 2, found: 1, expected: 2 }
    ));
    assert_eq!(seen, vec!["a"]);
    let err = parse_neo4j_csv_with("", |_| {}, |_| {}).unwrap_err();
    assert!(matches!(err, Neo4jCsvError::EmptyHeader));
}

#[test]
fn quick_start_example() {
    let input = ":ID,name:string,:LABEL\nalice,Alice,Person\n";
    let (nodes, relationships) = parse_neo4j_csv(input).unwrap();
    assert!(relationships.is_empty());
    assert_eq!(nodes[0].id, "alice");
    assert_eq!(nodes[0].labels, ["Person"]);
    assert_eq!(nodes[0].properties[0].name, "name");
    assert_eq!(nodes[0].properties[0].value, "Alice");
}

#[test]
fn streaming_example() {
    let input = ":START_ID,:END_ID,:TYPE\nalice,bob,KNOWS\n";
    let mut relationships = 0;
    parse_neo4j_csv_with(input, |_node| {}, |_relationship| {
        relationships += 1;
    })
    .unwrap();
    assert_eq!(relationships, 1);
}
