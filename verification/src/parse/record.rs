//! The parsed-record enum yielded by streaming parsing.

use vstd::prelude::*;

use crate::types::{Node, NodeView, Relationship, RelationshipView};

verus! {

/// One parsed Neo4j CSV record.
#[derive(Debug, Clone, PartialEq, Eq)]
pub enum Neo4jCsvRecord {
    /// A node row from a node CSV file.
    Node(Node),
    /// A relationship row from a relationship CSV file.
    Edge(Relationship),
}

/// The mathematical content of a [`Neo4jCsvRecord`].
pub enum RecordView {
    Node(NodeView),
    Edge(RelationshipView),
}

impl View for Neo4jCsvRecord {
    type V = RecordView;

    open spec fn view(&self) -> RecordView {
        match self {
            Neo4jCsvRecord::Node(n) => RecordView::Node(n@),
            Neo4jCsvRecord::Edge(e) => RecordView::Edge(e@),
        }
    }
}

} // verus!
