//! Format-neutral records produced by the Neo4j CSV parser.

use vstd::prelude::*;

verus! {

/// A node parsed from a Neo4j node CSV file.
#[derive(Debug, Clone, PartialEq, Eq)]
pub struct Node {
    /// The format-native node identifier.
    pub id: String,
    /// Semicolon-delimited labels from the `:LABEL` column.
    pub labels: Vec<String>,
    /// Properties attached to the node.
    pub properties: Vec<Property>,
}

/// A relationship parsed from a Neo4j relationship CSV file.
#[derive(Debug, Clone, PartialEq, Eq)]
pub struct Relationship {
    /// The format-native source node identifier.
    pub start_id: String,
    /// The format-native target node identifier.
    pub end_id: String,
    /// The relationship type from the `:TYPE` column.
    pub rel_type: String,
    /// Properties attached to the relationship.
    pub properties: Vec<Property>,
}

/// A string-valued property with an optional Neo4j type hint.
#[derive(Debug, Clone, PartialEq, Eq)]
pub struct Property {
    /// The property key.
    pub name: String,
    /// The property value as it appeared after CSV unquoting.
    pub value: String,
    /// The optional type hint from an annotated header such as `age:int`.
    pub type_hint: Option<String>,
}

/// The mathematical content of a [`Property`].
pub struct PropertyView {
    pub name: Seq<char>,
    pub value: Seq<char>,
    pub type_hint: Option<Seq<char>>,
}

/// The mathematical content of a [`Node`].
pub struct NodeView {
    pub id: Seq<char>,
    pub labels: Seq<Seq<char>>,
    pub properties: Seq<PropertyView>,
}

/// The mathematical content of a [`Relationship`].
pub struct RelationshipView {
    pub start_id: Seq<char>,
    pub end_id: Seq<char>,
    pub rel_type: Seq<char>,
    pub properties: Seq<PropertyView>,
}

/// The contents of a sequence of strings.
pub open spec fn strings_view(v: Seq<String>) -> Seq<Seq<char>> {
    v.map_values(|s: String| s@)
}

/// The contents of a sequence of properties.
pub open spec fn properties_view(v: Seq<Property>) -> Seq<PropertyView> {
    v.map_values(|p: Property| p@)
}

impl View for Property {
    type V = PropertyView;

    open spec fn view(&self) -> PropertyView {
        PropertyView {
            name: self.name@,
            value: self.value@,
            type_hint: self.type_hint.deep_view(),
        }
    }
}

impl View for Node {
    type V = NodeView;

    open spec fn view(&self) -> NodeView {
        NodeView {
            id: self.id@,
            labels: strings_view(self.labels@),
            properties: properties_view(self.properties@),
        }
    }
}

impl View for Relationship {
    type V = RelationshipView;

    open spec fn view(&self) -> RelationshipView {
        RelationshipView {
            start_id: self.start_id@,
            end_id: self.end_id@,
            rel_type: self.rel_type@,
            properties: properties_view(self.properties@),
        }
    }
}

} // verus!

verus! {

/// The contents of a sequence of nodes.
pub open spec fn nodes_view(v: Seq<Node>) -> Seq<NodeView> {
    v.map_values(|n: Node| n@)
}

/// The contents of a sequence of relationships.
pub open spec fn relationships_view(v: Seq<Relationship>) -> Seq<RelationshipView> {
    v.map_values(|r: Relationship| r@)
}

} // verus!
