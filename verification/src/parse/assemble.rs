//! Construction of parsed records from data rows.

use vstd::prelude::*;

use crate::header::{ColumnKind, ColumnView};
use crate::text::{chars_of, string_of_range, trim, trim_range};
use crate::types::{
    properties_view, strings_view, Node, NodeView, Property, PropertyView, Relationship,
    RelationshipView,
};

verus! {

/// `acc` with the segment `seg` added as a label, trimmed, unless nothing
/// but whitespace is left of it.
pub open spec fn keep_label(acc: Seq<Seq<char>>, seg: Seq<char>) -> Seq<Seq<char>> {
    if trim(seg).len() > 0 {
        acc.push(trim(seg))
    } else {
        acc
    }
}

/// Splitting a `:LABEL` value on `;` from position `i` on, with `cur` the
/// segment being read and `acc` the labels kept so far.
pub open spec fn label_scan(s: Seq<char>, i: int, cur: Seq<char>, acc: Seq<Seq<char>>) -> Seq<
    Seq<char>,
>
    decreases s.len() - i,
{
    if i < 0 || i >= s.len() {
        keep_label(acc, cur)
    } else if s[i] == ';' {
        label_scan(s, i + 1, Seq::empty(), keep_label(acc, cur))
    } else {
        label_scan(s, i + 1, cur.push(s[i]), acc)
    }
}

/// The labels that a `:LABEL` value lists: its `;`-separated segments,
/// trimmed, the empty ones left out.
pub open spec fn labels_of(s: Seq<char>) -> Seq<Seq<char>> {
    label_scan(s, 0, Seq::empty(), Seq::empty())
}

/// The node that the first `n` cells of a row describe.
pub open spec fn node_prefix(cols: Seq<ColumnView>, vals: Seq<Seq<char>>, n: int) -> NodeView
    decreases n,
{
    if n <= 0 {
        NodeView { id: Seq::empty(), labels: Seq::empty(), properties: Seq::empty() }
    } else {
        let prev = node_prefix(cols, vals, n - 1);
        let v = vals[n - 1];
        match cols[n - 1] {
            ColumnView::Id => NodeView { id: v, labels: prev.labels, properties: prev.properties },
            ColumnView::Label => NodeView {
                id: prev.id,
                labels: prev.labels + labels_of(v),
                properties: prev.properties,
            },
            ColumnView::Property { name, type_hint } => NodeView {
                id: prev.id,
                labels: prev.labels,
                properties: prev.properties.push(PropertyView { name, value: v, type_hint }),
            },
            _ => prev,
        }
    }
}

/// The node that a data row of a node file describes.
pub open spec fn node_of(cols: Seq<ColumnView>, vals: Seq<Seq<char>>) -> NodeView {
    node_prefix(cols, vals, cols.len() as int)
}

/// The relationship that the first `n` cells of a row describe.
pub open spec fn edge_prefix(cols: Seq<ColumnView>, vals: Seq<Seq<char>>, n: int) -> RelationshipView
    decreases n,
{
    if n <= 0 {
        RelationshipView {
            start_id: Seq::empty(),
            end_id: Seq::empty(),
            rel_type: Seq::empty(),
            properties: Seq::empty(),
        }
    } else {
        let prev = edge_prefix(cols, vals, n - 1);
        let v = vals[n - 1];
        match cols[n - 1] {
            ColumnView::StartId => RelationshipView {
                start_id: v,
                end_id: prev.end_id,
                rel_type: prev.rel_type,
                properties: prev.properties,
            },
            ColumnView::EndId => RelationshipView {
                start_id: prev.start_id,
                end_id: v,
                rel_type: prev.rel_type,
                properties: prev.properties,
            },
            ColumnView::RelType => RelationshipView {
                start_id: prev.start_id,
                end_id: prev.end_id,
                rel_type: v,
                properties: prev.properties,
            },
            ColumnView::Property { name, type_hint } => RelationshipView {
                start_id: prev.start_id,
                end_id: prev.end_id,
                rel_type: prev.rel_type,
                properties: prev.properties.push(PropertyView { name, value: v, type_hint }),
            },
            _ => prev,
        }
    }
}

/// The relationship that a data row of a relationship file describes.
pub open spec fn edge_of(cols: Seq<ColumnView>, vals: Seq<Seq<char>>) -> RelationshipView {
    edge_prefix(cols, vals, cols.len() as int)
}

/// The labels listed in a `:LABEL` value.
fn split_labels(value: &String) -> (res: Vec<String>)
    ensures
        strings_view(res@) == labels_of(value@),
{
    let v = chars_of(value.as_str());
    let ghost s = v@;
    let mut res: Vec<String> = Vec::new();
    let mut start: usize = 0;
    let mut i: usize = 0;
    assert(strings_view(res@) =~= Seq::<Seq<char>>::empty());
    assert(s.subrange(0, 0) =~= Seq::<char>::empty());
    while i < v.len()
        invariant
            s == v@,
            s == value@,
            start <= i <= v@.len(),
            labels_of(s) == label_scan(
                s,
                i as int,
                s.subrange(start as int, i as int),
                strings_view(res@),
            ),
        decreases v@.len() - i,
    {
        if v[i] == ';' {
            let (a, b) = trim_range(&v, start, i);
            if a < b {
                let label = string_of_range(&v, a, b);
                let ghost before = strings_view(res@);
                res.push(label);
                assert(strings_view(res@) =~= before.push(label@));
            }
            i = i + 1;
            start = i;
            assert(s.subrange(start as int, i as int) =~= Seq::<char>::empty());
        } else {
            assert(s.subrange(start as int, i + 1) =~= s.subrange(start as int, i as int).push(
                s[i as int],
            ));
            i = i + 1;
        }
    }
    let (a, b) = trim_range(&v, start, v.len());
    if a < b {
        let label = string_of_range(&v, a, b);
        let ghost before = strings_view(res@);
        res.push(label);
        assert(strings_view(res@) =~= before.push(label@));
    }
    res
}

fn clone_hint(h: &Option<String>) -> (res: Option<String>)
    ensures
        res.deep_view() == h.deep_view(),
{
    match h {
        Some(s) => Some(s.clone()),
        None => None,
    }
}

/// Build a [`Node`] from a data row and column descriptors.
pub(crate) fn build_node(columns: &Vec<ColumnKind>, fields: &Vec<String>) -> (res: Node)
    requires
        columns@.len() == fields@.len(),
    ensures
        res@ == node_of(
            columns@.map_values(|c: ColumnKind| c@),
            strings_view(fields@),
        ),
{
    let ghost cols = columns@.map_values(|c: ColumnKind| c@);
    let ghost vals = strings_view(fields@);
    let mut id = String::new();
    let mut labels: Vec<String> = Vec::new();
    let mut properties: Vec<Property> = Vec::new();
    let mut i: usize = 0;
    assert(strings_view(labels@) =~= Seq::<Seq<char>>::empty());
    assert(properties_view(properties@) =~= Seq::<PropertyView>::empty());
    while i < columns.len()
        invariant
            columns@.len() == fields@.len(),
            cols == columns@.map_values(|c: ColumnKind| c@),
            vals == strings_view(fields@),
            i <= columns@.len(),
            node_prefix(cols, vals, i as int) == (NodeView {
                id: id@,
                labels: strings_view(labels@),
                properties: properties_view(properties@),
            }),
        decreases columns@.len() - i,
    {
        let value = &fields[i];
        assert(vals[i as int] == value@);
        assert(cols[i as int] == columns@[i as int]@);
        match &columns[i] {
            ColumnKind::Id => {
                id = value.clone();
            },
            ColumnKind::Label => {
                let mut more = split_labels(value);
                let ghost before = strings_view(labels@);
                let ghost extra = strings_view(more@);
                labels.append(&mut more);
                assert(strings_view(labels@) =~= before + extra);
            },
            ColumnKind::Property { name, type_hint } => {
                let p = Property { name: name.clone(), value: value.clone(), type_hint: clone_hint(type_hint) };
                let ghost before = properties_view(properties@);
                properties.push(p);
                assert(properties_view(properties@) =~= before.push(p@));
            },
            _ => {},
        }
        i = i + 1;
    }
    Node { id, labels, properties }
}

/// Build a [`Relationship`] from a data row and column descriptors.
pub(crate) fn build_edge(columns: &Vec<ColumnKind>, fields: &Vec<String>) -> (res: Relationship)
    requires
        columns@.len() == fields@.len(),
    ensures
        res@ == edge_of(
            columns@.map_values(|c: ColumnKind| c@),
            strings_view(fields@),
        ),
{
    let ghost cols = columns@.map_values(|c: ColumnKind| c@);
    let ghost vals = strings_view(fields@);
    let mut start_id = String::new();
    let mut end_id = String::new();
    let mut rel_type = String::new();
    let mut properties: Vec<Property> = Vec::new();
    let mut i: usize = 0;
    assert(properties_view(properties@) =~= Seq::<PropertyView>::empty());
    while i < columns.len()
        invariant
            columns@.len() == fields@.len(),
            cols == columns@.map_values(|c: ColumnKind| c@),
            vals == strings_view(fields@),
            i <= columns@.len(),
            edge_prefix(cols, vals, i as int) == (RelationshipView {
                start_id: start_id@,
                end_id: end_id@,
                rel_type: rel_type@,
                properties: properties_view(properties@),
            }),
        decreases columns@.len() - i,
    {
        let value = &fields[i];
        assert(vals[i as int] == value@);
        assert(cols[i as int] == columns@[i as int]@);
        match &columns[i] {
            ColumnKind::StartId => {
                start_id = value.clone();
            },
            ColumnKind::EndId => {
                end_id = value.clone();
            },
            ColumnKind::RelType => {
                rel_type = value.clone();
            },
            ColumnKind::Property { name, type_hint } => {
                let p = Property { name: name.clone(), value: value.clone(), type_hint: clone_hint(type_hint) };
                let ghost before = properties_view(properties@);
                properties.push(p);
                assert(properties_view(properties@) =~= before.push(p@));
            },
            _ => {},
        }
        i = i + 1;
    }
    Relationship { start_id, end_id, rel_type, properties }
}

} // verus!
