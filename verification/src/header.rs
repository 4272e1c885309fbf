//! Neo4j CSV header parsing.
//!
//! Parses the annotated header row into a sequence of [`ColumnKind`]
//! descriptors that drive row parsing.

use vstd::prelude::*;
use vstd::string::StringExecFns;

use crate::error::{ErrorView, Neo4jCsvError};
use crate::text::{chars_of, range_eq_str, string_of_range, trim, trim_range};

verus! {

broadcast use vstd::seq_lib::group_seq_properties;

/// Describes what a single CSV column represents.
#[derive(Debug, Clone, PartialEq, Eq)]
pub enum ColumnKind {
    /// `:ID` — the node's format-native identifier.
    Id,
    /// `:LABEL` — semicolon-delimited node labels.
    Label,
    /// `:START_ID` — relationship source node identifier.
    StartId,
    /// `:END_ID` — relationship target node identifier.
    EndId,
    /// `:TYPE` — relationship type.
    RelType,
    /// A property column, optionally annotated with a type hint.
    Property {
        /// Property key name.
        name: String,
        /// Optional type hint (e.g. `"string"`, `"int"`).
        type_hint: Option<String>,
    },
}

/// Whether the header describes a node file or a relationship file.
#[derive(Debug, Clone, Copy, PartialEq, Eq)]
pub enum FileKind {
    /// Node file (has `:ID`).
    Node,
    /// Relationship file (has `:START_ID`, `:END_ID`, `:TYPE`).
    Relationship,
}

/// Parsed header: the column kinds and the file kind.
#[derive(Debug, Clone, PartialEq, Eq)]
pub struct ParsedHeader {
    /// Column descriptors in header order.
    pub columns: Vec<ColumnKind>,
    /// Whether this is a node or relationship file.
    pub file_kind: FileKind,
}

/// The mathematical content of a [`ColumnKind`].
pub enum ColumnView {
    Id,
    Label,
    StartId,
    EndId,
    RelType,
    Property { name: Seq<char>, type_hint: Option<Seq<char>> },
}

/// The mathematical content of a [`ParsedHeader`].
pub struct HeaderView {
    pub columns: Seq<ColumnView>,
    pub file_kind: FileKind,
}

impl View for ColumnKind {
    type V = ColumnView;

    open spec fn view(&self) -> ColumnView {
        match self {
            ColumnKind::Id => ColumnView::Id,
            ColumnKind::Label => ColumnView::Label,
            ColumnKind::StartId => ColumnView::StartId,
            ColumnKind::EndId => ColumnView::EndId,
            ColumnKind::RelType => ColumnView::RelType,
            ColumnKind::Property { name, type_hint } => ColumnView::Property {
                name: name@,
                type_hint: type_hint.deep_view(),
            },
        }
    }
}

/// The contents of a sequence of column descriptors.
pub open spec fn columns_view(v: Seq<ColumnKind>) -> Seq<ColumnView> {
    v.map_values(|c: ColumnKind| c@)
}

impl View for ParsedHeader {
    type V = HeaderView;

    open spec fn view(&self) -> HeaderView {
        HeaderView { columns: columns_view(self.columns@), file_kind: self.file_kind }
    }
}

/// The contents of a sequence of string slices.
pub open spec fn strs_view(v: Seq<&str>) -> Seq<Seq<char>> {
    v.map_values(|s: &str| s@)
}

/// `k` is the position of the first `c` in `t`.
pub open spec fn is_first_index(t: Seq<char>, c: char, k: int) -> bool {
    &&& 0 <= k < t.len()
    &&& t[k] == c
    &&& forall|j: int| 0 <= j < k ==> t[j] != c
}

/// A property column: the text before the first `:` names the property,
/// the text after it is the type hint; with no `:`, the whole text is the
/// name and there is no hint.
pub open spec fn property_column(t: Seq<char>) -> ColumnView {
    if exists|k: int| is_first_index(t, ':', k) {
        let k = choose|k: int| is_first_index(t, ':', k);
        ColumnView::Property { name: t.take(k), type_hint: Some(t.skip(k + 1)) }
    } else {
        ColumnView::Property { name: t, type_hint: None }
    }
}

/// What a header field (whitespace around it ignored) declares.
pub open spec fn column_of(field: Seq<char>) -> ColumnView {
    let t = trim(field);
    if t == ":ID"@ {
        ColumnView::Id
    } else if t == ":LABEL"@ {
        ColumnView::Label
    } else if t == ":START_ID"@ {
        ColumnView::StartId
    } else if t == ":END_ID"@ {
        ColumnView::EndId
    } else if t == ":TYPE"@ {
        ColumnView::RelType
    } else {
        property_column(t)
    }
}

/// The columns that a header row declares, in order.
pub open spec fn columns_of(fields: Seq<Seq<char>>) -> Seq<ColumnView> {
    fields.map_values(|f: Seq<char>| column_of(f))
}

/// An annotation column (every kind but a property) may occur once.
pub open spec fn is_annotation(c: ColumnView) -> bool {
    !(c is Property)
}

/// The text of an annotation.
pub open spec fn annotation_name(c: ColumnView) -> Seq<char> {
    match c {
        ColumnView::Id => ":ID"@,
        ColumnView::Label => ":LABEL"@,
        ColumnView::StartId => ":START_ID"@,
        ColumnView::EndId => ":END_ID"@,
        ColumnView::RelType => ":TYPE"@,
        ColumnView::Property { .. } => Seq::empty(),
    }
}

/// The first position at which an annotation repeats one seen before it.
pub open spec fn first_duplicate(cols: Seq<ColumnView>) -> Option<int>
    decreases cols.len(),
{
    if cols.len() == 0 {
        None
    } else {
        match first_duplicate(cols.drop_last()) {
            Some(j) => Some(j),
            None => if is_annotation(cols.last()) && cols.drop_last().contains(cols.last()) {
                Some(cols.len() - 1)
            } else {
                None
            },
        }
    }
}

/// The columns mark a node file.
pub open spec fn marks_node(cols: Seq<ColumnView>) -> bool {
    cols.contains(ColumnView::Id)
}

/// The columns mark a relationship file.
pub open spec fn marks_relationship(cols: Seq<ColumnView>) -> bool {
    ||| cols.contains(ColumnView::StartId)
    ||| cols.contains(ColumnView::EndId)
    ||| cols.contains(ColumnView::RelType)
}

/// The outcome of parsing a header row made of `fields`.
pub open spec fn header_of(fields: Seq<Seq<char>>) -> Result<HeaderView, ErrorView> {
    let cols = columns_of(fields);
    if fields.len() == 0 {
        Err(ErrorView::EmptyHeader)
    } else if first_duplicate(cols) is Some {
        Err(ErrorView::DuplicateColumn { column: annotation_name(cols[first_duplicate(cols)->0]) })
    } else if marks_node(cols) && marks_relationship(cols) {
        Err(ErrorView::AmbiguousHeader)
    } else if marks_node(cols) {
        Ok(HeaderView { columns: cols, file_kind: FileKind::Node })
    } else if marks_relationship(cols) {
        if !cols.contains(ColumnView::StartId) {
            Err(ErrorView::MissingColumn { column: ":START_ID"@ })
        } else if !cols.contains(ColumnView::EndId) {
            Err(ErrorView::MissingColumn { column: ":END_ID"@ })
        } else if !cols.contains(ColumnView::RelType) {
            Err(ErrorView::MissingColumn { column: ":TYPE"@ })
        } else {
            Ok(HeaderView { columns: cols, file_kind: FileKind::Relationship })
        }
    } else {
        Err(ErrorView::UnrecognizedFileType)
    }
}

proof fn lemma_first_duplicate_prefix(cols: Seq<ColumnView>, n: int)
    requires
        0 <= n <= cols.len(),
        first_duplicate(cols.take(n)) is Some,
    ensures
        first_duplicate(cols) == first_duplicate(cols.take(n)),
    decreases cols.len(),
{
    if n == cols.len() {
        assert(cols.take(n) =~= cols);
    } else {
        assert(cols.drop_last().take(n) =~= cols.take(n));
        lemma_first_duplicate_prefix(cols.drop_last(), n);
    }
}

/// Parse a property column header like `"name:string"` or `"name"`, given
/// as `v[lo..hi]`.
fn parse_property_column(v: &Vec<char>, lo: usize, hi: usize) -> (res: ColumnKind)
    requires
        lo <= hi <= v@.len(),
    ensures
        res@ == property_column(v@.subrange(lo as int, hi as int)),
{
    let ghost t = v@.subrange(lo as int, hi as int);
    let mut i = lo;
    while i < hi
        invariant
            lo <= i <= hi <= v@.len(),
            t == v@.subrange(lo as int, hi as int),
            forall|j: int| 0 <= j < i - lo ==> t[j] != ':',
        decreases hi - i,
    {
        if v[i] == ':' {
            let ghost k = i - lo;
            assert(is_first_index(t, ':', k));
            let ghost k2 = choose|k2: int| is_first_index(t, ':', k2);
            assert(k2 == k) by {
                if k2 < k {
                    assert(t[k2] != ':');
                } else if k < k2 {
                    assert(t[k] != ':');
                }
            }
            let name = string_of_range(v, lo, i);
            let hint = string_of_range(v, i + 1, hi);
            assert(t.take(k) =~= v@.subrange(lo as int, i as int));
            assert(t.skip(k + 1) =~= v@.subrange(i + 1, hi as int));
            return ColumnKind::Property { name, type_hint: Some(hint) };
        }
        assert(t[i - lo] == v@[i as int]);
        i = i + 1;
    }
    assert(!exists|k: int| is_first_index(t, ':', k)) by {
        if exists|k: int| is_first_index(t, ':', k) {
            let k = choose|k: int| is_first_index(t, ':', k);
            assert(t[k] != ':');
        }
    }
    let name = string_of_range(v, lo, hi);
    ColumnKind::Property { name, type_hint: None }
}

/// What one header field declares.
fn column_of_field(field: &str) -> (res: ColumnKind)
    ensures
        res@ == column_of(field@),
{
    let v = chars_of(field);
    assert(v@.subrange(0, v@.len() as int) =~= field@);
    let (a, b) = trim_range(&v, 0, v.len());
    if range_eq_str(&v, a, b, ":ID") {
        ColumnKind::Id
    } else if range_eq_str(&v, a, b, ":LABEL") {
        ColumnKind::Label
    } else if range_eq_str(&v, a, b, ":START_ID") {
        ColumnKind::StartId
    } else if range_eq_str(&v, a, b, ":END_ID") {
        ColumnKind::EndId
    } else if range_eq_str(&v, a, b, ":TYPE") {
        ColumnKind::RelType
    } else {
        parse_property_column(&v, a, b)
    }
}

/// Parse a Neo4j CSV header row into column descriptors.
///
/// Fails on an empty header, on an annotation (`:ID`, `:LABEL`,
/// `:START_ID`, `:END_ID`, `:TYPE`) that occurs twice, on a header with
/// both node and relationship annotations, on a relationship header that
/// lacks one of its three annotations, and on a header with neither kind.
pub fn parse_header(fields: &[&str]) -> (res: Result<ParsedHeader, Neo4jCsvError>)
    ensures
        match res {
            Ok(h) => header_of(strs_view(fields@)) == Ok::<HeaderView, ErrorView>(h@),
            Err(e) => header_of(strs_view(fields@)) == Err::<HeaderView, ErrorView>(e@),
        },
{
    let ghost cols = columns_of(strs_view(fields@));
    if fields.len() == 0 {
        return Err(Neo4jCsvError::EmptyHeader);
    }
    let mut columns: Vec<ColumnKind> = Vec::new();
    let mut has_id = false;
    let mut has_start_id = false;
    let mut has_end_id = false;
    let mut has_type = false;
    let mut has_label = false;
    let mut i: usize = 0;
    while i < fields.len()
        invariant
            i <= fields@.len(),
            cols == columns_of(strs_view(fields@)),
            cols.len() == fields@.len(),
            columns_view(columns@) == cols.take(i as int),
            first_duplicate(cols.take(i as int)) is None,
            has_id == cols.take(i as int).contains(ColumnView::Id),
            has_label == cols.take(i as int).contains(ColumnView::Label),
            has_start_id == cols.take(i as int).contains(ColumnView::StartId),
            has_end_id == cols.take(i as int).contains(ColumnView::EndId),
            has_type == cols.take(i as int).contains(ColumnView::RelType),
        decreases fields@.len() - i,
    {
        let kind = column_of_field(fields[i]);
        let ghost prefix = cols.take(i as int);
        let ghost next = cols.take(i + 1);
        assert(next.drop_last() =~= prefix);
        assert(next =~= prefix.push(kind@));
        assert(cols[i as int] == kind@);
        let dup = match kind {
            ColumnKind::Id => has_id,
            ColumnKind::Label => has_label,
            ColumnKind::StartId => has_start_id,
            ColumnKind::EndId => has_end_id,
            ColumnKind::RelType => has_type,
            ColumnKind::Property { .. } => false,
        };
        if dup {
            assert(first_duplicate(next) == Some(i as int));
            proof {
                lemma_first_duplicate_prefix(cols, i + 1);
            }
            let column = match kind {
                ColumnKind::Id => String::from_str(":ID"),
                ColumnKind::Label => String::from_str(":LABEL"),
                ColumnKind::StartId => String::from_str(":START_ID"),
                ColumnKind::EndId => String::from_str(":END_ID"),
                _ => String::from_str(":TYPE"),
            };
            return Err(Neo4jCsvError::DuplicateColumn { column });
        }
        match kind {
            ColumnKind::Id => { has_id = true; },
            ColumnKind::Label => { has_label = true; },
            ColumnKind::StartId => { has_start_id = true; },
            ColumnKind::EndId => { has_end_id = true; },
            ColumnKind::RelType => { has_type = true; },
            ColumnKind::Property { .. } => {},
        }
        assert(first_duplicate(next) is None);
        columns.push(kind);
        assert(columns_view(columns@) =~= next);
        i = i + 1;
    }
    assert(cols.take(fields@.len() as int) =~= cols);
    let is_node = has_id;
    let is_rel = has_start_id || has_end_id || has_type;
    if is_node && is_rel {
        return Err(Neo4jCsvError::AmbiguousHeader);
    }
    if is_node {
        return Ok(ParsedHeader { columns, file_kind: FileKind::Node });
    }
    if is_rel {
        if !has_start_id {
            return Err(Neo4jCsvError::MissingColumn { column: String::from_str(":START_ID") });
        }
        if !has_end_id {
            return Err(Neo4jCsvError::MissingColumn { column: String::from_str(":END_ID") });
        }
        if !has_type {
            return Err(Neo4jCsvError::MissingColumn { column: String::from_str(":TYPE") });
        }
        return Ok(ParsedHeader { columns, file_kind: FileKind::Relationship });
    }
    Err(Neo4jCsvError::UnrecognizedFileType)
}

} // verus!
