//! Stateful line-by-line streaming parser.

use vstd::prelude::*;

use crate::error::{ErrorView, Neo4jCsvError};
use crate::header::{header_of, parse_header, strs_view, FileKind, HeaderView, ParsedHeader};
use crate::parse::assemble::{build_edge, build_node, edge_of, node_of};
use crate::parse::csv_line::{csv_fields, csv_fields_of_range};
use crate::parse::record::{Neo4jCsvRecord, RecordView};
use crate::text::{chars_of, trim, trim_range};
use crate::types::strings_view;

verus! {

/// Stateful line-by-line Neo4j CSV parser.
#[derive(Debug)]
pub struct Neo4jCsvStreamParser {
    header: Option<ParsedHeader>,
    row: usize,
}

/// The state of a [`Neo4jCsvStreamParser`]: the header once it has been
/// read, and the number of data lines seen since.
pub struct StreamView {
    pub header: Option<HeaderView>,
    pub row: nat,
}

impl View for Neo4jCsvStreamParser {
    type V = StreamView;

    closed spec fn view(&self) -> StreamView {
        StreamView {
            header: match self.header {
                Some(h) => Some(h@),
                None => None,
            },
            row: self.row as nat,
        }
    }
}

/// The state of a parser that has seen nothing yet.
pub open spec fn fresh_stream() -> StreamView {
    StreamView { header: None, row: 0 }
}

/// A line without one trailing carriage return.
pub open spec fn strip_cr(line: Seq<char>) -> Seq<char> {
    if line.len() > 0 && line.last() == '\r' {
        line.drop_last()
    } else {
        line
    }
}

/// The record that a data row with `fields` describes under header `h`.
pub open spec fn record_of(h: HeaderView, fields: Seq<Seq<char>>) -> RecordView {
    match h.file_kind {
        FileKind::Node => RecordView::Node(node_of(h.columns, fields)),
        FileKind::Relationship => RecordView::Edge(edge_of(h.columns, fields)),
    }
}

/// What feeding `line` to a parser in state `st` does: the next state and
/// what the call returns.
///
/// The first line is the header (a blank one is refused as an empty
/// header); after it, each line counts as a row, a blank one yields
/// nothing, and any other must have one field per column.
pub open spec fn stream_step(st: StreamView, line: Seq<char>) -> (
    StreamView,
    Result<Option<RecordView>, ErrorView>,
) {
    let l = strip_cr(line);
    match st.header {
        None => if trim(l).len() == 0 {
            (st, Err(ErrorView::EmptyHeader))
        } else {
            match header_of(csv_fields(l)) {
                Ok(h) => (StreamView { header: Some(h), row: st.row }, Ok(None)),
                Err(e) => (st, Err(e)),
            }
        },
        Some(h) => {
            let row = st.row + 1;
            let next = StreamView { header: Some(h), row };
            let t = trim(l);
            if t.len() == 0 {
                (next, Ok(None))
            } else {
                let fields = csv_fields(t);
                if fields.len() != h.columns.len() {
                    (
                        next,
                        Err(
                            ErrorView::FieldCountMismatch {
                                row,
                                found: fields.len(),
                                expected: h.columns.len(),
                            },
                        ),
                    )
                } else {
                    (next, Ok(Some(record_of(h, fields))))
                }
            }
        },
    }
}

fn strs_of(v: &Vec<String>) -> (res: Vec<&str>)
    ensures
        strs_view(res@) == strings_view(v@),
{
    let mut res: Vec<&str> = Vec::new();
    let mut i: usize = 0;
    while i < v.len()
        invariant
            i <= v@.len(),
            strs_view(res@) == strings_view(v@).take(i as int),
        decreases v@.len() - i,
    {
        let ghost before = strs_view(res@);
        res.push(v[i].as_str());
        assert(strs_view(res@) =~= before.push(v@[i as int]@));
        assert(strings_view(v@).take(i + 1) =~= strings_view(v@).take(i as int).push(
            v@[i as int]@,
        ));
        i = i + 1;
    }
    assert(strings_view(v@).take(v@.len() as int) =~= strings_view(v@));
    res
}

impl Default for Neo4jCsvStreamParser {
    fn default() -> (res: Self)
        ensures
            res@ == fresh_stream(),
    {
        Neo4jCsvStreamParser { header: None, row: 0 }
    }
}

impl Neo4jCsvStreamParser {
    /// Create a new streaming parser with no header loaded yet.
    pub fn new() -> (res: Self)
        ensures
            res@ == fresh_stream(),
    {
        Neo4jCsvStreamParser { header: None, row: 0 }
    }

    /// Return whether the header row has been parsed.
    pub fn has_header(&self) -> (res: bool)
        ensures
            res == self@.header is Some,
    {
        self.header.is_some()
    }

    /// Parse one physical CSV line.
    ///
    /// The first line is treated as the header. Subsequent lines yield
    /// zero or one parsed records.
    pub fn parse_line(&mut self, line: &str) -> (res: Result<Option<Neo4jCsvRecord>, Neo4jCsvError>)
        requires
            old(self)@.row < usize::MAX,
        ensures
            final(self)@ == stream_step(old(self)@, line@).0,
            match res {
                Ok(Some(r)) => stream_step(old(self)@, line@).1 == Ok::<
                    Option<RecordView>,
                    ErrorView,
                >(Some(r@)),
                Ok(None) => stream_step(old(self)@, line@).1 == Ok::<
                    Option<RecordView>,
                    ErrorView,
                >(None),
                Err(e) => stream_step(old(self)@, line@).1 == Err::<Option<RecordView>, ErrorView>(
                    e@,
                ),
            },
    {
        let v = chars_of(line);
        let mut hi = v.len();
        if hi > 0 && v[hi - 1] == '\r' {
            hi = hi - 1;
        }
        assert(v@.subrange(0, hi as int) =~= strip_cr(line@));
        match &self.header {
            None => {
                let (a, b) = trim_range(&v, 0, hi);
                if a == b {
                    return Err(Neo4jCsvError::EmptyHeader);
                }
                let header_fields = csv_fields_of_range(&v, 0, hi);
                let header_refs = strs_of(&header_fields);
                let header = parse_header(header_refs.as_slice())?;
                self.header = Some(header);
                Ok(None)
            },
            Some(header) => {
                self.row = self.row + 1;
                let (a, b) = trim_range(&v, 0, hi);
                if a == b {
                    return Ok(None);
                }
                let fields = csv_fields_of_range(&v, a, b);
                if fields.len() != header.columns.len() {
                    return Err(
                        Neo4jCsvError::FieldCountMismatch {
                            row: self.row,
                            found: fields.len(),
                            expected: header.columns.len(),
                        },
                    );
                }
                let record = match header.file_kind {
                    FileKind::Node => Neo4jCsvRecord::Node(build_node(&header.columns, &fields)),
                    FileKind::Relationship => Neo4jCsvRecord::Edge(
                        build_edge(&header.columns, &fields),
                    ),
                };
                Ok(Some(record))
            },
        }
    }
}

} // verus!
