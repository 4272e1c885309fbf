//! Properties of the parser as a whole, proved over the specifications
//! that the parsing functions' contracts use.

use vstd::prelude::*;

use crate::error::{decimal, digit_char, ErrorView};
use crate::header::{
    annotation_name, column_of, columns_of, first_duplicate, header_of, is_annotation,
    is_first_index, marks_node, marks_relationship, ColumnView, FileKind,
};
use crate::parse::assemble::{edge_of, edge_prefix, keep_label, label_scan, labels_of, node_of, node_prefix};
use crate::parse::csv_line::{csv_fields, csv_scan};
use crate::parse::entry::{lines_of, lines_scan, parse_input, run_lines};
use crate::parse::stream::{record_of, stream_step, strip_cr, StreamView};
use crate::parse::record::RecordView;
use crate::types::{NodeView, PropertyView, RelationshipView};
use crate::text::{is_white, trim, trim_end, trim_start};

verus! {

// ---------------------------------------------------------------------------
// Writing and reading CSV fields
// ---------------------------------------------------------------------------

/// `f` with each `"` doubled.
pub open spec fn escape_quotes(f: Seq<char>) -> Seq<char>
    decreases f.len(),
{
    if f.len() == 0 {
        Seq::empty()
    } else if f[0] == '"' {
        seq!['"', '"'] + escape_quotes(f.drop_first())
    } else {
        seq![f[0]] + escape_quotes(f.drop_first())
    }
}

/// `f` written as a quoted CSV field.
pub open spec fn quote_field(f: Seq<char>) -> Seq<char> {
    seq!['"'] + escape_quotes(f) + seq!['"']
}

/// The fields joined by commas.
pub open spec fn join_fields(fs: Seq<Seq<char>>) -> Seq<char>
    decreases fs.len(),
{
    if fs.len() == 0 {
        Seq::empty()
    } else if fs.len() == 1 {
        fs[0]
    } else {
        fs[0] + seq![','] + join_fields(fs.drop_first())
    }
}

/// A piece of a piece of `line` is a piece of `line`.
proof fn lemma_subrange_within(line: Seq<char>, i: int, s: Seq<char>, off: int, t: Seq<char>)
    requires
        0 <= i,
        i + s.len() <= line.len(),
        line.subrange(i, i + s.len()) == s,
        0 <= off,
        off + t.len() <= s.len(),
        s.subrange(off, off + t.len()) == t,
    ensures
        line.subrange(i + off, i + off + t.len()) == t,
        forall|k: int| 0 <= k < s.len() ==> line[i + k] == #[trigger] s[k],
{
    assert forall|k: int| 0 <= k < s.len() implies line[i + k] == #[trigger] s[k] by {
        assert(line.subrange(i, i + s.len())[k] == s[k]);
    }
    assert forall|k: int| 0 <= k < t.len() implies line.subrange(i + off, i + off + t.len())[k]
        == t[k] by {
        assert(s.subrange(off, off + t.len())[k] == t[k]);
        assert(s[off + k] == line[i + off + k]);
    }
    assert(line.subrange(i + off, i + off + t.len()) =~= t);
}

/// Inside a quoted section, an escaped field reads back as the field.
proof fn lemma_scan_escaped(
    line: Seq<char>,
    i: int,
    f: Seq<char>,
    cur: Seq<char>,
    done: Seq<Seq<char>>,
)
    requires
        0 <= i,
        i + escape_quotes(f).len() <= line.len(),
        line.subrange(i, i + escape_quotes(f).len()) == escape_quotes(f),
    ensures
        csv_scan(line, i, true, cur, done) == csv_scan(
            line,
            i + escape_quotes(f).len(),
            true,
            cur + f,
            done,
        ),
    decreases f.len(),
{
    let e = escape_quotes(f);
    if f.len() == 0 {
        assert(cur + f =~= cur);
    } else {
        let rest = f.drop_first();
        let er = escape_quotes(rest);
        if f[0] == '"' {
            assert(e =~= seq!['"', '"'] + er);
            assert(e.subrange(2, 2 + er.len() as int) =~= er);
            lemma_subrange_within(line, i, e, 2, er);
            assert(line[i] == e[0]);
            assert(line[i + 1] == e[1]);
            lemma_scan_escaped(line, i + 2, rest, cur.push('"'), done);
            assert(cur.push('"') + rest =~= cur + f);
        } else {
            assert(e =~= seq![f[0]] + er);
            assert(e.subrange(1, 1 + er.len() as int) =~= er);
            lemma_subrange_within(line, i, e, 1, er);
            assert(line[i] == e[0]);
            lemma_scan_escaped(line, i + 1, rest, cur.push(f[0]), done);
            assert(cur.push(f[0]) + rest =~= cur + f);
        }
    }
}

/// A quoted field, followed by the end of the line or by a character that
/// is not a quote, reads back as the field.
proof fn lemma_scan_quoted(line: Seq<char>, i: int, f: Seq<char>, done: Seq<Seq<char>>)
    requires
        0 <= i,
        i + quote_field(f).len() <= line.len(),
        line.subrange(i, i + quote_field(f).len()) == quote_field(f),
        i + quote_field(f).len() < line.len() ==> line[i + quote_field(f).len()] != '"',
    ensures
        csv_scan(line, i, false, Seq::empty(), done) == csv_scan(
            line,
            i + quote_field(f).len(),
            false,
            f,
            done,
        ),
{
    let e = escape_quotes(f);
    let q = quote_field(f);
    let p = i + 1 + e.len();
    assert(q.subrange(1, 1 + e.len() as int) =~= e);
    lemma_subrange_within(line, i, q, 1, e);
    assert(line[i] == q[0]);
    lemma_scan_escaped(line, i + 1, f, Seq::empty(), done);
    assert(Seq::<char>::empty() + f =~= f);
    assert(line[p] == q[q.len() - 1]);
}

/// Quoted fields joined by commas, from position `i` to the end, read back
/// as the fields after those already `done`.
proof fn lemma_scan_quoted_join(line: Seq<char>, i: int, fs: Seq<Seq<char>>, done: Seq<Seq<char>>)
    requires
        0 <= i <= line.len(),
        fs.len() >= 1,
        line.subrange(i, line.len() as int) == join_fields(
            fs.map_values(|f: Seq<char>| quote_field(f)),
        ),
    ensures
        csv_scan(line, i, false, Seq::empty(), done) == done + fs,
    decreases fs.len(),
{
    let qs = fs.map_values(|f: Seq<char>| quote_field(f));
    let q0 = quote_field(fs[0]);
    if fs.len() == 1 {
        assert(join_fields(qs) == q0);
        assert(line.subrange(i, i + q0.len()) =~= q0);
        lemma_scan_quoted(line, i, fs[0], done);
        assert(done + fs =~= done.push(fs[0]));
    } else {
        let rest = fs.drop_first();
        assert(qs.drop_first() =~= rest.map_values(|f: Seq<char>| quote_field(f)));
        let tail = join_fields(qs.drop_first());
        let whole = q0 + seq![','] + tail;
        assert(join_fields(qs) == whole);
        assert(whole.subrange(0, q0.len() as int) =~= q0);
        assert(whole.subrange(q0.len() + 1 as int, q0.len() + 1 + tail.len() as int) =~= tail);
        lemma_subrange_within(line, i, whole, 0, q0);
        lemma_subrange_within(line, i, whole, q0.len() + 1 as int, tail);
        assert(line.subrange(i, i + whole.len()) =~= line.subrange(i, line.len() as int));
        assert(line[i + q0.len()] == whole[q0.len() as int]);
        lemma_scan_quoted(line, i, fs[0], done);
        lemma_scan_quoted_join(line, i + q0.len() + 1, rest, done.push(fs[0]));
        assert(done.push(fs[0]) + rest =~= done + fs);
    }
}

/// Writing any non-empty list of fields as quoted CSV fields joined by
/// commas, and splitting that line, gives back the same fields: commas,
/// quotes and any other characters inside a field survive the trip.
pub proof fn law_quoted_fields_round_trip(fs: Seq<Seq<char>>)
    requires
        fs.len() >= 1,
    ensures
        csv_fields(join_fields(fs.map_values(|f: Seq<char>| quote_field(f)))) == fs,
{
    let line = join_fields(fs.map_values(|f: Seq<char>| quote_field(f)));
    assert(line.subrange(0, line.len() as int) =~= line);
    lemma_scan_quoted_join(line, 0, fs, Seq::empty());
    assert(Seq::<Seq<char>>::empty() + fs =~= fs);
}

/// A plain field is one without commas or quotes.
pub open spec fn is_plain_field(f: Seq<char>) -> bool {
    !f.contains(',') && !f.contains('"')
}

proof fn lemma_scan_plain(
    line: Seq<char>,
    i: int,
    f: Seq<char>,
    cur: Seq<char>,
    done: Seq<Seq<char>>,
)
    requires
        0 <= i,
        i + f.len() <= line.len(),
        line.subrange(i, i + f.len()) == f,
        is_plain_field(f),
    ensures
        csv_scan(line, i, false, cur, done) == csv_scan(line, i + f.len(), false, cur + f, done),
    decreases f.len(),
{
    if f.len() == 0 {
        assert(cur + f =~= cur);
    } else {
        let rest = f.drop_first();
        assert(line[i] == f[0]);
        assert(f.contains(f[0]));
        assert(line.subrange(i + 1, i + 1 + rest.len()) =~= rest);
        assert forall|c: char| rest.contains(c) implies f.contains(c) by {
            let k = choose|k: int| 0 <= k < rest.len() && rest[k] == c;
            assert(f[k + 1] == c);
        }
        lemma_scan_plain(line, i + 1, rest, cur.push(f[0]), done);
        assert(cur.push(f[0]) + rest =~= cur + f);
    }
}

proof fn lemma_scan_plain_join(line: Seq<char>, i: int, fs: Seq<Seq<char>>, done: Seq<Seq<char>>)
    requires
        0 <= i <= line.len(),
        fs.len() >= 1,
        forall|k: int| 0 <= k < fs.len() ==> is_plain_field(#[trigger] fs[k]),
        line.subrange(i, line.len() as int) == join_fields(fs),
    ensures
        csv_scan(line, i, false, Seq::empty(), done) == done + fs,
    decreases fs.len(),
{
    let f0 = fs[0];
    assert(is_plain_field(fs[0]));
    if fs.len() == 1 {
        assert(line.subrange(i, i + f0.len()) =~= f0);
        lemma_scan_plain(line, i, f0, Seq::empty(), done);
        assert(Seq::<char>::empty() + f0 =~= f0);
        assert(done + fs =~= done.push(f0));
    } else {
        let rest = fs.drop_first();
        let tail = join_fields(rest);
        let whole = f0 + seq![','] + tail;
        assert(join_fields(fs) == whole);
        assert(whole.subrange(0, f0.len() as int) =~= f0);
        assert(whole.subrange(f0.len() + 1 as int, f0.len() + 1 + tail.len() as int) =~= tail);
        lemma_subrange_within(line, i, whole, 0, f0);
        lemma_subrange_within(line, i, whole, f0.len() + 1 as int, tail);
        assert(line[i + f0.len()] == whole[f0.len() as int]);
        lemma_scan_plain(line, i, f0, Seq::empty(), done);
        assert(Seq::<char>::empty() + f0 =~= f0);
        assert forall|k: int| 0 <= k < rest.len() implies is_plain_field(#[trigger] rest[k]) by {
            assert(rest[k] == fs[k + 1]);
        }
        lemma_scan_plain_join(line, i + f0.len() + 1, rest, done.push(f0));
        assert(done.push(f0) + rest =~= done + fs);
    }
}

/// Fields without commas or quotes, joined by commas, split back into the
/// same fields.
pub proof fn law_plain_fields_round_trip(fs: Seq<Seq<char>>)
    requires
        fs.len() >= 1,
        forall|k: int| 0 <= k < fs.len() ==> is_plain_field(#[trigger] fs[k]),
    ensures
        csv_fields(join_fields(fs)) == fs,
{
    let line = join_fields(fs);
    assert(line.subrange(0, line.len() as int) =~= line);
    lemma_scan_plain_join(line, 0, fs, Seq::empty());
    assert(Seq::<Seq<char>>::empty() + fs =~= fs);
}

/// `f` as written in a CSV line: quoted when `quoted`, as it is otherwise.
pub open spec fn write_field(f: Seq<char>, quoted: bool) -> Seq<char> {
    if quoted {
        quote_field(f)
    } else {
        f
    }
}

/// Each field written, quoted or not as `quoted` says.
pub open spec fn write_fields(fs: Seq<Seq<char>>, quoted: Seq<bool>) -> Seq<Seq<char>> {
    Seq::new(fs.len(), |k: int| write_field(fs[k], quoted[k]))
}

proof fn lemma_scan_written(line: Seq<char>, i: int, f: Seq<char>, q: bool, done: Seq<Seq<char>>)
    requires
        0 <= i,
        i + write_field(f, q).len() <= line.len(),
        line.subrange(i, i + write_field(f, q).len()) == write_field(f, q),
        !q ==> is_plain_field(f),
        i + write_field(f, q).len() < line.len() ==> line[i + write_field(f, q).len()] != '"',
    ensures
        csv_scan(line, i, false, Seq::empty(), done) == csv_scan(
            line,
            i + write_field(f, q).len(),
            false,
            f,
            done,
        ),
{
    if q {
        lemma_scan_quoted(line, i, f, done);
    } else {
        lemma_scan_plain(line, i, f, Seq::empty(), done);
        assert(Seq::<char>::empty() + f =~= f);
    }
}

proof fn lemma_scan_written_join(
    line: Seq<char>,
    i: int,
    fs: Seq<Seq<char>>,
    qs: Seq<bool>,
    done: Seq<Seq<char>>,
)
    requires
        0 <= i <= line.len(),
        fs.len() >= 1,
        qs.len() == fs.len(),
        forall|k: int| 0 <= k < fs.len() && !qs[k] ==> is_plain_field(#[trigger] fs[k]),
        line.subrange(i, line.len() as int) == join_fields(write_fields(fs, qs)),
    ensures
        csv_scan(line, i, false, Seq::empty(), done) == done + fs,
    decreases fs.len(),
{
    let ws = write_fields(fs, qs);
    let w0 = write_field(fs[0], qs[0]);
    assert(ws[0] == w0);
    if !qs[0] {
        assert(is_plain_field(fs[0]));
    }
    if fs.len() == 1 {
        assert(join_fields(ws) == w0);
        assert(line.subrange(i, i + w0.len()) =~= w0);
        lemma_scan_written(line, i, fs[0], qs[0], done);
        assert(done + fs =~= done.push(fs[0]));
    } else {
        let rest = fs.drop_first();
        let qrest = qs.drop_first();
        assert(ws.drop_first() =~= write_fields(rest, qrest));
        let tail = join_fields(ws.drop_first());
        let whole = w0 + seq![','] + tail;
        assert(join_fields(ws) == whole);
        assert(whole.subrange(0, w0.len() as int) =~= w0);
        assert(whole.subrange(w0.len() + 1 as int, w0.len() + 1 + tail.len() as int) =~= tail);
        lemma_subrange_within(line, i, whole, 0, w0);
        lemma_subrange_within(line, i, whole, w0.len() + 1 as int, tail);
        assert(line.subrange(i, i + whole.len()) =~= line.subrange(i, line.len() as int));
        assert(line[i + w0.len()] == whole[w0.len() as int]);
        lemma_scan_written(line, i, fs[0], qs[0], done);
        assert forall|k: int| 0 <= k < rest.len() && !qrest[k] implies is_plain_field(
            #[trigger] rest[k],
        ) by {
            assert(rest[k] == fs[k + 1] && qrest[k] == qs[k + 1]);
        }
        lemma_scan_written_join(line, i + w0.len() + 1, rest, qrest, done.push(fs[0]));
        assert(done.push(fs[0]) + rest =~= done + fs);
    }
}

/// Any non-empty list of fields, each written either quoted or (when it
/// holds no comma or quote) as it is, joined by commas, splits back into
/// the same fields: quoted and unquoted fields mix freely on one line.
pub proof fn law_written_fields_round_trip(fs: Seq<Seq<char>>, quoted: Seq<bool>)
    requires
        fs.len() >= 1,
        quoted.len() == fs.len(),
        forall|k: int| 0 <= k < fs.len() && !quoted[k] ==> is_plain_field(#[trigger] fs[k]),
    ensures
        csv_fields(join_fields(write_fields(fs, quoted))) == fs,
{
    let line = join_fields(write_fields(fs, quoted));
    assert(line.subrange(0, line.len() as int) =~= line);
    lemma_scan_written_join(line, 0, fs, quoted, Seq::empty());
    assert(Seq::<Seq<char>>::empty() + fs =~= fs);
}

/// The number of `"` among the first `i` characters of `line`.
pub open spec fn quotes_before(line: Seq<char>, i: int) -> nat
    decreases i,
{
    if i <= 0 {
        0
    } else {
        quotes_before(line, i - 1) + if line[i - 1] == '"' {
            1nat
        } else {
            0nat
        }
    }
}

/// Position `i` lies inside a quoted section: an odd number of quotes
/// stand before it.
pub open spec fn inside_quotes(line: Seq<char>, i: int) -> bool {
    quotes_before(line, i) % 2 == 1
}

/// Position `i` holds a comma that separates two fields.
pub open spec fn is_separator(line: Seq<char>, i: int) -> bool {
    line[i] == ',' && !inside_quotes(line, i)
}

/// What position `i`, if it separates no fields, adds to its field: a quote
/// adds one `"` when it is inside quotes and followed by another quote, and
/// nothing otherwise; any other character adds itself.
pub open spec fn contribution(line: Seq<char>, i: int) -> Seq<char> {
    if line[i] == '"' {
        if inside_quotes(line, i) && i + 1 < line.len() && line[i + 1] == '"' {
            seq!['"']
        } else {
            Seq::empty()
        }
    } else {
        seq![line[i]]
    }
}

/// The fields read position by position, each position playing the role
/// that the quotes before it give it.
pub open spec fn fields_by_position(
    line: Seq<char>,
    i: int,
    cur: Seq<char>,
    done: Seq<Seq<char>>,
) -> Seq<Seq<char>>
    decreases line.len() - i,
{
    if i < 0 || i >= line.len() {
        done.push(cur)
    } else if is_separator(line, i) {
        fields_by_position(line, i + 1, Seq::empty(), done.push(cur))
    } else {
        fields_by_position(line, i + 1, cur + contribution(line, i), done)
    }
}

proof fn lemma_scan_by_position(
    line: Seq<char>,
    i: int,
    in_quotes: bool,
    cur: Seq<char>,
    done: Seq<Seq<char>>,
)
    requires
        0 <= i <= line.len(),
        in_quotes == inside_quotes(line, i),
    ensures
        csv_scan(line, i, in_quotes, cur, done) == fields_by_position(line, i, cur, done),
    decreases line.len() - i,
{
    if i < line.len() {
        assert(quotes_before(line, i + 1) == quotes_before(line, i) + if line[i] == '"' {
            1nat
        } else {
            0nat
        });
        if in_quotes && line[i] == '"' && i + 1 < line.len() && line[i + 1] == '"' {
            assert(quotes_before(line, i + 2) == quotes_before(line, i + 1) + 1);
            assert(!inside_quotes(line, i + 1));
            assert(contribution(line, i + 1) =~= Seq::<char>::empty());
            assert(cur + contribution(line, i) + contribution(line, i + 1) =~= cur.push('"'));
            assert(!is_separator(line, i) && !is_separator(line, i + 1));
            assert(fields_by_position(line, i, cur, done) == fields_by_position(
                line,
                i + 1,
                cur + contribution(line, i),
                done,
            ));
            assert(fields_by_position(line, i + 1, cur + contribution(line, i), done)
                == fields_by_position(
                line,
                i + 2,
                cur + contribution(line, i) + contribution(line, i + 1),
                done,
            ));
            lemma_scan_by_position(line, i + 2, true, cur.push('"'), done);
        } else if line[i] == '"' {
            assert(cur + contribution(line, i) =~= cur);
            assert(!is_separator(line, i));
            lemma_scan_by_position(line, i + 1, !in_quotes, cur, done);
        } else if !in_quotes && line[i] == ',' {
            lemma_scan_by_position(line, i + 1, false, Seq::empty(), done.push(cur));
        } else {
            assert(cur + contribution(line, i) =~= cur.push(line[i]));
            assert(!is_separator(line, i));
            lemma_scan_by_position(line, i + 1, in_quotes, cur.push(line[i]), done);
        }
    }
}

/// How a CSV line splits, position by position: a comma separates fields
/// exactly when an even number of quotes stand before it; a quote adds a
/// `"` to its field only when it stands inside quotes and is followed by
/// another quote (the pair standing for one quote), and otherwise only
/// opens or closes a quoted section; every other character belongs to its
/// field as it is.
pub proof fn law_csv_fields_by_position(line: Seq<char>)
    ensures
        csv_fields(line) == fields_by_position(line, 0, Seq::empty(), Seq::empty()),
{
    lemma_scan_by_position(line, 0, false, Seq::empty(), Seq::empty());
}

// ---------------------------------------------------------------------------
// Headers
// ---------------------------------------------------------------------------

proof fn lemma_no_first_duplicate(cols: Seq<ColumnView>)
    requires
        first_duplicate(cols) is None,
    ensures
        forall|i: int, j: int|
            0 <= i < j < cols.len() && is_annotation(cols[i]) ==> cols[i] != cols[j],
    decreases cols.len(),
{
    if cols.len() > 0 {
        let prev = cols.drop_last();
        lemma_no_first_duplicate(prev);
        assert forall|i: int, j: int|
            0 <= i < j < cols.len() && is_annotation(cols[i]) implies cols[i] != cols[j] by {
            if j == cols.len() - 1 {
                if cols[i] == cols[j] {
                    assert(prev[i] == cols.last());
                    assert(prev.contains(cols.last()));
                }
            } else {
                assert(prev[i] == cols[i] && prev[j] == cols[j]);
            }
        }
    }
}

/// A header that parses has one column per field, in order, and declares
/// no annotation twice; it is a node file exactly when it has `:ID`, a node
/// file has no relationship annotation, and a relationship file has all of
/// `:START_ID`, `:END_ID` and `:TYPE` and no `:ID`.
pub proof fn law_header_shape(fields: Seq<Seq<char>>)
    ensures
        header_of(fields) matches Ok(h) ==> {
            &&& h.columns == columns_of(fields)
            &&& h.columns.len() == fields.len()
            &&& forall|i: int, j: int|
                0 <= i < j < h.columns.len() && is_annotation(h.columns[i]) ==> h.columns[i]
                    != h.columns[j]
            &&& (h.file_kind == FileKind::Node <==> h.columns.contains(ColumnView::Id))
            &&& h.file_kind == FileKind::Node ==> {
                &&& !h.columns.contains(ColumnView::StartId)
                &&& !h.columns.contains(ColumnView::EndId)
                &&& !h.columns.contains(ColumnView::RelType)
            }
            &&& h.file_kind == FileKind::Relationship ==> {
                &&& h.columns.contains(ColumnView::StartId)
                &&& h.columns.contains(ColumnView::EndId)
                &&& h.columns.contains(ColumnView::RelType)
            }
        },
{
    if header_of(fields) is Ok {
        lemma_no_first_duplicate(columns_of(fields));
    }
}

/// A property column is split at the first `:` of its trimmed text: the
/// name holds no `:`, and the name, a `:` and the type hint (if any) spell
/// the trimmed text again.
pub proof fn law_property_column_split(field: Seq<char>)
    ensures
        column_of(field) matches ColumnView::Property { name, type_hint } ==> {
            &&& !name.contains(':')
            &&& match type_hint {
                Some(h) => trim(field) == name + seq![':'] + h,
                None => trim(field) == name,
            }
        },
{
    let t = trim(field);
    if column_of(field) is Property {
        if exists|k: int| is_first_index(t, ':', k) {
            let k = choose|k: int| is_first_index(t, ':', k);
            assert(t =~= t.take(k) + seq![':'] + t.skip(k + 1));
            assert(!t.take(k).contains(':')) by {
                if t.take(k).contains(':') {
                    let j = choose|j: int| 0 <= j < t.take(k).len() && t.take(k)[j] == ':';
                    assert(t[j] == ':');
                }
            }
        } else {
            assert(!t.contains(':')) by {
                if t.contains(':') {
                    let j = choose|j: int| 0 <= j < t.len() && t[j] == ':';
                    let m = first_colon(t, j);
                    assert(is_first_index(t, ':', m));
                }
            }
        }
    }
}

/// Some first position of `:` at or before `j`, where `t[j]` is one.
proof fn first_colon(t: Seq<char>, j: int) -> (m: int)
    requires
        0 <= j < t.len(),
        t[j] == ':',
    ensures
        is_first_index(t, ':', m),
    decreases j,
{
    if exists|i: int| 0 <= i < j && t[i] == ':' {
        let i = choose|i: int| 0 <= i < j && t[i] == ':';
        first_colon(t, i)
    } else {
        j
    }
}

/// A header field declares an annotation exactly when its trimmed text is
/// that annotation's name, and a property column otherwise.
pub proof fn law_column_of_text(field: Seq<char>)
    ensures
        column_of(field) == ColumnView::Id <==> trim(field) == ":ID"@,
        column_of(field) == ColumnView::Label <==> trim(field) == ":LABEL"@,
        column_of(field) == ColumnView::StartId <==> trim(field) == ":START_ID"@,
        column_of(field) == ColumnView::EndId <==> trim(field) == ":END_ID"@,
        column_of(field) == ColumnView::RelType <==> trim(field) == ":TYPE"@,
        column_of(field) is Property <==> {
            &&& trim(field) != ":ID"@
            &&& trim(field) != ":LABEL"@
            &&& trim(field) != ":START_ID"@
            &&& trim(field) != ":END_ID"@
            &&& trim(field) != ":TYPE"@
        },
        is_annotation(column_of(field)) ==> annotation_name(column_of(field)) == trim(field),
{
    reveal_strlit(":ID");
    reveal_strlit(":LABEL");
    reveal_strlit(":START_ID");
    reveal_strlit(":END_ID");
    reveal_strlit(":TYPE");
    let t = trim(field);
    if t == ":LABEL"@ {
        assert(t[1] != ":ID"@[1]);
    }
    if t == ":START_ID"@ {
        assert(t.len() != ":ID"@.len());
        assert(t.len() != ":LABEL"@.len());
    }
    if t == ":END_ID"@ {
        assert(t.len() != ":ID"@.len());
        assert(t[1] != ":LABEL"@[1]);
        assert(t.len() != ":START_ID"@.len());
    }
    if t == ":TYPE"@ {
        assert(t.len() != ":ID"@.len());
        assert(t[1] != ":LABEL"@[1]);
        assert(t.len() != ":START_ID"@.len());
        assert(t.len() != ":END_ID"@.len());
    }
}

proof fn lemma_first_duplicate_some(cols: Seq<ColumnView>)
    ensures
        first_duplicate(cols) matches Some(j) ==> {
            &&& 0 <= j < cols.len()
            &&& is_annotation(cols[j])
            &&& exists|i: int| 0 <= i < j && cols[i] == cols[j]
        },
    decreases cols.len(),
{
    if cols.len() > 0 {
        let prev = cols.drop_last();
        lemma_first_duplicate_some(prev);
        match first_duplicate(prev) {
            Some(j) => {
                let i = choose|i: int| 0 <= i < j && prev[i] == prev[j];
                assert(cols[i] == cols[j]);
            },
            None => {
                if is_annotation(cols.last()) && prev.contains(cols.last()) {
                    let i = choose|i: int| 0 <= i < prev.len() && prev[i] == cols.last();
                    assert(cols[i] == cols[cols.len() - 1]);
                }
            },
        }
    }
}

/// Why a header is refused: an empty header has no fields; a duplicate is
/// an annotation that occurs twice, reported by its name; an ambiguous
/// header has `:ID` and a relationship annotation; a missing column is a
/// relationship annotation absent from a header that has another one and
/// no `:ID`; an unrecognized header has none of `:ID`, `:START_ID`,
/// `:END_ID`, `:TYPE`. A header is never refused for a field count.
pub proof fn law_header_errors(fields: Seq<Seq<char>>)
    ensures
        (header_of(fields) == Err::<crate::header::HeaderView, ErrorView>(ErrorView::EmptyHeader))
            <==> fields.len() == 0,
        header_of(fields) matches Err(ErrorView::DuplicateColumn { column }) ==> exists|
            i: int,
            j: int,
        |
            0 <= i < j < fields.len() && columns_of(fields)[i] == columns_of(fields)[j]
                && is_annotation(columns_of(fields)[j]) && annotation_name(columns_of(fields)[j])
                == column,
        header_of(fields) matches Err(ErrorView::AmbiguousHeader) ==> marks_node(
            columns_of(fields),
        ) && marks_relationship(columns_of(fields)),
        header_of(fields) matches Err(ErrorView::MissingColumn { column }) ==> {
            &&& !marks_node(columns_of(fields))
            &&& marks_relationship(columns_of(fields))
            &&& {
                ||| column == ":START_ID"@ && !columns_of(fields).contains(ColumnView::StartId)
                ||| column == ":END_ID"@ && !columns_of(fields).contains(ColumnView::EndId)
                ||| column == ":TYPE"@ && !columns_of(fields).contains(ColumnView::RelType)
            }
        },
        header_of(fields) matches Err(ErrorView::UnrecognizedFileType) ==> !marks_node(
            columns_of(fields),
        ) && !marks_relationship(columns_of(fields)),
        !(header_of(fields) is Err && header_of(fields)->Err_0 is FieldCountMismatch),
{
    let cols = columns_of(fields);
    lemma_first_duplicate_some(cols);
    if fields.len() > 0 {
        if let Some(j) = first_duplicate(cols) {
            let i = choose|i: int| 0 <= i < j && cols[i] == cols[j];
            assert(0 <= i < j < fields.len() && cols[i] == cols[j]);
        }
    }
}

// ---------------------------------------------------------------------------
// Labels
// ---------------------------------------------------------------------------

proof fn lemma_trim_start_shape(s: Seq<char>)
    ensures
        trim_start(s).len() <= s.len(),
        trim_start(s) == s.subrange(s.len() - trim_start(s).len(), s.len() as int),
        trim_start(s).len() > 0 ==> !is_white(trim_start(s)[0]),
    decreases s.len(),
{
    if s.len() > 0 && is_white(s[0]) {
        lemma_trim_start_shape(s.drop_first());
        assert(s.drop_first().subrange(
            s.drop_first().len() - trim_start(s).len(),
            s.drop_first().len() as int,
        ) =~= s.subrange(s.len() - trim_start(s).len(), s.len() as int));
    } else {
        assert(s.subrange(0, s.len() as int) =~= s);
    }
}

proof fn lemma_trim_end_shape(s: Seq<char>)
    ensures
        trim_end(s).len() <= s.len(),
        trim_end(s) == s.subrange(0, trim_end(s).len() as int),
        trim_end(s).len() > 0 ==> !is_white(trim_end(s).last()),
    decreases s.len(),
{
    if s.len() > 0 && is_white(s.last()) {
        lemma_trim_end_shape(s.drop_last());
        assert(s.drop_last().subrange(0, trim_end(s).len() as int) =~= s.subrange(
            0,
            trim_end(s).len() as int,
        ));
    } else {
        assert(s.subrange(0, s.len() as int) =~= s);
    }
}

/// A label as the parser keeps it: not empty, free of `;`, and with no
/// whitespace at either end.
pub open spec fn is_clean_label(l: Seq<char>) -> bool {
    &&& l.len() > 0
    &&& !l.contains(';')
    &&& !is_white(l[0])
    &&& !is_white(l.last())
}

proof fn lemma_trim_clean(seg: Seq<char>)
    requires
        !seg.contains(';'),
        trim(seg).len() > 0,
    ensures
        is_clean_label(trim(seg)),
{
    let t = trim_start(seg);
    let r = trim_end(t);
    lemma_trim_start_shape(seg);
    lemma_trim_end_shape(t);
    assert(r[0] == t[0]);
    assert(!is_white(r[0]));
    if r.contains(';') {
        let j = choose|j: int| 0 <= j < r.len() && r[j] == ';';
        assert(t[j] == ';');
        assert(seg[seg.len() - t.len() + j] == ';');
    }
}

proof fn lemma_label_scan_clean(s: Seq<char>, i: int, cur: Seq<char>, acc: Seq<Seq<char>>)
    requires
        0 <= i <= s.len(),
        !cur.contains(';'),
        forall|k: int| 0 <= k < acc.len() ==> is_clean_label(#[trigger] acc[k]),
    ensures
        forall|k: int|
            0 <= k < label_scan(s, i, cur, acc).len() ==> is_clean_label(
                #[trigger] label_scan(s, i, cur, acc)[k],
            ),
    decreases s.len() - i,
{
    let kept = keep_label(acc, cur);
    if trim(cur).len() > 0 {
        lemma_trim_clean(cur);
    }
    assert forall|k: int| 0 <= k < kept.len() implies is_clean_label(#[trigger] kept[k]) by {
        if k < acc.len() {
            assert(kept[k] == acc[k]);
        }
    }
    if i < s.len() {
        if s[i] == ';' {
            lemma_label_scan_clean(s, i + 1, Seq::empty(), kept);
            assert(label_scan(s, i, cur, acc) == label_scan(s, i + 1, Seq::empty(), kept));
        } else {
            assert(!cur.push(s[i]).contains(';')) by {
                if cur.push(s[i]).contains(';') {
                    let j = choose|j: int| 0 <= j < cur.push(s[i]).len() && cur.push(s[i])[j] == ';';
                    if j < cur.len() {
                        assert(cur[j] == ';');
                    }
                }
            }
            lemma_label_scan_clean(s, i + 1, cur.push(s[i]), acc);
            assert(label_scan(s, i, cur, acc) == label_scan(s, i + 1, cur.push(s[i]), acc));
        }
    } else {
        assert(label_scan(s, i, cur, acc) == kept);
    }
}

/// Every label taken from a `:LABEL` value is non-empty, holds no `;` and
/// has no whitespace at either end.
pub proof fn law_labels_are_clean(value: Seq<char>)
    ensures
        forall|k: int| 0 <= k < labels_of(value).len() ==> is_clean_label(
            #[trigger] labels_of(value)[k],
        ),
{
    lemma_label_scan_clean(value, 0, Seq::empty(), Seq::empty());
}

/// The position where `trim_start` cuts `s`.
proof fn trim_start_cut(s: Seq<char>) -> (a: int)
    ensures
        0 <= a <= s.len(),
        trim_start(s) == s.skip(a),
        forall|k: int| 0 <= k < a ==> is_white(#[trigger] s[k]),
        a < s.len() ==> !is_white(s[a]),
    decreases s.len(),
{
    if s.len() > 0 && is_white(s[0]) {
        let a1 = trim_start_cut(s.drop_first());
        assert(s.drop_first().skip(a1) =~= s.skip(a1 + 1));
        assert forall|k: int| 0 <= k < a1 + 1 implies is_white(#[trigger] s[k]) by {
            if k > 0 {
                assert(s[k] == s.drop_first()[k - 1]);
            }
        }
        if a1 + 1 < s.len() {
            assert(s[a1 + 1] == s.drop_first()[a1]);
        }
        a1 + 1
    } else {
        assert(s.skip(0) =~= s);
        0
    }
}

/// The position where `trim_end` cuts `s`.
proof fn trim_end_cut(s: Seq<char>) -> (b: int)
    ensures
        0 <= b <= s.len(),
        trim_end(s) == s.take(b),
        forall|k: int| b <= k < s.len() ==> is_white(#[trigger] s[k]),
        b > 0 ==> !is_white(s[b - 1]),
    decreases s.len(),
{
    if s.len() > 0 && is_white(s.last()) {
        let b1 = trim_end_cut(s.drop_last());
        assert(s.drop_last().take(b1) =~= s.take(b1));
        assert forall|k: int| b1 <= k < s.len() implies is_white(#[trigger] s[k]) by {
            if k < s.len() - 1 {
                assert(s[k] == s.drop_last()[k]);
            }
        }
        if b1 > 0 {
            assert(s[b1 - 1] == s.drop_last()[b1 - 1]);
        }
        b1
    } else {
        assert(s.take(s.len() as int) =~= s);
        s.len() as int
    }
}

/// Trimming keeps the part of `s` between its leading and trailing
/// whitespace: the bounds returned delimit `trim(s)` in `s`, everything
/// outside them is whitespace, and what is kept neither starts nor ends
/// with whitespace.
pub proof fn law_trim_bounds(s: Seq<char>) -> (bounds: (int, int))
    ensures
        0 <= bounds.0 <= bounds.1 <= s.len(),
        trim(s) == s.subrange(bounds.0, bounds.1),
        forall|k: int| 0 <= k < bounds.0 ==> is_white(#[trigger] s[k]),
        forall|k: int| bounds.1 <= k < s.len() ==> is_white(#[trigger] s[k]),
        bounds.0 < bounds.1 ==> !is_white(s[bounds.0]) && !is_white(s[bounds.1 - 1]),
{
    let a = trim_start_cut(s);
    let t = s.skip(a);
    let b = trim_end_cut(t);
    assert(t.take(b) =~= s.subrange(a, a + b));
    assert forall|k: int| a + b <= k < s.len() implies is_white(#[trigger] s[k]) by {
        assert(s[k] == t[k - a]);
    }
    if b > 0 {
        assert(s[a + b - 1] == t[b - 1]);
        assert(s[a] == t[0]);
        if b == 0 {
        } else if a < s.len() {
        }
    }
    (a, a + b)
}

// ---------------------------------------------------------------------------
// Labels, as segments
// ---------------------------------------------------------------------------

/// The segments joined, with `sep` between each two.
pub open spec fn join_on(segs: Seq<Seq<char>>, sep: char) -> Seq<char>
    decreases segs.len(),
{
    if segs.len() == 0 {
        Seq::empty()
    } else if segs.len() == 1 {
        segs[0]
    } else {
        join_on(segs.drop_last(), sep) + seq![sep] + segs.last()
    }
}

/// The segments trimmed, the ones left empty dropped.
pub open spec fn trimmed_nonblank(segs: Seq<Seq<char>>) -> Seq<Seq<char>> {
    segs.map_values(|x: Seq<char>| trim(x)).filter(|t: Seq<char>| t.len() > 0)
}

proof fn lemma_trimmed_nonblank_push(done: Seq<Seq<char>>, cur: Seq<char>)
    ensures
        trimmed_nonblank(done.push(cur)) == keep_label(trimmed_nonblank(done), cur),
{
    reveal(Seq::filter);
    let m = done.push(cur).map_values(|x: Seq<char>| trim(x));
    assert(m.drop_last() =~= done.map_values(|x: Seq<char>| trim(x)));
    assert(m.last() == trim(cur));
}

proof fn lemma_join_on_push_char(segs: Seq<Seq<char>>, cur: Seq<char>, c: char, sep: char)
    ensures
        join_on(segs.push(cur.push(c)), sep) == join_on(segs.push(cur), sep).push(c),
{
    let a = segs.push(cur.push(c));
    let b = segs.push(cur);
    assert(a.drop_last() =~= segs);
    assert(b.drop_last() =~= segs);
    if segs.len() == 0 {
        assert(a[0] == cur.push(c));
        assert(b[0] == cur);
    } else {
        assert(join_on(segs, sep) + seq![sep] + cur.push(c) =~= (join_on(segs, sep) + seq![sep]
            + cur).push(c));
    }
}

proof fn lemma_label_scan_segments(s: Seq<char>, i: int, cur: Seq<char>, done: Seq<Seq<char>>) -> (segs: Seq<Seq<char>>)
    requires
        0 <= i <= s.len(),
        !cur.contains(';'),
        forall|k: int| 0 <= k < done.len() ==> !(#[trigger] done[k]).contains(';'),
        s.take(i) == join_on(done.push(cur), ';'),
    ensures
        segs.len() >= 1,
        forall|k: int| 0 <= k < segs.len() ==> !(#[trigger] segs[k]).contains(';'),
        join_on(segs, ';') == s,
        label_scan(s, i, cur, trimmed_nonblank(done)) == trimmed_nonblank(segs),
    decreases s.len() - i,
{
    lemma_trimmed_nonblank_push(done, cur);
    let d2 = done.push(cur);
    assert forall|k: int| 0 <= k < d2.len() implies !(#[trigger] d2[k]).contains(';') by {
        if k < done.len() {
            assert(d2[k] == done[k]);
        }
    }
    if i == s.len() {
        assert(s.take(i) =~= s);
        d2
    } else if s[i] == ';' {
        let d3 = d2.push(Seq::empty());
        assert(d3.drop_last() =~= d2);
        assert(s.take(i + 1) =~= s.take(i).push(';'));
        assert(join_on(d3, ';') =~= join_on(d2, ';') + seq![';'] + Seq::<char>::empty());
        assert(join_on(d2, ';') + seq![';'] + Seq::<char>::empty() =~= join_on(d2, ';').push(';'));
        assert(s.take(i + 1) == join_on(d3, ';'));
        lemma_label_scan_segments(s, i + 1, Seq::empty(), d2)
    } else {
        let c2 = cur.push(s[i]);
        assert(!c2.contains(';')) by {
            if c2.contains(';') {
                let j = choose|j: int| 0 <= j < c2.len() && c2[j] == ';';
                if j < cur.len() {
                    assert(cur[j] == ';');
                }
            }
        }
        lemma_join_on_push_char(done, cur, s[i], ';');
        assert(s.take(i + 1) =~= s.take(i).push(s[i]));
        lemma_label_scan_segments(s, i + 1, c2, done)
    }
}

/// The labels of a `:LABEL` value are its `;`-separated segments, each
/// trimmed, in order, with the segments that trim to nothing left out: the
/// segments returned hold no `;`, joined by `;` they give the value back,
/// and the labels are exactly their non-empty trims.
pub proof fn law_labels_are_trimmed_segments(value: Seq<char>) -> (segs: Seq<Seq<char>>)
    ensures
        segs.len() >= 1,
        forall|k: int| 0 <= k < segs.len() ==> !(#[trigger] segs[k]).contains(';'),
        join_on(segs, ';') == value,
        labels_of(value) == trimmed_nonblank(segs),
{
    let e: Seq<Seq<char>> = Seq::empty();
    assert(trimmed_nonblank(e) =~= e) by {
        reveal(Seq::filter);
        assert(e.map_values(|x: Seq<char>| trim(x)) =~= e);
    }
    assert(value.take(0) =~= join_on(e.push(Seq::empty()), ';'));
    lemma_label_scan_segments(value, 0, Seq::empty(), e)
}

// ---------------------------------------------------------------------------
// Lines
// ---------------------------------------------------------------------------

/// The lines written out again, each followed by a newline.
pub open spec fn unlines(ls: Seq<Seq<char>>) -> Seq<char>
    decreases ls.len(),
{
    if ls.len() == 0 {
        Seq::empty()
    } else {
        unlines(ls.drop_last()) + ls.last() + seq!['\n']
    }
}

/// `s` with each carriage return that stands just before a newline
/// removed.
pub open spec fn crlf_to_lf(s: Seq<char>) -> Seq<char>
    decreases s.len(),
{
    if s.len() == 0 {
        Seq::empty()
    } else if s.len() >= 2 && s[0] == '\r' && s[1] == '\n' {
        seq!['\n'] + crlf_to_lf(s.skip(2))
    } else {
        seq![s[0]] + crlf_to_lf(s.drop_first())
    }
}

/// The newline that a text lacks at its end, if it is not empty.
pub open spec fn missing_final_newline(s: Seq<char>) -> Seq<char> {
    if s.len() > 0 && s.last() != '\n' {
        seq!['\n']
    } else {
        Seq::empty()
    }
}

proof fn lemma_crlf_no_newline(x: Seq<char>)
    requires
        !x.contains('\n'),
    ensures
        crlf_to_lf(x) == x,
    decreases x.len(),
{
    if x.len() > 0 {
        if x.len() >= 2 {
            assert(x[1] != '\n') by {
                if x[1] == '\n' {
                    assert(x.contains('\n'));
                }
            }
        }
        let r = x.drop_first();
        assert(!r.contains('\n')) by {
            if r.contains('\n') {
                let j = choose|j: int| 0 <= j < r.len() && r[j] == '\n';
                assert(x[j + 1] == '\n');
            }
        }
        lemma_crlf_no_newline(r);
        assert(seq![x[0]] + r =~= x);
    }
}

proof fn lemma_crlf_line(cur: Seq<char>, r: Seq<char>)
    requires
        !cur.contains('\n'),
    ensures
        crlf_to_lf(cur + seq!['\n'] + r) == strip_cr(cur) + seq!['\n'] + crlf_to_lf(r),
    decreases cur.len(),
{
    let x = cur + seq!['\n'] + r;
    if cur.len() == 0 {
        assert(x =~= seq!['\n'] + r);
        assert(x.drop_first() =~= r);
        assert(strip_cr(cur) + seq!['\n'] + crlf_to_lf(r) =~= seq!['\n'] + crlf_to_lf(r));
    } else if cur.len() == 1 && cur[0] == '\r' {
        assert(x[0] == '\r' && x[1] == '\n');
        assert(x.skip(2) =~= r);
        assert(strip_cr(cur) =~= Seq::<char>::empty());
        assert(strip_cr(cur) + seq!['\n'] + crlf_to_lf(r) =~= seq!['\n'] + crlf_to_lf(r));
    } else {
        let rest = cur.drop_first();
        assert(!rest.contains('\n')) by {
            if rest.contains('\n') {
                let j = choose|j: int| 0 <= j < rest.len() && rest[j] == '\n';
                assert(cur[j + 1] == '\n');
            }
        }
        if cur.len() >= 2 {
            assert(x[1] == cur[1]);
            assert(cur[1] != '\n') by {
                if cur[1] == '\n' {
                    assert(cur.contains('\n'));
                }
            }
        } else {
            assert(cur[0] != '\r');
        }
        assert(x.drop_first() =~= rest + seq!['\n'] + r);
        lemma_crlf_line(rest, r);
        if cur.len() >= 2 {
            assert(strip_cr(cur) =~= seq![cur[0]] + strip_cr(rest));
        } else {
            assert(strip_cr(cur) =~= seq![cur[0]]);
            assert(strip_cr(rest) =~= Seq::<char>::empty());
        }
        assert(x[0] == cur[0]);
        assert(crlf_to_lf(x) == seq![cur[0]] + crlf_to_lf(rest + seq!['\n'] + r));
        assert(seq![cur[0]] + (strip_cr(rest) + seq!['\n'] + crlf_to_lf(r)) =~= strip_cr(cur)
            + seq!['\n'] + crlf_to_lf(r));
    }
}

proof fn lemma_lines_scan_unlines(s: Seq<char>, i: int, cur: Seq<char>, acc: Seq<Seq<char>>)
    requires
        0 <= i <= s.len(),
        !cur.contains('\n'),
        forall|k: int| 0 <= k < acc.len() ==> !(#[trigger] acc[k]).contains('\n'),
    ensures
        unlines(lines_scan(s, i, cur, acc)) == unlines(acc) + crlf_to_lf(cur + s.skip(i))
            + missing_final_newline(cur + s.skip(i)),
        forall|k: int|
            0 <= k < lines_scan(s, i, cur, acc).len() ==> !(#[trigger] lines_scan(
                s,
                i,
                cur,
                acc,
            )[k]).contains('\n'),
    decreases s.len() - i,
{
    let r = s.skip(i);
    if i == s.len() {
        assert(cur + r =~= cur);
        lemma_crlf_no_newline(cur);
        if cur.len() > 0 {
            assert(cur.last() != '\n') by {
                if cur.last() == '\n' {
                    assert(cur.contains('\n'));
                }
            }
            assert(acc.push(cur).drop_last() =~= acc);
            assert forall|k: int| 0 <= k < acc.push(cur).len() implies !(
            #[trigger] acc.push(cur)[k]).contains('\n') by {
                if k < acc.len() {
                    assert(acc.push(cur)[k] == acc[k]);
                }
            }
        } else {
            assert(unlines(acc) + crlf_to_lf(cur + r) + missing_final_newline(cur + r)
                =~= unlines(acc));
        }
    } else if s[i] == '\n' {
        let r2 = s.skip(i + 1);
        assert(r =~= seq!['\n'] + r2);
        assert(cur + r =~= cur + seq!['\n'] + r2);
        lemma_crlf_line(cur, r2);
        let line = strip_cr(cur);
        assert(!line.contains('\n')) by {
            if line.contains('\n') {
                let j = choose|j: int| 0 <= j < line.len() && line[j] == '\n';
                assert(cur[j] == '\n');
            }
        }
        let acc2 = acc.push(line);
        assert forall|k: int| 0 <= k < acc2.len() implies !(#[trigger] acc2[k]).contains('\n') by {
            if k < acc.len() {
                assert(acc2[k] == acc[k]);
            }
        }
        lemma_lines_scan_unlines(s, i + 1, Seq::empty(), acc2);
        assert(Seq::<char>::empty() + r2 =~= r2);
        assert(acc2.drop_last() =~= acc);
        assert(missing_final_newline(cur + r) == missing_final_newline(r2)) by {
            let x = cur + r;
            assert(x.len() > 0);
            if r2.len() > 0 {
                assert(x.last() == r2.last());
            } else {
                assert(x.last() == '\n');
            }
        }
        assert(unlines(acc2) + crlf_to_lf(r2) + missing_final_newline(r2) =~= unlines(acc) + (
        line + seq!['\n'] + crlf_to_lf(r2)) + missing_final_newline(r2));
    } else {
        let c2 = cur.push(s[i]);
        assert(!c2.contains('\n')) by {
            if c2.contains('\n') {
                let j = choose|j: int| 0 <= j < c2.len() && c2[j] == '\n';
                if j < cur.len() {
                    assert(cur[j] == '\n');
                }
            }
        }
        assert(c2 + s.skip(i + 1) =~= cur + r);
        lemma_lines_scan_unlines(s, i + 1, c2, acc);
    }
}

/// The lines of a text are the pieces between its newlines: no line holds
/// a newline, and writing each line back followed by a newline gives the
/// text again, up to the carriage returns that stood just before newlines
/// and a final newline that the text may lack. So no line is dropped,
/// merged, altered or repeated.
pub proof fn law_lines_rebuild_the_text(s: Seq<char>)
    ensures
        forall|k: int| 0 <= k < lines_of(s).len() ==> !(#[trigger] lines_of(s)[k]).contains('\n'),
        unlines(lines_of(s)) == crlf_to_lf(s) + missing_final_newline(s),
{
    lemma_lines_scan_unlines(s, 0, Seq::empty(), Seq::empty());
    assert(Seq::<char>::empty() + s.skip(0) =~= s);
    assert(unlines(Seq::<Seq<char>>::empty()) + crlf_to_lf(s) + missing_final_newline(s)
        =~= crlf_to_lf(s) + missing_final_newline(s));
}

// ---------------------------------------------------------------------------
// The stream parser
// ---------------------------------------------------------------------------

/// Once a stream parser has its header, no later line changes it, and
/// every later line advances the row count by one.
pub proof fn law_header_read_once(st: StreamView, line: Seq<char>)
    requires
        st.header is Some,
    ensures
        stream_step(st, line).0.header == st.header,
        stream_step(st, line).0.row == st.row + 1,
{
}

/// A header line that is refused leaves the stream parser as it was, so
/// the next line is again read as the header.
pub proof fn law_refused_header_changes_nothing(
    st: StreamView,
    line: Seq<char>,
)
    requires
        st.header is None,
        stream_step(st, line).1 is Err,
    ensures
        stream_step(st, line).0 == st,
{
}

/// The first line fed to a stream parser is its header line: a blank one
/// is refused as an empty header, any other is split into fields and
/// parsed as a header. A refused header leaves the parser as it was; an
/// accepted one is kept and the call yields no record.
pub proof fn law_header_line(st: StreamView, line: Seq<char>)
    requires
        st.header is None,
    ensures
        trim(strip_cr(line)).len() == 0 ==> stream_step(st, line) == (
            st,
            Err::<Option<RecordView>, ErrorView>(ErrorView::EmptyHeader),
        ),
        trim(strip_cr(line)).len() > 0 ==> match header_of(csv_fields(strip_cr(line))) {
            Ok(h) => stream_step(st, line) == (
                StreamView { header: Some(h), row: st.row },
                Ok::<Option<RecordView>, ErrorView>(None),
            ),
            Err(e) => stream_step(st, line) == (st, Err::<Option<RecordView>, ErrorView>(e)),
        },
{
}

/// After the header, a blank line yields no record but still counts as a
/// row.
pub proof fn law_blank_data_line(st: StreamView, line: Seq<char>)
    requires
        st.header is Some,
        trim(strip_cr(line)).len() == 0,
    ensures
        stream_step(st, line) == (
            StreamView { header: st.header, row: st.row + 1 },
            Ok::<Option<RecordView>, ErrorView>(None),
        ),
{
}

/// After the header, a non-blank line whose field count differs from the
/// header's column count is refused with its row number, counted from one
/// after the header with blank lines included.
pub proof fn law_field_count_mismatch(st: StreamView, line: Seq<char>)
    requires
        st.header is Some,
        trim(strip_cr(line)).len() > 0,
        csv_fields(trim(strip_cr(line))).len() != st.header->0.columns.len(),
    ensures
        stream_step(st, line) == (
            StreamView { header: st.header, row: st.row + 1 },
            Err::<Option<RecordView>, ErrorView>(
                ErrorView::FieldCountMismatch {
                    row: st.row + 1,
                    found: csv_fields(trim(strip_cr(line))).len(),
                    expected: st.header->0.columns.len(),
                },
            ),
        ),
{
}

/// In a run over a whole input, the data line at position `n` (the header
/// being at 0) that has the wrong number of fields is refused as row `n`.
pub proof fn law_mismatch_row_in_run(lines: Seq<Seq<char>>, n: int)
    requires
        1 <= n < lines.len(),
        run_lines(lines, n).1 is Ok,
        trim(strip_cr(lines[n])).len() > 0,
        csv_fields(trim(strip_cr(lines[n]))).len() != run_lines(lines, n).0.header->0.columns.len(),
    ensures
        run_lines(lines, n + 1).1 == Err::<(Seq<NodeView>, Seq<RelationshipView>), ErrorView>(
            ErrorView::FieldCountMismatch {
                row: n as nat,
                found: csv_fields(trim(strip_cr(lines[n]))).len(),
                expected: run_lines(lines, n).0.header->0.columns.len(),
            },
        ),
{
    lemma_run_shape(lines, n);
}

/// The properties that the property columns among the first `n` columns
/// give to a row, in column order.
pub open spec fn property_cells(cols: Seq<ColumnView>, vals: Seq<Seq<char>>, n: int) -> Seq<
    PropertyView,
>
    decreases n,
{
    if n <= 0 {
        Seq::empty()
    } else {
        let prev = property_cells(cols, vals, n - 1);
        match cols[n - 1] {
            ColumnView::Property { name, type_hint } => prev.push(
                PropertyView { name, value: vals[n - 1], type_hint },
            ),
            _ => prev,
        }
    }
}

/// No annotation occurs twice among the columns.
pub open spec fn annotations_unique(cols: Seq<ColumnView>) -> bool {
    forall|i: int, j: int| 0 <= i < j < cols.len() && is_annotation(cols[i]) ==> cols[i] != cols[j]
}

/// The cell under column `c`, if the first `n` columns hold one; empty
/// otherwise.
pub open spec fn cell_of(cols: Seq<ColumnView>, vals: Seq<Seq<char>>, n: int, c: ColumnView) -> Seq<
    char,
> {
    if exists|i: int| 0 <= i < n && cols[i] == c {
        vals[choose|i: int| 0 <= i < n && cols[i] == c]
    } else {
        Seq::empty()
    }
}

proof fn lemma_cell_of_step(cols: Seq<ColumnView>, vals: Seq<Seq<char>>, n: int, c: ColumnView)
    requires
        1 <= n <= cols.len(),
        annotations_unique(cols),
        is_annotation(c),
    ensures
        cols[n - 1] == c ==> cell_of(cols, vals, n, c) == vals[n - 1],
        cols[n - 1] != c ==> cell_of(cols, vals, n, c) == cell_of(cols, vals, n - 1, c),
{
    if cols[n - 1] == c {
        let i = choose|i: int| 0 <= i < n && cols[i] == c;
        assert(cols[n - 1] == c);
        if i < n - 1 {
            assert(cols[i] != cols[n - 1]);
        }
    } else {
        if exists|i: int| 0 <= i < n && cols[i] == c {
            let i = choose|i: int| 0 <= i < n && cols[i] == c;
            assert(0 <= i < n - 1 && cols[i] == c);
            let i2 = choose|i: int| 0 <= i < n - 1 && cols[i] == c;
            assert(i2 == i) by {
                if i2 != i {
                    if i2 < i {
                        assert(cols[i2] != cols[i]);
                    } else {
                        assert(cols[i] != cols[i2]);
                    }
                }
            }
        } else {
            assert(!exists|i: int| 0 <= i < n - 1 && cols[i] == c);
        }
    }
}

/// The labels of a row: those of its `:LABEL` cell, if any.
pub open spec fn label_cell(cols: Seq<ColumnView>, vals: Seq<Seq<char>>, n: int) -> Seq<Seq<char>> {
    if exists|i: int| 0 <= i < n && cols[i] == ColumnView::Label {
        labels_of(cell_of(cols, vals, n, ColumnView::Label))
    } else {
        Seq::empty()
    }
}

proof fn lemma_node_prefix(cols: Seq<ColumnView>, vals: Seq<Seq<char>>, n: int)
    requires
        0 <= n <= cols.len(),
        annotations_unique(cols),
    ensures
        node_prefix(cols, vals, n) == (NodeView {
            id: cell_of(cols, vals, n, ColumnView::Id),
            labels: label_cell(cols, vals, n),
            properties: property_cells(cols, vals, n),
        }),
    decreases n,
{
    if n > 0 {
        lemma_node_prefix(cols, vals, n - 1);
        lemma_cell_of_step(cols, vals, n, ColumnView::Id);
        lemma_cell_of_step(cols, vals, n, ColumnView::Label);
        if cols[n - 1] == ColumnView::Label {
            assert(!exists|i: int| 0 <= i < n - 1 && cols[i] == ColumnView::Label) by {
                if exists|i: int| 0 <= i < n - 1 && cols[i] == ColumnView::Label {
                    let i = choose|i: int| 0 <= i < n - 1 && cols[i] == ColumnView::Label;
                    assert(cols[i] != cols[n - 1]);
                }
            }
            assert(Seq::<Seq<char>>::empty() + labels_of(vals[n - 1]) =~= labels_of(
                vals[n - 1],
            ));
        } else {
            if exists|i: int| 0 <= i < n && cols[i] == ColumnView::Label {
                let i = choose|i: int| 0 <= i < n && cols[i] == ColumnView::Label;
                assert(0 <= i < n - 1 && cols[i] == ColumnView::Label);
            }
        }
    }
}

proof fn lemma_edge_prefix(cols: Seq<ColumnView>, vals: Seq<Seq<char>>, n: int)
    requires
        0 <= n <= cols.len(),
        annotations_unique(cols),
    ensures
        edge_prefix(cols, vals, n) == (RelationshipView {
            start_id: cell_of(cols, vals, n, ColumnView::StartId),
            end_id: cell_of(cols, vals, n, ColumnView::EndId),
            rel_type: cell_of(cols, vals, n, ColumnView::RelType),
            properties: property_cells(cols, vals, n),
        }),
    decreases n,
{
    if n > 0 {
        lemma_edge_prefix(cols, vals, n - 1);
        lemma_cell_of_step(cols, vals, n, ColumnView::StartId);
        lemma_cell_of_step(cols, vals, n, ColumnView::EndId);
        lemma_cell_of_step(cols, vals, n, ColumnView::RelType);
    }
}

/// Under a node header (no annotation twice), a non-blank line with one
/// field per column yields a node whose id is the `:ID` cell, whose labels
/// are those of the `:LABEL` cell (none without that column), and whose
/// properties are the property cells in column order.
pub proof fn law_node_record(st: StreamView, line: Seq<char>)
    requires
        st.header is Some,
        st.header->0.file_kind == FileKind::Node,
        annotations_unique(st.header->0.columns),
        trim(strip_cr(line)).len() > 0,
        csv_fields(trim(strip_cr(line))).len() == st.header->0.columns.len(),
    ensures
        ({
            let cols = st.header->0.columns;
            let fs = csv_fields(trim(strip_cr(line)));
            stream_step(st, line) == (
                StreamView { header: st.header, row: st.row + 1 },
                Ok::<Option<RecordView>, ErrorView>(
                    Some(
                        RecordView::Node(
                            NodeView {
                                id: cell_of(cols, fs, cols.len() as int, ColumnView::Id),
                                labels: label_cell(cols, fs, cols.len() as int),
                                properties: property_cells(cols, fs, cols.len() as int),
                            },
                        ),
                    ),
                ),
            )
        }),
{
    let cols = st.header->0.columns;
    let fs = csv_fields(trim(strip_cr(line)));
    lemma_node_prefix(cols, fs, cols.len() as int);
}

/// Under a relationship header (no annotation twice), a non-blank line
/// with one field per column yields a relationship whose endpoints and type
/// are the `:START_ID`, `:END_ID` and `:TYPE` cells, and whose properties
/// are the property cells in column order.
pub proof fn law_relationship_record(st: StreamView, line: Seq<char>)
    requires
        st.header is Some,
        st.header->0.file_kind == FileKind::Relationship,
        annotations_unique(st.header->0.columns),
        trim(strip_cr(line)).len() > 0,
        csv_fields(trim(strip_cr(line))).len() == st.header->0.columns.len(),
    ensures
        ({
            let cols = st.header->0.columns;
            let fs = csv_fields(trim(strip_cr(line)));
            stream_step(st, line) == (
                StreamView { header: st.header, row: st.row + 1 },
                Ok::<Option<RecordView>, ErrorView>(
                    Some(
                        RecordView::Edge(
                            RelationshipView {
                                start_id: cell_of(cols, fs, cols.len() as int, ColumnView::StartId),
                                end_id: cell_of(cols, fs, cols.len() as int, ColumnView::EndId),
                                rel_type: cell_of(cols, fs, cols.len() as int, ColumnView::RelType),
                                properties: property_cells(cols, fs, cols.len() as int),
                            },
                        ),
                    ),
                ),
            )
        }),
{
    let cols = st.header->0.columns;
    let fs = csv_fields(trim(strip_cr(line)));
    lemma_edge_prefix(cols, fs, cols.len() as int);
}

/// The header that a run of the stream parser holds came out of
/// `header_of`, so no annotation occurs in it twice.
pub proof fn law_run_header_annotations_unique(lines: Seq<Seq<char>>, n: int)
    requires
        0 <= n,
    ensures
        run_lines(lines, n).0.header matches Some(h) ==> annotations_unique(h.columns),
    decreases n,
{
    if n > 0 {
        law_run_header_annotations_unique(lines, n - 1);
        let st = run_lines(lines, n - 1).0;
        if st.header is None {
            law_header_shape(csv_fields(strip_cr(lines[n - 1])));
        }
    }
}

/// Whether `c` is a decimal digit.
pub open spec fn is_digit(c: char) -> bool {
    '0' <= c && c <= '9'
}

/// The number that a sequence of decimal digits spells.
pub open spec fn digits_value(s: Seq<char>) -> int
    decreases s.len(),
{
    if s.len() == 0 {
        0
    } else {
        digits_value(s.drop_last()) * 10 + (s.last() as int - '0' as int)
    }
}

proof fn lemma_digit_char_value(d: nat)
    requires
        d < 10,
    ensures
        is_digit(digit_char(d)),
        digit_char(d) as int - '0' as int == d,
{
    if d == 0 {
    } else if d == 1 {
    } else if d == 2 {
    } else if d == 3 {
    } else if d == 4 {
    } else if d == 5 {
    } else if d == 6 {
    } else if d == 7 {
    } else if d == 8 {
    } else {
        assert(d == 9);
    }
}

/// The decimal form of a number is made of digits, spells the number, and
/// has no leading zero (but for the number zero itself).
pub proof fn law_decimal_spells_the_number(n: nat)
    ensures
        decimal(n).len() > 0,
        forall|k: int| 0 <= k < decimal(n).len() ==> is_digit(#[trigger] decimal(n)[k]),
        digits_value(decimal(n)) == n,
        decimal(n)[0] == '0' ==> n == 0,
    decreases n,
{
    if n >= 10 {
        let q = n / 10;
        let r = n % 10;
        law_decimal_spells_the_number(q);
        lemma_digit_char_value(r);
        let d = decimal(n);
        assert(d == decimal(q).push(digit_char(r)));
        assert(d.drop_last() =~= decimal(q));
        assert(d[0] == decimal(q)[0]);
        assert(q * 10 + r == n);
        assert(d.last() == digit_char(r));
        assert(digits_value(d) == digits_value(decimal(q)) * 10 + (digit_char(r) as int
            - '0' as int));
        assert forall|k: int| 0 <= k < d.len() implies is_digit(#[trigger] d[k]) by {
            if k < decimal(q).len() {
                assert(d[k] == decimal(q)[k]);
            }
        }
    } else {
        let d = decimal(n);
        lemma_digit_char_value(n);
        assert(d.drop_last() =~= Seq::<char>::empty());
        assert(digits_value(d.drop_last()) == 0);
        assert(d.last() == digit_char(n));
    }
}

/// Over a run of the stream parser, lines only add records: the records
/// collected after `m` lines are the first ones of those collected after
/// any `n >= m` lines, kinds apart.
pub proof fn law_run_records_grow(lines: Seq<Seq<char>>, m: int, n: int)
    requires
        0 <= m <= n,
        run_lines(lines, n).1 is Ok,
    ensures
        run_lines(lines, m).1 is Ok,
        run_lines(lines, m).1->Ok_0.0.len() <= run_lines(lines, n).1->Ok_0.0.len(),
        run_lines(lines, m).1->Ok_0.1.len() <= run_lines(lines, n).1->Ok_0.1.len(),
        forall|k: int|
            0 <= k < run_lines(lines, m).1->Ok_0.0.len() ==> run_lines(lines, m).1->Ok_0.0[k]
                == run_lines(lines, n).1->Ok_0.0[k],
        forall|k: int|
            0 <= k < run_lines(lines, m).1->Ok_0.1.len() ==> run_lines(lines, m).1->Ok_0.1[k]
                == run_lines(lines, n).1->Ok_0.1[k],
    decreases n - m,
{
    if m < n {
        if run_lines(lines, n - 1).1 is Err {
            assert(run_lines(lines, n).1 is Err);
        }
        law_run_records_grow(lines, m, n - 1);
    }
}

proof fn lemma_csv_scan_nonempty(
    line: Seq<char>,
    i: int,
    in_quotes: bool,
    cur: Seq<char>,
    done: Seq<Seq<char>>,
)
    ensures
        csv_scan(line, i, in_quotes, cur, done).len() > done.len(),
    decreases line.len() - i,
{
    if 0 <= i < line.len() {
        if in_quotes {
            if line[i] == '"' {
                if i + 1 < line.len() && line[i + 1] == '"' {
                    lemma_csv_scan_nonempty(line, i + 2, true, cur.push('"'), done);
                } else {
                    lemma_csv_scan_nonempty(line, i + 1, false, cur, done);
                }
            } else {
                lemma_csv_scan_nonempty(line, i + 1, true, cur.push(line[i]), done);
            }
        } else if line[i] == '"' {
            lemma_csv_scan_nonempty(line, i + 1, true, cur, done);
        } else if line[i] == ',' {
            lemma_csv_scan_nonempty(line, i + 1, false, Seq::empty(), done.push(cur));
        } else {
            lemma_csv_scan_nonempty(line, i + 1, false, cur.push(line[i]), done);
        }
    }
}

proof fn lemma_run_empty_header(lines: Seq<Seq<char>>, n: int)
    requires
        1 <= n <= lines.len(),
    ensures
        run_lines(lines, n).1 == Err::<(Seq<NodeView>, Seq<RelationshipView>), ErrorView>(
            ErrorView::EmptyHeader,
        ) <==> trim(strip_cr(lines[0])).len() == 0,
    decreases n,
{
    lemma_csv_scan_nonempty(strip_cr(lines[0]), 0, false, Seq::empty(), Seq::empty());
    if n > 1 {
        lemma_run_empty_header(lines, n - 1);
        if run_lines(lines, n - 1).1 is Ok {
            lemma_run_shape(lines, n - 1);
        }
    }
}

/// A whole input is refused as having an empty header exactly when it has
/// no line at all or its first line is blank.
pub proof fn law_empty_header(input: Seq<char>)
    ensures
        parse_input(input) == Err::<(Seq<NodeView>, Seq<RelationshipView>), ErrorView>(
            ErrorView::EmptyHeader,
        ) <==> (lines_of(input).len() == 0 || trim(strip_cr(lines_of(input)[0])).len() == 0),
{
    let ls = lines_of(input);
    if ls.len() > 0 {
        lemma_run_empty_header(ls, ls.len() as int);
    }
}

/// Dropping a trailing carriage return removes that one character and
/// nothing else.
pub proof fn law_strip_cr(line: Seq<char>)
    ensures
        line.len() > 0 && line.last() == '\r' ==> strip_cr(line).push('\r') == line,
        !(line.len() > 0 && line.last() == '\r') ==> strip_cr(line) == line,
{
    if line.len() > 0 && line.last() == '\r' {
        assert(strip_cr(line).push('\r') =~= line);
    }
}

// ---------------------------------------------------------------------------
// Whole inputs
// ---------------------------------------------------------------------------

/// A data line that yields no record: nothing but whitespace once a
/// trailing carriage return is dropped.
pub open spec fn is_blank_row(line: Seq<char>) -> bool {
    trim(strip_cr(line)).len() == 0
}

/// The number of non-blank data lines among `lines[1..n]`.
pub open spec fn nonblank_rows(lines: Seq<Seq<char>>, n: int) -> nat
    decreases n,
{
    if n <= 1 {
        0
    } else {
        nonblank_rows(lines, n - 1) + if is_blank_row(lines[n - 1]) {
            0nat
        } else {
            1nat
        }
    }
}

proof fn lemma_run_shape(lines: Seq<Seq<char>>, n: int)
    requires
        1 <= n <= lines.len(),
        run_lines(lines, n).1 is Ok,
    ensures
        run_lines(lines, n).0.header is Some,
        run_lines(lines, n).0.row == n - 1,
        run_lines(lines, n).1 matches Ok((ns, es)) ==> {
            &&& ns.len() + es.len() == nonblank_rows(lines, n)
            &&& run_lines(lines, n).0.header->0.file_kind == FileKind::Node ==> es.len() == 0
            &&& run_lines(lines, n).0.header->0.file_kind == FileKind::Relationship ==> ns.len()
                == 0
        },
    decreases n,
{
    if n > 1 {
        if run_lines(lines, n - 1).1 is Err {
            assert(run_lines(lines, n).1 is Err);
        }
        lemma_run_shape(lines, n - 1);
        let st = run_lines(lines, n - 1).0;
        let h = st.header->0;
        let l = strip_cr(lines[n - 1]);
        if trim(l).len() > 0 {
            let fields = csv_fields(trim(l));
            if fields.len() == h.columns.len() {
                assert(stream_step(st, lines[n - 1]).1 == Ok::<Option<RecordView>, ErrorView>(Some(record_of(h, fields))));
            }
        }
    }
}

/// Feeding lines to a fresh stream parser: once `n >= 1` lines went in
/// without error, the first was the header and every later one, blank or
/// not, has been counted as a row, so `n - 1` rows have been seen.
pub proof fn law_rows_count_every_data_line(lines: Seq<Seq<char>>, n: int)
    requires
        1 <= n <= lines.len(),
        run_lines(lines, n).1 is Ok,
    ensures
        run_lines(lines, n).0.header is Some,
        run_lines(lines, n).0.row == n - 1,
{
    lemma_run_shape(lines, n);
}

/// A parsed input never mixes kinds: a node file yields no relationships
/// and a relationship file no nodes.
pub proof fn law_single_kind(input: Seq<char>)
    ensures
        parse_input(input) matches Ok((ns, es)) ==> ns.len() == 0 || es.len() == 0,
{
    let ls = lines_of(input);
    if ls.len() > 0 && parse_input(input) is Ok {
        lemma_run_shape(ls, ls.len() as int);
    }
}

/// A parsed input yields exactly one record per non-blank data line.
pub proof fn law_one_record_per_nonblank_row(input: Seq<char>)
    ensures
        parse_input(input) matches Ok((ns, es)) ==> ns.len() + es.len() == nonblank_rows(
            lines_of(input),
            lines_of(input).len() as int,
        ),
{
    let ls = lines_of(input);
    if ls.len() > 0 && parse_input(input) is Ok {
        lemma_run_shape(ls, ls.len() as int);
    }
}

} // verus!
