//! RFC 4180 single-line CSV field splitting.

use vstd::prelude::*;

use crate::text::{chars_of, push_char};
use crate::types::strings_view;

verus! {

/// Splitting `line` from position `i` on, where `in_quotes` tells whether
/// a quoted section is open, `cur` holds the field being read and `done`
/// the fields already complete.
///
/// Outside quotes, `"` opens a quoted section and `,` ends the field;
/// inside them, `""` stands for one `"` and a lone `"` closes the section.
pub open spec fn csv_scan(
    line: Seq<char>,
    i: int,
    in_quotes: bool,
    cur: Seq<char>,
    done: Seq<Seq<char>>,
) -> Seq<Seq<char>>
    decreases line.len() - i,
{
    if i < 0 || i >= line.len() {
        done.push(cur)
    } else if in_quotes {
        if line[i] == '"' {
            if i + 1 < line.len() && line[i + 1] == '"' {
                csv_scan(line, i + 2, true, cur.push('"'), done)
            } else {
                csv_scan(line, i + 1, false, cur, done)
            }
        } else {
            csv_scan(line, i + 1, true, cur.push(line[i]), done)
        }
    } else if line[i] == '"' {
        csv_scan(line, i + 1, true, cur, done)
    } else if line[i] == ',' {
        csv_scan(line, i + 1, false, Seq::empty(), done.push(cur))
    } else {
        csv_scan(line, i + 1, false, cur.push(line[i]), done)
    }
}

/// The fields of one CSV line.
pub open spec fn csv_fields(line: Seq<char>) -> Seq<Seq<char>> {
    csv_scan(line, 0, false, Seq::empty(), Seq::empty())
}

/// The fields of the line `v[lo..hi]`.
pub(crate) fn csv_fields_of_range(v: &Vec<char>, lo: usize, hi: usize) -> (res: Vec<String>)
    requires
        lo <= hi <= v@.len(),
    ensures
        strings_view(res@) == csv_fields(v@.subrange(lo as int, hi as int)),
{
    let ghost line = v@.subrange(lo as int, hi as int);
    let mut fields: Vec<String> = Vec::new();
    let mut current = String::new();
    let mut in_quotes = false;
    let mut i = lo;
    assert(strings_view(fields@) =~= Seq::<Seq<char>>::empty());
    while i < hi
        invariant
            lo <= i <= hi <= v@.len(),
            line == v@.subrange(lo as int, hi as int),
            csv_fields(line) == csv_scan(
                line,
                i - lo,
                in_quotes,
                current@,
                strings_view(fields@),
            ),
        decreases hi - i,
    {
        let ch = v[i];
        assert(line[i - lo] == ch);
        if in_quotes {
            if ch == '"' {
                if i + 1 < hi && v[i + 1] == '"' {
                    assert(line[i + 1 - lo] == v@[i + 1]);
                    push_char(&mut current, '"');
                    i = i + 2;
                } else {
                    if i + 1 < hi {
                        assert(line[i + 1 - lo] == v@[i + 1]);
                    }
                    in_quotes = false;
                    i = i + 1;
                }
            } else {
                push_char(&mut current, ch);
                i = i + 1;
            }
        } else if ch == '"' {
            in_quotes = true;
            i = i + 1;
        } else if ch == ',' {
            let ghost before = strings_view(fields@);
            fields.push(current);
            assert(strings_view(fields@) =~= before.push(current@));
            current = String::new();
            i = i + 1;
        } else {
            push_char(&mut current, ch);
            i = i + 1;
        }
    }
    let ghost before = strings_view(fields@);
    fields.push(current);
    assert(strings_view(fields@) =~= before.push(current@));
    fields
}

/// Parse a single CSV line into fields, handling RFC 4180 quoting.
///
/// - Fields are comma-delimited.
/// - Quoted fields use double quotes (`"`).
/// - Double quotes inside quoted fields are escaped as `""`.
pub fn parse_csv_line(line: &str) -> (res: Vec<String>)
    ensures
        strings_view(res@) == csv_fields(line@),
{
    let v = chars_of(line);
    assert(v@.subrange(0, v@.len() as int) =~= line@);
    csv_fields_of_range(&v, 0, v.len())
}

} // verus!
