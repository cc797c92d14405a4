//! What the header listing and the aligned preview display.

use vstd::prelude::*;
use vstd::utf8::encode_utf8;
use crate::table::{copy_strings, Table};

verus! {

/// The names of the columns, in order.
pub fn show_header(t: &Table) -> (r: Vec<String>)
    ensures
        r.deep_view() == t.header_view(),
{
    copy_strings(&t.header)
}

/// The first records of a table and the width (in bytes) of each column
/// over the header and those records.
#[derive(Debug)]
pub struct Preview {
    pub header: Vec<String>,
    pub rows: Vec<Vec<String>>,
    pub widths: Vec<usize>,
}

/// The length in bytes of a field, as `str::len` reports it.
pub open spec fn byte_len(s: Seq<char>) -> nat {
    (encode_utf8(s).len() as usize) as nat
}

/// The width of field `i` of `row`, zero when the row is shorter.
pub open spec fn field_width(row: Seq<Seq<char>>, i: int) -> nat {
    if 0 <= i < row.len() {
        byte_len(row[i])
    } else {
        0
    }
}

/// The widest field of column `i` over `header` and `rows`.
pub open spec fn column_width(header: Seq<Seq<char>>, rows: Seq<Seq<Seq<char>>>, i: int) -> nat
    decreases rows.len(),
{
    if rows.len() == 0 {
        field_width(header, i)
    } else {
        let w = column_width(header, rows.drop_last(), i);
        let f = field_width(rows.last(), i);
        if f > w {
            f
        } else {
            w
        }
    }
}

/// Keeps the header and the first `number_rows` records (10 when not
/// given), and measures each header column over them.
pub fn peek(t: &Table, number_rows: Option<usize>) -> (r: Preview)
    ensures
        ({
            let n = match number_rows {
                Some(n) => n as int,
                None => 10,
            };
            let shown = t.rows_view().take(if n < t.rows.len() { n } else { t.rows.len() as int });
            &&& r.header.deep_view() == t.header_view()
            &&& r.rows.deep_view() == shown
            &&& r.widths@.len() == t.header.len()
            &&& forall|i: int|
                0 <= i < r.widths@.len() ==> r.widths@[i] == column_width(t.header_view(), shown, i)
        }),
{
    let n = match number_rows {
        Some(n) => n,
        None => 10,
    };
    let count = if n < t.rows.len() {
        n
    } else {
        t.rows.len()
    };
    let ghost hv = t.header_view();
    let ghost rv = t.rows_view();
    let mut widths: Vec<usize> = Vec::new();
    let mut i: usize = 0;
    while i < t.header.len()
        invariant
            i <= t.header.len(),
            hv == t.header_view(),
            widths@.len() == i,
            forall|j: int| 0 <= j < i ==> widths@[j] == column_width(hv, Seq::empty(), j),
        decreases t.header.len() - i,
    {
        assert(hv[i as int] == t.header@[i as int]@);
        widths.push(t.header[i].as_str().len());
        i = i + 1;
    }
    let mut rows: Vec<Vec<String>> = Vec::new();
    let mut k: usize = 0;
    while k < count
        invariant
            k <= count <= t.rows.len(),
            hv == t.header_view(),
            rv == t.rows_view(),
            widths@.len() == t.header.len(),
            rows.deep_view() == rv.take(k as int),
            forall|j: int| 0 <= j < widths@.len() ==> widths@[j] == column_width(hv, rv.take(k as int), j),
        decreases count - k,
    {
        let row = &t.rows[k];
        let ghost before = widths@;
        proof {
            assert(rv.take(k + 1).drop_last() =~= rv.take(k as int));
            assert(rv.take(k + 1).last() == row.deep_view());
        }
        let mut j: usize = 0;
        while j < widths.len()
            invariant
                j <= widths@.len() == before.len(),
                k < t.rows.len(),
                rv.len() == t.rows.len(),
                forall|m: int| 0 <= m < j ==> widths@[m] == column_width(hv, rv.take(k + 1), m),
                forall|m: int| j <= m < widths@.len() ==> widths@[m] == before[m],
                forall|m: int| 0 <= m < before.len() ==> before[m] == column_width(hv, rv.take(k as int), m),
                rv.take(k + 1).drop_last() == rv.take(k as int),
                rv.take(k + 1).last() == row.deep_view(),
            decreases widths@.len() - j,
        {
            proof {
                let f = field_width(row.deep_view(), j as int);
                assert(column_width(hv, rv.take(k + 1), j as int) == if f > before[j as int] {
                    f
                } else {
                    before[j as int] as nat
                });
            }
            if j < row.len() {
                assert(row.deep_view()[j as int] == row@[j as int]@);
                let w = row[j].as_str().len();
                if w > widths[j] {
                    widths.set(j, w);
                }
            }
            j = j + 1;
        }
        let ghost prev = rows.deep_view();
        rows.push(copy_strings(row));
        proof {
            assert(rows.deep_view() =~= prev.push(row.deep_view()));
            assert(rv.take(k + 1) =~= rv.take(k as int).push(row.deep_view()));
        }
        k = k + 1;
    }
    Preview { header: copy_strings(&t.header), rows, widths }
}

} // verus!
