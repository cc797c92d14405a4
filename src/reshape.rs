//! Row and column transformations: stacking and pasting two tables,
//! transposing one, selecting columns and filtering rows.

use vstd::prelude::*;
use crate::error::CsvError;
use crate::table::{column_position, copy_strings, resolve_column, Table};
use crate::text::{list_entries, split_list};

verus! {

/// `a` followed by `b`.
pub fn concat_strings(a: &Vec<String>, b: &Vec<String>) -> (r: Vec<String>)
    ensures
        r.deep_view() == a.deep_view() + b.deep_view(),
{
    let mut r = copy_strings(a);
    let mut i: usize = 0;
    while i < b.len()
        invariant
            i <= b.len(),
            r.deep_view() == a.deep_view() + b.deep_view().take(i as int),
        decreases b.len() - i,
    {
        let ghost prev = r.deep_view();
        r.push(b[i].clone());
        proof {
            assert(r.deep_view() =~= prev.push(b@[i as int]@));
            assert(b.deep_view().take(i + 1) =~= b.deep_view().take(i as int).push(b@[i as int]@));
            assert(a.deep_view() + b.deep_view().take(i + 1) =~= (a.deep_view() + b.deep_view().take(
                i as int,
            )).push(b@[i as int]@));
        }
        i = i + 1;
    }
    assert(b.deep_view().take(b.len() as int) =~= b.deep_view());
    r
}

/// Appends copies of `rows` to `out`.
fn append_rows(out: &mut Vec<Vec<String>>, rows: &Vec<Vec<String>>)
    ensures
        final(out).deep_view() == old(out).deep_view() + rows.deep_view(),
{
    let ghost start = out.deep_view();
    let mut i: usize = 0;
    while i < rows.len()
        invariant
            i <= rows.len(),
            out.deep_view() == start + rows.deep_view().take(i as int),
        decreases rows.len() - i,
    {
        let row = copy_strings(&rows[i]);
        let ghost prev = out.deep_view();
        out.push(row);
        proof {
            assert(out.deep_view() =~= prev.push(rows@[i as int].deep_view()));
            assert(start + rows.deep_view().take(i + 1) =~= (start + rows.deep_view().take(
                i as int,
            )).push(rows@[i as int].deep_view()));
        }
        i = i + 1;
    }
    assert(rows.deep_view().take(rows.len() as int) =~= rows.deep_view());
}

/// Why stacking `a` on `b` fails with `e`: the first of a delimiter
/// mismatch, a column-count mismatch, or the first differing column name.
pub open spec fn stack_failure(a: Table, b: Table, e: CsvError) -> bool {
    if a.delimiter != b.delimiter {
        e == CsvError::DelimiterMismatch {
            first_delimiter: a.delimiter.spec_char(),
            second_delimiter: b.delimiter.spec_char(),
        }
    } else if a.header.len() != b.header.len() {
        e == CsvError::ColumnCountMismatch {
            first_count: a.header.len(),
            second_count: b.header.len(),
        }
    } else {
        e matches CsvError::HeaderMismatch { position, first_name, second_name } && {
            &&& position < a.header.len()
            &&& first_name@ == a.header_view()[position as int]
            &&& second_name@ == b.header_view()[position as int]
            &&& first_name@ != second_name@
            &&& forall|j: int| 0 <= j < position ==> a.header_view()[j] == b.header_view()[j]
        }
    }
}

/// Stacks `second` under `first`: one header, then the records of `first`,
/// then those of `second`, each in input order. Both must share the
/// delimiter and the exact header.
pub fn stack(first: &Table, second: &Table) -> (r: Result<Vec<Vec<String>>, CsvError>)
    ensures
        r is Ok <==> first.delimiter == second.delimiter && first.header_view()
            == second.header_view(),
        r matches Ok(out) ==> out.deep_view() == seq![first.header_view()] + first.rows_view()
            + second.rows_view(),
        r matches Err(e) ==> stack_failure(*first, *second, e),
{
    if first.delimiter != second.delimiter {
        return Err(
            CsvError::DelimiterMismatch {
                first_delimiter: first.delimiter.as_char(),
                second_delimiter: second.delimiter.as_char(),
            },
        );
    }
    assert(first.header_view().len() == first.header.len());
    assert(second.header_view().len() == second.header.len());
    if first.header.len() != second.header.len() {
        return Err(
            CsvError::ColumnCountMismatch {
                first_count: first.header.len(),
                second_count: second.header.len(),
            },
        );
    }
    let ghost ha = first.header_view();
    let ghost hb = second.header_view();
    let mut i: usize = 0;
    while i < first.header.len()
        invariant
            i <= first.header.len() == second.header.len(),
            first.delimiter == second.delimiter,
            ha == first.header_view(),
            hb == second.header_view(),
            forall|j: int| 0 <= j < i ==> ha[j] == hb[j],
        decreases first.header.len() - i,
    {
        assert(ha[i as int] == first.header@[i as int]@);
        assert(hb[i as int] == second.header@[i as int]@);
        if !(first.header[i] == second.header[i]) {
            let first_name = first.header[i].clone();
            let second_name = second.header[i].clone();
            assert(first_name@ == ha[i as int]);
            assert(second_name@ == hb[i as int]);
            let e = CsvError::HeaderMismatch { position: i, first_name, second_name };
            return Err(e);
        }
        i = i + 1;
    }
    assert(ha =~= hb);
    let mut out: Vec<Vec<String>> = Vec::new();
    out.push(copy_strings(&first.header));
    assert(out.deep_view() =~= seq![ha]);
    append_rows(&mut out, &first.rows);
    append_rows(&mut out, &second.rows);
    Ok(out)
}

/// Row `i` of `a` followed by row `i` of `b`, for every row.
pub open spec fn paired_rows(a: Seq<Seq<Seq<char>>>, b: Seq<Seq<Seq<char>>>) -> Seq<
    Seq<Seq<char>>,
> {
    Seq::new(a.len(), |i: int| a[i] + b[i])
}

/// Why pasting `a` and `b` fails with `e`.
pub open spec fn paste_failure(a: Table, b: Table, e: CsvError) -> bool {
    if a.delimiter != b.delimiter {
        e == CsvError::DelimiterMismatch {
            first_delimiter: a.delimiter.spec_char(),
            second_delimiter: b.delimiter.spec_char(),
        }
    } else if a.rows.len() > b.rows.len() {
        e == CsvError::RowCountMismatch { longer: 1, row: (b.rows.len() + 1) as usize }
    } else {
        e == CsvError::RowCountMismatch { longer: 2, row: (a.rows.len() + 1) as usize }
    }
}

/// Pastes `second` beside `first`: the headers joined, then each record of
/// `first` joined with the record of `second` at the same position. Both
/// must share the delimiter and have as many records; duplicate column names
/// are kept. When one input runs out first, the error names the longer one
/// and the row (from 1) at which the other was exhausted.
pub fn paste(first: &Table, second: &Table) -> (r: Result<Vec<Vec<String>>, CsvError>)
    ensures
        r is Ok <==> first.delimiter == second.delimiter && first.rows.len()
            == second.rows.len(),
        r matches Ok(out) ==> out.deep_view() == seq![first.header_view() + second.header_view()]
            + paired_rows(first.rows_view(), second.rows_view()),
        r matches Err(e) ==> paste_failure(*first, *second, e),
{
    if first.delimiter != second.delimiter {
        return Err(
            CsvError::DelimiterMismatch {
                first_delimiter: first.delimiter.as_char(),
                second_delimiter: second.delimiter.as_char(),
            },
        );
    }
    if first.rows.len() > second.rows.len() {
        return Err(CsvError::RowCountMismatch { longer: 1, row: second.rows.len() + 1 });
    }
    if first.rows.len() < second.rows.len() {
        return Err(CsvError::RowCountMismatch { longer: 2, row: first.rows.len() + 1 });
    }
    let ghost ra = first.rows_view();
    let ghost rb = second.rows_view();
    let mut out: Vec<Vec<String>> = Vec::new();
    out.push(concat_strings(&first.header, &second.header));
    let mut i: usize = 0;
    while i < first.rows.len()
        invariant
            i <= first.rows.len() == second.rows.len(),
            ra == first.rows_view(),
            rb == second.rows_view(),
            out.deep_view() == seq![first.header_view() + second.header_view()] + paired_rows(
                ra,
                rb,
            ).take(i as int),
        decreases first.rows.len() - i,
    {
        let joined = concat_strings(&first.rows[i], &second.rows[i]);
        let ghost prev = out.deep_view();
        out.push(joined);
        proof {
            assert(out.deep_view() =~= prev.push(ra[i as int] + rb[i as int]));
            assert(paired_rows(ra, rb).take(i + 1) =~= paired_rows(ra, rb).take(i as int).push(
                ra[i as int] + rb[i as int],
            ));
        }
        i = i + 1;
    }
    assert(paired_rows(ra, rb).take(ra.len() as int) =~= paired_rows(ra, rb));
    Ok(out)
}

/// Every record of a table, the header first.
pub open spec fn grid_of(t: Table) -> Seq<Seq<Seq<char>>> {
    seq![t.header_view()] + t.rows_view()
}

/// The length of the longest row of `g`.
pub open spec fn max_width(g: Seq<Seq<Seq<char>>>) -> nat
    decreases g.len(),
{
    if g.len() == 0 {
        0
    } else {
        let w = max_width(g.drop_last());
        if g.last().len() > w {
            g.last().len()
        } else {
            w
        }
    }
}

/// The field at row `i`, column `j` of `g`, empty where row `i` is shorter.
pub open spec fn cell(g: Seq<Seq<Seq<char>>>, i: int, j: int) -> Seq<char> {
    if j < g[i].len() {
        g[i][j]
    } else {
        Seq::empty()
    }
}

/// The transpose of `g`: one row per column of its widest row.
pub open spec fn transposed(g: Seq<Seq<Seq<char>>>) -> Seq<Seq<Seq<char>>> {
    Seq::new(max_width(g), |j: int| Seq::new(g.len(), |i: int| cell(g, i, j)))
}

/// Row `i` of the table's grid (0 is the header).
fn grid_row(t: &Table, i: usize) -> (r: &Vec<String>)
    requires
        i <= t.rows.len(),
    ensures
        r.deep_view() == grid_of(*t)[i as int],
{
    if i == 0 {
        &t.header
    } else {
        &t.rows[i - 1]
    }
}

/// Transposes a table, its header counted as an ordinary row: output row `j`
/// holds field `j` of every input row, or an empty field where that row is
/// shorter; there are as many output rows as the widest input row has fields.
pub fn transpose(t: &Table) -> (r: Vec<Vec<String>>)
    requires
        t.rows.len() < usize::MAX,
    ensures
        r.deep_view() == transposed(grid_of(*t)),
{
    let ghost g = grid_of(*t);
    let n = t.rows.len() + 1;
    let mut width: usize = 0;
    let mut i: usize = 0;
    while i < n
        invariant
            n == t.rows.len() + 1 == g.len(),
            g == grid_of(*t),
            i <= n,
            width == max_width(g.take(i as int)),
        decreases n - i,
    {
        let row = grid_row(t, i);
        proof {
            assert(g.take(i + 1).drop_last() =~= g.take(i as int));
        }
        if row.len() > width {
            width = row.len();
        }
        i = i + 1;
    }
    assert(g.take(n as int) =~= g);
    let mut out: Vec<Vec<String>> = Vec::new();
    let mut j: usize = 0;
    while j < width
        invariant
            n == g.len(),
            g == grid_of(*t),
            j <= width == max_width(g),
            out.deep_view() == transposed(g).take(j as int),
        decreases width - j,
    {
        let mut col: Vec<String> = Vec::new();
        let mut i: usize = 0;
        while i < n
            invariant
                n == t.rows.len() + 1 == g.len(),
                g == grid_of(*t),
                i <= n,
                col.deep_view() == Seq::new(i as nat, |k: int| cell(g, k, j as int)),
            decreases n - i,
        {
            let row = grid_row(t, i);
            let field = if j < row.len() {
                row[j].clone()
            } else {
                String::new()
            };
            let ghost prev = col.deep_view();
            col.push(field);
            proof {
                assert(col.deep_view() =~= prev.push(cell(g, i as int, j as int)));
                assert(Seq::new((i + 1) as nat, |k: int| cell(g, k, j as int)) =~= Seq::new(
                    i as nat,
                    |k: int| cell(g, k, j as int),
                ).push(cell(g, i as int, j as int)));
            }
            i = i + 1;
        }
        let ghost prev = out.deep_view();
        assert(col.deep_view() =~= transposed(g)[j as int]);
        out.push(col);
        proof {
            assert(out.deep_view() =~= prev.push(transposed(g)[j as int]));
            assert(out.deep_view() =~= transposed(g).take(j + 1));
        }
        j = j + 1;
    }
    assert(transposed(g).take(width as int) =~= transposed(g));
    out
}

/// The names that occur more than once in `names`, each once, in the order
/// of their second occurrence.
pub open spec fn duplicates_of(names: Seq<Seq<char>>) -> Seq<Seq<char>>
    decreases names.len(),
{
    if names.len() == 0 {
        Seq::empty()
    } else {
        let d = duplicates_of(names.drop_last());
        let x = names.last();
        if names.drop_last().contains(x) && !d.contains(x) {
            d.push(x)
        } else {
            d
        }
    }
}

/// Whether one of the first `upto` entries of `v` equals `x`.
fn contains_text(v: &Vec<String>, upto: usize, x: &String) -> (r: bool)
    requires
        upto <= v.len(),
    ensures
        r == v.deep_view().take(upto as int).contains(x@),
{
    let ghost dv = v.deep_view().take(upto as int);
    let mut i: usize = 0;
    while i < upto
        invariant
            i <= upto <= v.len(),
            dv == v.deep_view().take(upto as int),
            forall|j: int| 0 <= j < i ==> dv[j] != x@,
        decreases upto - i,
    {
        assert(dv[i as int] == v@[i as int]@);
        if v[i] == *x {
            assert(dv[i as int] == x@);
            return true;
        }
        i = i + 1;
    }
    false
}

/// The names that `names` repeats, each once, in the order in which their
/// second occurrence comes.
pub fn duplicate_columns(names: &Vec<String>) -> (r: Vec<String>)
    ensures
        r.deep_view() == duplicates_of(names.deep_view()),
{
    let ghost nv = names.deep_view();
    let mut r: Vec<String> = Vec::new();
    let mut i: usize = 0;
    while i < names.len()
        invariant
            i <= names.len(),
            nv == names.deep_view(),
            r.deep_view() == duplicates_of(nv.take(i as int)),
        decreases names.len() - i,
    {
        let name = &names[i];
        proof {
            assert(nv.take(i + 1).drop_last() =~= nv.take(i as int));
            assert(nv.take(i + 1).last() == name@);
        }
        let seen = contains_text(names, i, name);
        let listed = contains_text(&r, r.len(), name);
        proof {
            assert(r.deep_view().take(r.len() as int) =~= r.deep_view());
        }
        if seen && !listed {
            let ghost prev = r.deep_view();
            r.push(name.clone());
            assert(r.deep_view() =~= prev.push(name@));
        }
        i = i + 1;
    }
    assert(nv.take(names.len() as int) =~= nv);
    r
}

/// The fields of `rec` at positions `idx`, empty where `rec` is too short.
pub open spec fn project(rec: Seq<Seq<char>>, idx: Seq<int>) -> Seq<Seq<char>> {
    Seq::new(idx.len(), |k: int| if 0 <= idx[k] < rec.len() { rec[idx[k]] } else { Seq::empty() })
}

/// Every requested name is a column of `header`.
pub open spec fn all_resolved(header: Seq<Seq<char>>, names: Seq<Seq<char>>) -> bool {
    forall|k: int| 0 <= k < names.len() ==> column_position(header, #[trigger] names[k]) is Some
}

/// The positions of the requested names in `header`.
pub open spec fn positions(header: Seq<Seq<char>>, names: Seq<Seq<char>>) -> Seq<int> {
    Seq::new(names.len(), |k: int| column_position(header, names[k])->Some_0)
}

/// Name `k` is the first requested name that `header` lacks.
pub open spec fn first_unresolved(header: Seq<Seq<char>>, names: Seq<Seq<char>>, k: int) -> bool {
    &&& 0 <= k < names.len()
    &&& column_position(header, names[k]) is None
    &&& forall|m: int| 0 <= m < k ==> column_position(header, #[trigger] names[m]) is Some
}

/// Copies of `rows`, each cut down to the fields at `idx`.
fn project_rows(rows: &Vec<Vec<String>>, idx: &Vec<usize>) -> (r: Vec<Vec<String>>)
    ensures
        r.deep_view() == rows.deep_view().map_values(
            |rec: Seq<Seq<char>>| project(rec, idx@.map_values(|i: usize| i as int)),
        ),
{
    let ghost iv = idx@.map_values(|i: usize| i as int);
    let ghost want = rows.deep_view().map_values(|rec: Seq<Seq<char>>| project(rec, iv));
    let mut r: Vec<Vec<String>> = Vec::new();
    let mut i: usize = 0;
    while i < rows.len()
        invariant
            i <= rows.len(),
            iv == idx@.map_values(|i: usize| i as int),
            want == rows.deep_view().map_values(|rec: Seq<Seq<char>>| project(rec, iv)),
            r.deep_view() == want.take(i as int),
        decreases rows.len() - i,
    {
        let rec = &rows[i];
        let mut out: Vec<String> = Vec::new();
        let mut k: usize = 0;
        while k < idx.len()
            invariant
                k <= idx.len(),
                iv == idx@.map_values(|i: usize| i as int),
                out.deep_view() == project(rec.deep_view(), iv).take(k as int),
            decreases idx.len() - k,
        {
            let p = idx[k];
            let field = if p < rec.len() {
                rec[p].clone()
            } else {
                String::new()
            };
            let ghost prev = out.deep_view();
            out.push(field);
            proof {
                assert(out.deep_view() =~= prev.push(project(rec.deep_view(), iv)[k as int]));
                assert(project(rec.deep_view(), iv).take(k + 1) =~= project(rec.deep_view(), iv).take(
                    k as int,
                ).push(project(rec.deep_view(), iv)[k as int]));
            }
            k = k + 1;
        }
        assert(project(rec.deep_view(), iv).take(idx.len() as int) =~= project(rec.deep_view(), iv));
        let ghost prev = r.deep_view();
        r.push(out);
        proof {
            assert(r.deep_view() =~= prev.push(want[i as int]));
            assert(want.take(i + 1) =~= want.take(i as int).push(want[i as int]));
        }
        i = i + 1;
    }
    assert(want.take(rows.len() as int) =~= want);
    r
}

/// Selects the comma-separated `columns` (each trimmed) in the order given:
/// the output header is the requested names, and each record keeps the
/// fields of those columns. A name may be requested more than once; when one
/// is, nothing is selected (`Ok(None)`) unless `proceed_with_duplicates`.
/// The first name that the header lacks gives `SelectionNotFound`.
pub fn select_cols(table: &Table, columns: &str, proceed_with_duplicates: bool) -> (r: Result<
    Option<Vec<Vec<String>>>,
    CsvError,
>)
    ensures
        ({
            let names = list_entries(columns@);
            let hv = table.header_view();
            &&& (r matches Ok(None)) <==> duplicates_of(names).len() > 0 && !proceed_with_duplicates
            &&& (duplicates_of(names).len() == 0 || proceed_with_duplicates) ==> (r is Ok
                <==> all_resolved(hv, names))
            &&& r matches Ok(Some(out)) ==> out.deep_view() == seq![names]
                + table.rows_view().map_values(
                |rec: Seq<Seq<char>>| project(rec, positions(hv, names)),
            )
            &&& r matches Err(e) ==> exists|k: int|
                first_unresolved(hv, names, k) && (e matches CsvError::SelectionNotFound {
                    requested,
                    available,
                } && requested@ == names[k] && available.deep_view() == hv)
        }),
{
    let names = split_list(columns);
    let dups = duplicate_columns(&names);
    if dups.len() > 0 && !proceed_with_duplicates {
        return Ok(None);
    }
    let ghost nv = names.deep_view();
    let ghost hv = table.header_view();
    let mut idx: Vec<usize> = Vec::new();
    let mut k: usize = 0;
    while k < names.len()
        invariant
            k <= names.len(),
            nv == names.deep_view(),
            nv == list_entries(columns@),
            dups.deep_view() == duplicates_of(nv),
            dups.len() == 0 || proceed_with_duplicates,
            hv == table.header_view(),
            idx@.len() == k,
            forall|m: int| 0 <= m < k ==> column_position(hv, #[trigger] nv[m]) == Some(idx@[m] as int),
        decreases names.len() - k,
    {
        assert(nv[k as int] == names@[k as int]@);
        match resolve_column(&table.header, names[k].as_str()) {
            Ok(p) => {
                idx.push(p);
            },
            Err(_) => {
                assert(first_unresolved(hv, nv, k as int));
                assert(!all_resolved(hv, nv));
                return Err(
                    CsvError::SelectionNotFound {
                        requested: names[k].clone(),
                        available: copy_strings(&table.header),
                    },
                );
            },
        }
        k = k + 1;
    }
    let ghost iv = idx@.map_values(|i: usize| i as int);
    assert(iv =~= positions(hv, nv));
    let mut out: Vec<Vec<String>> = Vec::new();
    out.push(names);
    let mut projected = project_rows(&table.rows, &idx);
    let ghost first = out.deep_view();
    let ghost moved = projected.deep_view();
    assert(first =~= seq![nv]);
    out.append(&mut projected);
    assert(out.deep_view() =~= first + moved);
    Ok(Some(out))
}

/// What filtering keeps: the records to write (the header first when asked
/// for), how many records matched, and the values matched against.
#[derive(Debug)]
pub struct Filtered {
    pub records: Vec<Vec<String>>,
    pub matched: usize,
    pub values: Vec<String>,
}

/// Record `rec` has, at column `c`, one of the `wanted` values.
pub open spec fn keeps(rec: Seq<Seq<char>>, c: int, wanted: Seq<Seq<char>>) -> bool {
    0 <= c < rec.len() && wanted.contains(rec[c])
}

/// The records of `rows` that `keeps` admits, in order.
pub open spec fn matching_rows(rows: Seq<Seq<Seq<char>>>, c: int, wanted: Seq<Seq<char>>) -> Seq<
    Seq<Seq<char>>,
>
    decreases rows.len(),
{
    if rows.len() == 0 {
        Seq::empty()
    } else {
        let m = matching_rows(rows.drop_last(), c, wanted);
        if keeps(rows.last(), c, wanted) {
            m.push(rows.last())
        } else {
            m
        }
    }
}

/// Keeps the records whose field in `column` equals, exactly and with case,
/// one of the comma-separated `values` (each trimmed); the header comes
/// first when `include_header`. A missing column gives `ColumnNotFound`.
/// No match is no error: `matched` is then zero.
pub fn filter_rows(table: &Table, column: &str, values: &str, include_header: bool) -> (r: Result<
    Filtered,
    CsvError,
>)
    ensures
        r is Err <==> column_position(table.header_view(), column@) is None,
        r matches Err(e) ==> e matches CsvError::ColumnNotFound { requested, available }
            && requested@ == column@ && available.deep_view() == table.header_view(),
        r matches Ok(f) ==> {
            let c = column_position(table.header_view(), column@)->Some_0;
            let wanted = list_entries(values@);
            let kept = matching_rows(table.rows_view(), c, wanted);
            &&& f.values.deep_view() == wanted
            &&& f.matched == kept.len()
            &&& f.records.deep_view() == (if include_header {
                seq![table.header_view()]
            } else {
                Seq::empty()
            }) + kept
        },
{
    let c = match resolve_column(&table.header, column) {
        Ok(c) => c,
        Err(e) => return Err(e),
    };
    let wanted = split_list(values);
    let ghost wv = wanted.deep_view();
    let ghost rv = table.rows_view();
    let mut records: Vec<Vec<String>> = Vec::new();
    if include_header {
        records.push(copy_strings(&table.header));
    }
    let ghost start = records.deep_view();
    assert(start =~= (if include_header {
        seq![table.header_view()]
    } else {
        Seq::empty()
    }));
    let mut matched: usize = 0;
    let mut i: usize = 0;
    while i < table.rows.len()
        invariant
            i <= table.rows.len(),
            rv == table.rows_view(),
            wv == wanted.deep_view(),
            matched <= i,
            matched == matching_rows(rv.take(i as int), c as int, wv).len(),
            records.deep_view() == start + matching_rows(rv.take(i as int), c as int, wv),
        decreases table.rows.len() - i,
    {
        let rec = &table.rows[i];
        proof {
            assert(rv.take(i + 1).drop_last() =~= rv.take(i as int));
            assert(rv.take(i + 1).last() == rec.deep_view());
        }
        let hit = if c < rec.len() {
            assert(rec.deep_view()[c as int] == rec@[c as int]@);
            contains_text(&wanted, wanted.len(), &rec[c])
        } else {
            false
        };
        proof {
            assert(wanted.deep_view().take(wanted.len() as int) =~= wv);
        }
        if hit {
            let ghost prev = records.deep_view();
            records.push(copy_strings(rec));
            proof {
                assert(records.deep_view() =~= prev.push(rec.deep_view()));
            }
            matched = matched + 1;
        }
        i = i + 1;
    }
    assert(rv.take(table.rows.len() as int) =~= rv);
    Ok(Filtered { records, matched, values: wanted })
}

} // verus!
