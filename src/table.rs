//! Reading an input into a header and its records, and finding columns by name.

use vstd::prelude::*;
use crate::delimiter::{detect_delimiter, detect_spec, Delimiter};
use crate::error::CsvError;

verus! {

#[verifier::external_type_specification]
#[verifier::external_body]
pub struct ExCsvError(csv::Error);

/// The records that the `csv` crate reads from `input` with the given
/// delimiter, every record (the first one included) as a list of fields;
/// `None` when it reports an error on some record.
pub uninterp spec fn csv_records_of(input: Seq<u8>, delimiter: u8, flexible: bool) -> Option<
    Seq<Seq<Seq<char>>>,
>;

/// Relies on `csv::ReaderBuilder` (no header handling, the given delimiter and
/// flexibility) and its `records` iterator: all records in order, or the first
/// error.
#[verifier::external_body]
fn read_records(input: &[u8], delimiter: u8, flexible: bool) -> (r: Result<
    Vec<Vec<String>>,
    csv::Error,
>)
    ensures
        r is Ok <==> csv_records_of(input@, delimiter, flexible) is Some,
        r matches Ok(rows) ==> Some(rows.deep_view()) == csv_records_of(input@, delimiter, flexible),
{
    csv::ReaderBuilder::new()
        .has_headers(false)
        .flexible(flexible)
        .delimiter(delimiter)
        .from_reader(input)
        .records()
        .map(|rec| rec.map(|rec| rec.iter().map(String::from).collect()))
        .collect()
}

/// Relies on `csv::Error`'s `Display`: a description of the error.
#[verifier::external_body]
fn describe_csv_error(e: &csv::Error) -> String {
    e.to_string()
}

/// A parsed input: its delimiter, its header (the first record) and the
/// records after it.
#[derive(Debug)]
pub struct Table {
    pub delimiter: Delimiter,
    pub header: Vec<String>,
    pub rows: Vec<Vec<String>>,
}

impl Table {
    pub open spec fn header_view(&self) -> Seq<Seq<char>> {
        self.header.deep_view()
    }

    pub open spec fn rows_view(&self) -> Seq<Seq<Seq<char>>> {
        self.rows.deep_view()
    }
}

/// The header of a list of records: the first, or nothing.
pub open spec fn header_of(recs: Seq<Seq<Seq<char>>>) -> Seq<Seq<char>> {
    if recs.len() == 0 {
        Seq::empty()
    } else {
        recs[0]
    }
}

/// The records after the header.
pub open spec fn body_of(recs: Seq<Seq<Seq<char>>>) -> Seq<Seq<Seq<char>>> {
    if recs.len() == 0 {
        Seq::empty()
    } else {
        recs.drop_first()
    }
}

/// `t` is what `input` reads as, in the given mode.
pub open spec fn reads_as(input: Seq<u8>, flexible: bool, t: Table) -> bool {
    &&& detect_spec(input) == Ok::<Delimiter, CsvError>(t.delimiter)
    &&& csv_records_of(input, t.delimiter.spec_byte(), flexible) matches Some(recs)
    &&& t.header_view() == header_of(recs)
    &&& t.rows_view() == body_of(recs)
}

/// `e` is the failure that reading `input` gives, in the given mode.
pub open spec fn read_failure(input: Seq<u8>, flexible: bool, e: CsvError) -> bool {
    match detect_spec(input) {
        Err(d) => e == d,
        Ok(d) => csv_records_of(input, d.spec_byte(), flexible) is None && e is Parse,
    }
}

/// Parses every record of `input` with `delimiter`: the first record is the
/// header, the others follow it. In strict mode (`flexible` false) a record
/// whose length differs from the first one's is an error; in flexible mode
/// it is kept.
pub fn parse_table(input: &[u8], delimiter: Delimiter, flexible: bool) -> (r: Result<
    Table,
    CsvError,
>)
    ensures
        r is Ok <==> csv_records_of(input@, delimiter.spec_byte(), flexible) is Some,
        r matches Err(e) ==> e is Parse,
        r matches Ok(t) ==> t.delimiter == delimiter && (csv_records_of(
            input@,
            delimiter.spec_byte(),
            flexible,
        ) matches Some(recs) && t.header_view() == header_of(recs) && t.rows_view() == body_of(
            recs,
        )),
{
    let records = match read_records(input, delimiter.as_byte(), flexible) {
        Ok(recs) => recs,
        Err(e) => return Err(CsvError::Parse { message: describe_csv_error(&e) }),
    };
    let ghost recs = records.deep_view();
    let mut records = records;
    if records.len() == 0 {
        let header: Vec<String> = Vec::new();
        assert(header.deep_view() =~= Seq::empty());
        assert(records.deep_view() =~= Seq::empty());
        return Ok(Table { delimiter, header, rows: records });
    }
    let header = records.remove(0);
    proof {
        assert(records.deep_view() =~= recs.drop_first());
    }
    Ok(Table { delimiter, header, rows: records })
}

/// Reads `input`: infers its delimiter from the first line, then parses every
/// record with it (see `parse_table`).
pub fn read_table(input: &[u8], flexible: bool) -> (r: Result<Table, CsvError>)
    ensures
        r matches Ok(t) ==> reads_as(input@, flexible, t),
        r matches Err(e) ==> read_failure(input@, flexible, e),
        r is Ok <==> detect_spec(input@) is Ok && csv_records_of(
            input@,
            detect_spec(input@)->Ok_0.spec_byte(),
            flexible,
        ) is Some,
{
    let delimiter = match detect_delimiter(input) {
        Ok(d) => d,
        Err(e) => return Err(e),
    };
    parse_table(input, delimiter, flexible)
}

/// The position of the first field of `header` equal to `name`.
pub open spec fn column_position(header: Seq<Seq<char>>, name: Seq<char>) -> Option<int> {
    if exists|i: int| 0 <= i < header.len() && header[i] == name {
        Some(
            choose|i: int|
                0 <= i < header.len() && header[i] == name && forall|j: int|
                    0 <= j < i ==> header[j] != name,
        )
    } else {
        None
    }
}

/// A copy of `v`.
pub fn copy_strings(v: &Vec<String>) -> (r: Vec<String>)
    ensures
        r.deep_view() == v.deep_view(),
        r@ == v@,
{
    let mut r: Vec<String> = Vec::new();
    let mut i: usize = 0;
    while i < v.len()
        invariant
            i <= v.len(),
            r@ == v@.take(i as int),
        decreases v.len() - i,
    {
        r.push(v[i].clone());
        i = i + 1;
    }
    assert(r@ =~= v@);
    assert(r.deep_view() =~= v.deep_view());
    r
}

/// Finds column `name` in `header` by exact, case-sensitive comparison; the
/// first match wins. When absent, the error lists every column of the header.
pub fn resolve_column(header: &Vec<String>, name: &str) -> (r: Result<usize, CsvError>)
    ensures
        r matches Ok(i) ==> column_position(header.deep_view(), name@) == Some(i as int),
        r is Err <==> column_position(header.deep_view(), name@) is None,
        r matches Err(e) ==> e matches CsvError::ColumnNotFound { requested, available } && requested@
            == name@ && available.deep_view() == header.deep_view(),
{
    let wanted = name.to_string();
    let ghost hv = header.deep_view();
    let mut i: usize = 0;
    while i < header.len()
        invariant
            i <= header.len(),
            hv == header.deep_view(),
            wanted@ == name@,
            forall|j: int| 0 <= j < i ==> hv[j] != name@,
        decreases header.len() - i,
    {
        if header[i] == wanted {
            proof {
                let c = choose|k: int|
                    0 <= k < hv.len() && hv[k] == name@ && forall|j: int| 0 <= j < k ==> hv[j] != name@;
                assert(hv[i as int] == name@);
                assert(c == i) by {
                    if c < i {
                    } else if c > i {
                    }
                }
            }
            return Ok(i);
        }
        i = i + 1;
    }
    Err(CsvError::ColumnNotFound { requested: wanted, available: copy_strings(header) })
}

} // verus!
