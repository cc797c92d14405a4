//! The failures that the table operations report.

use vstd::prelude::*;
use crate::text::string_of_chars;

verus! {

/// Why an operation on one or two tables failed.
#[derive(Debug, Clone)]
pub enum CsvError {
    /// The input, or its first line, holds no data.
    EmptyInput,
    /// The first line is not valid UTF-8.
    Decoding,
    /// A requested column is not in the header.
    ColumnNotFound { requested: String, available: Vec<String> },
    /// A column asked for in a selection is not in the header.
    SelectionNotFound { requested: String, available: Vec<String> },
    /// A record could not be read; the text says why.
    Parse { message: String },
    /// Two inputs use different delimiters.
    DelimiterMismatch { first_delimiter: char, second_delimiter: char },
    /// Two headers have different numbers of columns.
    ColumnCountMismatch { first_count: usize, second_count: usize },
    /// Two headers differ at `position`.
    HeaderMismatch { position: usize, first_name: String, second_name: String },
    /// Input `longer` (1 or 2) still had a row when the other ended; `row`
    /// counts from 1.
    RowCountMismatch { longer: usize, row: usize },
}

/// `parts` with `sep` between each two.
pub open spec fn joined(parts: Seq<Seq<char>>, sep: Seq<char>) -> Seq<char>
    decreases parts.len(),
{
    if parts.len() == 0 {
        Seq::empty()
    } else if parts.len() == 1 {
        parts[0]
    } else {
        joined(parts.drop_last(), sep) + sep + parts.last()
    }
}

/// The decimal digit for `d < 10`.
pub open spec fn digit_char(d: nat) -> char {
    if d == 0 {
        '0'
    } else if d == 1 {
        '1'
    } else if d == 2 {
        '2'
    } else if d == 3 {
        '3'
    } else if d == 4 {
        '4'
    } else if d == 5 {
        '5'
    } else if d == 6 {
        '6'
    } else if d == 7 {
        '7'
    } else if d == 8 {
        '8'
    } else {
        '9'
    }
}

/// The decimal notation of `n`, without leading zeros.
pub open spec fn decimal(n: nat) -> Seq<char>
    decreases n,
{
    if n < 10 {
        seq![digit_char(n)]
    } else {
        decimal(n / 10) + seq![digit_char(n % 10)]
    }
}

fn digit(d: usize) -> (r: char)
    requires
        d < 10,
    ensures
        r == digit_char(d as nat),
{
    if d == 0 {
        '0'
    } else if d == 1 {
        '1'
    } else if d == 2 {
        '2'
    } else if d == 3 {
        '3'
    } else if d == 4 {
        '4'
    } else if d == 5 {
        '5'
    } else if d == 6 {
        '6'
    } else if d == 7 {
        '7'
    } else if d == 8 {
        '8'
    } else {
        '9'
    }
}

/// The decimal notation of `n`.
pub fn decimal_text(n: usize) -> (r: String)
    ensures
        r@ == decimal(n as nat),
{
    let mut digits: Vec<char> = Vec::new();
    let mut m: usize = n;
    while m >= 10
        invariant
            decimal(n as nat) == decimal(m as nat) + digits@,
        decreases m,
    {
        let ghost before = digits@;
        digits.insert(0, digit(m % 10));
        proof {
            assert(decimal(m as nat) == decimal((m / 10) as nat) + seq![digit_char((m % 10) as nat)]);
            assert(digits@ =~= seq![digit_char((m % 10) as nat)] + before);
            assert(decimal(n as nat) =~= decimal((m / 10) as nat) + digits@);
        }
        m = m / 10;
    }
    let ghost before = digits@;
    digits.insert(0, digit(m));
    assert(digits@ =~= decimal(m as nat) + before);
    string_of_chars(digits.as_slice())
}

/// `parts` joined with ", ".
fn join_names(parts: &Vec<String>) -> (r: String)
    ensures
        r@ == joined(parts.deep_view(), ", "@),
{
    let ghost dv = parts.deep_view();
    let mut r = String::new();
    let mut i: usize = 0;
    while i < parts.len()
        invariant
            i <= parts.len(),
            dv == parts.deep_view(),
            r@ == joined(dv.take(i as int), ", "@),
        decreases parts.len() - i,
    {
        proof {
            assert(dv.take(i + 1).drop_last() =~= dv.take(i as int));
            assert(dv.take(i + 1).last() == parts@[i as int]@);
        }
        if i > 0 {
            r.append(", ");
        }
        r.append(parts[i].as_str());
        proof {
            if i == 0 {
                assert(r@ =~= dv.take(1)[0]);
            }
        }
        i = i + 1;
    }
    assert(dv.take(parts.len() as int) =~= dv);
    r
}

/// A string holding the single character `c`.
fn char_text(c: char) -> (r: String)
    ensures
        r@ == seq![c],
{
    let cs: [char; 1] = [c];
    let r = string_of_chars(&cs);
    assert(cs@ =~= seq![c]);
    r
}

impl CsvError {
    /// The text that `message` gives for this failure.
    pub open spec fn text(&self) -> Seq<char> {
        match self {
            CsvError::EmptyInput => "File is empty or contains no data"@,
            CsvError::Decoding => "Invalid UTF-8 in file"@,
            CsvError::ColumnNotFound { requested, available } => "Column '"@ + requested@
                + "' not found in CSV.\nAvailable columns: "@ + joined(available.deep_view(), ", "@),
            CsvError::SelectionNotFound { requested, available } => "Column '"@ + requested@
                + "' not found in CSV. Available columns: "@ + joined(available.deep_view(), ", "@),
            CsvError::Parse { message } => message@,
            CsvError::DelimiterMismatch { first_delimiter, second_delimiter } =>
                "Files have different delimiters: '"@ + seq![*first_delimiter] + "' vs '"@ + seq![
                *second_delimiter,
            ] + "'"@,
            CsvError::ColumnCountMismatch { first_count, second_count } =>
                "Files have different number of columns: "@ + decimal(*first_count as nat)
                + " vs "@ + decimal(*second_count as nat),
            CsvError::HeaderMismatch { position, first_name, second_name } =>
                "Headers don't match at position "@ + decimal(*position as nat) + ": '"@
                + first_name@ + "' vs '"@ + second_name@ + "'"@,
            CsvError::RowCountMismatch { longer, row } => "File "@ + decimal(*longer as nat)
                + " has more rows than File "@ + decimal(if *longer == 1 { 2nat } else { 1nat })
                + " (at row "@ + decimal(*row as nat) + ")"@,
        }
    }

    /// A description of the failure for the user.
    pub fn message(&self) -> (r: String)
        ensures
            r@ == self.text(),
    {
        match self {
            CsvError::EmptyInput => "File is empty or contains no data".to_string(),
            CsvError::Decoding => "Invalid UTF-8 in file".to_string(),
            CsvError::ColumnNotFound { requested, available } => {
                let mut r = "Column '".to_string();
                r.append(requested.as_str());
                r.append("' not found in CSV.\nAvailable columns: ");
                r.append(join_names(available).as_str());
                r
            },
            CsvError::SelectionNotFound { requested, available } => {
                let mut r = "Column '".to_string();
                r.append(requested.as_str());
                r.append("' not found in CSV. Available columns: ");
                r.append(join_names(available).as_str());
                r
            },
            CsvError::Parse { message } => message.clone(),
            CsvError::DelimiterMismatch { first_delimiter, second_delimiter } => {
                let mut r = "Files have different delimiters: '".to_string();
                r.append(char_text(*first_delimiter).as_str());
                r.append("' vs '");
                r.append(char_text(*second_delimiter).as_str());
                r.append("'");
                r
            },
            CsvError::ColumnCountMismatch { first_count, second_count } => {
                let mut r = "Files have different number of columns: ".to_string();
                r.append(decimal_text(*first_count).as_str());
                r.append(" vs ");
                r.append(decimal_text(*second_count).as_str());
                r
            },
            CsvError::HeaderMismatch { position, first_name, second_name } => {
                let mut r = "Headers don't match at position ".to_string();
                r.append(decimal_text(*position).as_str());
                r.append(": '");
                r.append(first_name.as_str());
                r.append("' vs '");
                r.append(second_name.as_str());
                r.append("'");
                r
            },
            CsvError::RowCountMismatch { longer, row } => {
                let shorter: usize = if *longer == 1 {
                    2
                } else {
                    1
                };
                let mut r = "File ".to_string();
                r.append(decimal_text(*longer).as_str());
                r.append(" has more rows than File ");
                r.append(decimal_text(shorter).as_str());
                r.append(" (at row ");
                r.append(decimal_text(*row).as_str());
                r.append(")");
                r
            },
        }
    }
}

} // verus!
