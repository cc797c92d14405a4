//! Inference of the field delimiter from the first line of an input.

use vstd::prelude::*;
use vstd::utf8::{decode_utf8, valid_utf8};
use crate::error::CsvError;
use crate::text::{blank, decode_text, is_blank};

verus! {

/// The field separators that inference can choose between.
#[derive(Debug, Clone, Copy, PartialEq, Eq, Structural)]
pub enum Delimiter {
    Tab,
    Pipe,
    Comma,
    Space,
}

impl Delimiter {
    pub open spec fn spec_byte(self) -> u8 {
        match self {
            Delimiter::Tab => 9u8,
            Delimiter::Pipe => 124u8,
            Delimiter::Comma => 44u8,
            Delimiter::Space => 32u8,
        }
    }

    pub open spec fn spec_char(self) -> char {
        match self {
            Delimiter::Tab => '\t',
            Delimiter::Pipe => '|',
            Delimiter::Comma => ',',
            Delimiter::Space => ' ',
        }
    }

    /// The byte that separates fields.
    pub fn as_byte(self) -> (r: u8)
        ensures
            r == self.spec_byte(),
    {
        match self {
            Delimiter::Tab => 9u8,
            Delimiter::Pipe => 124u8,
            Delimiter::Comma => 44u8,
            Delimiter::Space => 32u8,
        }
    }

    /// The character that separates fields.
    pub fn as_char(self) -> (r: char)
        ensures
            r == self.spec_char(),
    {
        match self {
            Delimiter::Tab => '\t',
            Delimiter::Pipe => '|',
            Delimiter::Comma => ',',
            Delimiter::Space => ' ',
        }
    }
}

/// How often byte `b` occurs in `s`.
pub open spec fn count_byte(s: Seq<u8>, b: u8) -> nat
    decreases s.len(),
{
    if s.len() == 0 {
        0
    } else {
        count_byte(s.drop_last(), b) + if s.last() == b { 1nat } else { 0nat }
    }
}

/// Where the first line of `s` ends: the first newline, or the end of `s`.
pub open spec fn first_line_end(s: Seq<u8>) -> int {
    if exists|i: int| 0 <= i < s.len() && s[i] == 10u8 {
        choose|i: int|
            0 <= i < s.len() && s[i] == 10u8 && forall|j: int| 0 <= j < i ==> s[j] != 10u8
    } else {
        s.len() as int
    }
}

/// The bytes of the first line of `s`, without its newline.
pub open spec fn first_line(s: Seq<u8>) -> Seq<u8> {
    s.take(first_line_end(s))
}

pub open spec fn max_nat(a: nat, b: nat) -> nat {
    if a >= b { a } else { b }
}

/// The delimiter chosen from the counts of tab, pipe, comma and space: the
/// most frequent, ties going to the earlier of tab, pipe, comma, space; comma
/// when none occurs.
pub open spec fn pick_delimiter(tab: nat, pipe: nat, comma: nat, space: nat) -> Delimiter {
    let m = max_nat(max_nat(tab, pipe), max_nat(comma, space));
    if m == 0 {
        Delimiter::Comma
    } else if tab == m {
        Delimiter::Tab
    } else if pipe == m {
        Delimiter::Pipe
    } else if comma == m {
        Delimiter::Comma
    } else {
        Delimiter::Space
    }
}

/// How often the separator of `d` occurs in `line`.
pub open spec fn delimiter_count(line: Seq<u8>, d: Delimiter) -> nat {
    count_byte(line, d.spec_byte())
}

/// The delimiter that a first line calls for.
pub open spec fn delimiter_for_line(line: Seq<u8>) -> Delimiter {
    pick_delimiter(
        delimiter_count(line, Delimiter::Tab),
        delimiter_count(line, Delimiter::Pipe),
        delimiter_count(line, Delimiter::Comma),
        delimiter_count(line, Delimiter::Space),
    )
}

/// What inference yields on `input`.
pub open spec fn detect_spec(input: Seq<u8>) -> Result<Delimiter, CsvError> {
    let line = first_line(input);
    if input.len() == 0 {
        Err(CsvError::EmptyInput)
    } else if !valid_utf8(line) {
        Err(CsvError::Decoding)
    } else if is_blank(decode_utf8(line)) {
        Err(CsvError::EmptyInput)
    } else {
        Ok(delimiter_for_line(line))
    }
}

/// Infers the delimiter of `input` from its first line, without consuming
/// anything: the most frequent of tab, pipe, comma and space (ties broken in
/// that order), comma when none occurs. An empty input or a blank first line
/// gives `EmptyInput`; a first line that is not UTF-8 gives `Decoding`.
pub fn detect_delimiter(input: &[u8]) -> (r: Result<Delimiter, CsvError>)
    ensures
        r == detect_spec(input@),
{
    if input.len() == 0 {
        return Err(CsvError::EmptyInput);
    }
    let end = line_end(input);
    let line = prefix(input, end);
    let text = match decode_text(line.as_slice()) {
        Some(t) => t,
        None => return Err(CsvError::Decoding),
    };
    if blank(text.as_str()) {
        return Err(CsvError::EmptyInput);
    }
    let mut tab: usize = 0;
    let mut pipe: usize = 0;
    let mut comma: usize = 0;
    let mut space: usize = 0;
    let mut i: usize = 0;
    while i < end
        invariant
            i <= end <= input.len(),
            line@ == input@.take(end as int),
            tab == count_byte(line@.take(i as int), 9u8),
            pipe == count_byte(line@.take(i as int), 124u8),
            comma == count_byte(line@.take(i as int), 44u8),
            space == count_byte(line@.take(i as int), 32u8),
            tab + pipe + comma + space <= i,
        decreases end - i,
    {
        let b = line[i];
        assert(line@.take(i + 1).drop_last() == line@.take(i as int));
        if b == 9u8 {
            tab = tab + 1;
        } else if b == 124u8 {
            pipe = pipe + 1;
        } else if b == 44u8 {
            comma = comma + 1;
        } else if b == 32u8 {
            space = space + 1;
        }
        i = i + 1;
    }
    assert(line@.take(end as int) == line@);
    Ok(choose_delimiter(tab, pipe, comma, space))
}

/// The delimiter for the given counts, as `pick_delimiter` states.
fn choose_delimiter(tab: usize, pipe: usize, comma: usize, space: usize) -> (r: Delimiter)
    ensures
        r == pick_delimiter(tab as nat, pipe as nat, comma as nat, space as nat),
{
    let m1 = if tab >= pipe { tab } else { pipe };
    let m2 = if comma >= space { comma } else { space };
    let m = if m1 >= m2 { m1 } else { m2 };
    if m == 0 {
        Delimiter::Comma
    } else if tab == m {
        Delimiter::Tab
    } else if pipe == m {
        Delimiter::Pipe
    } else if comma == m {
        Delimiter::Comma
    } else {
        Delimiter::Space
    }
}

/// The position of the first newline in `s`, or its length.
fn line_end(s: &[u8]) -> (r: usize)
    ensures
        r == first_line_end(s@),
        r <= s@.len(),
{
    let mut i: usize = 0;
    while i < s.len()
        invariant
            i <= s.len(),
            forall|j: int| 0 <= j < i ==> s@[j] != 10u8,
        decreases s.len() - i,
    {
        if s[i] == 10u8 {
            assert(s@[i as int] == 10u8);
            let ghost c = choose|k: int|
                0 <= k < s@.len() && s@[k] == 10u8 && forall|j: int| 0 <= j < k ==> s@[j] != 10u8;
            assert(c == i) by {
                if c < i {
                } else if c > i {
                }
            }
            return i;
        }
        i = i + 1;
    }
    i
}

/// The first `n` bytes of `s`.
fn prefix(s: &[u8], n: usize) -> (r: Vec<u8>)
    requires
        n <= s@.len(),
    ensures
        r@ == s@.take(n as int),
{
    let mut r: Vec<u8> = Vec::new();
    let mut i: usize = 0;
    while i < n
        invariant
            i <= n <= s@.len(),
            r@ == s@.take(i as int),
        decreases n - i,
    {
        r.push(s[i]);
        i = i + 1;
    }
    r
}

/// A line in which one candidate occurs strictly more often than each other
/// candidate selects that candidate; a line with none of them selects comma.
pub proof fn lemma_unique_maximum_selected(line: Seq<u8>, d: Delimiter)
    ensures
        (forall|e: Delimiter| e != d ==> delimiter_count(line, e) < delimiter_count(line, d))
            ==> delimiter_for_line(line) == d,
        (forall|e: Delimiter| delimiter_count(line, e) == 0) ==> delimiter_for_line(line)
            == Delimiter::Comma,
{
    let t = delimiter_count(line, Delimiter::Tab);
    let p = delimiter_count(line, Delimiter::Pipe);
    let c = delimiter_count(line, Delimiter::Comma);
    let s = delimiter_count(line, Delimiter::Space);
    if forall|e: Delimiter| e != d ==> delimiter_count(line, e) < delimiter_count(line, d) {
        assert(d != Delimiter::Tab ==> t < delimiter_count(line, d));
        assert(d != Delimiter::Pipe ==> p < delimiter_count(line, d));
        assert(d != Delimiter::Comma ==> c < delimiter_count(line, d));
        assert(d != Delimiter::Space ==> s < delimiter_count(line, d));
    }
    if forall|e: Delimiter| delimiter_count(line, e) == 0 {
        assert(t == 0 && p == 0 && c == 0 && s == 0);
    }
}

} // verus!
