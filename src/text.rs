//! Character-level helpers shared by the table operations: decoding,
//! trimming and splitting of comma-separated lists.

use vstd::prelude::*;
use vstd::utf8::{decode_utf8, valid_utf8};

verus! {

/// The text that `str::trim` leaves of `s`: `s` without its leading and
/// trailing Unicode white space.
pub uninterp spec fn trimmed_of(s: Seq<char>) -> Seq<char>;

/// A value is blank when nothing is left of it once trimmed.
pub open spec fn is_blank(s: Seq<char>) -> bool {
    trimmed_of(s).len() == 0
}

/// Relies on `str::trim`: the result is the trimmed text, as a new string.
#[verifier::external_body]
pub(crate) fn trim_text(s: &str) -> (r: String)
    ensures
        r@ == trimmed_of(s@),
{
    s.trim().to_string()
}

/// Relies on `std::str::from_utf8`: it accepts exactly the valid UTF-8
/// encodings, and the string it returns holds the characters they encode.
#[verifier::external_body]
pub(crate) fn decode_text(b: &[u8]) -> (r: Option<String>)
    ensures
        r is Some <==> valid_utf8(b@),
        r matches Some(s) ==> s@ == decode_utf8(b@),
{
    std::str::from_utf8(b).ok().map(|s| s.to_string())
}

/// Relies on `String`'s `FromIterator<char>`: the string holds the
/// characters in order.
#[verifier::external_body]
pub(crate) fn string_of_chars(cs: &[char]) -> (r: String)
    ensures
        r@ == cs@,
{
    cs.iter().collect()
}

/// Whether `s` is blank (empty or white space only).
pub fn blank(s: &str) -> (r: bool)
    ensures
        r == is_blank(s@),
{
    let t = trim_text(s);
    t.as_str().is_empty()
}

/// The characters of `s`, in order.
pub fn chars_of(s: &str) -> (r: Vec<char>)
    ensures
        r@ == s@,
{
    let mut r: Vec<char> = Vec::new();
    for c in it: s.chars()
        invariant
            r@ == it.seq().take(it.index() as int),
    {
        r.push(c);
    }
    r
}

/// The pieces of `s` between occurrences of `sep`, as `str::split` gives
/// them: `n` separators make `n + 1` pieces, empty ones included.
pub open spec fn split_on(s: Seq<char>, sep: char) -> Seq<Seq<char>>
    decreases s.len(),
{
    if s.len() == 0 {
        seq![Seq::empty()]
    } else {
        let rest = split_on(s.drop_last(), sep);
        if s.last() == sep {
            rest.push(Seq::empty())
        } else {
            rest.update(rest.len() - 1, rest.last().push(s.last()))
        }
    }
}

proof fn lemma_split_on_nonempty(s: Seq<char>, sep: char)
    ensures
        split_on(s, sep).len() >= 1,
    decreases s.len(),
{
    if s.len() > 0 {
        lemma_split_on_nonempty(s.drop_last(), sep);
    }
}

/// The entries of a comma-separated list, each trimmed.
pub open spec fn list_entries(s: Seq<char>) -> Seq<Seq<char>> {
    split_on(s, ',').map_values(|p: Seq<char>| trimmed_of(p))
}

/// Splits `s` at every comma and trims each piece.
pub fn split_list(s: &str) -> (r: Vec<String>)
    ensures
        r.deep_view() == list_entries(s@),
{
    let cs = chars_of(s);
    let mut pieces: Vec<String> = Vec::new();
    let mut cur: Vec<char> = Vec::new();
    let mut i: usize = 0;
    while i < cs.len()
        invariant
            i <= cs.len(),
            cs@ == s@,
            pieces.deep_view().push(cur@) == split_on(cs@.take(i as int), ','),
        decreases cs.len() - i,
    {
        let c = cs[i];
        proof {
            assert(cs@.take(i + 1).drop_last() =~= cs@.take(i as int));
            lemma_split_on_nonempty(cs@.take(i as int), ',');
        }
        if c == ',' {
            let piece = string_of_chars(cur.as_slice());
            pieces.push(piece);
            cur = Vec::new();
            proof {
                assert(pieces.deep_view().push(cur@) =~= split_on(cs@.take(i + 1), ','));
            }
        } else {
            let ghost before = pieces.deep_view().push(cur@);
            cur.push(c);
            proof {
                assert(pieces.deep_view().push(cur@) =~= before.update(
                    before.len() - 1,
                    before.last().push(c),
                ));
            }
        }
        i = i + 1;
    }
    let last = string_of_chars(cur.as_slice());
    pieces.push(last);
    assert(cs@.take(cs@.len() as int) =~= cs@);
    let ghost all = pieces.deep_view();
    let mut r: Vec<String> = Vec::new();
    let mut j: usize = 0;
    while j < pieces.len()
        invariant
            j <= pieces.len(),
            all == pieces.deep_view(),
            all == split_on(s@, ','),
            r.deep_view() == all.take(j as int).map_values(|p: Seq<char>| trimmed_of(p)),
        decreases pieces.len() - j,
    {
        let t = trim_text(pieces[j].as_str());
        assert(all[j as int] == pieces@[j as int]@);
        let ghost prev = r.deep_view();
        r.push(t);
        proof {
            assert(r.deep_view() =~= prev.push(t@));
            assert(all.take(j + 1).map_values(|p: Seq<char>| trimmed_of(p)) =~= all.take(
                j as int,
            ).map_values(|p: Seq<char>| trimmed_of(p)).push(trimmed_of(all[j as int])));
            assert(r.deep_view() =~= all.take(j + 1).map_values(|p: Seq<char>| trimmed_of(p)));
        }
        j = j + 1;
    }
    assert(all.take(all.len() as int) =~= all);
    r
}

} // verus!
