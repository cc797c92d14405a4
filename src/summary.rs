//! Whole-table summaries: row and column counts, value frequencies, and the
//! counting half of column statistics.

use vstd::prelude::*;
use crate::error::CsvError;
use crate::table::{column_position, resolve_column, Table};
use crate::text::{blank, is_blank};

verus! {

/// Shape of a table read in flexible mode.
#[derive(Debug)]
pub struct Info {
    /// Number of records after the header.
    pub rows: usize,
    /// Number of columns of the header.
    pub columns: usize,
    /// For each record whose length differs from the header's: its line
    /// number (the header is line 1) and its number of fields.
    pub inconsistent: Vec<(usize, usize)>,
}

/// The records of `rows` whose length is not `width`, as (line number,
/// length), the first record being line 2.
pub open spec fn inconsistent_rows(rows: Seq<Seq<Seq<char>>>, width: nat) -> Seq<(usize, usize)>
    decreases rows.len(),
{
    if rows.len() == 0 {
        Seq::empty()
    } else {
        let before = inconsistent_rows(rows.drop_last(), width);
        if rows.last().len() != width {
            before.push(((rows.len() + 1) as usize, rows.last().len() as usize))
        } else {
            before
        }
    }
}

/// Counts records and columns, and lists the records whose length differs
/// from the header's.
pub fn get_info(t: &Table) -> (r: Info)
    requires
        t.rows.len() + 2 <= usize::MAX,
    ensures
        r.rows == t.rows.len(),
        r.columns == t.header.len(),
        r.inconsistent@ == inconsistent_rows(t.rows_view(), t.header.len() as nat),
{
    let ghost rv = t.rows_view();
    let width = t.header.len();
    let mut inconsistent: Vec<(usize, usize)> = Vec::new();
    let mut i: usize = 0;
    while i < t.rows.len()
        invariant
            i <= t.rows.len(),
            t.rows.len() + 2 <= usize::MAX,
            rv == t.rows_view(),
            width == t.header.len(),
            inconsistent@ == inconsistent_rows(rv.take(i as int), width as nat),
        decreases t.rows.len() - i,
    {
        proof {
            assert(rv.take(i + 1).drop_last() =~= rv.take(i as int));
            assert(rv.take(i + 1).last().len() == t.rows@[i as int].len());
        }
        let len = t.rows[i].len();
        if len != width {
            inconsistent.push((i + 2, len));
        }
        i = i + 1;
    }
    assert(rv.take(t.rows.len() as int) =~= rv);
    Info { rows: t.rows.len(), columns: width, inconsistent }
}

/// A distinct value and how often it occurs.
#[derive(Debug)]
pub struct Entry {
    pub value: String,
    pub count: usize,
}

impl Entry {
    pub open spec fn as_pair(self) -> (Seq<char>, nat) {
        (self.value@, self.count as nat)
    }

    /// An equal copy.
    pub fn copy(&self) -> (r: Entry)
        ensures
            r == *self,
    {
        Entry { value: self.value.clone(), count: self.count }
    }
}

/// The views of a list of entries.
pub open spec fn entries_view(v: Seq<Entry>) -> Seq<(Seq<char>, nat)> {
    v.map_values(|e: Entry| e.as_pair())
}

/// How often `v` occurs in `values`.
pub open spec fn occurrences(values: Seq<Seq<char>>, v: Seq<char>) -> nat
    decreases values.len(),
{
    if values.len() == 0 {
        0
    } else {
        occurrences(values.drop_last(), v) + if values.last() == v { 1nat } else { 0nat }
    }
}

/// The distinct values of `values`, in order of first occurrence.
pub open spec fn distinct_values(values: Seq<Seq<char>>) -> Seq<Seq<char>>
    decreases values.len(),
{
    if values.len() == 0 {
        Seq::empty()
    } else {
        let d = distinct_values(values.drop_last());
        if d.contains(values.last()) {
            d
        } else {
            d.push(values.last())
        }
    }
}

/// Each distinct value with its number of occurrences, in order of first
/// occurrence.
pub open spec fn frequency_table(values: Seq<Seq<char>>) -> Seq<(Seq<char>, nat)> {
    distinct_values(values).map_values(|v: Seq<char>| (v, occurrences(values, v)))
}

proof fn lemma_distinct_values(values: Seq<Seq<char>>)
    ensures
        forall|x: Seq<char>| distinct_values(values).contains(x) <==> values.contains(x),
        forall|a: int, b: int|
            0 <= a < b < distinct_values(values).len() ==> distinct_values(values)[a]
                != distinct_values(values)[b],
    decreases values.len(),
{
    if values.len() > 0 {
        let s = values.drop_last();
        let y = values.last();
        lemma_distinct_values(s);
        let d = distinct_values(s);
        assert forall|x: Seq<char>| values.contains(x) <==> (s.contains(x) || x == y) by {
            if values.contains(x) {
                let k = choose|k: int| 0 <= k < values.len() && values[k] == x;
                if k < values.len() - 1 {
                    assert(s[k] == x);
                }
            }
            if s.contains(x) {
                let k = choose|k: int| 0 <= k < s.len() && s[k] == x;
                assert(values[k] == x);
            }
            if x == y {
                assert(values[values.len() - 1] == x);
            }
        }
        if !d.contains(y) {
            let dp = d.push(y);
            assert forall|x: Seq<char>| dp.contains(x) <==> (d.contains(x) || x == y) by {
                if dp.contains(x) {
                    let k = choose|k: int| 0 <= k < dp.len() && dp[k] == x;
                    if k < d.len() {
                        assert(d[k] == x);
                    }
                }
                if d.contains(x) {
                    let k = choose|k: int| 0 <= k < d.len() && d[k] == x;
                    assert(dp[k] == x);
                }
                if x == y {
                    assert(dp[d.len() as int] == x);
                }
            }
            assert forall|a: int, b: int| 0 <= a < b < dp.len() implies dp[a] != dp[b] by {
                if b == d.len() {
                    assert(d[a] == dp[a]);
                }
            }
        }
    }
}

/// The position of the entry for `x`, if `r` has one.
fn find_entry(r: &Vec<Entry>, x: &String) -> (p: Option<usize>)
    ensures
        p matches Some(i) ==> i < r@.len() && r@[i as int].value@ == x@,
        p is None ==> forall|k: int| 0 <= k < r@.len() ==> r@[k].value@ != x@,
{
    let mut p: usize = 0;
    while p < r.len()
        invariant
            p <= r.len(),
            forall|k: int| 0 <= k < p ==> r@[k].value@ != x@,
        decreases r.len() - p,
    {
        if r[p].value == *x {
            return Some(p);
        }
        p = p + 1;
    }
    None
}

/// Counts how often each value of `values` occurs, keeping the values in
/// order of first occurrence.
pub fn count_values(values: &Vec<String>) -> (r: Vec<Entry>)
    ensures
        entries_view(r@) == frequency_table(values.deep_view()),
{
    let ghost vv = values.deep_view();
    let mut r: Vec<Entry> = Vec::new();
    let mut i: usize = 0;
    while i < values.len()
        invariant
            i <= values.len(),
            vv == values.deep_view(),
            entries_view(r@) == frequency_table(vv.take(i as int)),
            forall|k: int| 0 <= k < r@.len() ==> r@[k].count <= i,
        decreases values.len() - i,
    {
        let ghost s = vv.take(i as int);
        let ghost s1 = vv.take(i + 1);
        let x = &values[i];
        proof {
            assert(s1.drop_last() =~= s);
            assert(s1.last() == x@);
            lemma_distinct_values(s);
            assert(forall|v: Seq<char>| occurrences(s1, v) == occurrences(s, v) + if v == x@ {
                1nat
            } else {
                0nat
            });
        }
        let found = find_entry(&r, x);
        let ghost d = distinct_values(s);
        assert(forall|k: int| 0 <= k < d.len() ==> d[k] == #[trigger] entries_view(r@)[k].0);
        assert(d.len() == entries_view(r@).len());
        if let Some(p) = found {
            assert(entries_view(r@)[p as int] == r@[p as int].as_pair());
            assert(d[p as int] == entries_view(r@)[p as int].0);
            assert(d[p as int] == x@);
            let ghost old_ev = entries_view(r@);
            let ghost old_r = r@;
            let e = Entry { value: r[p].value.clone(), count: r[p].count + 1 };
            r.set(p, e);
            proof {
                assert(d.contains(x@));
                assert(distinct_values(s1) == d);
                assert forall|k: int| 0 <= k < d.len() implies entries_view(r@)[k]
                    == frequency_table(s1)[k] by {
                    assert(entries_view(r@)[k] == r@[k].as_pair());
                    if k != p {
                        assert(d[k] != d[p as int]);
                        assert(r@[k] == old_r[k]);
                        assert(old_ev[k] == old_r[k].as_pair());
                        assert(old_ev[k] == frequency_table(s)[k]);
                    }
                }
                assert(entries_view(r@) =~= frequency_table(s1));
            }
        } else {
            proof {
                assert(!d.contains(x@)) by {
                    if d.contains(x@) {
                        let k = choose|k: int| 0 <= k < d.len() && d[k] == x@;
                        assert(entries_view(r@)[k] == r@[k].as_pair());
                        assert(d[k] == entries_view(r@)[k].0);
                    }
                }
            }
            let ghost old_ev = entries_view(r@);
            let ghost old_r = r@;
            r.push(Entry { value: x.clone(), count: 1 });
            proof {
                assert(distinct_values(s1) == d.push(x@));
                assert(occurrences(s, x@) == 0) by {
                    lemma_occurrences_absent(s, x@);
                }
                assert forall|k: int| 0 <= k < d.len() + 1 implies entries_view(r@)[k]
                    == frequency_table(s1)[k] by {
                    assert(entries_view(r@)[k] == r@[k].as_pair());
                    if k < d.len() {
                        assert(r@[k] == old_r[k]);
                        assert(old_ev[k] == old_r[k].as_pair());
                        assert(old_ev[k] == frequency_table(s)[k]);
                        assert(d[k] != x@);
                    }
                }
                assert(entries_view(r@) =~= frequency_table(s1));
            }
        }
        i = i + 1;
    }
    assert(vv.take(values.len() as int) =~= vv);
    r
}

proof fn lemma_occurrences_absent(values: Seq<Seq<char>>, v: Seq<char>)
    requires
        !values.contains(v),
    ensures
        occurrences(values, v) == 0,
    decreases values.len(),
{
    if values.len() > 0 {
        let s = values.drop_last();
        assert(values[values.len() - 1] == values.last());
        assert(!s.contains(v)) by {
            if s.contains(v) {
                let k = choose|k: int| 0 <= k < s.len() && s[k] == v;
                assert(values[k] == v);
            }
        }
        lemma_occurrences_absent(s, v);
    }
}

/// `r` is the frequency table of `values` sorted by count, highest first,
/// values of equal count in order of first occurrence.
pub open spec fn counted_by_frequency(values: Seq<Seq<char>>, r: Seq<Entry>) -> bool {
    exists|table: Seq<Entry>|
        entries_view(table) == frequency_table(values) && sorted_by_count(table, r)
}

/// The frequencies of column `column`: each distinct value (the empty one
/// included) with its count, highest count first; equal counts keep the
/// order in which their values first occur.
pub fn freq(t: &Table, column: &str) -> (r: Result<Vec<Entry>, CsvError>)
    ensures
        r is Err <==> column_position(t.header_view(), column@) is None,
        r matches Err(e) ==> e matches CsvError::ColumnNotFound { requested, available }
            && requested@ == column@ && available.deep_view() == t.header_view(),
        r matches Ok(entries) ==> counted_by_frequency(
            column_of(t.rows_view(), column_position(t.header_view(), column@)->Some_0),
            entries@,
        ),
{
    let c = match resolve_column(&t.header, column) {
        Ok(c) => c,
        Err(e) => return Err(e),
    };
    let values = column_values(t, c);
    let table = count_values(&values);
    let sorted = sort_by_count(&table);
    assert(counted_by_frequency(values.deep_view(), sorted@));
    Ok(sorted)
}

/// The values of column `column`, one per record that has the field; the
/// input of column statistics. A missing column gives `ColumnNotFound`.
pub fn named_column_values(t: &Table, column: &str) -> (r: Result<Vec<String>, CsvError>)
    ensures
        r is Err <==> column_position(t.header_view(), column@) is None,
        r matches Err(e) ==> e matches CsvError::ColumnNotFound { requested, available }
            && requested@ == column@ && available.deep_view() == t.header_view(),
        r matches Ok(values) ==> values.deep_view() == column_of(
            t.rows_view(),
            column_position(t.header_view(), column@)->Some_0,
        ),
{
    match resolve_column(&t.header, column) {
        Ok(c) => Ok(column_values(t, c)),
        Err(e) => Err(e),
    }
}

/// The fields at column `c` of the records that reach it, in order.
pub open spec fn column_of(rows: Seq<Seq<Seq<char>>>, c: int) -> Seq<Seq<char>>
    decreases rows.len(),
{
    if rows.len() == 0 {
        Seq::empty()
    } else {
        let before = column_of(rows.drop_last(), c);
        if 0 <= c < rows.last().len() {
            before.push(rows.last()[c])
        } else {
            before
        }
    }
}

/// The fields of column `c`, one per record that has it.
pub fn column_values(t: &Table, c: usize) -> (r: Vec<String>)
    ensures
        r.deep_view() == column_of(t.rows_view(), c as int),
{
    let ghost rv = t.rows_view();
    let mut r: Vec<String> = Vec::new();
    let mut i: usize = 0;
    while i < t.rows.len()
        invariant
            i <= t.rows.len(),
            rv == t.rows_view(),
            r.deep_view() == column_of(rv.take(i as int), c as int),
        decreases t.rows.len() - i,
    {
        proof {
            assert(rv.take(i + 1).drop_last() =~= rv.take(i as int));
            assert(rv.take(i + 1).last() == t.rows@[i as int].deep_view());
        }
        if c < t.rows[i].len() {
            let ghost prev = r.deep_view();
            r.push(t.rows[i][c].clone());
            proof {
                assert(r.deep_view() =~= prev.push(rv[i as int][c as int]));
            }
        }
        i = i + 1;
    }
    assert(rv.take(t.rows.len() as int) =~= rv);
    r
}

/// `p` lists each of `0..n` exactly once.
pub open spec fn is_permutation(p: Seq<int>, n: nat) -> bool {
    &&& p.len() == n
    &&& forall|k: int| 0 <= k < n ==> 0 <= #[trigger] p[k] < n
    &&& forall|a: int, b: int| 0 <= a < b < n ==> p[a] != p[b]
}

/// `r` holds the entries `v[p[0]], v[p[1]], ...`, highest count first, and
/// entries of equal count keep their order in `v`.
pub open spec fn count_order_by(v: Seq<Entry>, r: Seq<Entry>, p: Seq<int>) -> bool {
    &&& is_permutation(p, v.len())
    &&& r.len() == v.len()
    &&& forall|k: int| 0 <= k < r.len() ==> r[k] == v[#[trigger] p[k]]
    &&& forall|a: int, b: int| 0 <= a < b < r.len() ==> r[a].count >= r[b].count
    &&& forall|a: int, b: int| 0 <= a < b < r.len() && r[a].count == r[b].count ==> p[a] < p[b]
}

/// `r` is `v` sorted by count, highest first, stably.
pub open spec fn sorted_by_count(v: Seq<Entry>, r: Seq<Entry>) -> bool {
    exists|p: Seq<int>| count_order_by(v, r, p)
}

/// Sorts entries by count, highest first; entries of equal count keep their
/// relative order.
pub fn sort_by_count(v: &Vec<Entry>) -> (r: Vec<Entry>)
    ensures
        sorted_by_count(v@, r@),
{
    let mut r: Vec<Entry> = Vec::new();
    let ghost mut p: Seq<int> = Seq::empty();
    let mut i: usize = 0;
    while i < v.len()
        invariant
            i <= v.len(),
            r@.len() == i,
            p.len() == i,
            forall|k: int| 0 <= k < i ==> 0 <= #[trigger] p[k] < i,
            forall|a: int, b: int| 0 <= a < b < i ==> p[a] != p[b],
            forall|k: int| 0 <= k < i ==> r@[k] == v@[#[trigger] p[k]],
            forall|a: int, b: int| 0 <= a < b < i ==> r@[a].count >= r@[b].count,
            forall|a: int, b: int| 0 <= a < b < i && r@[a].count == r@[b].count ==> p[a] < p[b],
        decreases v.len() - i,
    {
        let x = v[i].copy();
        let mut pos: usize = 0;
        while pos < r.len() && r[pos].count >= x.count
            invariant
                pos <= r@.len(),
                forall|k: int| 0 <= k < pos ==> r@[k].count >= x.count,
            decreases r@.len() - pos,
        {
            pos = pos + 1;
        }
        let ghost old_r = r@;
        let ghost old_p = p;
        assert(forall|k: int| pos <= k < old_r.len() ==> old_r[k].count < x.count) by {
            assert forall|k: int| pos <= k < old_r.len() implies old_r[k].count < x.count by {
                if k > pos {
                    assert(old_r[pos as int].count >= old_r[k].count);
                }
            }
        }
        r.insert(pos, x);
        proof {
            p = old_p.insert(pos as int, i as int);
            assert forall|k: int| 0 <= k < i + 1 implies 0 <= #[trigger] p[k] < i + 1 by {
                if k < pos {
                    assert(p[k] == old_p[k]);
                } else if k > pos {
                    assert(p[k] == old_p[k - 1]);
                }
            }
            assert forall|a: int, b: int| 0 <= a < b < i + 1 implies p[a] != p[b] by {
                if a == pos {
                    assert(p[b] == old_p[b - 1]);
                } else if b == pos {
                    assert(p[a] == old_p[a]);
                } else if a < pos && b < pos {
                    assert(p[a] == old_p[a] && p[b] == old_p[b]);
                } else if a < pos {
                    assert(p[a] == old_p[a] && p[b] == old_p[b - 1]);
                } else {
                    assert(p[a] == old_p[a - 1] && p[b] == old_p[b - 1]);
                }
            }
            assert forall|k: int| 0 <= k < i + 1 implies r@[k] == v@[#[trigger] p[k]] by {
                if k < pos {
                    assert(p[k] == old_p[k] && r@[k] == old_r[k]);
                } else if k > pos {
                    assert(p[k] == old_p[k - 1] && r@[k] == old_r[k - 1]);
                }
            }
            assert forall|a: int, b: int| 0 <= a < b < i + 1 implies r@[a].count >= r@[b].count by {
                if a == pos {
                    assert(r@[b] == old_r[b - 1]);
                } else if b == pos {
                    assert(r@[a] == old_r[a]);
                } else if a < pos && b < pos {
                    assert(r@[a] == old_r[a] && r@[b] == old_r[b]);
                } else if a < pos {
                    assert(r@[a] == old_r[a] && r@[b] == old_r[b - 1]);
                } else {
                    assert(r@[a] == old_r[a - 1] && r@[b] == old_r[b - 1]);
                }
            }
            assert forall|a: int, b: int|
                0 <= a < b < i + 1 && r@[a].count == r@[b].count implies p[a] < p[b] by {
                if a == pos {
                    assert(r@[b] == old_r[b - 1]);
                } else if b == pos {
                    assert(r@[a] == old_r[a] && p[a] == old_p[a]);
                } else if a < pos && b < pos {
                    assert(r@[a] == old_r[a] && r@[b] == old_r[b]);
                    assert(p[a] == old_p[a] && p[b] == old_p[b]);
                } else if a < pos {
                    assert(r@[a] == old_r[a] && r@[b] == old_r[b - 1]);
                    assert(p[a] == old_p[a] && p[b] == old_p[b - 1]);
                } else {
                    assert(r@[a] == old_r[a - 1] && r@[b] == old_r[b - 1]);
                    assert(p[a] == old_p[a - 1] && p[b] == old_p[b - 1]);
                }
            }
        }
        i = i + 1;
    }
    assert(count_order_by(v@, r@, p));
    r
}

/// Lexicographic order on texts by code point, which is also the order of
/// their UTF-8 bytes; a proper prefix comes first.
pub open spec fn text_less(a: Seq<char>, b: Seq<char>) -> bool
    decreases a.len(),
{
    if b.len() == 0 {
        false
    } else if a.len() == 0 {
        true
    } else if a[0] != b[0] {
        (a[0] as u32) < (b[0] as u32)
    } else {
        text_less(a.drop_first(), b.drop_first())
    }
}

proof fn lemma_text_less_asymmetric(a: Seq<char>, b: Seq<char>)
    ensures
        text_less(a, b) ==> !text_less(b, a),
    decreases a.len(),
{
    if a.len() > 0 && b.len() > 0 && a[0] == b[0] {
        lemma_text_less_asymmetric(a.drop_first(), b.drop_first());
    }
}

proof fn lemma_text_less_transitive(a: Seq<char>, b: Seq<char>, c: Seq<char>)
    ensures
        text_less(a, b) && text_less(b, c) ==> text_less(a, c),
    decreases a.len(),
{
    if a.len() > 0 && b.len() > 0 && c.len() > 0 {
        lemma_text_less_transitive(a.drop_first(), b.drop_first(), c.drop_first());
    }
}

/// Whether `a` comes strictly before `b` in `text_less` order.
fn chars_less(a: &Vec<char>, b: &Vec<char>) -> (r: bool)
    ensures
        r == text_less(a@, b@),
{
    let mut i: usize = 0;
    assert(a@.skip(0) =~= a@);
    assert(b@.skip(0) =~= b@);
    while i < a.len() && i < b.len() && a[i] == b[i]
        invariant
            i <= a@.len(),
            i <= b@.len(),
            text_less(a@, b@) == text_less(a@.skip(i as int), b@.skip(i as int)),
        decreases a@.len() - i,
    {
        proof {
            let sa = a@.skip(i as int);
            let sb = b@.skip(i as int);
            assert(sa.drop_first() =~= a@.skip(i + 1));
            assert(sb.drop_first() =~= b@.skip(i + 1));
        }
        i = i + 1;
    }
    if i == b.len() {
        false
    } else if i == a.len() {
        true
    } else {
        (a[i] as u32) < (b[i] as u32)
    }
}

/// `r` holds `v[p[0]], v[p[1]], ...` in `text_less` order of their values,
/// entries with the same value keeping their order in `v`.
pub open spec fn value_order_by(v: Seq<Entry>, r: Seq<Entry>, p: Seq<int>) -> bool {
    &&& is_permutation(p, v.len())
    &&& r.len() == v.len()
    &&& forall|k: int| 0 <= k < r.len() ==> r[k] == v[#[trigger] p[k]]
    &&& forall|a: int, b: int| 0 <= a < b < r.len() ==> !text_less(r[b].value@, r[a].value@)
    &&& forall|a: int, b: int|
        0 <= a < b < r.len() && r[a].value@ == r[b].value@ ==> p[a] < p[b]
}

/// `r` is `v` sorted by value.
pub open spec fn sorted_by_value(v: Seq<Entry>, r: Seq<Entry>) -> bool {
    exists|p: Seq<int>| value_order_by(v, r, p)
}

/// Sorts entries by their value, in ascending code point order.
pub fn sort_by_value(v: &Vec<Entry>) -> (r: Vec<Entry>)
    ensures
        sorted_by_value(v@, r@),
{
    let mut r: Vec<Entry> = Vec::new();
    let mut keys: Vec<Vec<char>> = Vec::new();
    let ghost mut p: Seq<int> = Seq::empty();
    let mut i: usize = 0;
    while i < v.len()
        invariant
            i <= v.len(),
            r@.len() == i,
            keys@.len() == i,
            forall|k: int| 0 <= k < i ==> #[trigger] keys@[k]@ == r@[k].value@,
            p.len() == i,
            forall|k: int| 0 <= k < i ==> 0 <= #[trigger] p[k] < i,
            forall|a: int, b: int| 0 <= a < b < i ==> p[a] != p[b],
            forall|k: int| 0 <= k < i ==> r@[k] == v@[#[trigger] p[k]],
            forall|a: int, b: int| 0 <= a < b < i ==> !text_less(r@[b].value@, r@[a].value@),
            forall|a: int, b: int|
                0 <= a < b < i && r@[a].value@ == r@[b].value@ ==> p[a] < p[b],
        decreases v.len() - i,
    {
        let x = v[i].copy();
        let key = crate::text::chars_of(x.value.as_str());
        let mut pos: usize = 0;
        while pos < r.len() && !chars_less(&key, &keys[pos])
            invariant
                pos <= r@.len(),
                key@ == x.value@,
                r@.len() == keys@.len(),
                forall|k: int| 0 <= k < keys@.len() ==> #[trigger] keys@[k]@ == r@[k].value@,
                forall|k: int| 0 <= k < pos ==> !text_less(x.value@, r@[k].value@),
            decreases r@.len() - pos,
        {
            pos = pos + 1;
        }
        let ghost old_r = r@;
        let ghost old_p = p;
        let ghost old_keys = keys@;
        proof {
            if pos < old_r.len() {
                assert(text_less(x.value@, old_r[pos as int].value@));
                assert forall|k: int| pos <= k < old_r.len() implies !text_less(
                    old_r[k].value@,
                    x.value@,
                ) by {
                    lemma_text_less_asymmetric(x.value@, old_r[k].value@);
                    lemma_text_less_transitive(old_r[k].value@, x.value@, old_r[pos as int].value@);
                }
                assert forall|k: int| pos <= k < old_r.len() implies old_r[k].value@ != x.value@ by {
                    lemma_text_less_asymmetric(x.value@, x.value@);
                    if k > pos {
                        assert(!text_less(old_r[k].value@, old_r[pos as int].value@));
                    }
                }
            }
        }
        r.insert(pos, x);
        keys.insert(pos, key);
        proof {
            p = old_p.insert(pos as int, i as int);
            assert forall|k: int| 0 <= k < i + 1 implies #[trigger] keys@[k]@ == r@[k].value@ by {
                if k < pos {
                    assert(keys@[k] == old_keys[k] && r@[k] == old_r[k]);
                } else if k > pos {
                    assert(keys@[k] == old_keys[k - 1] && r@[k] == old_r[k - 1]);
                }
            }
            assert forall|k: int| 0 <= k < i + 1 implies 0 <= #[trigger] p[k] < i + 1 by {
                if k < pos {
                    assert(p[k] == old_p[k]);
                } else if k > pos {
                    assert(p[k] == old_p[k - 1]);
                }
            }
            assert forall|a: int, b: int| 0 <= a < b < i + 1 implies p[a] != p[b] by {
                if a == pos {
                    assert(p[b] == old_p[b - 1]);
                } else if b == pos {
                    assert(p[a] == old_p[a]);
                } else if a < pos && b < pos {
                    assert(p[a] == old_p[a] && p[b] == old_p[b]);
                } else if a < pos {
                    assert(p[a] == old_p[a] && p[b] == old_p[b - 1]);
                } else {
                    assert(p[a] == old_p[a - 1] && p[b] == old_p[b - 1]);
                }
            }
            assert forall|k: int| 0 <= k < i + 1 implies r@[k] == v@[#[trigger] p[k]] by {
                if k < pos {
                    assert(p[k] == old_p[k] && r@[k] == old_r[k]);
                } else if k > pos {
                    assert(p[k] == old_p[k - 1] && r@[k] == old_r[k - 1]);
                }
            }
            assert forall|a: int, b: int| 0 <= a < b < i + 1 implies !text_less(
                r@[b].value@,
                r@[a].value@,
            ) by {
                if a == pos {
                    assert(r@[b] == old_r[b - 1]);
                } else if b == pos {
                    assert(r@[a] == old_r[a]);
                } else if a < pos && b < pos {
                    assert(r@[a] == old_r[a] && r@[b] == old_r[b]);
                } else if a < pos {
                    assert(r@[a] == old_r[a] && r@[b] == old_r[b - 1]);
                } else {
                    assert(r@[a] == old_r[a - 1] && r@[b] == old_r[b - 1]);
                }
            }
            assert forall|a: int, b: int|
                0 <= a < b < i + 1 && r@[a].value@ == r@[b].value@ implies p[a] < p[b] by {
                if a == pos {
                    assert(r@[b] == old_r[b - 1]);
                } else if b == pos {
                    assert(r@[a] == old_r[a] && p[a] == old_p[a]);
                } else if a < pos && b < pos {
                    assert(r@[a] == old_r[a] && r@[b] == old_r[b]);
                    assert(p[a] == old_p[a] && p[b] == old_p[b]);
                } else if a < pos {
                    assert(r@[a] == old_r[a] && r@[b] == old_r[b - 1]);
                    assert(p[a] == old_p[a] && p[b] == old_p[b - 1]);
                } else {
                    assert(r@[a] == old_r[a - 1] && r@[b] == old_r[b - 1]);
                    assert(p[a] == old_p[a - 1] && p[b] == old_p[b - 1]);
                }
            }
        }
        i = i + 1;
    }
    assert(value_order_by(v@, r@, p));
    r
}

/// How the values of a column divide: blank ones, numeric ones, and the
/// rest.
#[derive(Debug)]
pub struct ColumnCounts {
    pub total: usize,
    pub null_count: usize,
    pub numeric_count: usize,
    pub invalid_count: usize,
}

/// The statistics of a column, by its kind.
#[derive(Debug)]
pub enum ColumnStats {
    /// Most non-blank values are numbers; `numbers` holds the positions of
    /// the numeric values, whose moments and percentiles the caller computes.
    Numeric { counts: ColumnCounts, numbers: Vec<usize> },
    /// Otherwise: how many distinct non-blank values there are, and the (at
    /// most) three most frequent, ties in their order of first occurrence.
    Categorical { counts: ColumnCounts, unique: usize, top: Vec<Entry> },
}

/// Value `i` is a number: not blank, and flagged as parsing as one.
pub open spec fn numeric_at(values: Seq<Seq<char>>, flags: Seq<bool>, i: int) -> bool {
    !is_blank(values[i]) && flags[i]
}

/// The number of blank values.
pub open spec fn blank_count(values: Seq<Seq<char>>) -> nat
    decreases values.len(),
{
    if values.len() == 0 {
        0
    } else {
        blank_count(values.drop_last()) + if is_blank(values.last()) { 1nat } else { 0nat }
    }
}

/// The positions of the numeric values, in order.
pub open spec fn numeric_positions(values: Seq<Seq<char>>, flags: Seq<bool>) -> Seq<int>
    decreases values.len(),
{
    if values.len() == 0 {
        Seq::empty()
    } else {
        let before = numeric_positions(values.drop_last(), flags);
        if numeric_at(values, flags, values.len() - 1) {
            before.push(values.len() - 1)
        } else {
            before
        }
    }
}

/// The non-blank values, in order.
pub open spec fn non_blank(values: Seq<Seq<char>>) -> Seq<Seq<char>>
    decreases values.len(),
{
    if values.len() == 0 {
        Seq::empty()
    } else {
        let before = non_blank(values.drop_last());
        if is_blank(values.last()) {
            before
        } else {
            before.push(values.last())
        }
    }
}

/// A column is numeric when it has non-blank values and strictly more than
/// half of them are numbers.
pub open spec fn is_numeric_column(null_count: nat, numeric_count: nat, total: nat) -> bool {
    total - null_count > 0 && 2 * numeric_count > total - null_count
}

/// `top` is the first three (or fewer) entries of the frequency table of
/// `values` sorted by count, stably.
pub open spec fn top_three(values: Seq<Seq<char>>, top: Seq<Entry>) -> bool {
    exists|all: Seq<Entry>, sorted: Seq<Entry>|
        entries_view(all) == frequency_table(values) && sorted_by_count(all, sorted) && top
            == sorted.take(if sorted.len() < 3 { sorted.len() as int } else { 3 })
}

/// Classifies a column and computes what needs no arithmetic on the numbers
/// themselves. `is_number[i]` says whether value `i`, trimmed, parses as a
/// float; blank values are nulls whatever their flag.
pub fn column_stats(values: &Vec<String>, is_number: &Vec<bool>) -> (r: ColumnStats)
    requires
        is_number.len() == values.len(),
    ensures
        ({
            let vv = values.deep_view();
            let counts = match r {
                ColumnStats::Numeric { counts, .. } => counts,
                ColumnStats::Categorical { counts, .. } => counts,
            };
            &&& counts.total == values.len()
            &&& counts.null_count == blank_count(vv)
            &&& counts.numeric_count == numeric_positions(vv, is_number@).len()
            &&& counts.invalid_count == counts.total - counts.null_count - counts.numeric_count
            &&& (r is Numeric <==> is_numeric_column(
                counts.null_count as nat,
                counts.numeric_count as nat,
                counts.total as nat,
            ))
            &&& r matches ColumnStats::Numeric { numbers, .. } ==> numbers@.map_values(
                |i: usize| i as int,
            ) == numeric_positions(vv, is_number@)
            &&& r matches ColumnStats::Categorical { unique, top, .. } ==> unique
                == distinct_values(non_blank(vv)).len() && top_three(non_blank(vv), top@)
        }),
{
    let ghost vv = values.deep_view();
    let ghost fv = is_number@;
    let mut null_count: usize = 0;
    let mut numbers: Vec<usize> = Vec::new();
    let mut present: Vec<String> = Vec::new();
    let mut i: usize = 0;
    while i < values.len()
        invariant
            i <= values.len() == is_number.len(),
            vv == values.deep_view(),
            fv == is_number@,
            null_count == blank_count(vv.take(i as int)),
            null_count + numbers@.len() <= i,
            numbers@.map_values(|k: usize| k as int) == numeric_positions(vv.take(i as int), fv),
            present.deep_view() == non_blank(vv.take(i as int)),
        decreases values.len() - i,
    {
        let ghost s = vv.take(i as int);
        let ghost s1 = vv.take(i + 1);
        proof {
            assert(s1.drop_last() =~= s);
            assert(s1.last() == values@[i as int]@);
            assert(numeric_positions(s, fv) =~= numeric_positions(s1.drop_last(), fv));
        }
        let v = &values[i];
        if blank(v.as_str()) {
            null_count = null_count + 1;
        } else {
            if is_number[i] {
                let ghost prev = numbers@.map_values(|k: usize| k as int);
                numbers.push(i);
                assert(numbers@.map_values(|k: usize| k as int) =~= prev.push(i as int));
            }
            let ghost prev = present.deep_view();
            present.push(v.clone());
            assert(present.deep_view() =~= prev.push(v@));
        }
        i = i + 1;
    }
    assert(vv.take(values.len() as int) =~= vv);
    let total = values.len();
    let numeric_count = numbers.len();
    let counts = ColumnCounts {
        total,
        null_count,
        numeric_count,
        invalid_count: total - null_count - numeric_count,
    };
    let non_null = total - null_count;
    if non_null > 0 && numeric_count > non_null - numeric_count {
        return ColumnStats::Numeric { counts, numbers };
    }
    let table = count_values(&present);
    let sorted = sort_by_count(&table);
    let unique = table.len();
    let mut top: Vec<Entry> = Vec::new();
    let mut k: usize = 0;
    while k < sorted.len() && k < 3
        invariant
            k <= sorted@.len(),
            k <= 3,
            top@ == sorted@.take(k as int),
        decreases 3 - k,
    {
        top.push(sorted[k].copy());
        assert(top@ =~= sorted@.take(k + 1));
        k = k + 1;
    }
    proof {
        assert(entries_view(table@).len() == table@.len());
        assert(top@ == sorted@.take(if sorted@.len() < 3 { sorted@.len() as int } else { 3 }));
        assert(top_three(non_blank(vv), top@));
    }
    ColumnStats::Categorical { counts, unique, top }
}

/// Where percentile `p` of `n` sorted values lies: between positions `lower`
/// and `upper`, at fraction `fraction / 100` of the way, the rank being
/// `p / 100 * (n - 1)`. No position when there are no values.
pub open spec fn percentile_spec(p: nat, n: nat) -> Option<(nat, nat, nat)> {
    if n == 0 {
        None
    } else {
        let rank = p * (n - 1) as nat;
        let lower = rank / 100;
        let fraction = rank % 100;
        Some((lower, if fraction == 0 { lower } else { lower + 1 }, fraction))
    }
}

/// The interpolation position of percentile `p` over `n` sorted values: the
/// percentile is `v[lower] + fraction / 100 * (v[upper] - v[lower])`.
pub fn percentile_position(p: u64, n: usize) -> (r: Option<(usize, usize, u64)>)
    requires
        p <= 100,
    ensures
        r matches Some((lower, upper, fraction)) ==> percentile_spec(p as nat, n as nat) == Some(
            (lower as nat, upper as nat, fraction as nat),
        ) && upper < n,
        r is None <==> percentile_spec(p as nat, n as nat) is None,
{
    if n == 0 {
        return None;
    }
    let m = (n - 1) as u128;
    assert((p as int) * (m as int) <= 100 * (m as int)) by (nonlinear_arith)
        requires
            p <= 100,
            m >= 0,
    ;
    let rank: u128 = (p as u128) * m;
    let lower = rank / 100;
    let fraction = rank % 100;
    assert(lower <= m);
    let upper = if fraction == 0 {
        lower
    } else {
        assert(lower < m);
        lower + 1
    };
    Some((lower as usize, upper as usize, fraction as u64))
}

/// With a single value, every percentile sits exactly on it.
pub proof fn lemma_single_value_percentile(p: nat)
    ensures
        percentile_spec(p, 1) == Some((0nat, 0nat, 0nat)),
{
    assert(p * 0 == 0) by (nonlinear_arith);
}

} // verus!
