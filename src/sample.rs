//! Single-pass uniform sampling of records (reservoir sampling) driven by a
//! seeded pseudo-random generator.

use vstd::prelude::*;
use rand::Rng;
use rand::SeedableRng;
use rand::rngs::StdRng;
use crate::table::{copy_strings, Table};

verus! {

#[verifier::external_type_specification]
#[verifier::external_body]
pub struct ExStdRng(StdRng);

/// The value that `gen_range(0..=upper)` returns on a `StdRng` made by
/// `seed_from_u64(seed)` after draws with the bounds `earlier`, in order.
pub uninterp spec fn seeded_draw(seed: u64, earlier: Seq<u64>, upper: u64) -> u64;

/// Relies on `rand::SeedableRng::seed_from_u64` for `StdRng`.
#[verifier::external_body]
fn seeded_rng(seed: u64) -> StdRng {
    StdRng::seed_from_u64(seed)
}

/// A generator seeded once, remembering its seed and the bounds of the draws
/// made so far: its next draw depends on these alone.
pub struct SeededDraws {
    rng: StdRng,
    seed: Ghost<u64>,
    earlier: Ghost<Seq<u64>>,
}

impl SeededDraws {
    pub closed spec fn seed(&self) -> u64 {
        self.seed@
    }

    pub closed spec fn earlier(&self) -> Seq<u64> {
        self.earlier@
    }

    /// A generator seeded with `seed` that has drawn nothing yet.
    pub(crate) fn new(seed: u64) -> (r: SeededDraws)
        ensures
            r.seed() == seed,
            r.earlier() == Seq::<u64>::empty(),
    {
        SeededDraws { rng: seeded_rng(seed), seed: Ghost(seed), earlier: Ghost(Seq::empty()) }
    }

    /// Relies on `rand::Rng::gen_range` over `StdRng`: a value in
    /// `0..=upper` (never an empty range), fixed by the seed and the bounds of
    /// the earlier draws, since the generator is deterministic.
    #[verifier::external_body]
    pub(crate) fn draw(&mut self, upper: u64) -> (r: u64)
        ensures
            r <= upper,
            r == seeded_draw(old(self).seed(), old(self).earlier(), upper),
            final(self).seed() == old(self).seed(),
            final(self).earlier() == old(self).earlier().push(upper),
    {
        self.rng.gen_range(0..=upper)
    }
}

/// The bounds of the draws made before record `i` when the reservoir holds
/// `k`: one draw per record from position `k` on, bounded by its position.
pub open spec fn draw_bounds(k: nat, i: nat) -> Seq<u64> {
    Seq::new(if i > k { (i - k) as nat } else { 0 }, |m: int| (k + m) as u64)
}

/// The record positions held by the reservoir of capacity `k` after `i`
/// records: the first `k` records fill it; record `i >= k` draws `j` in
/// `0..=i` and replaces slot `j` when `j < k`.
pub open spec fn reservoir_after(k: nat, seed: u64, i: nat) -> Seq<u64>
    decreases i,
{
    if i == 0 {
        Seq::empty()
    } else {
        let prev = reservoir_after(k, seed, (i - 1) as nat);
        let idx = (i - 1) as nat;
        if idx < k {
            prev.push(idx as u64)
        } else {
            let j = seeded_draw(seed, draw_bounds(k, idx), idx as u64);
            if j < k {
                prev.update(j as int, idx as u64)
            } else {
                prev
            }
        }
    }
}

/// The reservoir holds `min(k, i)` records.
pub proof fn lemma_reservoir_size(k: nat, seed: u64, i: nat)
    ensures
        reservoir_after(k, seed, i).len() == if i < k { i } else { k },
    decreases i,
{
    if i > 0 {
        lemma_reservoir_size(k, seed, (i - 1) as nat);
    }
}

/// Every slot of the reservoir holds the position of a record already seen.
pub proof fn lemma_reservoir_positions(k: nat, seed: u64, i: nat)
    ensures
        forall|s: int|
            0 <= s < reservoir_after(k, seed, i).len() ==> reservoir_after(k, seed, i)[s] < i,
    decreases i,
{
    if i > 0 {
        lemma_reservoir_positions(k, seed, (i - 1) as nat);
        lemma_reservoir_size(k, seed, (i - 1) as nat);
    }
}

/// Reservoir sampling of `k` out of `n` records, as record positions in
/// final slot order.
pub fn reservoir_sample(n: u64, k: u64, seed: u64) -> (r: Vec<u64>)
    ensures
        r@ == reservoir_after(k as nat, seed, n as nat),
{
    let mut rng = SeededDraws::new(seed);
    let mut reservoir: Vec<u64> = Vec::new();
    let mut i: u64 = 0;
    proof {
        assert(draw_bounds(k as nat, 0) =~= Seq::<u64>::empty());
    }
    while i < n
        invariant
            i <= n,
            rng.seed() == seed,
            rng.earlier() == draw_bounds(k as nat, i as nat),
            reservoir@ == reservoir_after(k as nat, seed, i as nat),
        decreases n - i,
    {
        proof {
            lemma_reservoir_size(k as nat, seed, i as nat);
        }
        if i < k {
            reservoir.push(i);
            proof {
                assert(draw_bounds(k as nat, (i + 1) as nat) =~= draw_bounds(k as nat, i as nat));
            }
        } else {
            let j = rng.draw(i);
            proof {
                assert(draw_bounds(k as nat, (i + 1) as nat) =~= draw_bounds(k as nat, i as nat).push(
                    i,
                ));
            }
            let ghost before = reservoir@;
            assert(j == seeded_draw(seed, draw_bounds(k as nat, i as nat), i));
            if j < k {
                let len = reservoir.len();
                assert(j < len);
                let slot = j as usize;
                assert(slot as int == j as int);
                reservoir.set(slot, i);
                assert(reservoir@ == before.update(j as int, i));
            }
            assert(reservoir@ == reservoir_after(k as nat, seed, (i + 1) as nat));
        }
        i = i + 1;
    }
    reservoir
}

/// What sampling emits, and what the caller reports.
#[derive(Debug)]
pub struct Sample {
    /// The header when asked for, then the sampled records in slot order.
    pub records: Vec<Vec<String>>,
    /// How many records the input had.
    pub seen: usize,
    /// Fewer records than requested were available.
    pub shortfall: bool,
}

/// The records sampled from `rows`: those at the reservoir's positions.
pub open spec fn sampled(rows: Seq<Seq<Seq<char>>>, k: nat, seed: u64) -> Seq<Seq<Seq<char>>> {
    reservoir_after(k, seed, rows.len()).map_values(|p: u64| rows[p as int])
}

/// `r` is what sampling `k` records of `t` with `seed` gives.
pub open spec fn sample_outcome(t: Table, k: nat, seed: u64, include_header: bool, r: Sample) -> bool {
    &&& r.records.deep_view() == (if include_header {
        seq![t.header_view()]
    } else {
        Seq::empty()
    }) + sampled(t.rows_view(), k, seed)
    &&& r.seen == t.rows.len()
    &&& r.shortfall == (t.rows.len() < k)
}

/// Samples `k` records uniformly in one pass (reservoir sampling) with a
/// generator seeded by `seed`. With fewer than `k` records, all are kept.
pub fn sample_rows(t: &Table, k: usize, seed: u64, include_header: bool) -> (r: Sample)
    ensures
        sample_outcome(*t, k as nat, seed, include_header, r),
        r.records.deep_view() == (if include_header {
            seq![t.header_view()]
        } else {
            Seq::empty()
        }) + sampled(t.rows_view(), k as nat, seed),
        r.seen == t.rows.len(),
        r.shortfall == (t.rows.len() < k),
{
    let n = t.rows.len();
    let slots = reservoir_sample(n as u64, k as u64, seed);
    proof {
        lemma_reservoir_positions(k as nat, seed, n as nat);
    }
    let ghost rv = t.rows_view();
    let ghost want = sampled(rv, k as nat, seed);
    let mut records: Vec<Vec<String>> = Vec::new();
    if include_header {
        records.push(copy_strings(&t.header));
    }
    let ghost start = records.deep_view();
    assert(start =~= (if include_header {
        seq![t.header_view()]
    } else {
        Seq::empty()
    }));
    let mut s: usize = 0;
    while s < slots.len()
        invariant
            s <= slots@.len(),
            n == t.rows.len(),
            rv == t.rows_view(),
            slots@ == reservoir_after(k as nat, seed, n as nat),
            forall|q: int| 0 <= q < slots@.len() ==> slots@[q] < n,
            want == sampled(rv, k as nat, seed),
            records.deep_view() == start + want.take(s as int),
        decreases slots@.len() - s,
    {
        let p = slots[s] as usize;
        let row = copy_strings(&t.rows[p]);
        let ghost prev = records.deep_view();
        records.push(row);
        proof {
            assert(records.deep_view() =~= prev.push(want[s as int]));
            assert(start + want.take(s + 1) =~= (start + want.take(s as int)).push(want[s as int]));
        }
        s = s + 1;
    }
    assert(want.take(slots@.len() as int) =~= want);
    Sample { records, seen: n, shortfall: n < k }
}

/// Sampling is reproducible: two runs over tables with the same header and
/// records, with the same capacity and seed, emit the same records.
pub proof fn lemma_sampling_reproducible(
    t1: Table,
    t2: Table,
    k: nat,
    seed: u64,
    include_header: bool,
    r1: Sample,
    r2: Sample,
)
    requires
        t1.header_view() == t2.header_view(),
        t1.rows_view() == t2.rows_view(),
        sample_outcome(t1, k, seed, include_header, r1),
        sample_outcome(t2, k, seed, include_header, r2),
    ensures
        r1.records.deep_view() == r2.records.deep_view(),
        r1.shortfall == r2.shortfall,
{
    assert(t1.rows.len() == t1.rows_view().len());
    assert(t2.rows.len() == t2.rows_view().len());
}

/// With at least `k` records the sample holds exactly `k`; with fewer, it
/// holds all of them and reports the shortfall.
pub proof fn lemma_sample_size(t: Table, k: nat, seed: u64, r: Sample)
    requires
        sample_outcome(t, k, seed, false, r),
    ensures
        r.records.len() == if t.rows.len() < k { t.rows.len() as nat } else { k },
        r.shortfall <==> t.rows.len() < k,
{
    lemma_reservoir_size(k, seed, t.rows_view().len());
    assert(t.rows.len() == t.rows_view().len());
    assert(r.records.len() == r.records.deep_view().len());
    assert(Seq::<Seq<Seq<char>>>::empty() + sampled(t.rows_view(), k, seed) =~= sampled(
        t.rows_view(),
        k,
        seed,
    ));
}

} // verus!
