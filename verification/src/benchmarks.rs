//! Samples of measured durations and counts, and their trimmed totals.

use vstd::prelude::*;
use vstd::relations::{sorted_by, total_ordering};
use vstd::seq_lib::lemma_sorted_unique;

verus! {

/// When a client request passed each stage of its life, in nanoseconds on
/// one clock.
#[derive(Clone, Copy, Debug, PartialEq, Eq, Structural)]
pub struct RequestMeta {
    pub reception_time: u128,
    pub consensus_start_time: u128,
    pub consensus_decision_time: u128,
    pub execution_time: u128,
}

/// The order in which samples are sorted.
pub open spec fn leq() -> spec_fn(i64, i64) -> bool {
    |a: i64, b: i64| a <= b
}

/// The sum of the samples.
pub open spec fn total(samples: Seq<i64>) -> int
    decreases samples.len(),
{
    if samples.len() == 0 {
        0
    } else {
        total(samples.drop_last()) + samples.last()
    }
}

/// How many samples are cut off at each end: a tenth of them where the
/// extremes are trimmed, none otherwise.
pub open spec fn trim(len: nat, percent: bool) -> nat {
    if percent {
        len / 10
    } else {
        0
    }
}

/// The samples that count towards the average: all of them in ascending
/// order, without those cut off at each end.
pub open spec fn counted(samples: Seq<i64>, percent: bool) -> Seq<i64> {
    let cut = trim(samples.len(), percent) as int;
    samples.sort_by(leq()).subrange(cut, samples.len() - cut)
}

/// The low 63 bits of a measurement: what is kept of it as a sample.
pub open spec fn masked(measure: int) -> i64 {
    (measure % 0x8000_0000_0000_0000) as i64
}

/// Why a measurement was refused.
#[derive(Clone, Copy, Debug, PartialEq, Eq, Structural)]
pub enum BenchmarkError {
    /// The end of a time span lies before its start.
    NonMonotonicTime,
}

/// A store of samples.
#[derive(Debug)]
pub struct BenchmarkHelper {
    values: Vec<i64>,
}

impl View for BenchmarkHelper {
    type V = Seq<i64>;

    closed spec fn view(&self) -> Seq<i64> {
        self.values@
    }
}

/// A measurement that a [`BenchmarkHelper`] can take in.
pub trait BenchmarkHelperStore: Sized {
    /// Whether the measurement makes sense.
    spec fn storable(self) -> bool;

    /// The sample that the measurement is stored as.
    spec fn sample(self) -> i64;

    /// Appends the sample of the measurement to `bench`.
    fn store(self, bench: &mut BenchmarkHelper)
        requires
            self.storable(),
        ensures
            final(bench)@ == old(bench)@.push(self.sample()),
    ;
}

/// A count.
impl BenchmarkHelperStore for usize {
    open spec fn storable(self) -> bool {
        true
    }

    open spec fn sample(self) -> i64 {
        masked(self as int)
    }

    fn store(self, bench: &mut BenchmarkHelper) {
        let wide = self as u64;
        let kept = wide & 0x7fff_ffff_ffff_ffff;
        assert(kept == wide % 0x8000_0000_0000_0000) by (bit_vector)
            requires
                kept == wide & 0x7fff_ffff_ffff_ffff,
        ;
        bench.values.push(kept as i64);
    }
}

/// A time span, as the nanoseconds at which it started and ended on one
/// clock.  A span that ends before it starts cannot be stored.
impl BenchmarkHelperStore for (u128, u128) {
    open spec fn storable(self) -> bool {
        self.0 <= self.1
    }

    open spec fn sample(self) -> i64 {
        masked(self.1 - self.0)
    }

    fn store(self, bench: &mut BenchmarkHelper) {
        let elapsed = self.1 - self.0;
        let kept = elapsed & 0x7fff_ffff_ffff_ffff;
        assert(kept == elapsed % 0x8000_0000_0000_0000) by (bit_vector)
            requires
                kept == elapsed & 0x7fff_ffff_ffff_ffff,
        ;
        bench.values.push(kept as i64);
    }
}

/// `<[i64]>::sort_unstable` of std, applied to the whole vector: afterwards
/// the vector holds the same samples as before, each as often as before,
/// in ascending order.
#[verifier::external_body]
fn sort_ascending(values: &mut Vec<i64>)
    ensures
        final(values)@.to_multiset() == old(values)@.to_multiset(),
        sorted_by(final(values)@, leq()),
{
    values.sort_unstable();
}

proof fn lemma_leq_total()
    ensures
        total_ordering(leq()),
{
    let r = leq();
    assert(vstd::relations::reflexive(r));
    assert(vstd::relations::antisymmetric(r));
    assert(vstd::relations::transitive(r));
    assert(vstd::relations::strongly_connected(r));
}

/// The total of a run of samples lies within what that many samples can
/// add up to.
proof fn lemma_total_bounds(samples: Seq<i64>)
    ensures
        -0x8000_0000_0000_0000 * samples.len() <= total(samples) <= 0x7fff_ffff_ffff_ffff * samples.len(),
    decreases samples.len(),
{
    if samples.len() > 0 {
        lemma_total_bounds(samples.drop_last());
    }
}

impl BenchmarkHelper {
    /// An empty store with room for `capacity` samples.
    pub fn new(capacity: usize) -> (r: BenchmarkHelper)
        requires
            capacity * 8 <= isize::MAX,
        ensures
            r@ == Seq::<i64>::empty(),
    {
        BenchmarkHelper { values: Vec::with_capacity(capacity) }
    }

    /// Forgets every sample.
    pub fn reset(&mut self)
        ensures
            final(self)@ == Seq::<i64>::empty(),
    {
        self.values.clear();
    }

    /// Number of samples held.
    pub fn len(&self) -> (r: usize)
        ensures
            r == self@.len(),
    {
        self.values.len()
    }

    /// The sample at position `at`, in the order of storing.
    pub fn get(&self, at: usize) -> (r: Option<i64>)
        ensures
            r == if at < self@.len() {
                Some(self@[at as int])
            } else {
                None
            },
    {
        if at < self.values.len() {
            Some(self.values[at])
        } else {
            None
        }
    }

    /// Stores the length of the time span from `start` to `end`, both in
    /// nanoseconds on one clock.  A span that ends before it starts is
    /// refused and nothing is stored.
    pub fn store_span(&mut self, start: u128, end: u128) -> (r: Result<(), BenchmarkError>)
        ensures
            start <= end ==> r is Ok && final(self)@ == old(self)@.push(masked(end - start)),
            start > end ==> r == Err::<(), BenchmarkError>(BenchmarkError::NonMonotonicTime),
            start > end ==> final(self)@ == old(self)@,
    {
        if end < start {
            return Err(BenchmarkError::NonMonotonicTime);
        }
        (start, end).store(self);
        Ok(())
    }

    /// The total of the samples that count towards the average, and how
    /// many they are.  With `percent` the lowest and the highest tenth of
    /// the samples are left out.
    pub fn trimmed(&self, percent: bool) -> (r: (i128, usize))
        ensures
            r.0 == total(counted(self@, percent)),
            r.1 == counted(self@, percent).len(),
            r.1 == self@.len() - 2 * trim(self@.len(), percent),
    {
        let mut values = self.values.clone();
        assert(values@ =~= self.values@);
        let limit = if percent {
            values.len() / 10
        } else {
            0
        };
        sort_ascending(&mut values);
        proof {
            lemma_leq_total();
            self@.lemma_sort_by_ensures(leq());
            lemma_sorted_unique(values@, self@.sort_by(leq()), leq());
            vstd::seq_lib::to_multiset_len(values@);
            vstd::seq_lib::to_multiset_len(self@);
        }
        let end = values.len() - limit;
        let ghost kept = values@.subrange(limit as int, end as int);
        let mut sum: i128 = 0;
        let mut i: usize = limit;
        assert(kept.take(0) =~= Seq::<i64>::empty());
        while i < end
            invariant
                limit <= i <= end <= values.len(),
                kept == values@.subrange(limit as int, end as int),
                sum == total(kept.take(i - limit)),
            decreases end - i,
        {
            proof {
                assert(kept.take(i - limit + 1).drop_last() =~= kept.take(i - limit));
                assert(kept.take(i - limit + 1).last() == values@[i as int]);
                lemma_total_bounds(kept.take(i - limit));
                assert(0x7fff_ffff_ffff_ffff * (kept.take(i - limit).len() as int) <= 0x7fff_ffff_ffff_ffff
                    * 0xffff_ffff_ffff_ffff) by (nonlinear_arith)
                    requires
                        kept.take(i - limit).len() <= 0xffff_ffff_ffff_ffff,
                ;
                assert(-0x8000_0000_0000_0000 * (kept.take(i - limit).len() as int)
                    >= -0x8000_0000_0000_0000 * 0xffff_ffff_ffff_ffff) by (nonlinear_arith)
                    requires
                        kept.take(i - limit).len() <= 0xffff_ffff_ffff_ffff,
                ;
            }
            sum = sum + values[i] as i128;
            i += 1;
        }
        assert(kept.take(end - limit) =~= kept);
        (sum, end - limit)
    }
}

} // verus!
