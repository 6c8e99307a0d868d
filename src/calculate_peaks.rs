use vstd::prelude::*;

verus! {

/// An exact non-negative fraction `num / den`; a zero denominator stands for zero.
#[derive(Debug, Clone, Copy, PartialEq, Eq, Structural)]
pub struct Ratio {
    pub num: usize,
    pub den: usize,
}

impl Ratio {
    /// The rational value of the fraction.
    pub open spec fn value(self) -> (int, int) {
        if self.den == 0 {
            (0, 1)
        } else {
            (self.num as int, self.den as int)
        }
    }

    /// `self > other` as rationals.
    pub open spec fn spec_gt(self, other: Ratio) -> bool {
        self.value().0 * other.value().1 > other.value().0 * self.value().1
    }

    pub fn new(num: usize, den: usize) -> (r: Ratio)
        ensures
            r.num == num,
            r.den == den,
    {
        Ratio { num, den }
    }

    /// Compares two fractions by value, without rounding.
    pub fn gt(&self, other: &Ratio) -> (r: bool)
        ensures
            r == self.spec_gt(*other),
    {
        let (a, b): (u128, u128) = if self.den == 0 {
            (0, 1)
        } else {
            (self.num as u128, self.den as u128)
        };
        let (c, d): (u128, u128) = if other.den == 0 {
            (0, 1)
        } else {
            (other.num as u128, other.den as u128)
        };
        proof {
            assert(a * d <= u64::MAX * u64::MAX) by (nonlinear_arith)
                requires
                    a <= u64::MAX,
                    d <= u64::MAX,
            ;
            assert(c * b <= u64::MAX * u64::MAX) by (nonlinear_arith)
                requires
                    c <= u64::MAX,
                    b <= u64::MAX,
            ;
        }
        a * d > c * b
    }
}

/// Sum of the first `n` buckets.
pub open spec fn sum_upto(h: Seq<usize>, n: int) -> int
    decreases n,
{
    if n <= 0 {
        0
    } else {
        sum_upto(h, n - 1) + h[n - 1]
    }
}

/// Sum of all buckets (zero buckets add nothing).
pub open spec fn total(h: Seq<usize>) -> int {
    sum_upto(h, h.len() as int)
}

/// The level a bucket must strictly exceed to count as raised.
pub open spec fn threshold(h: Seq<usize>) -> int
    recommends
        h.len() > 0,
{
    total(h) / (h.len() as int) + (h.len() as int) / 4
}

pub open spec fn raised(h: Seq<usize>, i: int) -> bool {
    h[i] > threshold(h)
}

/// Indices below `n` of raised buckets, in increasing order.
pub open spec fn raised_upto(h: Seq<usize>, n: int) -> Seq<usize>
    decreases n,
{
    if n <= 0 {
        Seq::empty()
    } else if raised(h, n - 1) {
        raised_upto(h, n - 1).push((n - 1) as usize)
    } else {
        raised_upto(h, n - 1)
    }
}

/// A raised bucket that is the first or whose left neighbour is not raised:
/// the first bucket of a run of consecutive raised buckets.
pub open spec fn starts_run(h: Seq<usize>, i: int) -> bool {
    raised(h, i) && (i == 0 || !raised(h, i - 1))
}

/// Indices below `n` that start a run, in increasing order.
pub open spec fn run_starts_upto(h: Seq<usize>, n: int) -> Seq<usize>
    decreases n,
{
    if n <= 0 {
        Seq::empty()
    } else if starts_run(h, n - 1) {
        run_starts_upto(h, n - 1).push((n - 1) as usize)
    } else {
        run_starts_upto(h, n - 1)
    }
}

/// Sum of the bucket values at the run starts below `n`.
pub open spec fn run_mass_upto(h: Seq<usize>, n: int) -> int
    decreases n,
{
    if n <= 0 {
        0
    } else if starts_run(h, n - 1) {
        run_mass_upto(h, n - 1) + h[n - 1]
    } else {
        run_mass_upto(h, n - 1)
    }
}

/// The peaks of a histogram: the single raised bucket when there is exactly
/// one, else the first bucket of each run of raised buckets.
pub open spec fn peaks(h: Seq<usize>) -> Seq<usize> {
    let raised_all = raised_upto(h, h.len() as int);
    if raised_all.len() == 1 {
        raised_all
    } else {
        run_starts_upto(h, h.len() as int)
    }
}

/// The confidence of the peaks: the peak's index over the length when there is
/// exactly one raised bucket, else the run starts' mass over the length.
pub open spec fn confidence_num(h: Seq<usize>) -> int {
    let raised_all = raised_upto(h, h.len() as int);
    if raised_all.len() == 1 {
        raised_all[0] as int
    } else {
        run_mass_upto(h, h.len() as int)
    }
}

pub(crate) proof fn lemma_sum_upto_monotone(h: Seq<usize>, i: int, j: int)
    requires
        0 <= i <= j <= h.len(),
    ensures
        sum_upto(h, i) <= sum_upto(h, j),
    decreases j - i,
{
    if i < j {
        lemma_sum_upto_monotone(h, i, j - 1);
    }
}

pub(crate) proof fn lemma_sum_update(h: Seq<usize>, i: int, v: usize, n: int)
    requires
        0 <= i < h.len(),
        0 <= n <= h.len(),
    ensures
        sum_upto(h.update(i, v), n) == sum_upto(h, n) + (if i < n { v - h[i] } else { 0 }),
    decreases n,
{
    if n > 0 {
        lemma_sum_update(h, i, v, n - 1);
    }
}

pub(crate) proof fn lemma_bucket_le_sum(h: Seq<usize>, i: int, n: int)
    requires
        0 <= i < n <= h.len(),
    ensures
        h[i] <= sum_upto(h, n),
    decreases n,
{
    lemma_sum_upto_monotone(h, 0, n - 1);
    if i < n - 1 {
        lemma_bucket_le_sum(h, i, n - 1);
    }
}

proof fn lemma_run_mass_le_sum(h: Seq<usize>, n: int)
    requires
        0 <= n <= h.len(),
    ensures
        0 <= run_mass_upto(h, n) <= sum_upto(h, n),
    decreases n,
{
    if n > 0 {
        lemma_run_mass_le_sum(h, n - 1);
    }
}

proof fn lemma_indices_below(h: Seq<usize>, n: int)
    requires
        0 <= n <= h.len(),
        h.len() <= usize::MAX,
    ensures
        raised_upto(h, n).len() <= n,
        forall|k: int| 0 <= k < raised_upto(h, n).len() ==> raised_upto(h, n)[k] < n,
        forall|k: int| 0 <= k < run_starts_upto(h, n).len() ==> run_starts_upto(h, n)[k] < n,
    decreases n,
{
    if n > 0 {
        lemma_indices_below(h, n - 1);
        let prev = run_starts_upto(h, n - 1);
        if starts_run(h, n - 1) {
            let cur = prev.push((n - 1) as usize);
            assert(run_starts_upto(h, n) == cur);
            assert forall|k: int| 0 <= k < cur.len() implies cur[k] < n by {
                if k < prev.len() {
                    assert(cur[k] == prev[k]);
                }
            }
        }
    }
}

/// Every peak is an index of the histogram.
pub proof fn lemma_peaks_in_range(h: Seq<usize>)
    requires
        h.len() <= usize::MAX,
    ensures
        forall|k: int| 0 <= k < peaks(h).len() ==> peaks(h)[k] < h.len(),
{
    lemma_indices_below(h, h.len() as int);
}

proof fn lemma_flat_sum(h: Seq<usize>, c: int, n: int)
    requires
        0 <= n <= h.len(),
        forall|k: int| 0 <= k < h.len() ==> h[k] == c,
    ensures
        sum_upto(h, n) == n * c,
    decreases n,
{
    if n > 0 {
        lemma_flat_sum(h, c, n - 1);
        assert(sum_upto(h, n) == (n - 1) * c + c);
        assert((n - 1) * c + c == n * c) by (nonlinear_arith);
    } else {
        assert(n * c == 0) by (nonlinear_arith)
            requires
                n == 0,
        ;
    }
}

proof fn lemma_nothing_raised(h: Seq<usize>, n: int)
    requires
        0 <= n <= h.len(),
        forall|k: int| 0 <= k < h.len() ==> !raised(h, k),
    ensures
        raised_upto(h, n).len() == 0,
        run_starts_upto(h, n).len() == 0,
        run_mass_upto(h, n) == 0,
    decreases n,
{
    if n > 0 {
        lemma_nothing_raised(h, n - 1);
    }
}

proof fn lemma_single_raised_upto(h: Seq<usize>, i: int, n: int)
    requires
        0 <= i < h.len(),
        0 <= n <= h.len(),
        forall|k: int| 0 <= k < h.len() ==> (raised(h, k) <==> k == i),
    ensures
        raised_upto(h, n) == (if n <= i { Seq::<usize>::empty() } else { seq![i as usize] }),
    decreases n,
{
    if n > 0 {
        lemma_single_raised_upto(h, i, n - 1);
        if n - 1 == i {
            assert(Seq::<usize>::empty().push(i as usize) == seq![i as usize]);
        }
    }
}

/// A histogram whose buckets all hold the same positive count has no peaks,
/// and its confidence is zero.
pub proof fn lemma_flat_histogram_has_no_peaks(h: Seq<usize>, c: usize)
    requires
        h.len() > 0,
        c > 0,
        forall|k: int| 0 <= k < h.len() ==> h[k] == c,
    ensures
        peaks(h).len() == 0,
        confidence_num(h) == 0,
{
    let n = h.len() as int;
    lemma_flat_sum(h, c as int, n);
    assert(total(h) / n == c as int) by (nonlinear_arith)
        requires
            total(h) == n * c,
            n > 0,
    ;
    assert forall|k: int| 0 <= k < h.len() implies !raised(h, k) by {
        assert(threshold(h) >= c);
    }
    lemma_nothing_raised(h, n);
}

/// When exactly one bucket is raised above the threshold, it is the only
/// peak, and the confidence is its index over the histogram's length.
pub proof fn lemma_single_raised_bucket_is_the_peak(h: Seq<usize>, i: usize)
    requires
        i < h.len(),
        raised(h, i as int),
        forall|k: int| 0 <= k < h.len() && k != i ==> !raised(h, k),
    ensures
        peaks(h) == seq![i],
        confidence_num(h) == i,
{
    lemma_single_raised_upto(h, i as int, h.len() as int);
}

/// Finds the peaks of a non-empty histogram, with their confidence as an exact
/// fraction over the histogram's length.
pub fn calculate_peaks(arr: Vec<usize>) -> (r: (Ratio, Vec<usize>))
    requires
        arr@.len() > 0,
        total(arr@) <= usize::MAX,
    ensures
        r.1@ == peaks(arr@),
        forall|k: int| 0 <= k < r.1@.len() ==> r.1@[k] < arr@.len(),
        r.0.num == confidence_num(arr@),
        r.0.den == arr@.len(),
{
    let n = arr.len();
    let mut sum: usize = 0;
    let mut i: usize = 0;
    while i < n
        invariant
            n == arr@.len(),
            i <= n,
            sum == sum_upto(arr@, i as int),
            total(arr@) <= usize::MAX,
        decreases n - i,
    {
        proof {
            lemma_sum_upto_monotone(arr@, i + 1, n as int);
        }
        sum = sum + arr[i];
        i = i + 1;
    }
    proof {
        assert(sum / n + n / 4 <= usize::MAX) by (nonlinear_arith)
            requires
                sum <= usize::MAX,
                1 <= n <= usize::MAX,
        {
            if n >= 2 {
                assert(sum / n <= sum / 2);
            }
        }
    }
    let avg: usize = sum / n + n / 4;
    assert(avg == threshold(arr@));

    let mut above: Vec<usize> = Vec::new();
    let mut starts: Vec<usize> = Vec::new();
    let mut mass: usize = 0;
    let mut prev_raised = false;
    let mut j: usize = 0;
    while j < n
        invariant
            n == arr@.len(),
            j <= n,
            avg == threshold(arr@),
            sum == total(arr@),
            sum <= usize::MAX,
            above@ == raised_upto(arr@, j as int),
            starts@ == run_starts_upto(arr@, j as int),
            mass == run_mass_upto(arr@, j as int),
            j > 0 ==> prev_raised == raised(arr@, j - 1),
        decreases n - j,
    {
        let is_raised = arr[j] > avg;
        proof {
            lemma_run_mass_le_sum(arr@, j + 1);
            lemma_sum_upto_monotone(arr@, j + 1, n as int);
        }
        if is_raised {
            above.push(j);
            if j == 0 || !prev_raised {
                starts.push(j);
                mass = mass + arr[j];
            }
        }
        prev_raised = is_raised;
        j = j + 1;
    }
    if above.len() == 1 {
        proof {
            lemma_indices_below(arr@, n as int);
        }
        let idx = above[0];
        proof {
            lemma_peaks_in_range(arr@);
            assert(above@ == peaks(arr@));
        }
        (Ratio { num: idx, den: n }, above)
    } else {
        proof {
            lemma_peaks_in_range(arr@);
            assert(starts@ == peaks(arr@));
        }
        (Ratio { num: mass, den: n }, starts)
    }
}

} // verus!
