//! The multiplet cascade: breadth-first expansion of a peak's splitters
//! into per-stage lists of weighted peaklets.
//!
//! Stage `k` holds the peaklets produced by the first `k` splitters, in
//! parent-contiguous order: the `n + 1` children of one stage-`(k-1)`
//! parent occupy one contiguous run, and the runs appear in parent order.
//! All shifts of a cascade share one denominator (`shift_den`: twice the
//! product of the coupling constants' denominators), and all weights of
//! stage `k` share the denominator `2^(n_0 + .. + n_(k-1))`, so every
//! quantity is an exact rational and the per-stage weight sums are exact.

use vstd::arithmetic::power2::{lemma_pow2_adds, lemma_pow2_pos, pow2};
use vstd::prelude::*;

use crate::distribution::{DistributionKind, DistributionSum, RenormalizedDistribution};
use crate::numerics::{binom, lemma_binom_le_pow2, lemma_binom_pos};
use crate::peak::{Peak, Peaklet, Splitter};
use crate::rational::{lemma_mul_bound, spec_rational, Rational, DEN_MAX, NUM_MAX};

verus! {

/// Sum of the proton counts of the first `k` splitters.
pub open spec fn sum_n(ss: Seq<Splitter>, k: int) -> int
    decreases k,
{
    if k <= 0 {
        0
    } else {
        sum_n(ss, k - 1) + ss[k - 1].n
    }
}

/// Product of the coupling-constant denominators of the first `k`
/// splitters.
pub open spec fn den_prod(ss: Seq<Splitter>, k: int) -> int
    decreases k,
{
    if k <= 0 {
        1
    } else {
        den_prod(ss, k - 1) * ss[k - 1].j.denom()
    }
}

/// Product of the coupling-constant denominators from splitter `k` on.
pub open spec fn den_prod_from(ss: Seq<Splitter>, k: int) -> int
    decreases ss.len() - k,
{
    if k < 0 || k >= ss.len() {
        1
    } else {
        ss[k].j.denom() * den_prod_from(ss, k + 1)
    }
}

/// The common denominator of every shift in the cascade: twice the product
/// of all coupling-constant denominators.
pub open spec fn shift_den(ss: Seq<Splitter>) -> int {
    2 * den_prod(ss, ss.len() as int)
}

/// Splitter `k`'s coupling constant, scaled to units of `1 / shift_den`
/// and halved: adjacent children of one parent sit `2 * step_of(ss, k)`
/// apart, and the run of children is centered on the parent.
pub open spec fn step_of(ss: Seq<Splitter>, k: int) -> int {
    ss[k].j.numer() * (den_prod(ss, k) * den_prod_from(ss, k + 1))
}

/// Largest shift numerator magnitude any peaklet of the first `k` stages
/// can have: the half-spread of the whole multiplet, in `1 / shift_den`
/// units.
pub open spec fn span(ss: Seq<Splitter>, k: int) -> int
    decreases k,
{
    if k <= 0 {
        0
    } else {
        span(ss, k - 1) + ss[k - 1].n * step_of(ss, k - 1)
    }
}

/// Number of peaklets in stage `k`: the product of the peaklet counts of
/// the first `k` splitters.
pub open spec fn stage_width(ss: Seq<Splitter>, k: int) -> int
    decreases k,
{
    if k <= 0 {
        1
    } else {
        stage_width(ss, k - 1) * (ss[k - 1].n + 1)
    }
}

/// A modelled peaklet: shift numerator (over `shift_den`) and weight
/// numerator (over `2^sum_n`).
pub type PeakletModel = (int, int);

/// Child `i` (of `ss[k].n + 1`) of a parent peaklet under splitter `k`:
/// shifted to position `i` of the symmetric run, weighted by the `i`-th
/// binomial coefficient.
pub open spec fn child_of(p: PeakletModel, ss: Seq<Splitter>, k: int, i: int) -> PeakletModel {
    (p.0 + (2 * i - ss[k].n) * step_of(ss, k), p.1 * binom(ss[k].n as nat, i as nat))
}

/// Stage `k` of the cascade built from `ss`: stage 0 is the parent singlet
/// (shift 0, weight 1), and stage `k + 1` lists, for each stage-`k` parent
/// in order, its `ss[k].n + 1` children in order.
pub open spec fn stage_model(ss: Seq<Splitter>, k: int) -> Seq<PeakletModel>
    decreases k,
{
    if k <= 0 {
        seq![(0int, 1int)]
    } else {
        let prev = stage_model(ss, k - 1);
        let count = ss[k - 1].n + 1;
        Seq::new(
            (prev.len() * count) as nat,
            |idx: int| child_of(prev[idx / count], ss, k - 1, idx % count),
        )
    }
}

pub proof fn lemma_stage_model_len(ss: Seq<Splitter>, k: int)
    requires
        0 <= k,
    ensures
        stage_model(ss, k).len() == stage_width(ss, k),
        stage_width(ss, k) >= 1,
    decreases k,
{
    if k > 0 {
        lemma_stage_model_len(ss, k - 1);
        let w = stage_width(ss, k - 1);
        let count = ss[k - 1].n + 1;
        assert(w * count >= w * 1 >= 1) by (nonlinear_arith)
            requires
                w >= 1,
                count >= 1;
    }
}

/// All splitters of `ss` are well formed.
pub open spec fn all_wf(ss: Seq<Splitter>) -> bool {
    forall|k: int| 0 <= k < ss.len() ==> (#[trigger] ss[k]).wf()
}

pub proof fn lemma_den_prod_bounds(ss: Seq<Splitter>, k: int, m: int)
    requires
        all_wf(ss),
        0 <= k <= m <= ss.len(),
    ensures
        1 <= den_prod(ss, k) <= den_prod(ss, m),
    decreases m - k,
{
    if k == m {
        lemma_den_prod_pos(ss, k);
    } else {
        lemma_den_prod_bounds(ss, k, m - 1);
        let d = ss[m - 1].j.denom();
        assert(den_prod(ss, m) == den_prod(ss, m - 1) * d);
        assert(den_prod(ss, m - 1) * d >= den_prod(ss, m - 1) * 1) by (nonlinear_arith)
            requires
                den_prod(ss, m - 1) >= 1,
                d >= 1;
    }
}

pub proof fn lemma_den_prod_pos(ss: Seq<Splitter>, k: int)
    requires
        all_wf(ss),
        0 <= k <= ss.len(),
    ensures
        1 <= den_prod(ss, k),
    decreases k,
{
    if k > 0 {
        lemma_den_prod_pos(ss, k - 1);
        let d = ss[k - 1].j.denom();
        assert(den_prod(ss, k - 1) * d >= 1) by (nonlinear_arith)
            requires
                den_prod(ss, k - 1) >= 1,
                d >= 1;
    }
}

pub proof fn lemma_den_prod_from_bounds(ss: Seq<Splitter>, k: int)
    requires
        all_wf(ss),
        0 <= k <= ss.len(),
    ensures
        1 <= den_prod_from(ss, k),
        den_prod(ss, k) * den_prod_from(ss, k) == den_prod(ss, ss.len() as int),
    decreases ss.len() - k,
{
    if k == ss.len() {
        lemma_den_prod_pos(ss, k);
    } else {
        lemma_den_prod_from_bounds(ss, k + 1);
        let d = ss[k].j.denom();
        let a = den_prod(ss, k);
        let b = den_prod_from(ss, k + 1);
        lemma_den_prod_pos(ss, k);
        assert(d * b >= 1) by (nonlinear_arith)
            requires
                d >= 1,
                b >= 1;
        assert(den_prod(ss, k + 1) == a * d);
        assert(a * (d * b) == (a * d) * b) by (nonlinear_arith);
    }
}

/// Steps are non-negative for well-formed splitters.
pub proof fn lemma_step_nonneg(ss: Seq<Splitter>, k: int)
    requires
        all_wf(ss),
        0 <= k < ss.len(),
    ensures
        step_of(ss, k) >= 0,
{
    lemma_den_prod_pos(ss, k);
    lemma_den_prod_from_bounds(ss, k + 1);
    let a = den_prod(ss, k);
    let b = den_prod_from(ss, k + 1);
    assert(ss[k].j.numer() * (a * b) >= 0) by (nonlinear_arith)
        requires
            ss[k].j.numer() >= 0,
            a >= 1,
            b >= 1;
}

/// The span grows monotonically with the stage.
pub proof fn lemma_span_monotone(ss: Seq<Splitter>, k: int, m: int)
    requires
        all_wf(ss),
        0 <= k <= m <= ss.len(),
    ensures
        0 <= span(ss, k) <= span(ss, m),
    decreases m - k,
{
    if k == m {
        lemma_span_nonneg(ss, k);
    } else {
        lemma_span_monotone(ss, k, m - 1);
        lemma_step_nonneg(ss, m - 1);
        assert(ss[m - 1].n * step_of(ss, m - 1) >= 0) by (nonlinear_arith)
            requires
                ss[m - 1].n >= 0,
                step_of(ss, m - 1) >= 0;
    }
}

pub proof fn lemma_span_nonneg(ss: Seq<Splitter>, k: int)
    requires
        all_wf(ss),
        0 <= k <= ss.len(),
    ensures
        0 <= span(ss, k),
    decreases k,
{
    if k > 0 {
        lemma_span_nonneg(ss, k - 1);
        lemma_step_nonneg(ss, k - 1);
        assert(ss[k - 1].n * step_of(ss, k - 1) >= 0) by (nonlinear_arith)
            requires
                ss[k - 1].n >= 0,
                step_of(ss, k - 1) >= 0;
    }
}

pub proof fn lemma_sum_n_bounds(ss: Seq<Splitter>, k: int, m: int)
    requires
        0 <= k <= m <= ss.len(),
    ensures
        0 <= sum_n(ss, k) <= sum_n(ss, m),
    decreases m - k,
{
    if k == m {
        lemma_sum_n_nonneg(ss, k);
    } else {
        lemma_sum_n_bounds(ss, k, m - 1);
    }
}

pub proof fn lemma_sum_n_nonneg(ss: Seq<Splitter>, k: int)
    requires
        0 <= k,
    ensures
        0 <= sum_n(ss, k),
    decreases k,
{
    if k > 0 {
        lemma_sum_n_nonneg(ss, k - 1);
    }
}

/// Every modelled shift of stage `k` is bounded by the stage's span, and
/// every modelled weight sits in `1 ..= 2^sum_n`.
pub proof fn lemma_stage_model_bounds(ss: Seq<Splitter>, k: int)
    requires
        all_wf(ss),
        0 <= k <= ss.len(),
    ensures
        forall|i: int|
            0 <= i < stage_model(ss, k).len() ==> {
                let p = #[trigger] stage_model(ss, k)[i];
                &&& -span(ss, k) <= p.0 <= span(ss, k)
                &&& 1 <= p.1 <= pow2(sum_n(ss, k) as nat)
            },
    decreases k,
{
    lemma_sum_n_nonneg(ss, k);
    if k == 0 {
        assert(pow2(0) == 1) by {
            vstd::arithmetic::power2::lemma2_to64();
        }
    } else {
        lemma_stage_model_bounds(ss, k - 1);
        lemma_sum_n_nonneg(ss, k - 1);
        lemma_stage_model_len(ss, k - 1);
        lemma_step_nonneg(ss, k - 1);
        let prev = stage_model(ss, k - 1);
        let n = ss[k - 1].n as int;
        let count = n + 1;
        let step = step_of(ss, k - 1);
        let cur = stage_model(ss, k);
        assert forall|i: int| 0 <= i < cur.len() implies {
            let p = #[trigger] cur[i];
            &&& -span(ss, k) <= p.0 <= span(ss, k)
            &&& 1 <= p.1 <= pow2(sum_n(ss, k) as nat)
        } by {
            let q = i / count;
            let r = i % count;
            assert(0 <= q < prev.len() && 0 <= r < count) by {
                vstd::arithmetic::div_mod::lemma_div_pos_is_pos(i, count);
                vstd::arithmetic::div_mod::lemma_multiply_divide_lt(i, count, prev.len() as int);
                vstd::arithmetic::div_mod::lemma_mod_bound(i, count);
                assert(count * prev.len() == prev.len() * count) by (nonlinear_arith);
            }
            let parent = prev[q];
            assert(cur[i] == child_of(parent, ss, k - 1, r));
            // Shift: the child moves at most n * step from its parent.
            assert(-(n * step) <= (2 * r - n) * step <= n * step) by (nonlinear_arith)
                requires
                    0 <= r <= n,
                    step >= 0;
            // Weight: multiplied by a binomial entry of row n.
            let b = binom(ss[k - 1].n as nat, r as nat) as int;
            lemma_binom_pos(ss[k - 1].n as nat, r as nat);
            lemma_binom_le_pow2(ss[k - 1].n as nat, r as nat);
            assert(parent.1 * 1 <= parent.1 * b) by (nonlinear_arith)
                requires
                    parent.1 >= 1,
                    b >= 1;
            assert(parent.1 * b <= pow2(sum_n(ss, k - 1) as nat) * pow2(ss[k - 1].n as nat))
                by (nonlinear_arith)
                requires
                    1 <= parent.1 <= pow2(sum_n(ss, k - 1) as nat),
                    1 <= b <= pow2(ss[k - 1].n as nat);
            lemma_pow2_adds(sum_n(ss, k - 1) as nat, ss[k - 1].n as nat);
            assert(parent.1 * 1 == parent.1) by (nonlinear_arith);
        }
    }
}

impl Peak {
    /// A peak whose cascade the machine can build exactly: proton counts
    /// sum to at most 57 and the scaled coupling constants stay inside the
    /// rational bounds.
    pub open spec fn buildable(self) -> bool {
        let ss = self.splitters@;
        &&& self.wf()
        &&& sum_n(ss, ss.len() as int) <= crate::numerics::MAX_ROW_ORDER
        &&& shift_den(ss) <= DEN_MAX
        &&& span(ss, ss.len() as int) <= NUM_MAX
        &&& forall|k: int| 0 <= k < ss.len() ==> step_of(ss, k) <= NUM_MAX
    }

    /// Decide at run time whether this peak's cascade can be built: the
    /// check an unverified owner makes before calling
    /// `build_multiplet_cascade`.
    pub fn is_buildable(&self) -> (r: bool)
        ensures
            r == self.buildable(),
    {
        let ghost ss = self.splitters@;
        let len = self.splitters.len();

        if !(self.fwhm.is_well_formed() && self.fwhm.num() > 0) {
            return false;
        }
        let mut k: usize = 0;
        while k < len
            invariant
                ss == self.splitters@,
                len == ss.len(),
                k <= len,
                forall|q: int| 0 <= q < k ==> (#[trigger] ss[q]).wf(),
            decreases len - k,
        {
            let sp = self.splitters[k];
            if !(sp.j.is_well_formed() && sp.j.num() >= 0) {
                return false;
            }
            k = k + 1;
        }

        // Total proton count.
        let mut total_n: u64 = 0;
        let mut k: usize = 0;
        while k < len
            invariant
                ss == self.splitters@,
                len == ss.len(),
                k <= len,
                total_n == sum_n(ss, k as int),
                total_n <= crate::numerics::MAX_ROW_ORDER,
            decreases len - k,
        {
            proof {
                lemma_sum_n_nonneg(ss, k as int);
            }
            let next = total_n + self.splitters[k].n as u64;
            if next > crate::numerics::MAX_ROW_ORDER as u64 {
                proof {
                    lemma_sum_n_bounds(ss, k + 1, len as int);
                }
                return false;
            }
            total_n = next;
            k = k + 1;
        }

        // The common shift denominator.
        let mut dprod: i64 = 1;
        let mut k: usize = 0;
        while k < len
            invariant
                ss == self.splitters@,
                len == ss.len(),
                all_wf(ss),
                k <= len,
                dprod == den_prod(ss, k as int),
                1 <= dprod,
                2 * dprod <= DEN_MAX,
            decreases len - k,
        {
            let d = self.splitters[k].j.den();
            proof {
                assert(ss[k as int].wf());
                lemma_mul_bound(dprod as int, d as int, DEN_MAX as int, DEN_MAX as int);
            }
            let next = (dprod as i128) * (d as i128);
            proof {
                lemma_den_prod_pos(ss, k + 1);
                if 2 * (dprod as int) * (d as int) > DEN_MAX {
                    lemma_den_prod_bounds(ss, k + 1, len as int);
                    assert(2 * den_prod(ss, len as int) >= 2 * den_prod(ss, k + 1));
                }
                assert(2 * ((dprod as int) * (d as int)) == 2 * (dprod as int) * (d as int))
                    by (nonlinear_arith);
            }
            if next > (DEN_MAX / 2) as i128 {
                return false;
            }
            dprod = next as i64;
            k = k + 1;
        }

        // Scaled steps and the total span.
        let mut pre: Vec<i64> = Vec::new();
        pre.push(1);
        let mut k: usize = 0;
        while k < len
            invariant
                ss == self.splitters@,
                len == ss.len(),
                all_wf(ss),
                2 * den_prod(ss, len as int) <= DEN_MAX,
                k <= len,
                pre@.len() == k + 1,
                forall|q: int| 0 <= q <= k ==> pre@[q] == den_prod(ss, q),
            decreases len - k,
        {
            proof {
                lemma_den_prod_bounds(ss, k + 1, len as int);
                lemma_den_prod_bounds(ss, k as int, len as int);
            }
            let next = pre[k] * self.splitters[k].j.den();
            pre.push(next);
            k = k + 1;
        }
        let mut suf_rev: Vec<i64> = Vec::new();
        suf_rev.push(1);
        let mut t: usize = 0;
        while t < len
            invariant
                ss == self.splitters@,
                len == ss.len(),
                all_wf(ss),
                2 * den_prod(ss, len as int) <= DEN_MAX,
                t <= len,
                suf_rev@.len() == t + 1,
                forall|q: int| 0 <= q <= t ==> suf_rev@[q] == den_prod_from(ss, len - q),
            decreases len - t,
        {
            proof {
                lemma_den_prod_from_bounds(ss, len - (t + 1));
                lemma_den_prod_bounds(ss, 0, (len - t - 1) as int);
                lemma_den_prod_pos(ss, (len - t - 1) as int);
                let a = den_prod(ss, (len - t - 1) as int);
                let b = den_prod_from(ss, (len - t - 1) as int);
                assert(b <= a * b) by (nonlinear_arith)
                    requires
                        1 <= a,
                        1 <= b,
                ;
            }
            let next = self.splitters[len - t - 1].j.den() * suf_rev[t];
            suf_rev.push(next);
            t = t + 1;
        }

        let mut span_total: i128 = 0;
        let mut k: usize = 0;
        while k < len
            invariant
                ss == self.splitters@,
                len == ss.len(),
                all_wf(ss),
                2 * den_prod(ss, len as int) <= DEN_MAX,
                pre@.len() == len + 1,
                forall|q: int| 0 <= q <= len ==> pre@[q] == den_prod(ss, q),
                suf_rev@.len() == len + 1,
                forall|q: int| 0 <= q <= len ==> suf_rev@[q] == den_prod_from(ss, len - q),
                k <= len,
                span_total == span(ss, k as int),
                0 <= span_total <= NUM_MAX,
                forall|q: int| 0 <= q < k ==> step_of(ss, q) <= NUM_MAX,
            decreases len - k,
        {
            let jn = self.splitters[k].j.num();
            let a = pre[k];
            let b = suf_rev[len - k - 1];
            proof {
                lemma_den_prod_pos(ss, k as int);
                lemma_den_prod_from_bounds(ss, k as int);
                lemma_den_prod_from_bounds(ss, k + 1);
                lemma_step_nonneg(ss, k as int);
                let d = ss[k as int].j.denom();
                // `a * b` divides the full denominator product, so it stays
                // inside the denominator bound.
                assert((a as int) * (b as int) * d == den_prod(ss, len as int))
                    by (nonlinear_arith)
                    requires
                        den_prod(ss, k as int) * den_prod_from(ss, k as int) == den_prod(
                            ss,
                            len as int,
                        ),
                        den_prod_from(ss, k as int) == d * den_prod_from(ss, k + 1),
                        a == den_prod(ss, k as int),
                        b == den_prod_from(ss, k + 1),
                ;
                assert(0 <= (a as int) * (b as int) <= den_prod(ss, len as int))
                    by (nonlinear_arith)
                    requires
                        (a as int) * (b as int) * d == den_prod(ss, len as int),
                        a >= 1,
                        b >= 1,
                        d >= 1,
                ;
                assert((jn as int) * ((a as int) * (b as int)) == step_of(ss, k as int));
                lemma_mul_bound(jn as int, (a as int) * (b as int), NUM_MAX as int, DEN_MAX as int);
            }
            let prod = (a as i128) * (b as i128);
            let step = (jn as i128) * prod;
            if step > NUM_MAX as i128 {
                return false;
            }
            let n = self.splitters[k].n;
            proof {
                lemma_mul_bound(n as int, step as int, u32::MAX as int, NUM_MAX as int);
            }
            let next = span_total + (n as i128) * step;
            if next > NUM_MAX as i128 {
                proof {
                    lemma_span_monotone(ss, k + 1, len as int);
                }
                return false;
            }
            proof {
                lemma_span_nonneg(ss, k + 1);
            }
            span_total = next;
            k = k + 1;
        }
        true
    }
}

/// `n + 1 <= 2^n`.
pub proof fn lemma_count_le_pow2(n: nat)
    ensures
        n + 1 <= pow2(n),
    decreases n,
{
    if n == 0 {
        vstd::arithmetic::power2::lemma2_to64();
    } else {
        lemma_count_le_pow2((n - 1) as nat);
        lemma_pow2_adds((n - 1) as nat, 1);
        vstd::arithmetic::power2::lemma2_to64();
    }
}

/// The stage width never exceeds `2^sum_n`.
pub proof fn lemma_stage_width_le_pow2(ss: Seq<Splitter>, k: int)
    requires
        0 <= k,
    ensures
        1 <= stage_width(ss, k) <= pow2(sum_n(ss, k) as nat),
    decreases k,
{
    lemma_sum_n_nonneg(ss, k);
    if k == 0 {
        vstd::arithmetic::power2::lemma2_to64();
    } else {
        lemma_stage_width_le_pow2(ss, k - 1);
        lemma_sum_n_nonneg(ss, k - 1);
        let n = ss[k - 1].n as nat;
        lemma_count_le_pow2(n);
        lemma_pow2_adds(sum_n(ss, k - 1) as nat, n);
        assert(stage_width(ss, k - 1) * (n + 1) <= pow2(sum_n(ss, k - 1) as nat) * pow2(n))
            by (nonlinear_arith)
            requires
                1 <= stage_width(ss, k - 1) <= pow2(sum_n(ss, k - 1) as nat),
                1 <= n + 1 <= pow2(n),
        ;
        assert(stage_width(ss, k - 1) * 1 <= stage_width(ss, k - 1) * (n + 1))
            by (nonlinear_arith)
            requires
                1 <= stage_width(ss, k - 1),
                1 <= n + 1,
        ;
    }
}

/// A concrete stage list matches the model at stage `k`: same length, and
/// every peaklet carries the modelled shift over the cascade's common
/// denominator and the modelled weight over `2^sum_n`.
pub open spec fn stage_ok(ss: Seq<Splitter>, st: Seq<Peaklet>, k: int) -> bool {
    &&& st.len() == stage_model(ss, k).len()
    &&& forall|i: int|
        0 <= i < st.len() ==> {
            let p = #[trigger] st[i];
            &&& p.delta.numer() == stage_model(ss, k)[i].0
            &&& p.delta.denom() == shift_den(ss)
            &&& p.integration.numer() == stage_model(ss, k)[i].1
            &&& p.integration.denom() == pow2(sum_n(ss, k) as nat)
            &&& p.wf()
        }
}

/// Splitting patterns resulting from the cumulative contributions of all
/// preceding splitters, starting from the parent singlet.
///
/// _E.g._, s -> q -> qd -> qdd.
#[derive(Clone)]
pub struct MultipletCascade {
    /// Splitting patterns resulting from contributions of the first n
    /// splitters only.  The ordering of peaklets within each stage is
    /// meaningful: children of the same peaklet appear consecutively, and
    /// these groups are in the same order as the parent stage.
    stages: Vec<Vec<Peaklet>>,
    /// Full width at half maximum of a single peaklet, in Hz.
    fwhm: Rational,
    /// The denominator shared by every peaklet shift.
    shift_den: i64,
    /// The splitter chain this cascade was built from.
    splitters: Ghost<Seq<Splitter>>,
}

impl MultipletCascade {
    /// The splitter chain this cascade was built from.
    pub closed spec fn spec_splitters(self) -> Seq<Splitter> {
        self.splitters@
    }

    /// All stages, as sequences of peaklets.
    pub closed spec fn spec_stages(self) -> Seq<Seq<Peaklet>> {
        self.stages@.map_values(|v: Vec<Peaklet>| v@)
    }

    /// The denominator shared by every peaklet shift.
    pub closed spec fn spec_shift_den(self) -> int {
        self.shift_den as int
    }

    /// The line width every peaklet is rendered with, in Hz.
    pub closed spec fn spec_fwhm(self) -> Rational {
        self.fwhm
    }

    /// The line width every peaklet is rendered with, in Hz.
    pub fn fwhm(&self) -> (r: Rational)
        ensures
            r == self.spec_fwhm(),
    {
        self.fwhm
    }

    /// A well-formed cascade: one stage per applied splitter prefix, each
    /// matching the model.
    pub open spec fn wf(self) -> bool {
        let ss = self.spec_splitters();
        &&& self.spec_fwhm().wf()
        &&& self.spec_fwhm().numer() > 0
        &&& all_wf(ss)
        &&& sum_n(ss, ss.len() as int) <= crate::numerics::MAX_ROW_ORDER
        &&& shift_den(ss) <= DEN_MAX
        &&& span(ss, ss.len() as int) <= NUM_MAX
        &&& self.spec_shift_den() == shift_den(ss)
        &&& self.spec_stages().len() == ss.len() + 1
        &&& forall|k: int| 0 <= k <= ss.len() ==> stage_ok(ss, self.spec_stages()[k], k)
    }
}

impl Peak {
    /// Expand the splitter chain into the full cascade, stage by stage:
    /// stage 0 is the parent singlet, and each splitter turns every peaklet
    /// of the previous stage into a symmetric, binomially weighted run of
    /// children, recorded in parent order.
    pub fn build_multiplet_cascade(&self) -> (c: MultipletCascade)
        requires
            self.buildable(),
        ensures
            c.wf(),
            c.spec_splitters() == self.splitters@,
            c.spec_fwhm() == self.fwhm,
    {
        let ghost ss = self.splitters@;
        let len = self.splitters.len();

        // Prefix products of the coupling-constant denominators.
        let mut pre: Vec<i64> = Vec::new();
        pre.push(1);
        let mut i: usize = 0;
        while i < len
            invariant
                all_wf(ss),
                ss == self.splitters@,
                len == ss.len(),
                shift_den(ss) <= DEN_MAX,
                i <= len,
                pre@.len() == i + 1,
                forall|q: int| 0 <= q <= i ==> pre@[q] == den_prod(ss, q),
            decreases len - i,
        {
            proof {
                lemma_den_prod_bounds(ss, i + 1, len as int);
                lemma_den_prod_bounds(ss, i as int, len as int);
            }
            let next = pre[i] * self.splitters[i].j.den();
            pre.push(next);
            i = i + 1;
        }

        // Suffix products, most significant last: suf_rev[t] is the product
        // of the denominators of the last t splitters.
        let mut suf_rev: Vec<i64> = Vec::new();
        suf_rev.push(1);
        let mut t: usize = 0;
        while t < len
            invariant
                all_wf(ss),
                ss == self.splitters@,
                len == ss.len(),
                shift_den(ss) <= DEN_MAX,
                t <= len,
                suf_rev@.len() == t + 1,
                forall|q: int| 0 <= q <= t ==> suf_rev@[q] == den_prod_from(ss, len - q),
            decreases len - t,
        {
            proof {
                lemma_den_prod_from_bounds(ss, len - (t + 1));
                lemma_den_prod_bounds(ss, 0, (len - t - 1) as int);
                lemma_den_prod_pos(ss, (len - t - 1) as int);
                let a = den_prod(ss, (len - t - 1) as int);
                let b = den_prod_from(ss, (len - t - 1) as int);
                assert(b <= a * b) by (nonlinear_arith)
                    requires
                        1 <= a,
                        1 <= b,
                ;
            }
            let next = self.splitters[len - t - 1].j.den() * suf_rev[t];
            suf_rev.push(next);
            t = t + 1;
        }

        proof {
            lemma_den_prod_pos(ss, len as int);
        }
        let dden = 2 * pre[len];

        // The per-splitter shift steps, scaled to units of 1 / dden.
        let mut steps: Vec<i64> = Vec::new();
        let mut k: usize = 0;
        while k < len
            invariant
                all_wf(ss),
                ss == self.splitters@,
                len == ss.len(),
                forall|q: int| 0 <= q < len ==> step_of(ss, q) <= NUM_MAX,
                pre@.len() == len + 1,
                forall|q: int| 0 <= q <= len ==> pre@[q] == den_prod(ss, q),
                suf_rev@.len() == len + 1,
                forall|q: int| 0 <= q <= len ==> suf_rev@[q] == den_prod_from(ss, len - q),
                k <= len,
                steps@.len() == k,
                forall|q: int| 0 <= q < k ==> steps@[q] == step_of(ss, q),
            decreases len - k,
        {
            let jn = self.splitters[k].j.num();
            let a = pre[k];
            let b = suf_rev[len - k - 1];
            proof {
                lemma_den_prod_pos(ss, k as int);
                lemma_den_prod_from_bounds(ss, k + 1);
                lemma_step_nonneg(ss, k as int);
                // All factors are at least 1 (or the numerator 0), so the
                // partial product is bounded by the full step.
                assert((jn as int) * (a as int) * (b as int) == step_of(ss, k as int))
                    by (nonlinear_arith)
                    requires
                        jn == ss[k as int].j.numer(),
                        a == den_prod(ss, k as int),
                        b == den_prod_from(ss, k + 1),
                        step_of(ss, k as int) == ss[k as int].j.numer() * (den_prod(ss, k as int)
                            * den_prod_from(ss, k + 1)),
                ;
                assert(0 <= (jn as int) * (a as int) <= (jn as int) * (a as int) * (b as int))
                    by (nonlinear_arith)
                    requires
                        jn >= 0,
                        a >= 1,
                        b >= 1,
                ;
            }
            let partial = jn * a;
            let step = partial * b;
            steps.push(step);
            k = k + 1;
        }

        // Stage 0: the parent singlet.
        let mut stages: Vec<Vec<Peaklet>> = Vec::new();
        let mut base_stage: Vec<Peaklet> = Vec::new();
        base_stage.push(
            Peaklet { delta: Rational::new(0, dden), integration: Rational::one() },
        );
        stages.push(base_stage);
        proof {
            vstd::arithmetic::power2::lemma2_to64();
            assert(stage_ok(ss, stages@[0]@, 0));
        }

        let mut wden: i64 = 1;
        let mut k: usize = 0;
        while k < len
            invariant
                all_wf(ss),
                ss == self.splitters@,
                len == ss.len(),
                sum_n(ss, len as int) <= crate::numerics::MAX_ROW_ORDER,
                shift_den(ss) <= DEN_MAX,
                span(ss, len as int) <= NUM_MAX,
                steps@.len() == len,
                forall|q: int| 0 <= q < len ==> steps@[q] == step_of(ss, q),
                dden == shift_den(ss),
                2 <= dden <= DEN_MAX,
                k <= len,
                wden == pow2(sum_n(ss, k as int) as nat),
                stages@.len() == k + 1,
                forall|m: int| 0 <= m <= k ==> stage_ok(ss, stages@[m]@, m),
            decreases len - k,
        {
            let sp = self.splitters[k];
            proof {
                lemma_sum_n_bounds(ss, k as int, len as int);
                lemma_sum_n_bounds(ss, k + 1, len as int);
                lemma_sum_n_nonneg(ss, k as int);
            }
            let row = crate::numerics::pascals_triangle(sp.n);
            proof {
                lemma_pow2_adds(sum_n(ss, k as int) as nat, sp.n as nat);
                crate::numerics::lemma_pow2_le_max57(sum_n(ss, k + 1) as nat);
                crate::numerics::lemma_pow2_le_max57(sum_n(ss, k as int) as nat);
                vstd::arithmetic::power2::lemma2_to64();
                vstd::arithmetic::power2::lemma2_to64_rest();
                lemma_pow2_pos(sum_n(ss, k + 1) as nat);
            }
            let next_wden = wden * crate::numerics::pow2_i64(sp.n);
            let count = sp.n as usize + 1;
            let step = steps[k];
            let parent_count = stages[k].len();
            proof {
                lemma_stage_model_len(ss, k as int);
                lemma_stage_model_len(ss, k + 1);
                lemma_stage_model_bounds(ss, k as int);
                lemma_stage_model_bounds(ss, k + 1);
                lemma_span_monotone(ss, k as int, len as int);
                lemma_span_monotone(ss, k + 1, len as int);
                lemma_span_nonneg(ss, k as int);
                lemma_step_nonneg(ss, k as int);
            }
            let mut next: Vec<Peaklet> = Vec::new();
            let mut p: usize = 0;
            while p < parent_count
                invariant
                    all_wf(ss),
                    ss == self.splitters@,
                    len == ss.len(),
                    k < len,
                    sp == ss[k as int],
                    sp.n <= crate::numerics::MAX_ROW_ORDER,
                    span(ss, k + 1) <= NUM_MAX,
                    count == sp.n + 1,
                    row@.len() == count,
                    forall|q: int| 0 <= q < count ==> row@[q] == binom(sp.n as nat, q as nat),
                    step == step_of(ss, k as int),
                    0 <= step,
                    2 <= dden <= DEN_MAX,
                    dden == shift_den(ss),
                    wden == pow2(sum_n(ss, k as int) as nat),
                    next_wden == pow2(sum_n(ss, k + 1) as nat),
                    1 <= next_wden <= DEN_MAX,
                    stages@.len() == k + 1,
                    stage_ok(ss, stages@[k as int]@, k as int),
                    parent_count == stages@[k as int]@.len(),
                    parent_count == stage_model(ss, k as int).len(),
                    forall|i2: int|
                        0 <= i2 < stage_model(ss, k as int).len() ==> {
                            let q = #[trigger] stage_model(ss, k as int)[i2];
                            &&& -span(ss, k as int) <= q.0 <= span(ss, k as int)
                            &&& 1 <= q.1 <= pow2(sum_n(ss, k as int) as nat)
                        },
                    forall|i2: int|
                        0 <= i2 < stage_model(ss, k + 1).len() ==> {
                            let q = #[trigger] stage_model(ss, k + 1)[i2];
                            &&& -span(ss, k + 1) <= q.0 <= span(ss, k + 1)
                            &&& 1 <= q.1 <= pow2(sum_n(ss, k + 1) as nat)
                        },
                    -span(ss, k as int) <= span(ss, k as int) <= span(ss, k + 1) <= NUM_MAX,
                    p <= parent_count,
                    next@.len() == p * count,
                    next@.len() <= stage_model(ss, k + 1).len(),
                    forall|i2: int|
                        0 <= i2 < next@.len() ==> {
                            let q = #[trigger] next@[i2];
                            &&& q.delta.numer() == stage_model(ss, k + 1)[i2].0
                            &&& q.delta.denom() == shift_den(ss)
                            &&& q.integration.numer() == stage_model(ss, k + 1)[i2].1
                            &&& q.integration.denom() == pow2(sum_n(ss, k + 1) as nat)
                            &&& q.wf()
                        },
                decreases parent_count - p,
            {
                let parent = stages[k][p];
                let mut i: usize = 0;
                proof {
                    assert(stage_model(ss, k + 1).len() == stage_model(ss, k as int).len()
                        * count);
                    assert((p + 1) * count <= stage_model(ss, k as int).len() * count)
                        by (nonlinear_arith)
                        requires
                            p + 1 <= stage_model(ss, k as int).len(),
                            count >= 1,
                    ;
                    assert(p * count + count == (p + 1) * count) by (nonlinear_arith);
                }
                while i < count
                    invariant
                        all_wf(ss),
                        ss == self.splitters@,
                        len == ss.len(),
                        k < len,
                        sp == ss[k as int],
                        sp.n <= crate::numerics::MAX_ROW_ORDER,
                        count == sp.n + 1,
                        row@.len() == count,
                        forall|q: int| 0 <= q < count ==> row@[q] == binom(sp.n as nat, q as nat),
                        step == step_of(ss, k as int),
                        0 <= step,
                        2 <= dden <= DEN_MAX,
                        dden == shift_den(ss),
                        next_wden == pow2(sum_n(ss, k + 1) as nat),
                        1 <= next_wden <= DEN_MAX,
                        p < stage_model(ss, k as int).len(),
                        parent == stages@[k as int]@[p as int],
                        stage_ok(ss, stages@[k as int]@, k as int),
                        stages@[k as int]@.len() == stage_model(ss, k as int).len(),
                        parent.delta.numer() == stage_model(ss, k as int)[p as int].0,
                        parent.integration.numer() == stage_model(ss, k as int)[p as int].1,
                        forall|i2: int|
                            0 <= i2 < stage_model(ss, k + 1).len() ==> {
                                let q = #[trigger] stage_model(ss, k + 1)[i2];
                                &&& -span(ss, k + 1) <= q.0 <= span(ss, k + 1)
                                &&& 1 <= q.1 <= pow2(sum_n(ss, k + 1) as nat)
                            },
                        span(ss, k + 1) <= NUM_MAX,
                        stage_model(ss, k + 1).len() == stage_model(ss, k as int).len() * count,
                        (p + 1) * count <= stage_model(ss, k + 1).len(),
                        p * count + count == (p + 1) * count,
                        i <= count,
                        next@.len() == p * count + i,
                        forall|i2: int|
                            0 <= i2 < next@.len() ==> {
                                let q = #[trigger] next@[i2];
                                &&& q.delta.numer() == stage_model(ss, k + 1)[i2].0
                                &&& q.delta.denom() == shift_den(ss)
                                &&& q.integration.numer() == stage_model(ss, k + 1)[i2].1
                                &&& q.integration.denom() == pow2(sum_n(ss, k + 1) as nat)
                                &&& q.wf()
                            },
                    decreases count - i,
                {
                    proof {
                        let idx = p * count + i;
                        vstd::arithmetic::div_mod::lemma_fundamental_div_mod_converse(
                            idx as int,
                            count as int,
                            p as int,
                            i as int,
                        );
                        assert(idx < (p + 1) * count);
                        assert(0 <= idx < stage_model(ss, k + 1).len());
                        assert(stage_model(ss, k + 1)[idx as int] == child_of(
                            stage_model(ss, k as int)[p as int],
                            ss,
                            k as int,
                            i as int,
                        ));
                    }
                    let coeff: i64 = 2 * (i as i64) - (sp.n as i64);
                    proof {
                        let child = stage_model(ss, k + 1)[(p * count + i) as int];
                        let pm = stage_model(ss, k as int)[p as int];
                        assert(child.0 == pm.0 + (coeff as int) * step);
                        assert(child.1 == pm.1 * binom(sp.n as nat, i as nat));
                        // The child stays within the next stage's bounds,
                        // so neither the offset nor the weight overflows.
                        assert(-span(ss, k + 1) <= child.0 <= span(ss, k + 1));
                        assert(1 <= child.1 <= pow2(sum_n(ss, k + 1) as nat));
                        assert(-(2 * NUM_MAX) <= (coeff as int) * step <= 2 * NUM_MAX);
                        lemma_binom_le_pow2(sp.n as nat, i as nat);
                        crate::numerics::lemma_pow2_le_max57(sp.n as nat);
                        vstd::arithmetic::power2::lemma2_to64();
                        vstd::arithmetic::power2::lemma2_to64_rest();
                    }
                    let offset = coeff * step;
                    let dnum = parent.delta.num() + offset;
                    let wnum = parent.integration.num() * (row[i] as i64);
                    next.push(
                        Peaklet {
                            delta: Rational::new(dnum, dden),
                            integration: Rational::new(wnum, next_wden),
                        },
                    );
                    i = i + 1;
                }
                p = p + 1;
            }
            proof {
                assert(next@.len() == stage_model(ss, k + 1).len());
            }
            stages.push(next);
            wden = next_wden;
            k = k + 1;
            proof {
                assert forall|m: int| 0 <= m <= k implies stage_ok(ss, stages@[m]@, m) by {
                    if m < k {
                        assert(stages@[m] == stages@.drop_last()[m]);
                    }
                }
            }
        }

        let c = MultipletCascade {
            stages,
            fwhm: self.fwhm,
            shift_den: dden,
            splitters: Ghost(ss),
        };
        proof {
            assert forall|m: int| 0 <= m <= ss.len() implies stage_ok(
                ss,
                c.spec_stages()[m],
                m,
            ) by {
                assert(c.spec_stages()[m] == stages@[m]@);
            }
        }
        c
    }

    /// How many peaklets the final stage holds: the product of the
    /// splitters' peaklet counts.
    pub fn total_peaklet_count(&self) -> (r: u64)
        requires
            self.buildable(),
        ensures
            r == stage_width(self.splitters@, self.splitters@.len() as int),
    {
        let ghost ss = self.splitters@;
        let len = self.splitters.len();
        let mut r: u64 = 1;
        let mut k: usize = 0;
        while k < len
            invariant
                ss == self.splitters@,
                len == ss.len(),
                sum_n(ss, len as int) <= crate::numerics::MAX_ROW_ORDER,
                k <= len,
                r == stage_width(ss, k as int),
            decreases len - k,
        {
            proof {
                lemma_stage_width_le_pow2(ss, k + 1);
                lemma_sum_n_bounds(ss, k + 1, len as int);
                lemma_sum_n_nonneg(ss, k as int);
                crate::numerics::lemma_pow2_le_max57(sum_n(ss, k + 1) as nat);
                vstd::arithmetic::power2::lemma2_to64();
                vstd::arithmetic::power2::lemma2_to64_rest();
            }
            r = r * (self.splitters[k].n as u64 + 1);
            k = k + 1;
        }
        r
    }
}

/// A parent peaklet together with the contiguous run of children it splits
/// into at the next stage.
#[derive(Clone, Debug)]
pub struct SplittingRelationship {
    pub parent: Peaklet,
    pub children: Vec<Peaklet>,
}

impl SplittingRelationship {
    pub fn children_count(&self) -> (r: usize)
        ensures
            r == self.children@.len(),
    {
        self.children.len()
    }
}

/// The weight numerators of stage `k`, over the common denominator
/// `2^sum_n(ss, k)`.
pub open spec fn stage_weights(ss: Seq<Splitter>, k: int) -> Seq<int> {
    stage_model(ss, k).map_values(|m: PeakletModel| m.1)
}

/// Weight conservation within one group: the children a single stage-`k-1`
/// parent splits into carry exactly the parent's weight.  Child weights
/// live over a denominator `2^n` times the parent's, so the sum of the
/// children's numerators is the parent's numerator times `2^n`.
pub proof fn lemma_group_weights_sum_to_parent(ss: Seq<Splitter>, k: int, p: int)
    requires
        1 <= k <= ss.len(),
        0 <= p < stage_model(ss, k - 1).len(),
    ensures
        crate::numerics::sum_ints(
            stage_weights(ss, k).subrange(
                p * (ss[k - 1].n + 1),
                (p + 1) * (ss[k - 1].n + 1),
            ),
        ) == stage_model(ss, k - 1)[p].1 * pow2(ss[k - 1].n as nat),
{
    let n = ss[k - 1].n as nat;
    let count = ss[k - 1].n + 1;
    let w = stage_model(ss, k - 1)[p].1;
    let prev_len = stage_model(ss, k - 1).len();
    assert(stage_model(ss, k).len() == prev_len * count);
    assert(0 <= p * count && (p + 1) * count <= prev_len * count && p * count + count == (p + 1)
        * count) by (nonlinear_arith)
        requires
            0 <= p < prev_len,
            count >= 1,
    ;
    let group = stage_weights(ss, k).subrange(p * count, (p + 1) * count);
    let row = crate::numerics::binom_row(n);
    let scaled = row.map_values(|x: int| w * x);
    assert forall|i: int| 0 <= i < count implies group[i] == scaled[i] by {
        let idx = p * count + i;
        vstd::arithmetic::div_mod::lemma_fundamental_div_mod_converse(
            idx,
            count,
            p,
            i,
        );
        assert(stage_model(ss, k)[idx] == child_of(
            stage_model(ss, k - 1)[p],
            ss,
            k - 1,
            i,
        ));
    }
    assert(group =~= scaled);
    crate::numerics::lemma_sum_scale(row, w);
    crate::numerics::lemma_binom_row_sum(n);
}

/// The weights of the first `p` groups of stage `k` sum to `2^n` times the
/// weights of the first `p` parents.
proof fn lemma_stage_weights_prefix(ss: Seq<Splitter>, k: int, p: int)
    requires
        1 <= k <= ss.len(),
        0 <= p <= stage_model(ss, k - 1).len(),
    ensures
        crate::numerics::sum_ints(stage_weights(ss, k).take(p * (ss[k - 1].n + 1))) == pow2(
            ss[k - 1].n as nat,
        ) * crate::numerics::sum_ints(stage_weights(ss, k - 1).take(p)),
    decreases p,
{
    let n = ss[k - 1].n as nat;
    let count = ss[k - 1].n + 1;
    let weights = stage_weights(ss, k);
    let prev_weights = stage_weights(ss, k - 1);
    let prev_len = stage_model(ss, k - 1).len();
    assert(stage_model(ss, k).len() == prev_len * count);
    assert(0 <= p * count <= prev_len * count) by (nonlinear_arith)
        requires
            0 <= p <= prev_len,
            count >= 1,
    ;
    if p == 0 {
        assert(p * count == 0) by (nonlinear_arith)
            requires
                p == 0,
        ;
        assert(weights.take(0) =~= Seq::<int>::empty());
        assert(prev_weights.take(0) =~= Seq::<int>::empty());
        assert(pow2(n) * 0 == 0) by (nonlinear_arith);
        assert(crate::numerics::sum_ints(weights.take(p * count)) == pow2(n)
            * crate::numerics::sum_ints(prev_weights.take(p)));
    } else {
        lemma_stage_weights_prefix(ss, k, p - 1);
        lemma_group_weights_sum_to_parent(ss, k, p - 1);
        assert((p - 1) * count + count == p * count && 0 <= (p - 1) * count) by (nonlinear_arith)
            requires
                1 <= p,
                count >= 1,
        ;
        let cut = (p - 1) * count;
        let whole = weights.take(p * count);
        crate::numerics::lemma_sum_split(whole, cut);
        assert(whole.take(cut) =~= weights.take(cut));
        assert(whole.skip(cut) =~= weights.subrange(cut, p * count));
        assert(weights.subrange(cut, p * count) =~= stage_weights(ss, k).subrange(
            (p - 1) * count,
            ((p - 1) + 1) * count,
        ));
        assert(prev_weights.take(p) =~= prev_weights.take(p - 1).push(prev_weights[p - 1]));
        crate::numerics::lemma_sum_push(prev_weights.take(p - 1), prev_weights[p - 1]);
        let s_prev = crate::numerics::sum_ints(prev_weights.take(p - 1));
        let w_last = prev_weights[p - 1];
        assert(w_last == stage_model(ss, k - 1)[p - 1].1);
        assert(crate::numerics::sum_ints(whole) == crate::numerics::sum_ints(weights.take(cut))
            + crate::numerics::sum_ints(whole.skip(cut)));
        assert(crate::numerics::sum_ints(whole.skip(cut)) == w_last * pow2(n));
        assert(crate::numerics::sum_ints(weights.take(cut)) == pow2(n) * s_prev);
        assert(crate::numerics::sum_ints(prev_weights.take(p)) == s_prev + w_last);
        assert(pow2(n) * (s_prev + w_last) == pow2(n) * s_prev + w_last * pow2(n))
            by (nonlinear_arith);
        assert(crate::numerics::sum_ints(weights.take(p * count)) == pow2(n)
            * crate::numerics::sum_ints(prev_weights.take(p)));
    }
}

/// Mass conservation: the weights of stage `k` sum to exactly `2^sum_n`,
/// that is, the rational weights (each over denominator `2^sum_n`) sum to
/// exactly one, for every splitter chain and every stage.
pub proof fn lemma_stage_weights_sum_to_one(ss: Seq<Splitter>, k: int)
    requires
        0 <= k <= ss.len(),
    ensures
        crate::numerics::sum_ints(stage_weights(ss, k)) == pow2(sum_n(ss, k) as nat),
    decreases k,
{
    lemma_sum_n_nonneg(ss, k);
    if k == 0 {
        let weights = stage_weights(ss, 0);
        assert(weights =~= seq![1int]);
        assert(crate::numerics::sum_ints(weights) == 1 + crate::numerics::sum_ints(
            weights.drop_first(),
        ));
        assert(weights.drop_first() =~= Seq::<int>::empty());
        vstd::arithmetic::power2::lemma2_to64();
    } else {
        lemma_stage_weights_sum_to_one(ss, k - 1);
        lemma_sum_n_nonneg(ss, k - 1);
        let n = ss[k - 1].n as nat;
        let count = ss[k - 1].n + 1;
        let prev_len = stage_model(ss, k - 1).len() as int;
        lemma_stage_weights_prefix(ss, k, prev_len);
        assert(stage_weights(ss, k).take(prev_len * count) =~= stage_weights(ss, k));
        assert(stage_weights(ss, k - 1).take(prev_len) =~= stage_weights(ss, k - 1));
        lemma_pow2_adds(n, sum_n(ss, k - 1) as nat);
    }
}

/// Mass conservation on a built cascade: in every stage, the weight
/// numerators sum to the shared weight denominator `2^sum_n`, so the
/// integrations sum to exactly one.
pub proof fn lemma_cascade_mass_conservation(c: MultipletCascade, k: int)
    requires
        c.wf(),
        0 <= k <= c.spec_splitters().len(),
    ensures
        crate::numerics::sum_ints(
            c.spec_stages()[k].map_values(|p: Peaklet| p.integration.numer()),
        ) == pow2(sum_n(c.spec_splitters(), k) as nat),
        forall|i: int|
            0 <= i < c.spec_stages()[k].len() ==> (#[trigger] c.spec_stages()[k][i]).integration.denom()
                == pow2(sum_n(c.spec_splitters(), k) as nat),
{
    let ss = c.spec_splitters();
    assert(stage_ok(ss, c.spec_stages()[k], k));
    assert(c.spec_stages()[k].map_values(|p: Peaklet| p.integration.numer()) =~= stage_weights(
        ss,
        k,
    ));
    lemma_stage_weights_sum_to_one(ss, k);
}

/// Mass conservation through a waveform: any distribution sum whose
/// components are the scaled peaklets of stage `n` (in any order) carries
/// normalization numerators that sum to the shared denominator `2^sum_n`:
/// the total weight is exactly one.
pub proof fn lemma_waveform_mass_conservation(
    c: MultipletCascade,
    fs: Rational,
    kind: DistributionKind,
    n: int,
    w: DistributionSum,
)
    requires
        c.wf(),
        0 <= n <= c.spec_splitters().len(),
        w.spec_components().to_multiset() == c.spec_stages()[n].map_values(
            |p: Peaklet| waveform_component(p, c.spec_fwhm(), fs, kind, c.spec_shift_den()),
        ).to_multiset(),
    ensures
        crate::numerics::sum_ints(
            w.spec_components().map_values(|d: RenormalizedDistribution| d.normalization.numer()),
        ) == pow2(sum_n(c.spec_splitters(), n) as nat),
        forall|i: int|
            0 <= i < w.spec_components().len() ==> (#[trigger] w.spec_components()[i]).normalization.denom()
                == pow2(sum_n(c.spec_splitters(), n) as nat),
{
    broadcast use vstd::seq_lib::group_to_multiset_ensures;

    let ss = c.spec_splitters();
    let stage = c.spec_stages()[n];
    let mapper = |p: Peaklet| waveform_component(p, c.spec_fwhm(), fs, kind, c.spec_shift_den());
    let weight_of = |d: RenormalizedDistribution| d.normalization.numer();
    let mapped = stage.map_values(mapper);
    crate::numerics::lemma_map_preserves_multiset(w.spec_components(), mapped, weight_of);
    assert(mapped.map_values(weight_of) =~= stage.map_values(|p: Peaklet| p.integration.numer()));
    crate::numerics::lemma_sum_permutation(
        w.spec_components().map_values(weight_of),
        mapped.map_values(weight_of),
    );
    lemma_cascade_mass_conservation(c, n);
    assert(stage_ok(ss, stage, n));
    assert forall|i: int| 0 <= i < w.spec_components().len() implies (
    #[trigger] w.spec_components()[i]).normalization.denom() == pow2(sum_n(ss, n) as nat) by {
        let d = w.spec_components()[i];
        assert(w.spec_components().to_multiset().count(d) > 0) by {
            assert(w.spec_components().contains(d));
        }
        assert(mapped.contains(d));
        let q = choose|q: int| 0 <= q < mapped.len() && mapped[q] == d;
        assert(d.normalization == stage[q].integration);
    }
}

/// Truncating the splitter chain after `t` splitters leaves the first
/// stages' weights untouched and rescales every shift numerator by the
/// removed denominators' product — the shifts are equal as rationals.
pub proof fn lemma_truncation_scales_model(ss: Seq<Splitter>, t: int, k: int)
    requires
        all_wf(ss),
        0 <= k <= t <= ss.len(),
    ensures
        stage_model(ss.take(t), k).len() == stage_model(ss, k).len(),
        sum_n(ss.take(t), k) == sum_n(ss, k),
        shift_den(ss) == shift_den(ss.take(t)) * den_prod_from(ss, t),
        forall|i: int|
            0 <= i < stage_model(ss, k).len() ==> (#[trigger] stage_model(ss, k)[i]).1
                == stage_model(ss.take(t), k)[i].1 && stage_model(ss, k)[i].0 == stage_model(
                ss.take(t),
                k,
            )[i].0 * den_prod_from(ss, t),
    decreases k,
{
    let tr = ss.take(t);
    let fc = den_prod_from(ss, t);
    lemma_sum_n_take(ss, t, k);
    lemma_shift_den_take(ss, t);
    if k == 0 {
        assert(stage_model(tr, 0) =~= seq![(0int, 1int)]);
        assert(0 * fc == 0) by (nonlinear_arith);
    } else {
        lemma_truncation_scales_model(ss, t, k - 1);
        let count = ss[k - 1].n + 1;
        assert(tr[k - 1] == ss[k - 1]);
        lemma_step_take(ss, t, k - 1);
        let step_full = step_of(ss, k - 1);
        let step_tr = step_of(tr, k - 1);
        assert forall|i: int| 0 <= i < stage_model(ss, k).len() implies (#[trigger] stage_model(
            ss,
            k,
        )[i]).1 == stage_model(tr, k)[i].1 && stage_model(ss, k)[i].0 == stage_model(tr, k)[i].0
            * fc by {
            let q = i / count;
            let r = i % count;
            assert(0 <= q < stage_model(ss, k - 1).len() && 0 <= r < count) by {
                assert(count * stage_model(ss, k - 1).len() == stage_model(ss, k - 1).len()
                    * count) by (nonlinear_arith);
                vstd::arithmetic::div_mod::lemma_div_pos_is_pos(i, count);
                vstd::arithmetic::div_mod::lemma_multiply_divide_lt(
                    i,
                    count,
                    stage_model(ss, k - 1).len() as int,
                );
                vstd::arithmetic::div_mod::lemma_mod_bound(i, count);
            }
            let pf = stage_model(ss, k - 1)[q];
            let pt = stage_model(tr, k - 1)[q];
            assert(stage_model(ss, k)[i] == child_of(pf, ss, k - 1, r));
            assert(stage_model(tr, k)[i] == child_of(pt, tr, k - 1, r));
            assert(pf.0 + (2 * r - ss[k - 1].n) * step_full == (pt.0 + (2 * r - ss[k - 1].n)
                * step_tr) * fc) by (nonlinear_arith)
                requires
                    pf.0 == pt.0 * fc,
                    step_full == step_tr * fc,
            ;
        }
    }
}

proof fn lemma_sum_n_take(ss: Seq<Splitter>, t: int, k: int)
    requires
        0 <= k <= t <= ss.len(),
    ensures
        sum_n(ss.take(t), k) == sum_n(ss, k),
    decreases k,
{
    if k > 0 {
        lemma_sum_n_take(ss, t, k - 1);
    }
}

proof fn lemma_den_prod_take(ss: Seq<Splitter>, t: int, k: int)
    requires
        0 <= k <= t <= ss.len(),
    ensures
        den_prod(ss.take(t), k) == den_prod(ss, k),
    decreases k,
{
    if k > 0 {
        lemma_den_prod_take(ss, t, k - 1);
    }
}

proof fn lemma_den_prod_from_take(ss: Seq<Splitter>, t: int, m: int)
    requires
        0 <= m <= t <= ss.len(),
    ensures
        den_prod_from(ss, m) == den_prod_from(ss.take(t), m) * den_prod_from(ss, t),
    decreases t - m,
{
    let tr = ss.take(t);
    if m == t {
        assert(den_prod_from(tr, m) == 1);
        assert(1 * den_prod_from(ss, t) == den_prod_from(ss, t)) by (nonlinear_arith);
    } else {
        lemma_den_prod_from_take(ss, t, m + 1);
        assert(tr[m] == ss[m]);
        assert(ss[m].j.denom() * (den_prod_from(tr, m + 1) * den_prod_from(ss, t)) == (
        ss[m].j.denom() * den_prod_from(tr, m + 1)) * den_prod_from(ss, t)) by (nonlinear_arith);
    }
}

/// `shift_den(ss) == shift_den(ss.take(t)) * den_prod_from(ss, t)`.
proof fn lemma_shift_den_take(ss: Seq<Splitter>, t: int)
    requires
        0 <= t <= ss.len(),
    ensures
        shift_den(ss) == shift_den(ss.take(t)) * den_prod_from(ss, t),
{
    lemma_den_prod_take(ss, t, t);
    lemma_den_prod_from_split(ss, t);
    assert(ss.take(t).len() == t);
    assert(2 * (den_prod(ss, t) * den_prod_from(ss, t)) == (2 * den_prod(ss, t)) * den_prod_from(
        ss,
        t,
    )) by (nonlinear_arith);
}

/// `den_prod(ss, len) == den_prod(ss, t) * den_prod_from(ss, t)`.
proof fn lemma_den_prod_from_split(ss: Seq<Splitter>, t: int)
    requires
        0 <= t <= ss.len(),
    ensures
        den_prod(ss, ss.len() as int) == den_prod(ss, t) * den_prod_from(ss, t),
    decreases ss.len() - t,
{
    if t == ss.len() {
        assert(den_prod(ss, t) * 1 == den_prod(ss, t)) by (nonlinear_arith);
    } else {
        lemma_den_prod_from_split(ss, t + 1);
        assert((den_prod(ss, t) * ss[t].j.denom()) * den_prod_from(ss, t + 1) == den_prod(ss, t)
            * (ss[t].j.denom() * den_prod_from(ss, t + 1))) by (nonlinear_arith);
    }
}

/// A fractional stage index that sits exactly at an integer counts only
/// its full stages, and the splitter chain truncated there splits exactly
/// like the full chain's first stages: stage for stage, the weights agree
/// and the shifts agree as rationals (cross multiplied over the two
/// cascades' common denominators).
pub proof fn lemma_integral_index_matches_truncation(
    p: Peak,
    x: crate::peak::FractionalStageIndex,
    k: int,
)
    requires
        p.wf(),
        x.wf(),
        !x.spec_has_partial(),
        x.value().numer() <= p.splitters@.len() * x.value().denom(),
        0 <= k <= x.spec_full(),
    ensures
        x.spec_total_stage_count() == x.spec_full(),
        stage_model(p.splitters@.take(x.spec_full()), k).len() == stage_model(
            p.splitters@,
            k,
        ).len(),
        sum_n(p.splitters@.take(x.spec_full()), k) == sum_n(p.splitters@, k),
        forall|i: int|
            0 <= i < stage_model(p.splitters@, k).len() ==> (#[trigger] stage_model(
                p.splitters@,
                k,
            )[i]).1 == stage_model(p.splitters@.take(x.spec_full()), k)[i].1 && stage_model(
                p.splitters@,
                k,
            )[i].0 * shift_den(p.splitters@.take(x.spec_full())) == stage_model(
                p.splitters@.take(x.spec_full()),
                k,
            )[i].0 * shift_den(p.splitters@),
{
    let ss = p.splitters@;
    let t = x.spec_full();
    crate::peak::lemma_quotient_within(x.value().numer(), x.value().denom(), ss.len() as int);
    assert(all_wf(ss));
    lemma_truncation_scales_model(ss, t, k);
    lemma_shift_den_take(ss, t);
    let tr = ss.take(t);
    let fc = den_prod_from(ss, t);
    assert forall|i: int| 0 <= i < stage_model(ss, k).len() implies (#[trigger] stage_model(
        ss,
        k,
    )[i]).0 * shift_den(tr) == stage_model(tr, k)[i].0 * shift_den(ss) by {
        assert((stage_model(tr, k)[i].0 * fc) * shift_den(tr) == stage_model(tr, k)[i].0 * (
        shift_den(tr) * fc)) by (nonlinear_arith);
    }
}

/// `step_of(ss, m) == step_of(ss.take(t), m) * den_prod_from(ss, t)` for
/// `m < t`.
proof fn lemma_step_take(ss: Seq<Splitter>, t: int, m: int)
    requires
        0 <= m < t <= ss.len(),
    ensures
        step_of(ss, m) == step_of(ss.take(t), m) * den_prod_from(ss, t),
{
    let tr = ss.take(t);
    lemma_den_prod_take(ss, t, m);
    lemma_den_prod_from_take(ss, t, m + 1);
    assert(tr[m] == ss[m]);
    let j = ss[m].j.numer();
    let a = den_prod(ss, m);
    let bt = den_prod_from(tr, m + 1);
    let fc = den_prod_from(ss, t);
    assert(j * (a * (bt * fc)) == (j * (a * bt)) * fc) by (nonlinear_arith);
}

/// The last peaklet of stage `k` sits at the stage's full half-spread: its
/// shift numerator is exactly `span(ss, k)`.
pub proof fn lemma_span_is_last_delta(ss: Seq<Splitter>, k: int)
    requires
        0 <= k <= ss.len(),
    ensures
        stage_model(ss, k)[stage_model(ss, k).len() - 1].0 == span(ss, k),
    decreases k,
{
    lemma_stage_model_len(ss, k);
    if k > 0 {
        lemma_span_is_last_delta(ss, k - 1);
        lemma_stage_model_len(ss, k - 1);
        let prev = stage_model(ss, k - 1);
        let count = ss[k - 1].n + 1;
        let idx = prev.len() * count - 1;
        assert(idx == (prev.len() - 1) * count + (count - 1)) by (nonlinear_arith)
            requires
                idx == prev.len() * count - 1,
                count >= 1,
                prev.len() >= 1,
        ;
        vstd::arithmetic::div_mod::lemma_fundamental_div_mod_converse(
            idx as int,
            count,
            prev.len() - 1,
            count - 1,
        );
        assert(stage_model(ss, k)[idx as int] == child_of(
            prev[prev.len() - 1],
            ss,
            k - 1,
            count - 1,
        ));
        assert((2 * (count - 1) - ss[k - 1].n) * step_of(ss, k - 1) == ss[k - 1].n * step_of(
            ss,
            k - 1,
        ));
    }
}

impl MultipletCascade {
    /// Decide at run time whether this cascade's waveforms can be scaled by
    /// `fs`: the check an unverified owner makes before calling
    /// `nth_waveform` or `final_waveform`.
    pub fn can_scale(&self, fs: Rational) -> (r: bool)
        requires
            self.wf(),
        ensures
            r == self.scalable(fs),
    {
        let ghost ss = self.spec_splitters();
        if !(fs.is_well_formed() && fs.num() > 0) {
            return false;
        }
        proof {
            lemma_den_prod_pos(ss, ss.len() as int);
            lemma_mul_bound(
                self.spec_shift_den(),
                fs.numer(),
                DEN_MAX as int,
                NUM_MAX as int,
            );
        }
        if (self.shift_den as i128) * (fs.num() as i128) > DEN_MAX as i128 {
            return false;
        }
        // The span of the whole multiplet is the shift of the last peaklet
        // of the last stage.
        let last_stage = self.stages.len() - 1;
        proof {
            assert(self.spec_stages()[last_stage as int] == self.stages@[last_stage as int]@);
            assert(stage_ok(ss, self.spec_stages()[last_stage as int], last_stage as int));
            lemma_stage_model_len(ss, last_stage as int);
            lemma_span_is_last_delta(ss, last_stage as int);
            lemma_span_nonneg(ss, ss.len() as int);
        }
        let stage = &self.stages[last_stage];
        let span_num = stage[stage.len() - 1].delta.num();
        proof {
            lemma_mul_bound(span_num as int, fs.denom(), NUM_MAX as int, DEN_MAX as int);
        }
        if (span_num as i128) * (fs.den() as i128) > NUM_MAX as i128 {
            return false;
        }
        proof {
            lemma_mul_bound(self.spec_fwhm().numer(), fs.denom(), NUM_MAX as int, DEN_MAX as int);
            lemma_mul_bound(self.spec_fwhm().denom(), fs.numer(), DEN_MAX as int, NUM_MAX as int);
        }
        let fwhm_num_ok = {
            let v = (self.fwhm.num() as i128) * (fs.den() as i128);
            -(NUM_MAX as i128) <= v && v <= NUM_MAX as i128
        };
        let fwhm_den_ok = (self.fwhm.den() as i128) * (fs.num() as i128) <= DEN_MAX as i128;
        fwhm_num_ok && fwhm_den_ok
    }
}

/// One scaled line of a waveform: the peaklet's shift and the cascade's
/// width divided by the field strength, weighted by the integration.
pub open spec fn waveform_component(
    p: Peaklet,
    fwhm: Rational,
    fs: Rational,
    kind: DistributionKind,
    dden: int,
) -> RenormalizedDistribution {
    RenormalizedDistribution {
        kind,
        center: spec_rational(p.delta.numer() * fs.denom(), dden * fs.numer()),
        fwhm: spec_rational(fwhm.numer() * fs.denom(), fwhm.denom() * fs.numer()),
        normalization: p.integration,
    }
}

/// Whether the splitting introduced at stage `n` is visually resolved:
/// within one group of siblings, no two adjacent children overlap at the
/// cascade's line width.  Stage 0 is trivially resolved.  Cross-group
/// overlap is intentionally not considered, and because every group of a
/// stage splits identically, the first group stands for all of them.
pub open spec fn spec_stage_resolved(c: MultipletCascade, n: int) -> bool {
    let ss = c.spec_splitters();
    let st = c.spec_stages()[n];
    n == 0 || forall|i: int|
        1 <= i <= ss[n - 1].n ==> !crate::peak::spec_overlaps(st[i - 1], #[trigger] st[i], c.spec_fwhm())
}

impl MultipletCascade {
    /// The single peaklet of the base stage: shift zero, weight one.
    pub fn base_peaklet(&self) -> (r: Peaklet)
        requires
            self.wf(),
        ensures
            r == self.spec_stages()[0][0],
            self.spec_stages()[0].len() == 1,
            r.delta.numer() == 0,
            r.integration.numer() == 1,
            r.integration.denom() == 1,
            r.wf(),
    {
        proof {
            assert(stage_ok(self.spec_splitters(), self.spec_stages()[0], 0));
            vstd::arithmetic::power2::lemma2_to64();
            assert(self.spec_stages()[0] == self.stages@[0]@);
        }
        self.stages[0][0]
    }

    /// How many child stages follow the base stage: one per splitter.
    pub fn child_stages_count(&self) -> (r: usize)
        requires
            self.wf(),
        ensures
            r == self.spec_splitters().len(),
    {
        proof {
            assert(self.spec_stages().len() == self.stages@.len());
        }
        self.stages.len() - 1
    }

    /// Group stage `n` (n >= 1) into one `SplittingRelationship` per
    /// stage-`(n-1)` parent: the parents' children occupy equal contiguous
    /// runs, in parent order.
    pub fn iter_nth_stage(&self, n: usize) -> (r: Vec<SplittingRelationship>)
        requires
            self.wf(),
            1 <= n <= self.spec_splitters().len(),
        ensures
            r@.len() == self.spec_stages()[n - 1].len(),
            forall|p: int|
                0 <= p < r@.len() ==> {
                    let count = self.spec_splitters()[n - 1].n + 1;
                    &&& (#[trigger] r@[p]).parent == self.spec_stages()[n - 1][p]
                    &&& r@[p].children@ == self.spec_stages()[n as int].subrange(
                        p * count,
                        (p + 1) * count,
                    )
                },
    {
        let ghost ss = self.spec_splitters();
        proof {
            assert(self.spec_stages()[n - 1] == self.stages@[n - 1]@);
            assert(self.spec_stages()[n as int] == self.stages@[n as int]@);
            assert(stage_ok(ss, self.spec_stages()[n - 1], n - 1));
            assert(stage_ok(ss, self.spec_stages()[n as int], n as int));
            lemma_stage_model_len(ss, n - 1);
            lemma_stage_model_len(ss, n as int);
        }
        let parent_count = self.stages[n - 1].len();
        let children_count = self.stages[n].len();
        proof {
            let w = stage_width(ss, n - 1);
            let count = ss[n - 1].n + 1;
            assert(children_count == w * count);
            vstd::arithmetic::div_mod::lemma_div_multiples_vanish(count as int, w);
            assert(w * count == count * w) by (nonlinear_arith);
        }
        let group_size = children_count / parent_count;
        let mut r: Vec<SplittingRelationship> = Vec::new();
        let mut p: usize = 0;
        while p < parent_count
            invariant
                ss == self.spec_splitters(),
                self.wf(),
                1 <= n <= ss.len(),
                parent_count == self.stages@[n - 1]@.len(),
                children_count == self.stages@[n as int]@.len(),
                self.spec_stages()[n - 1] == self.stages@[n - 1]@,
                self.spec_stages()[n as int] == self.stages@[n as int]@,
                group_size == ss[n - 1].n + 1,
                children_count == parent_count * group_size,
                p <= parent_count,
                r@.len() == p,
                forall|q: int|
                    0 <= q < p ==> {
                        let count = ss[n - 1].n + 1;
                        &&& (#[trigger] r@[q]).parent == self.stages@[n - 1]@[q]
                        &&& r@[q].children@ == self.stages@[n as int]@.subrange(
                            q * count,
                            (q + 1) * count,
                        )
                    },
            decreases parent_count - p,
        {
            proof {
                assert((p + 1) * group_size <= parent_count * group_size) by (nonlinear_arith)
                    requires
                        p + 1 <= parent_count,
                        group_size >= 1,
                ;
                assert(p * group_size + group_size == (p + 1) * group_size) by (nonlinear_arith);
            }
            let mut children: Vec<Peaklet> = Vec::new();
            let mut i: usize = 0;
            while i < group_size
                invariant
                    children_count == self.stages@[n as int]@.len(),
                    1 <= n < self.stages@.len(),
                    i <= group_size,
                    p * group_size + group_size <= children_count,
                    children@ =~= self.stages@[n as int]@.subrange(
                        p * group_size,
                        p * group_size + i,
                    ),
                decreases group_size - i,
            {
                children.push(self.stages[n][p * group_size + i]);
                proof {
                    assert(children@ =~= self.stages@[n as int]@.subrange(
                        p * group_size,
                        p * group_size + i + 1,
                    ));
                }
                i = i + 1;
            }
            let parent = self.stages[n - 1][p];
            r.push(SplittingRelationship { parent, children });
            p = p + 1;
        }
        r
    }

    /// The largest weight appearing in stage `n`.
    pub fn max_integration_of_stage(&self, n: usize) -> (r: Rational)
        requires
            self.wf(),
            n <= self.spec_splitters().len(),
        ensures
            exists|i: int|
                0 <= i < self.spec_stages()[n as int].len() && r == (
                #[trigger] self.spec_stages()[n as int][i]).integration,
            forall|i: int|
                0 <= i < self.spec_stages()[n as int].len() ==> crate::rational::rat_le(
                    (#[trigger] self.spec_stages()[n as int][i]).integration,
                    r,
                ),
    {
        let ghost ss = self.spec_splitters();
        proof {
            assert(self.spec_stages()[n as int] == self.stages@[n as int]@);
            assert(stage_ok(ss, self.spec_stages()[n as int], n as int));
            lemma_stage_model_len(ss, n as int);
        }
        let stage = &self.stages[n];
        let mut best = stage[0].integration;
        let mut i: usize = 1;
        while i < stage.len()
            invariant
                stage@ == self.stages@[n as int]@,
                self.spec_stages()[n as int] == self.stages@[n as int]@,
                forall|q: int| 0 <= q < stage@.len() ==> (#[trigger] stage@[q]).wf(),
                1 <= i <= stage@.len(),
                exists|q: int|
                    0 <= q < i && best == (#[trigger] stage@[q]).integration,
                forall|q: int|
                    0 <= q < i ==> crate::rational::rat_le(
                        (#[trigger] stage@[q]).integration,
                        best,
                    ),
            decreases stage@.len() - i,
        {
            let candidate = stage[i].integration;
            if best.lt(&candidate) {
                let ghost previous = best;
                best = candidate;
                proof {
                    let q0 = choose|q: int| 0 <= q < i && previous == stage@[q].integration;
                    assert(stage@[q0].wf());
                    assert forall|q: int| 0 <= q < i + 1 implies crate::rational::rat_le(
                        (#[trigger] stage@[q]).integration,
                        best,
                    ) by {
                        if q < i {
                            crate::rational::lemma_rat_le_trans(
                                stage@[q].integration,
                                previous,
                                best,
                            );
                        }
                    }
                }
            }
            i = i + 1;
        }
        best
    }

    /// Whether converting this cascade's values into display units by
    /// dividing by `fs` stays within the rational bounds.
    pub open spec fn scalable(self, fs: Rational) -> bool {
        &&& fs.wf()
        &&& fs.numer() > 0
        &&& self.spec_shift_den() * fs.numer() <= DEN_MAX
        &&& span(self.spec_splitters(), self.spec_splitters().len() as int) * fs.denom()
            <= NUM_MAX
        &&& crate::rational::div_fits(self.spec_fwhm(), fs)
    }

    /// Convert stage `n` into a sum of distributions of the requested
    /// variant: each peaklet becomes one line at its shift, with the
    /// cascade's width, both divided by `field_strength` to move from Hz to
    /// display units, weighted by the peaklet's integration.
    pub fn nth_waveform(&self, n: usize, field_strength: Rational, kind: DistributionKind) -> (r:
        DistributionSum)
        requires
            self.wf(),
            n <= self.spec_splitters().len(),
            self.scalable(field_strength),
        ensures
            r.wf(),
            r.spec_components().len() == self.spec_stages()[n as int].len(),
            r.spec_components().to_multiset() == self.spec_stages()[n as int].map_values(
                |p: Peaklet|
                    waveform_component(
                        p,
                        self.spec_fwhm(),
                        field_strength,
                        kind,
                        self.spec_shift_den(),
                    ),
            ).to_multiset(),
    {
        let ghost ss = self.spec_splitters();
        let ghost mapper = |p: Peaklet|
            waveform_component(p, self.spec_fwhm(), field_strength, kind, self.spec_shift_den());
        proof {
            assert(self.spec_stages()[n as int] == self.stages@[n as int]@);
            assert(stage_ok(ss, self.spec_stages()[n as int], n as int));
            lemma_stage_model_bounds(ss, n as int);
            lemma_span_monotone(ss, n as int, ss.len() as int);
            lemma_span_nonneg(ss, n as int);
        }
        let scaled_fwhm = self.fwhm.div(&field_strength);
        let stage = &self.stages[n];
        let mut raw: Vec<RenormalizedDistribution> = Vec::new();
        let mut i: usize = 0;
        while i < stage.len()
            invariant
                ss == self.spec_splitters(),
                self.wf(),
                n <= ss.len(),
                self.scalable(field_strength),
                mapper == (|p: Peaklet|
                    waveform_component(
                        p,
                        self.spec_fwhm(),
                        field_strength,
                        kind,
                        self.spec_shift_den(),
                    )),
                stage@ == self.stages@[n as int]@,
                self.spec_stages()[n as int] == self.stages@[n as int]@,
                stage_ok(ss, stage@, n as int),
                forall|q: int|
                    0 <= q < stage@.len() ==> -span(ss, n as int) <= (#[trigger] stage_model(
                        ss,
                        n as int,
                    )[q]).0 <= span(ss, n as int),
                0 <= span(ss, n as int) <= span(ss, ss.len() as int),
                scaled_fwhm.wf(),
                scaled_fwhm.numer() == self.spec_fwhm().numer() * field_strength.denom(),
                scaled_fwhm.denom() == self.spec_fwhm().denom() * field_strength.numer(),
                i <= stage@.len(),
                raw@.len() == i,
                forall|q: int| 0 <= q < i ==> (#[trigger] raw@[q]).wf(),
                forall|q: int| 0 <= q < i ==> #[trigger] raw@[q] == mapper(stage@[q]),
            decreases stage@.len() - i,
        {
            let p = stage[i];
            proof {
                let m = stage_model(ss, n as int)[i as int];
                assert(p.delta.numer() == m.0);
                lemma_mul_bound(
                    p.delta.numer(),
                    field_strength.denom(),
                    span(ss, ss.len() as int),
                    field_strength.denom(),
                );
            }
            let center = p.delta.div(&field_strength);
            proof {
                crate::rational::lemma_spec_rational(center.numer(), center.denom());
                crate::rational::lemma_rational_parts_equal(
                    center,
                    spec_rational(center.numer(), center.denom()),
                );
                crate::rational::lemma_spec_rational(scaled_fwhm.numer(), scaled_fwhm.denom());
                crate::rational::lemma_rational_parts_equal(
                    scaled_fwhm,
                    spec_rational(scaled_fwhm.numer(), scaled_fwhm.denom()),
                );
            }
            raw.push(
                RenormalizedDistribution::with_fwhm_normalized(
                    kind,
                    center,
                    scaled_fwhm,
                    p.integration,
                ),
            );
            proof {
                assert(raw@[i as int] == mapper(stage@[i as int]));
            }
            i = i + 1;
        }
        proof {
            assert(raw@ =~= stage@.map_values(mapper));
        }
        DistributionSum::from_components(raw)
    }

    /// The waveform of the last stage: the fully split multiplet.
    pub fn final_waveform(&self, field_strength: Rational, kind: DistributionKind) -> (r:
        DistributionSum)
        requires
            self.wf(),
            self.scalable(field_strength),
        ensures
            r.wf(),
            r.spec_components().len() == self.spec_stages()[self.spec_splitters().len() as int].len(),
            r.spec_components().to_multiset() == self.spec_stages()[self.spec_splitters().len() as int].map_values(
                |p: Peaklet|
                    waveform_component(
                        p,
                        self.spec_fwhm(),
                        field_strength,
                        kind,
                        self.spec_shift_den(),
                    ),
            ).to_multiset(),
    {
        let last = self.child_stages_count();
        self.nth_waveform(last, field_strength, kind)
    }

    /// Whether the splitting introduced at stage `n` alone is visually
    /// resolved.
    pub fn is_stage_resolved(&self, n: usize) -> (r: bool)
        requires
            self.wf(),
            n <= self.spec_splitters().len(),
        ensures
            r == spec_stage_resolved(*self, n as int),
    {
        if n == 0 {
            return true;
        }
        let ghost ss = self.spec_splitters();
        proof {
            assert(self.spec_stages()[n - 1] == self.stages@[n - 1]@);
            assert(self.spec_stages()[n as int] == self.stages@[n as int]@);
            assert(stage_ok(ss, self.spec_stages()[n - 1], n - 1));
            assert(stage_ok(ss, self.spec_stages()[n as int], n as int));
            lemma_stage_model_len(ss, n - 1);
            lemma_stage_model_len(ss, n as int);
        }
        let parent_count = self.stages[n - 1].len();
        let children_count = self.stages[n].len();
        proof {
            let w = stage_width(ss, n - 1);
            let count = ss[n - 1].n + 1;
            assert(children_count == w * count);
            vstd::arithmetic::div_mod::lemma_div_multiples_vanish(count as int, w);
            assert(w * count == count * w) by (nonlinear_arith);
            assert(count <= children_count) by (nonlinear_arith)
                requires
                    children_count == w * count,
                    w >= 1,
                    count >= 1,
            ;
        }
        // Every group of the stage splits identically, so only the first
        // group needs checking.
        let group_size = children_count / parent_count;
        let fwhm = self.fwhm;
        let mut i: usize = 1;
        while i < group_size
            invariant
                ss == self.spec_splitters(),
                self.spec_stages()[n as int] == self.stages@[n as int]@,
                1 <= n <= ss.len(),
                n < self.stages@.len(),
                fwhm == self.spec_fwhm(),
                fwhm.wf(),
                group_size == ss[n - 1].n + 1,
                group_size <= self.stages@[n as int]@.len(),
                forall|q: int|
                    0 <= q < self.stages@[n as int]@.len() ==> (#[trigger] self.stages@[n
                        as int]@[q]).wf() && self.stages@[n as int]@[q].delta.denom()
                        == shift_den(ss),
                1 <= i <= group_size,
                forall|q: int|
                    1 <= q < i ==> !crate::peak::spec_overlaps(
                        self.stages@[n as int]@[q - 1],
                        #[trigger] self.stages@[n as int]@[q],
                        fwhm,
                    ),
            decreases group_size - i,
        {
            let a = self.stages[n][i - 1];
            let b = self.stages[n][i];
            if a.overlaps_with(b, fwhm) {
                return false;
            }
            i = i + 1;
        }
        true
    }
}

} // verus!
