//! Renormalized line shapes and sums of them.
//!
//! A `RenormalizedDistribution` is one analytic line (Gaussian or
//! Lorentzian) described by its center, full width at half maximum and
//! normalization weight; a `DistributionSum` is an ordered-by-center
//! collection of them.  Point evaluation of the shapes is transcendental
//! and belongs to the rendering layer; everything structural — extents,
//! ordering, weights — is exact and verified here.

use vstd::prelude::*;

use crate::rational::{lemma_rat_le_trans, rat_le, rat_lt, Rational};

verus! {

/// The closed set of line-shape variants.
#[derive(Clone, Copy, Debug, PartialEq, Eq, Structural)]
pub enum DistributionKind {
    Gaussian,
    Lorentzian,
}

/// A probability density function renormalized by some weight.  The
/// variant's native spread parameter (Gaussian sigma, Lorentzian gamma) is
/// derived from `fwhm` at evaluation time.
#[derive(Clone, Copy, Debug, PartialEq)]
pub struct RenormalizedDistribution {
    pub kind: DistributionKind,
    /// Center of the line.
    pub center: Rational,
    /// Full width at half maximum.
    pub fwhm: Rational,
    /// The weight the unit-area shape is scaled by.
    pub normalization: Rational,
}

/// The numerator of `center - fwhm * n`, over
/// `center.denom() * fwhm.denom() * n.denom()`.
pub open spec fn extent_lo_num(d: RenormalizedDistribution, n: Rational) -> int {
    d.center.numer() * (d.fwhm.denom() * n.denom()) - d.fwhm.numer() * n.numer() * d.center.denom()
}

/// The numerator of `center + fwhm * n`, over the same denominator.
pub open spec fn extent_hi_num(d: RenormalizedDistribution, n: Rational) -> int {
    d.center.numer() * (d.fwhm.denom() * n.denom()) + d.fwhm.numer() * n.numer() * d.center.denom()
}

/// The common denominator of a component's extent edges.
pub open spec fn extent_den(d: RenormalizedDistribution, n: Rational) -> int {
    d.center.denom() * (d.fwhm.denom() * n.denom())
}

impl RenormalizedDistribution {
    pub open spec fn wf(self) -> bool {
        &&& self.center.wf()
        &&& self.fwhm.wf()
        &&& self.normalization.wf()
    }

    /// A line of the given variant with the given center, width and
    /// normalization weight.
    pub fn with_fwhm_normalized(
        kind: DistributionKind,
        center: Rational,
        fwhm: Rational,
        normalization: Rational,
    ) -> (r: RenormalizedDistribution)
        ensures
            r.kind == kind,
            r.center == center,
            r.fwhm == fwhm,
            r.normalization == normalization,
    {
        RenormalizedDistribution { kind, center, fwhm, normalization }
    }

    /// Whether the extent arithmetic stays within the rational bounds.
    pub open spec fn extent_fits(self, n: Rational) -> bool {
        &&& crate::rational::mul_fits(self.fwhm, n)
        &&& -crate::rational::NUM_MAX <= extent_lo_num(self, n) <= crate::rational::NUM_MAX
        &&& -crate::rational::NUM_MAX <= extent_hi_num(self, n) <= crate::rational::NUM_MAX
        &&& extent_den(self, n) <= crate::rational::DEN_MAX
    }

    /// The symmetric interval `n` FWHMs out on each side of the center.
    pub fn extent_by_fwhm(&self, n: Rational) -> (r: (Rational, Rational))
        requires
            self.wf(),
            n.wf(),
            self.extent_fits(n),
        ensures
            r.0.wf(),
            r.1.wf(),
            r.0.numer() == extent_lo_num(*self, n),
            r.0.denom() == extent_den(*self, n),
            r.1.numer() == extent_hi_num(*self, n),
            r.1.denom() == extent_den(*self, n),
    {
        let spread = self.fwhm.mul(&n);
        (self.center.sub(&spread), self.center.add(&spread))
    }
}

/// Components in ascending order of center.
pub open spec fn sorted_by_center(s: Seq<RenormalizedDistribution>) -> bool {
    forall|i: int, j: int| 0 <= i <= j < s.len() ==> rat_le(s[i].center, s[j].center)
}

/// A linear combination of individual distributions, kept sorted by
/// center.
#[derive(Clone, Debug)]
pub struct DistributionSum {
    components: Vec<RenormalizedDistribution>,
}

impl DistributionSum {
    /// The individual distributions of the sum, in ascending center order.
    pub closed spec fn spec_components(self) -> Seq<RenormalizedDistribution> {
        self.components@
    }

    pub open spec fn wf(self) -> bool {
        &&& sorted_by_center(self.spec_components())
        &&& forall|i: int|
            0 <= i < self.spec_components().len() ==> (#[trigger] self.spec_components()[i]).wf()
    }

    /// Collect distributions into a sum, sorting them by center (a stable
    /// insertion sort, so ties keep their relative order).
    pub fn from_components(items: Vec<RenormalizedDistribution>) -> (r: DistributionSum)
        requires
            forall|i: int| 0 <= i < items@.len() ==> (#[trigger] items@[i]).wf(),
        ensures
            r.wf(),
            r.spec_components().len() == items@.len(),
            r.spec_components().to_multiset() == items@.to_multiset(),
    {
        let mut v = items;
        let n = v.len();
        let mut i: usize = 1;
        while i < n
            invariant
                1 <= i,
                n == v@.len(),
                v@.to_multiset() == items@.to_multiset(),
                items@.len() == n,
                forall|q: int| 0 <= q < n ==> (#[trigger] v@[q]).wf(),
                forall|a: int, b: int|
                    0 <= a <= b < i && b < n ==> rat_le(v@[a].center, v@[b].center),
            decreases n - i,
        {
            let mut k: usize = i;
            while k > 0 && v[k].center.lt(&v[k - 1].center)
                invariant
                    k <= i < n,
                    n == v@.len(),
                    v@.to_multiset() == items@.to_multiset(),
                    forall|q: int| 0 <= q < n ==> (#[trigger] v@[q]).wf(),
                    forall|a: int, b: int|
                        0 <= a < b <= i && b != k ==> rat_le(v@[a].center, v@[b].center),
                decreases k,
            {
                let ghost spre = v@;
                let x = v[k - 1];
                let y = v[k];
                v[k - 1] = y;
                v[k] = x;
                proof {
                    broadcast use vstd::seq_lib::group_to_multiset_ensures;

                    vstd::seq_lib::to_multiset_update(spre, k - 1, y);
                    vstd::seq_lib::to_multiset_update(spre.update(k - 1, y), k as int, x);
                    assert(v@ =~= spre.update(k - 1, y).update(k as int, x));
                    assert(spre.to_multiset().contains(x)) by {
                        assert(spre[k - 1] == x);
                    }
                    assert(v@.to_multiset() =~= spre.to_multiset());
                }
                k = k - 1;
            }
            proof {
                assert forall|a: int, b: int| 0 <= a <= b < i + 1 implies rat_le(
                    v@[a].center,
                    v@[b].center,
                ) by {
                    if a < b && b == k && a < k - 1 {
                        lemma_rat_le_trans(v@[a].center, v@[k - 1].center, v@[k as int].center);
                    }
                }
            }
            i = i + 1;
        }
        DistributionSum { components: v }
    }

    /// The individual distributions of the sum.
    pub fn components(&self) -> (r: &Vec<RenormalizedDistribution>)
        ensures
            r@ == self.spec_components(),
    {
        &self.components
    }

    /// Whether every component's extent arithmetic fits.
    pub open spec fn extent_all_fits(self, n: Rational) -> bool {
        forall|i: int|
            0 <= i < self.spec_components().len() ==> (
            #[trigger] self.spec_components()[i]).extent_fits(n)
    }

    /// The overall extent of the sum: the union of the component extents
    /// (the leftmost left edge to the rightmost right edge, each edge `n`
    /// FWHMs out from its component's center).  An empty sum spans
    /// `[0, 0]`.
    pub fn extent_by_fwhm(&self, n: Rational) -> (r: (Rational, Rational))
        requires
            self.wf(),
            n.wf(),
            self.extent_all_fits(n),
        ensures
            r.0.wf(),
            r.1.wf(),
            self.spec_components().len() == 0 ==> r.0.numer() == 0 && r.0.denom() == 1
                && r.1.numer() == 0 && r.1.denom() == 1,
            self.spec_components().len() > 0 ==> {
                &&& exists|i: int|
                    0 <= i < self.spec_components().len() && r.0 == lower_edge(
                        #[trigger] self.spec_components()[i],
                        n,
                    )
                &&& forall|i: int|
                    0 <= i < self.spec_components().len() ==> rat_le(
                        r.0,
                        lower_edge(#[trigger] self.spec_components()[i], n),
                    )
                &&& exists|i: int|
                    0 <= i < self.spec_components().len() && r.1 == upper_edge(
                        #[trigger] self.spec_components()[i],
                        n,
                    )
                &&& forall|i: int|
                    0 <= i < self.spec_components().len() ==> rat_le(
                        upper_edge(#[trigger] self.spec_components()[i], n),
                        r.1,
                    )
            },
    {
        let ghost cs = self.spec_components();
        if self.components.len() == 0 {
            return (Rational::zero(), Rational::zero());
        }
        let first = self.components[0].extent_by_fwhm(n);
        proof {
            lemma_edge_value(cs[0], n);
            crate::rational::lemma_rational_parts_equal(first.0, lower_edge(cs[0], n));
            crate::rational::lemma_rational_parts_equal(first.1, upper_edge(cs[0], n));
        }
        let mut lo = first.0;
        let mut hi = first.1;
        let mut i: usize = 1;
        while i < self.components.len()
            invariant
                cs == self.spec_components(),
                n.wf(),
                self.wf(),
                self.extent_all_fits(n),
                1 <= i <= cs.len(),
                lo.wf(),
                hi.wf(),
                exists|q: int| 0 <= q < i && lo == lower_edge(#[trigger] cs[q], n),
                forall|q: int| 0 <= q < i ==> rat_le(lo, lower_edge(#[trigger] cs[q], n)),
                exists|q: int| 0 <= q < i && hi == upper_edge(#[trigger] cs[q], n),
                forall|q: int| 0 <= q < i ==> rat_le(upper_edge(#[trigger] cs[q], n), hi),
            decreases cs.len() - i,
        {
            let edges = self.components[i].extent_by_fwhm(n);
            proof {
                lemma_edge_value(cs[i as int], n);
                crate::rational::lemma_rational_parts_equal(edges.0, lower_edge(cs[i as int], n));
                crate::rational::lemma_rational_parts_equal(edges.1, upper_edge(cs[i as int], n));
            }
            if edges.0.lt(&lo) {
                let ghost previous = lo;
                lo = edges.0;
                proof {
                    assert forall|q: int| 0 <= q < i + 1 implies rat_le(
                        lo,
                        lower_edge(#[trigger] cs[q], n),
                    ) by {
                        if q < i {
                            lemma_edge_value(cs[q], n);
                            lemma_rat_le_trans(lo, previous, lower_edge(cs[q], n));
                        }
                    }
                }
            } else {
                proof {
                    assert forall|q: int| 0 <= q < i + 1 implies rat_le(
                        lo,
                        lower_edge(#[trigger] cs[q], n),
                    ) by {
                        if q == i {
                            assert(rat_le(lo, lower_edge(cs[q], n)));
                        }
                    }
                }
            }
            if hi.lt(&edges.1) {
                let ghost previous = hi;
                hi = edges.1;
                proof {
                    assert forall|q: int| 0 <= q < i + 1 implies rat_le(
                        upper_edge(#[trigger] cs[q], n),
                        hi,
                    ) by {
                        if q < i {
                            lemma_edge_value(cs[q], n);
                            lemma_rat_le_trans(upper_edge(cs[q], n), previous, hi);
                        }
                    }
                }
            }
            i = i + 1;
        }
        (lo, hi)
    }
}

/// The left edge of one component's extent, as a rational value.
pub open spec fn lower_edge(d: RenormalizedDistribution, n: Rational) -> Rational {
    crate::rational::spec_rational(extent_lo_num(d, n), extent_den(d, n))
}

/// The right edge of one component's extent, as a rational value.
pub open spec fn upper_edge(d: RenormalizedDistribution, n: Rational) -> Rational {
    crate::rational::spec_rational(extent_hi_num(d, n), extent_den(d, n))
}

/// The edge values of a fitting extent are well formed, with the stated
/// parts.
pub proof fn lemma_edge_value(d: RenormalizedDistribution, n: Rational)
    requires
        d.wf(),
        n.wf(),
        d.extent_fits(n),
    ensures
        lower_edge(d, n).wf(),
        lower_edge(d, n).numer() == extent_lo_num(d, n),
        lower_edge(d, n).denom() == extent_den(d, n),
        upper_edge(d, n).wf(),
        upper_edge(d, n).numer() == extent_hi_num(d, n),
        upper_edge(d, n).denom() == extent_den(d, n),
{
    crate::rational::lemma_mul_bound(
        d.fwhm.denom(),
        n.denom(),
        crate::rational::DEN_MAX as int,
        crate::rational::DEN_MAX as int,
    );
    assert(extent_den(d, n) >= 1) by (nonlinear_arith)
        requires
            d.center.denom() >= 1,
            d.fwhm.denom() >= 1,
            n.denom() >= 1,
            extent_den(d, n) == d.center.denom() * (d.fwhm.denom() * n.denom()),
    ;
    crate::rational::lemma_spec_rational(extent_lo_num(d, n), extent_den(d, n));
    crate::rational::lemma_spec_rational(extent_hi_num(d, n), extent_den(d, n));
}

} // verus!
