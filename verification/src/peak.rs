//! The domain vocabulary: splitters, peaklets, peaks and fractional stage
//! indices.
//!
//! A `Peak` is a list of `Splitter`s (coupled proton groups) plus a line
//! width.  Applying the splitters in order produces the multiplet cascade;
//! a `FractionalStageIndex` selects how much of that splitting to apply,
//! including a partially applied last splitter for smooth interpolation.

use vstd::math::abs;
use vstd::prelude::*;
use vstd::string::StringExecFns;

use crate::rational::{lemma_rat_le_trans, rat_le, Rational, NUM_MAX};

verus! {

/// The decimal digit character for a value below ten.
pub open spec fn dec_digit_char(v: nat) -> char {
    if v == 0 {
        '0'
    } else if v == 1 {
        '1'
    } else if v == 2 {
        '2'
    } else if v == 3 {
        '3'
    } else if v == 4 {
        '4'
    } else if v == 5 {
        '5'
    } else if v == 6 {
        '6'
    } else if v == 7 {
        '7'
    } else if v == 8 {
        '8'
    } else {
        '9'
    }
}

/// The decimal representation of a natural number, most significant digit
/// first.
pub open spec fn dec_rep(v: nat) -> Seq<char>
    decreases v,
{
    if v < 10 {
        seq![dec_digit_char(v)]
    } else {
        dec_rep(v / 10).push(dec_digit_char(v % 10))
    }
}

fn digit_str(d: u32) -> (r: &'static str)
    requires
        d < 10,
    ensures
        r@ == seq![dec_digit_char(d as nat)],
{
    proof {
        reveal_strlit("0");
        reveal_strlit("1");
        reveal_strlit("2");
        reveal_strlit("3");
        reveal_strlit("4");
        reveal_strlit("5");
        reveal_strlit("6");
        reveal_strlit("7");
        reveal_strlit("8");
        reveal_strlit("9");
    }
    let r = match d {
        0 => "0",
        1 => "1",
        2 => "2",
        3 => "3",
        4 => "4",
        5 => "5",
        6 => "6",
        7 => "7",
        8 => "8",
        _ => "9",
    };
    proof {
        assert(r@ =~= seq![dec_digit_char(d as nat)]);
    }
    r
}

/// Render a number in decimal.
fn u32_to_decimal(v: u32) -> (s: String)
    ensures
        s@ == dec_rep(v as nat),
    decreases v,
{
    if v < 10 {
        digit_str(v).to_owned()
    } else {
        let mut s = u32_to_decimal(v / 10);
        s.append(digit_str(v % 10));
        s
    }
}

/// A single type of proton coupled to a `Peak`.
#[derive(Clone, Copy, Debug)]
pub struct Splitter {
    /// Number of chemically equivalent protons.
    pub n: u32,
    /// Coupling constant in Hz.
    pub j: Rational,
}

/// An atomic component of a multiplet peak.
#[derive(Clone, Copy, Debug, PartialEq)]
pub struct Peaklet {
    /// Shift relative to the center of the root peak, in Hz.
    pub delta: Rational,
    /// The fraction of the whole multiplet contained herein.
    pub integration: Rational,
}

impl Splitter {
    /// A splitter is well formed when its coupling constant is a
    /// well-formed, non-negative rational.
    pub open spec fn wf(self) -> bool {
        &&& self.j.wf()
        &&& self.j.numer() >= 0
    }

    /// How many peaklets one parent splits into: `n + 1`.
    pub open spec fn spec_peaklet_count(self) -> int {
        self.n + 1
    }

    pub fn resultant_peaklet_count(&self) -> (r: u32)
        requires
            self.n < u32::MAX,
        ensures
            r == self.spec_peaklet_count(),
    {
        self.n + 1
    }

    /// The binomial intensity ratios of the peaklets this splitter makes.
    pub fn peak_ratios(&self) -> (row: Vec<u64>)
        requires
            self.n <= crate::numerics::MAX_ROW_ORDER,
        ensures
            row@.len() == self.n + 1,
            forall|k: int|
                0 <= k <= self.n ==> row@[k] == crate::numerics::binom(self.n as nat, k as nat),
    {
        crate::numerics::pascals_triangle(self.n)
    }
}

impl Default for Splitter {
    /// One coupled proton with a coupling constant of 5 Hz.
    fn default() -> (r: Splitter)
        ensures
            r.wf(),
            r.n == 1,
            r.j.numer() == 5,
            r.j.denom() == 1,
    {
        Splitter { n: 1, j: Rational::from_int(5) }
    }
}

/// The conventional one-letter (or, for six coupled protons, four-letter)
/// abbreviation of a splitting pattern; numeric peaklet count beyond that.
pub open spec fn spec_abbreviation(n: nat) -> Seq<char> {
    if n == 0 {
        "s"@
    } else if n == 1 {
        "d"@
    } else if n == 2 {
        "t"@
    } else if n == 3 {
        "q"@
    } else if n == 4 {
        "p"@
    } else if n == 5 {
        "h"@
    } else if n == 6 {
        "hept"@
    } else {
        dec_rep(n + 1)
    }
}

/// The full spin-multiplicity name, defined for up to six coupled protons.
pub open spec fn spec_pattern_name(n: nat) -> Seq<char> {
    if n == 0 {
        "singlet"@
    } else if n == 1 {
        "doublet"@
    } else if n == 2 {
        "triplet"@
    } else if n == 3 {
        "quartet"@
    } else if n == 4 {
        "pentet"@
    } else if n == 5 {
        "hextet"@
    } else {
        "heptet"@
    }
}

impl Splitter {
    /// The short form of this splitter's pattern: a letter for up to six
    /// protons, the resulting peaklet count in decimal beyond that.
    pub fn abbreviate_pattern(&self) -> (r: String)
        requires
            self.n < u32::MAX,
        ensures
            r@ == spec_abbreviation(self.n as nat),
    {
        proof {
            reveal_strlit("s");
            reveal_strlit("d");
            reveal_strlit("t");
            reveal_strlit("q");
            reveal_strlit("p");
            reveal_strlit("h");
            reveal_strlit("hept");
        }
        match self.n {
            0 => "s".to_owned(),
            1 => "d".to_owned(),
            2 => "t".to_owned(),
            3 => "q".to_owned(),
            4 => "p".to_owned(),
            5 => "h".to_owned(),
            6 => "hept".to_owned(),
            _ => u32_to_decimal(self.n + 1),
        }
    }

    /// The spin-multiplicity name for up to six protons; none beyond that.
    pub fn name_pattern(&self) -> (r: Option<&'static str>)
        ensures
            r is Some <==> self.n <= 6,
            r matches Some(s) ==> s@ == spec_pattern_name(self.n as nat),
    {
        match self.n {
            0 => Some("singlet"),
            1 => Some("doublet"),
            2 => Some("triplet"),
            3 => Some("quartet"),
            4 => Some("pentet"),
            5 => Some("hextet"),
            6 => Some("heptet"),
            _ => None,
        }
    }
}

/// Whether two peaklets are too close to distinguish at line width `fwhm`:
/// `|delta_a - delta_b| < fwhm * 1.1`, stated by cross multiplication.
pub open spec fn spec_overlaps(a: Peaklet, b: Peaklet, fwhm: Rational) -> bool {
    10 * abs(a.delta.numer() * b.delta.denom() - b.delta.numer() * a.delta.denom())
        * fwhm.denom() < 11 * fwhm.numer() * (a.delta.denom() * b.delta.denom())
}

impl Peaklet {
    pub open spec fn wf(self) -> bool {
        &&& self.delta.wf()
        &&& self.integration.wf()
    }

    /// Whether this peaklet visually merges with `b` at line width `fwhm`.
    /// Both shifts must be expressed over the same denominator, as the
    /// peaklets of one cascade are.
    pub fn overlaps_with(&self, b: Peaklet, fwhm: Rational) -> (r: bool)
        requires
            self.wf(),
            b.wf(),
            fwhm.wf(),
            self.delta.denom() == b.delta.denom(),
        ensures
            r == spec_overlaps(*self, b, fwhm),
    {
        let dd = self.delta.den();
        let diff = self.delta.num() as i128 - b.delta.num() as i128;
        let mag = if diff < 0 {
            -diff
        } else {
            diff
        };
        proof {
            crate::rational::lemma_mul_bound(
                10 * mag as int,
                fwhm.denom(),
                20 * NUM_MAX,
                crate::rational::DEN_MAX as int,
            );
            crate::rational::lemma_mul_bound(
                11 * fwhm.numer(),
                dd as int,
                11 * NUM_MAX,
                crate::rational::DEN_MAX as int,
            );
        }
        let lhs = 10 * mag * (fwhm.den() as i128);
        let rhs = 11 * (fwhm.num() as i128) * (dd as i128);
        let r = lhs < rhs;
        proof {
            let an = self.delta.numer();
            let bn = b.delta.numer();
            let d = self.delta.denom();
            let fn_ = fwhm.numer();
            let fd = fwhm.denom();
            // The cross-multiplied form divides out one factor of the
            // common denominator `d`.
            assert(an * d - bn * d == (an - bn) * d) by (nonlinear_arith);
            assert(abs((an - bn) * d) == abs(an - bn) * d) by (nonlinear_arith)
                requires
                    d > 0;
            assert((10 * abs(an - bn) * fd < 11 * fn_ * d) == (10 * (abs(an - bn) * d) * fd < 11
                * fn_ * (d * d))) by (nonlinear_arith)
                requires
                    d > 0;
            assert(10 * (abs(an - bn) * d) * fd == 10 * abs(an * d - bn * d) * fd);
        }
        r
    }
}

/// A continuous position within the cascade's stage sequence: `full()`
/// whole splitters, plus a possible partial one.
#[derive(Clone, Copy, Debug, PartialEq)]
pub struct FractionalStageIndex {
    value: Rational,
}

impl FractionalStageIndex {
    /// The wrapped progress value.
    pub closed spec fn value(self) -> Rational {
        self.value
    }

    pub open spec fn wf(self) -> bool {
        &&& self.value().wf()
        &&& self.value().numer() >= 0
    }

    /// Number of fully applied splitters: the integer part.
    pub open spec fn spec_full(self) -> int {
        self.value().numer() / self.value().denom()
    }

    /// Whether a partial splitter is in play: the fractional part is
    /// exactly nonzero.
    pub open spec fn spec_has_partial(self) -> bool {
        self.value().numer() % self.value().denom() != 0
    }

    /// Stages to consider active: full ones plus a possible partial one.
    pub open spec fn spec_total_stage_count(self) -> int {
        self.spec_full() + if self.spec_has_partial() {
            1int
        } else {
            0int
        }
    }

    pub fn new(index: Rational) -> (r: FractionalStageIndex)
        requires
            index.wf(),
            index.numer() >= 0,
        ensures
            r.wf(),
            r.value() == index,
    {
        FractionalStageIndex { value: index }
    }

    pub fn full(&self) -> (r: usize)
        requires
            self.wf(),
            self.spec_full() <= usize::MAX,
        ensures
            r == self.spec_full(),
    {
        self.value.floor_of_nonneg() as usize
    }

    pub fn has_significant_partial(&self) -> (r: bool)
        requires
            self.wf(),
        ensures
            r == self.spec_has_partial(),
    {
        let f = self.value.fract_of_nonneg();
        f.num() != 0
    }

    /// The 1-based index of the partially applied stage and the fraction
    /// by which it is applied, when there is one.
    pub fn partial_and_index(&self) -> (r: Option<(usize, Rational)>)
        requires
            self.wf(),
            self.spec_total_stage_count() <= usize::MAX,
        ensures
            r is Some <==> self.spec_has_partial(),
            r matches Some(p) ==> {
                &&& p.0 == self.spec_full() + 1
                &&& p.1.wf()
                &&& p.1.numer() == self.value().numer() % self.value().denom()
                &&& p.1.denom() == self.value().denom()
                &&& 0 < p.1.numer() < p.1.denom()
            },
    {
        if self.has_significant_partial() {
            proof {
                vstd::arithmetic::div_mod::lemma_div_pos_is_pos(
                    self.value().numer(),
                    self.value().denom(),
                );
                assert(self.value().numer() / self.value().denom() <= self.value().numer()) by {
                    vstd::arithmetic::div_mod::lemma_div_is_ordered_by_denominator(
                        self.value().numer(),
                        1,
                        self.value().denom(),
                    );
                }
            }
            Some((self.full() + 1, self.value.fract_of_nonneg()))
        } else {
            None
        }
    }

    pub fn total_stage_count(&self) -> (r: usize)
        requires
            self.wf(),
            self.spec_total_stage_count() <= usize::MAX,
        ensures
            r == self.spec_total_stage_count(),
    {
        proof {
            vstd::arithmetic::div_mod::lemma_div_pos_is_pos(
                self.value().numer(),
                self.value().denom(),
            );
            vstd::arithmetic::div_mod::lemma_div_is_ordered_by_denominator(
                self.value().numer(),
                1,
                self.value().denom(),
            );
        }
        self.full() + (if self.has_significant_partial() {
            1
        } else {
            0
        })
    }
}

/// Convert an NMR instrument frequency (MHz) to the corresponding magnetic
/// field strength (T), via the proton gyromagnetic ratio 42.577478518 MHz/T.
pub fn mhz_to_tesla(frequency: Rational) -> (r: Rational)
    requires
        frequency.wf(),
        -NUM_MAX <= frequency.numer() * 1000000000 <= NUM_MAX,
        frequency.denom() * 42577478518 <= crate::rational::DEN_MAX,
    ensures
        r.wf(),
        r.numer() == frequency.numer() * 1000000000,
        r.denom() == frequency.denom() * 42577478518,
{
    let gamma_proton = Rational::new(42577478518, 1000000000);
    frequency.div(&gamma_proton)
}

/// Convert an absolute shift in Hz to ppm at a given instrument frequency
/// (MHz): a plain division.
pub fn j_to_ppm(j: Rational, frequency: Rational) -> (r: Rational)
    requires
        j.wf(),
        frequency.wf(),
        frequency.numer() > 0,
        crate::rational::div_fits(j, frequency),
    ensures
        r.wf(),
        r.numer() == j.numer() * frequency.denom(),
        r.denom() == j.denom() * frequency.numer(),
{
    j.div(&frequency)
}

/// The concatenation of the splitters' abbreviations, in order.
pub open spec fn concat_abbrevs(ss: Seq<Splitter>) -> Seq<char>
    decreases ss.len(),
{
    if ss.len() == 0 {
        Seq::empty()
    } else {
        concat_abbrevs(ss.drop_last()) + spec_abbreviation(ss.last().n as nat)
    }
}

/// Whether every splitter has a one-letter abbreviation (`n <= 5`).
pub open spec fn all_simple(ss: Seq<Splitter>) -> bool {
    forall|k: int| 0 <= k < ss.len() ==> (#[trigger] ss[k]).n <= 5
}

/// The aggregate name of a peak: the singlet letter when there are no
/// splitters, else the concatenated one-letter abbreviations.
pub open spec fn spec_peak_name(ss: Seq<Splitter>) -> Seq<char> {
    if ss.len() == 0 {
        "s"@
    } else {
        concat_abbrevs(ss)
    }
}

/// A descriptor of a peak: a list of coupled proton types plus the full
/// width at half maximum (Hz) of every rendered line.
#[derive(Clone, Debug)]
pub struct Peak {
    /// List of coupled proton types.
    pub splitters: Vec<Splitter>,
    /// Full width at half maximum of the peak, in Hz.
    pub fwhm: Rational,
}

impl Default for Peak {
    /// An unsplit peak half a hertz wide.
    fn default() -> (r: Peak)
        ensures
            r.wf(),
            r.splitters@.len() == 0,
            r.fwhm.numer() == 1,
            r.fwhm.denom() == 2,
    {
        Peak { splitters: Vec::new(), fwhm: Rational::new(1, 2) }
    }
}

impl Peak {
    pub open spec fn wf(self) -> bool {
        &&& self.fwhm.wf()
        &&& self.fwhm.numer() > 0
        &&& forall|k: int| 0 <= k < self.splitters@.len() ==> (#[trigger] self.splitters@[k]).wf()
    }

    /// One stage per splitter, plus the base stage.
    pub fn stage_count(&self) -> (r: usize)
        requires
            self.splitters@.len() < usize::MAX,
        ensures
            r == self.splitters@.len() + 1,
    {
        self.splitters.len() + 1
    }

    /// The conventional name of the whole multiplet, if every splitter has
    /// a one-letter abbreviation; `None` for complex patterns.
    pub fn name(&self) -> (r: Option<String>)
        ensures
            r is Some <==> (self.splitters@.len() == 0 || all_simple(self.splitters@)),
            r matches Some(s) ==> s@ == spec_peak_name(self.splitters@),
    {
        if self.splitters.len() == 0 {
            return Some("s".to_owned());
        }
        let mut s = "".to_owned();
        proof {
            reveal_strlit("");
            assert(s@ =~= concat_abbrevs(self.splitters@.take(0)));
        }
        let mut i: usize = 0;
        while i < self.splitters.len()
            invariant
                i <= self.splitters@.len(),
                forall|k: int| 0 <= k < i ==> (#[trigger] self.splitters@[k]).n <= 5,
                s@ == concat_abbrevs(self.splitters@.take(i as int)),
            decreases self.splitters@.len() - i,
        {
            let sp = self.splitters[i];
            if sp.n > 5 {
                proof {
                    assert(!all_simple(self.splitters@)) by {
                        assert(self.splitters@[i as int].n > 5);
                    }
                }
                return None;
            }
            let a = sp.abbreviate_pattern();
            s.append(a.as_str());
            proof {
                let taken = self.splitters@.take(i + 1);
                assert(taken.drop_last() =~= self.splitters@.take(i as int));
                assert(taken.last() == self.splitters@[i as int]);
            }
            i = i + 1;
        }
        proof {
            assert(self.splitters@.take(self.splitters@.len() as int) =~= self.splitters@);
        }
        Some(s)
    }

    /// Sort the splitters by descending coupling constant.
    pub fn sort_by_j(&mut self)
        requires
            old(self).wf(),
        ensures
            final(self).wf(),
            final(self).fwhm == old(self).fwhm,
            final(self).splitters@.len() == old(self).splitters@.len(),
            final(self).splitters@.to_multiset() == old(self).splitters@.to_multiset(),
            forall|a: int, b: int|
                0 <= a <= b < final(self).splitters@.len() ==> rat_le(
                    final(self).splitters@[b].j,
                    final(self).splitters@[a].j,
                ),
    {
        let n = self.splitters.len();
        let mut i: usize = 1;
        while i < n
            invariant
                1 <= i,
                n == self.splitters@.len(),
                old(self).splitters@.len() == n,
                self.fwhm == old(self).fwhm,
                old(self).fwhm.wf(),
                old(self).fwhm.numer() > 0,
                self.splitters@.to_multiset() == old(self).splitters@.to_multiset(),
                forall|k: int| 0 <= k < n ==> (#[trigger] self.splitters@[k]).wf(),
                forall|a: int, b: int|
                    0 <= a <= b < i && b < n ==> rat_le(
                        self.splitters@[b].j,
                        self.splitters@[a].j,
                    ),
            decreases n - i,
        {
            let mut k: usize = i;
            while k > 0 && self.splitters[k - 1].j.lt(&self.splitters[k].j)
                invariant
                    k <= i < n,
                    n == self.splitters@.len(),
                    old(self).splitters@.len() == n,
                    self.fwhm == old(self).fwhm,
                    self.splitters@.to_multiset() == old(self).splitters@.to_multiset(),
                    forall|q: int| 0 <= q < n ==> (#[trigger] self.splitters@[q]).wf(),
                    forall|a: int, b: int|
                        0 <= a < b <= i && b != k ==> rat_le(
                            self.splitters@[b].j,
                            self.splitters@[a].j,
                        ),
                decreases k,
            {
                let ghost spre = self.splitters@;
                let x = self.splitters[k - 1];
                let y = self.splitters[k];
                self.splitters[k - 1] = y;
                self.splitters[k] = x;
                proof {
                    broadcast use vstd::seq_lib::group_to_multiset_ensures;

                    vstd::seq_lib::to_multiset_update(spre, k - 1, y);
                    vstd::seq_lib::to_multiset_update(spre.update(k - 1, y), k as int, x);
                    assert(self.splitters@ =~= spre.update(k - 1, y).update(k as int, x));
                    assert(spre.to_multiset().contains(x)) by {
                        assert(spre[k - 1] == x);
                    }
                    assert(self.splitters@.to_multiset() =~= spre.to_multiset());
                }
                k = k - 1;
            }
            proof {
                let v = self.splitters@;
                assert forall|a: int, b: int| 0 <= a <= b < i + 1 implies rat_le(
                    v[b].j,
                    v[a].j,
                ) by {
                    if a < b && b == k && a < k - 1 {
                        lemma_rat_le_trans(v[k as int].j, v[k - 1].j, v[a].j);
                    }
                }
            }
            i = i + 1;
        }
    }
}

/// For `0 <= num <= len * den`: the quotient is at most `len`, and strictly
/// below `len` when the division leaves a remainder.
pub proof fn lemma_quotient_within(num: int, den: int, len: int)
    requires
        0 <= num,
        1 <= den,
        0 <= len,
        num <= len * den,
    ensures
        0 <= num / den <= len,
        num % den != 0 ==> num / den < len,
{
    vstd::arithmetic::div_mod::lemma_div_pos_is_pos(num, den);
    assert(len * den == den * len) by (nonlinear_arith);
    vstd::arithmetic::div_mod::lemma_div_is_ordered(num, den * len, den);
    vstd::arithmetic::div_mod::lemma_div_multiples_vanish(len, den);
    vstd::arithmetic::div_mod::lemma_fundamental_div_mod(num, den);
    vstd::arithmetic::div_mod::lemma_mod_bound(num, den);
    if num % den != 0 && num / den == len {
        assert(num == den * len + num % den);
        assert(false);
    }
}

impl Peak {
    /// Whether scaling the last active splitter by the fractional part of
    /// `n` stays within the rational bounds.
    pub open spec fn partial_scale_fits(self, n: FractionalStageIndex) -> bool {
        n.spec_has_partial() ==> {
            let j = self.splitters@[n.spec_full()].j;
            &&& j.numer() * (n.value().numer() % n.value().denom()) <= NUM_MAX
            &&& j.denom() * n.value().denom() <= crate::rational::DEN_MAX
        }
    }

    /// The peak truncated at a fractional stage index: only the first
    /// `total_stage_count` splitters remain, and when the index has a
    /// fractional part, the last remaining splitter's coupling constant is
    /// scaled by it.
    pub fn nth_partial_peak(&self, n: FractionalStageIndex) -> (r: Peak)
        requires
            self.wf(),
            n.wf(),
            n.value().numer() <= self.splitters@.len() * n.value().denom(),
            self.partial_scale_fits(n),
        ensures
            r.wf(),
            r.fwhm == self.fwhm,
            r.splitters@.len() == n.spec_total_stage_count(),
            forall|k: int| 0 <= k < n.spec_full() ==> r.splitters@[k] == self.splitters@[k],
            !n.spec_has_partial() ==> r.splitters@ == self.splitters@.take(n.spec_full()),
            n.spec_has_partial() ==> {
                let scaled = r.splitters@[n.spec_full()];
                let orig = self.splitters@[n.spec_full()];
                &&& scaled.n == orig.n
                &&& scaled.j.numer() == orig.j.numer() * (n.value().numer() % n.value().denom())
                &&& scaled.j.denom() == orig.j.denom() * n.value().denom()
            },
    {
        let available = self.splitters.len();
        proof {
            lemma_quotient_within(n.value().numer(), n.value().denom(), available as int);
        }
        let total = n.total_stage_count();
        let mut kept: Vec<Splitter> = Vec::new();
        let mut i: usize = 0;
        while i < total
            invariant
                total <= self.splitters@.len(),
                i <= total,
                kept@ =~= self.splitters@.take(i as int),
            decreases total - i,
        {
            kept.push(self.splitters[i]);
            proof {
                assert(kept@ =~= self.splitters@.take(i + 1));
            }
            i = i + 1;
        }
        if let Some((idx, part)) = n.partial_and_index() {
            // The splitter list does not contain the base stage, so the
            // partially applied stage `idx` sits at `idx - 1`.
            let orig = kept[idx - 1];
            proof {
                crate::rational::lemma_mul_bound(
                    orig.j.numer(),
                    part.numer(),
                    NUM_MAX as int,
                    part.numer(),
                );
            }
            kept[idx - 1] = Splitter { n: orig.n, j: orig.j.mul(&part) };
        }
        proof {
            if !n.spec_has_partial() {
                assert(kept@ =~= self.splitters@.take(n.spec_full()));
            }
        }
        Peak { splitters: kept, fwhm: self.fwhm }
    }
}

} // verus!
