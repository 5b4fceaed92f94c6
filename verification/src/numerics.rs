//! Binomial combinatorics: Pascal's-triangle rows and their sums.
//!
//! A splitter with `n` coupled protons weighs its `n + 1` children by the
//! `n`-th row of Pascal's triangle, normalized by `2^n` so that the weights
//! sum to exactly one.

use vstd::arithmetic::power2::{
    lemma2_to64, lemma2_to64_rest, lemma_pow2_adds, lemma_pow2_pos, pow2,
};
use vstd::prelude::*;

use crate::rational::Rational;

verus! {

/// The binomial coefficient `C(n, k)`, by Pascal's rule.
pub open spec fn binom(n: nat, k: nat) -> nat
    decreases n,
{
    if k == 0 {
        1
    } else if k > n {
        0
    } else {
        binom((n - 1) as nat, (k - 1) as nat) + binom((n - 1) as nat, k)
    }
}

/// The `n`-th row of Pascal's triangle: `C(n, 0) .. C(n, n)`.
pub open spec fn binom_row(n: nat) -> Seq<int> {
    Seq::new(n + 1, |k: int| binom(n, k as nat) as int)
}

/// The sum of a sequence of integers.
pub open spec fn sum_ints(s: Seq<int>) -> int
    decreases s.len(),
{
    if s.len() == 0 {
        0
    } else {
        s.first() + sum_ints(s.drop_first())
    }
}

pub proof fn lemma_binom_n_n(n: nat)
    ensures
        binom(n, n) == 1,
    decreases n,
{
    if n > 0 {
        lemma_binom_n_n((n - 1) as nat);
        assert(binom((n - 1) as nat, n) == 0);
        assert(binom(n, n) == binom((n - 1) as nat, (n - 1) as nat) + binom((n - 1) as nat, n));
    }
}

/// `C(n, n - 1) == n` for `n >= 1`.
pub proof fn lemma_binom_penultimate(n: nat)
    ensures
        n >= 1 ==> binom(n, (n - 1) as nat) == n,
    decreases n,
{
    if n >= 2 {
        lemma_binom_penultimate((n - 1) as nat);
        lemma_binom_n_n((n - 1) as nat);
    }
}

pub proof fn lemma_binom_pos(n: nat, k: nat)
    ensures
        k <= n ==> binom(n, k) >= 1,
    decreases n,
{
    if k != 0 && k <= n {
        lemma_binom_pos((n - 1) as nat, k);
        lemma_binom_pos((n - 1) as nat, (k - 1) as nat);
    }
}

/// The multiplicative recurrence along one row of the triangle:
/// `k * C(n, k) == (n + 1 - k) * C(n, k - 1)` for `1 <= k <= n`.
pub proof fn lemma_binom_mult(n: nat, k: nat)
    requires
        1 <= k <= n,
    ensures
        k * binom(n, k) == (n + 1 - k) * binom(n, (k - 1) as nat),
    decreases n,
{
    let nm1 = (n - 1) as nat;
    let km1 = (k - 1) as nat;
    if k == n {
        lemma_binom_n_n(n);
        lemma_binom_penultimate(n);
        assert(k * binom(n, k) == n * 1) by (nonlinear_arith)
            requires k == n, binom(n, k) == 1;
        assert((n + 1 - k) * binom(n, km1) == n) by (nonlinear_arith)
            requires k == n, binom(n, km1) == n;
    } else {
        // 1 <= k < n, so Pascal's rule applies to both sides.
        let a = binom(nm1, km1) as int;
        let b = binom(nm1, k) as int;
        assert(binom(n, k) == a + b);
        lemma_binom_mult(nm1, k);
        // k * b == (n - k) * a
        assert(k * (a + b) == k * a + k * b) by (nonlinear_arith);
        assert(k * binom(n, k) == n * a) by (nonlinear_arith)
            requires
                k * binom(n, k) == k * a + k * b,
                k * b == (n - k) * a;
        if k == 1 {
            assert(binom(n, 0nat) == 1);
            assert((n + 1 - k) * binom(n, km1) == n * a) by (nonlinear_arith)
                requires k == 1, binom(n, km1) == 1, a == 1;
        } else {
            let km2 = (k - 2) as nat;
            let c = binom(nm1, km2) as int;
            assert(binom(n, km1) == c + a);
            lemma_binom_mult(nm1, km1);
            // (k - 1) * a == (n + 1 - k) * c
            assert((n + 1 - k) * (c + a) == (n + 1 - k) * c + (n + 1 - k) * a) by (nonlinear_arith);
            assert((n + 1 - k) * binom(n, km1) == n * a) by (nonlinear_arith)
                requires
                    (n + 1 - k) * binom(n, km1) == (n + 1 - k) * c + (n + 1 - k) * a,
                    (k - 1) * a == (n + 1 - k) * c;
        }
    }
}

/// Appending an element adds its value to the sum.
pub proof fn lemma_sum_push(s: Seq<int>, x: int)
    ensures
        sum_ints(s.push(x)) == sum_ints(s) + x,
    decreases s.len(),
{
    if s.len() == 0 {
        assert(s.push(x).drop_first() =~= Seq::<int>::empty());
        assert(s.push(x).first() == x);
        assert(sum_ints(s.push(x)) == x + sum_ints(Seq::<int>::empty()));
    } else {
        assert(s.push(x).drop_first() =~= s.drop_first().push(x));
        assert(s.push(x).first() == s.first());
        lemma_sum_push(s.drop_first(), x);
    }
}

/// Summing pointwise sums is adding the sums.
pub proof fn lemma_sum_pointwise_add(a: Seq<int>, b: Seq<int>, c: Seq<int>)
    requires
        a.len() == b.len() == c.len(),
        forall|i: int| 0 <= i < c.len() ==> c[i] == a[i] + b[i],
    ensures
        sum_ints(c) == sum_ints(a) + sum_ints(b),
    decreases c.len(),
{
    if c.len() > 0 {
        lemma_sum_pointwise_add(a.drop_first(), b.drop_first(), c.drop_first());
    }
}

/// A sequence of non-negative values has a non-negative sum.
pub proof fn lemma_sum_nonneg(s: Seq<int>)
    requires
        forall|i: int| 0 <= i < s.len() ==> s[i] >= 0,
    ensures
        sum_ints(s) >= 0,
    decreases s.len(),
{
    if s.len() > 0 {
        lemma_sum_nonneg(s.drop_first());
    }
}

/// In a sequence of non-negative values, each element is at most the sum.
pub proof fn lemma_sum_elem_le(s: Seq<int>, i: int)
    requires
        forall|j: int| 0 <= j < s.len() ==> s[j] >= 0,
        0 <= i < s.len(),
    ensures
        s[i] <= sum_ints(s),
    decreases s.len(),
{
    if i == 0 {
        lemma_sum_nonneg(s.drop_first());
    } else {
        lemma_sum_elem_le(s.drop_first(), i - 1);
    }
}

/// Scaling every element scales the sum.
pub proof fn lemma_sum_scale(s: Seq<int>, w: int)
    ensures
        sum_ints(s.map_values(|x: int| w * x)) == w * sum_ints(s),
    decreases s.len(),
{
    let scaled = s.map_values(|x: int| w * x);
    if s.len() == 0 {
        assert(w * 0 == 0) by (nonlinear_arith);
    } else {
        lemma_sum_scale(s.drop_first(), w);
        assert(scaled.drop_first() =~= s.drop_first().map_values(|x: int| w * x));
        assert(w * (s.first() + sum_ints(s.drop_first())) == w * s.first() + w * sum_ints(
            s.drop_first(),
        )) by (nonlinear_arith);
    }
}

/// Removing one element takes its value out of the sum.
pub proof fn lemma_sum_remove(s: Seq<int>, i: int)
    requires
        0 <= i < s.len(),
    ensures
        sum_ints(s) == sum_ints(s.remove(i)) + s[i],
{
    lemma_sum_split(s, i);
    lemma_sum_split(s.remove(i), i);
    assert(s.remove(i).take(i) =~= s.take(i));
    assert(s.remove(i).skip(i) =~= s.skip(i).drop_first());
    assert(sum_ints(s.skip(i)) == s.skip(i).first() + sum_ints(s.skip(i).drop_first()));
    assert(s.skip(i).first() == s[i]);
}

/// The sum of a sequence of integers depends only on its multiset: any
/// permutation has the same sum.
pub proof fn lemma_sum_permutation(a: Seq<int>, b: Seq<int>)
    requires
        a.to_multiset() == b.to_multiset(),
    ensures
        sum_ints(a) == sum_ints(b),
    decreases a.len(),
{
    broadcast use vstd::seq_lib::group_to_multiset_ensures;
    broadcast use vstd::multiset::group_multiset_axioms;

    if a.len() == 0 {
        assert(a.to_multiset().len() == a.len());
        assert(b.to_multiset().len() == b.len());
        assert(b.len() == 0);
    } else {
        let x = a.last();
        assert(a.drop_last() =~= a.remove(a.len() - 1));
        assert(a.to_multiset().count(x) > 0) by {
            assert(a.contains(x));
        }
        assert(b.contains(x));
        let i = choose|i: int| 0 <= i < b.len() && b[i] == x;
        assert(a.remove(a.len() - 1).to_multiset() =~= b.remove(i).to_multiset());
        lemma_sum_permutation(a.drop_last(), b.remove(i));
        lemma_sum_remove(a, a.len() - 1);
        lemma_sum_remove(b, i);
    }
}

/// Mapping commutes with permutation: sequences with equal multisets map
/// to sequences with equal multisets.
pub proof fn lemma_map_preserves_multiset<A, B>(a: Seq<A>, b: Seq<A>, f: spec_fn(A) -> B)
    requires
        a.to_multiset() == b.to_multiset(),
    ensures
        a.map_values(f).to_multiset() == b.map_values(f).to_multiset(),
    decreases a.len(),
{
    broadcast use vstd::seq_lib::group_to_multiset_ensures;
    broadcast use vstd::multiset::group_multiset_axioms;

    if a.len() == 0 {
        assert(a.to_multiset().len() == a.len());
        assert(b.to_multiset().len() == b.len());
        assert(b.len() == 0);
        assert(a.map_values(f) =~= b.map_values(f));
    } else {
        let x = a.last();
        assert(a.to_multiset().count(x) > 0) by {
            assert(a.contains(x));
        }
        assert(b.contains(x));
        let i = choose|i: int| 0 <= i < b.len() && b[i] == x;
        assert(a.drop_last() =~= a.remove(a.len() - 1));
        assert(a.remove(a.len() - 1).to_multiset() =~= b.remove(i).to_multiset());
        lemma_map_preserves_multiset(a.drop_last(), b.remove(i), f);
        let fa = a.map_values(f);
        let fb = b.map_values(f);
        assert(fa.remove(a.len() - 1) =~= a.drop_last().map_values(f));
        assert(fb.remove(i) =~= b.remove(i).map_values(f));
        assert(fa.remove(a.len() - 1).to_multiset() =~= fa.to_multiset().remove(fa[a.len() - 1]));
        assert(fb.remove(i).to_multiset() =~= fb.to_multiset().remove(fb[i]));
        assert(fa[a.len() - 1] == f(x) && fb[i] == f(x));
        assert(fa.to_multiset().count(f(x)) > 0) by {
            assert(fa.contains(f(x))) by {
                assert(fa[a.len() - 1] == f(x));
            }
        }
        assert(fb.to_multiset().count(f(x)) > 0) by {
            assert(fb.contains(f(x))) by {
                assert(fb[i] == f(x));
            }
        }
        assert(fa.remove(a.len() - 1).to_multiset() == fb.remove(i).to_multiset());
        assert(fa.to_multiset().remove(f(x)) == fb.to_multiset().remove(f(x)));
        assert forall|e: B| #[trigger] fa.to_multiset().count(e) == fb.to_multiset().count(e) by {
            if e == f(x) {
                assert(fa.to_multiset().remove(f(x)).count(e) == fa.to_multiset().count(e) - 1);
                assert(fb.to_multiset().remove(f(x)).count(e) == fb.to_multiset().count(e) - 1);
            } else {
                assert(fa.to_multiset().remove(f(x)).count(e) == fa.to_multiset().count(e));
                assert(fb.to_multiset().remove(f(x)).count(e) == fb.to_multiset().count(e));
            }
        }
        assert(fa.to_multiset() =~= fb.to_multiset());
    }
}

/// A sum splits at any cut point.
pub proof fn lemma_sum_split(s: Seq<int>, k: int)
    requires
        0 <= k <= s.len(),
    ensures
        sum_ints(s) == sum_ints(s.take(k)) + sum_ints(s.skip(k)),
    decreases k,
{
    if k == 0 {
        assert(s.take(0) =~= Seq::<int>::empty());
        assert(s.skip(0) =~= s);
    } else {
        lemma_sum_split(s.drop_first(), k - 1);
        assert(s.take(k).drop_first() =~= s.drop_first().take(k - 1));
        assert(s.skip(k) =~= s.drop_first().skip(k - 1));
        assert(sum_ints(s.take(k)) == s[0] + sum_ints(s.drop_first().take(k - 1)));
    }
}

/// The `n`-th row of Pascal's triangle sums to `2^n`: exactly the fact that
/// makes the normalized row a probability distribution.
pub proof fn lemma_binom_row_sum(n: nat)
    ensures
        sum_ints(binom_row(n)) == pow2(n),
    decreases n,
{
    let row = binom_row(n);
    if n == 0 {
        assert(row.len() == 1);
        assert(sum_ints(row) == row[0] + sum_ints(row.drop_first()));
        assert(row.drop_first() =~= Seq::<int>::empty());
        assert(pow2(0) == 1) by {
            lemma2_to64();
        }
    } else {
        let nm1 = (n - 1) as nat;
        let prev = binom_row(nm1);
        lemma_binom_row_sum(nm1);
        // The tail of this row is the pointwise sum of the previous row and
        // the previous row shifted left by one (padded with a zero).
        let left = Seq::new(n, |k: int| binom(nm1, k as nat) as int);
        let right = Seq::new(n, |k: int| binom(nm1, (k + 1) as nat) as int);
        assert(row.drop_first() =~= Seq::new(n, |k: int| binom(n, (k + 1) as nat) as int));
        assert forall|k: int| 0 <= k < n implies row.drop_first()[k] == left[k] + right[k] by {
            assert(binom(n, (k + 1) as nat) == binom(nm1, k as nat) + binom(nm1, (k + 1) as nat));
        }
        lemma_sum_pointwise_add(left, right, row.drop_first());
        assert(left =~= prev);
        assert(right =~= prev.drop_first().push(0)) by {
            assert(binom(nm1, n) == 0);
        }
        lemma_sum_push(prev.drop_first(), 0);
        assert(sum_ints(prev) == prev[0] + sum_ints(prev.drop_first()));
        assert(sum_ints(row) == 1 + (pow2(nm1) - 1) + pow2(nm1));
        assert(pow2(n) == 2 * pow2(nm1)) by {
            lemma_pow2_adds(1, nm1);
            lemma2_to64();
        }
    }
}

/// Every entry of a row is at most the row sum, `2^n`.
pub proof fn lemma_binom_le_pow2(n: nat, k: nat)
    ensures
        binom(n, k) <= pow2(n),
    decreases n,
{
    if k > n {
        lemma_pow2_pos(n);
    } else {
        lemma_binom_row_sum(n);
        lemma_sum_elem_le(binom_row(n), k as int);
    }
}

/// Largest `n` accepted by the row builders: keeps every intermediate
/// product inside 63 bits.
pub const MAX_ROW_ORDER: u32 = 57;

/// `2^e` as an `i64`, for exponents up to `MAX_ROW_ORDER`.
pub fn pow2_i64(e: u32) -> (r: i64)
    requires
        e <= MAX_ROW_ORDER,
    ensures
        r == pow2(e as nat),
        1 <= r,
{
    proof {
        lemma2_to64();
        lemma_pow2_pos(e as nat);
    }
    let mut r: i64 = 1;
    let mut i: u32 = 0;
    while i < e
        invariant
            i <= e <= MAX_ROW_ORDER,
            r == pow2(i as nat),
        decreases e - i,
    {
        proof {
            lemma_pow2_adds(i as nat, 1);
            lemma2_to64();
            lemma2_to64_rest();
            lemma_pow2_le_max57(i as nat);
        }
        r = r * 2;
        i = i + 1;
    }
    r
}

/// `pow2(e) <= pow2(57)` for `e <= 57`.
pub proof fn lemma_pow2_le_max57(e: nat)
    requires
        e <= 57,
    ensures
        pow2(e) <= pow2(57),
{
    if e < 57 {
        vstd::arithmetic::power2::lemma_pow2_strictly_increases(e, 57);
    }
}

/// The `n`-th row of Pascal's triangle, computed by the multiplicative
/// recurrence `C(n, k) = C(n, k - 1) * (n + 1 - k) / k`, in which the
/// division is always exact.
pub fn pascals_triangle(n: u32) -> (row: Vec<u64>)
    requires
        n <= MAX_ROW_ORDER,
    ensures
        row@.len() == n + 1,
        forall|k: int| 0 <= k <= n ==> row@[k] == binom(n as nat, k as nat),
{
    let mut row: Vec<u64> = Vec::new();
    let mut prev: u64 = 1;
    let mut k: u32 = 0;
    while k <= n
        invariant
            n <= MAX_ROW_ORDER,
            k <= n + 1,
            row@.len() == k,
            forall|j: int| 0 <= j < k ==> row@[j] == binom(n as nat, j as nat),
            k <= n ==> prev == binom(n as nat, k as nat),
        decreases n + 1 - k,
    {
        row.push(prev);
        if k < n {
            proof {
                let b_next = binom(n as nat, (k + 1) as nat) as int;
                lemma_binom_mult(n as nat, (k + 1) as nat);
                lemma_binom_le_pow2(n as nat, (k + 1) as nat);
                lemma_pow2_le_max57((n as nat));
                lemma2_to64();
                lemma2_to64_rest();
                // prev * (n - k) == (k + 1) * binom(n, k + 1) <= 58 * pow2(57)
                assert(prev * (n - k) == (k + 1) * b_next) by (nonlinear_arith)
                    requires
                        (k + 1) * b_next == (n + 1 - (k + 1)) * (prev as int);
                assert((k + 1) * b_next <= 58 * pow2(57)) by (nonlinear_arith)
                    requires
                        0 <= b_next <= pow2(57),
                        1 <= k + 1 <= 58;
            }
            let t: u64 = prev * ((n - k) as u64);
            proof {
                vstd::arithmetic::div_mod::lemma_div_multiples_vanish(
                    binom(n as nat, (k + 1) as nat) as int,
                    (k + 1) as int,
                );
            }
            prev = t / ((k + 1) as u64);
        }
        k = k + 1;
    }
    row
}

/// The `n`-th row of Pascal's triangle with every entry divided by `2^n`,
/// so that the row sums to exactly one.
pub fn normalized_pascals_triangle(n: u32) -> (row: Vec<Rational>)
    requires
        n <= MAX_ROW_ORDER,
    ensures
        row@.len() == n + 1,
        forall|k: int|
            0 <= k <= n ==> (#[trigger] row@[k]).wf() && row@[k].numer() == binom(
                n as nat,
                k as nat,
            ) && row@[k].denom() == pow2(n as nat),
        sum_ints(row@.map_values(|q: Rational| q.numer())) == pow2(n as nat),
{
    let raw = pascals_triangle(n);
    let den = pow2_i64(n);
    proof {
        lemma_pow2_le_max57(n as nat);
        lemma2_to64();
        lemma2_to64_rest();
    }
    let mut row: Vec<Rational> = Vec::new();
    let mut k: usize = 0;
    while k < raw.len()
        invariant
            raw@.len() == n + 1,
            n <= MAX_ROW_ORDER,
            den == pow2(n as nat),
            1 <= den <= pow2(57),
            forall|j: int| 0 <= j <= n ==> raw@[j] == binom(n as nat, j as nat),
            k <= raw@.len(),
            row@.len() == k,
            forall|j: int|
                0 <= j < k ==> (#[trigger] row@[j]).wf() && row@[j].numer() == binom(
                    n as nat,
                    j as nat,
                ) && row@[j].denom() == pow2(n as nat),
        decreases raw@.len() - k,
    {
        proof {
            lemma_binom_le_pow2(n as nat, k as nat);
            lemma_pow2_le_max57(n as nat);
            lemma2_to64();
            lemma2_to64_rest();
        }
        let entry = raw[k];
        row.push(Rational::new(entry as i64, den));
        k = k + 1;
    }
    proof {
        let nums = row@.map_values(|q: Rational| q.numer());
        assert(nums =~= binom_row(n as nat));
        lemma_binom_row_sum(n as nat);
    }
    row
}

} // verus!
