use protonolysis::distribution::{DistributionKind, DistributionSum, RenormalizedDistribution};
use protonolysis::Rational;

fn gaussian(center: Rational, fwhm: Rational, weight: Rational) -> RenormalizedDistribution {
    RenormalizedDistribution::with_fwhm_normalized(DistributionKind::Gaussian, center, fwhm, weight)
}

#[test]
fn empty_sum_has_zero_extent() {
    let sum = DistributionSum::from_components(vec![]);
    let (lo, hi) = sum.extent_by_fwhm(Rational::from_int(3));
    assert!(lo == Rational::zero());
    assert!(hi == Rational::zero());
}

#[test]
fn single_component_extent_is_symmetric() {
    // A line at 5 with a width of 2: three widths out on each side.
    let sum = DistributionSum::from_components(vec![
        gaussian(Rational::from_int(5), Rational::from_int(2), Rational::one()),
    ]);
    let (lo, hi) = sum.extent_by_fwhm(Rational::from_int(3));
    assert!(lo == Rational::from_int(-1));
    assert!(hi == Rational::from_int(11));
}

#[test]
fn extent_is_the_union_of_component_extents() {
    let sum = DistributionSum::from_components(vec![
        gaussian(Rational::from_int(10), Rational::one(), Rational::one()),
        gaussian(Rational::from_int(-3), Rational::new(1, 2), Rational::one()),
    ]);
    let (lo, hi) = sum.extent_by_fwhm(Rational::from_int(2));
    assert!(lo == Rational::from_int(-4));
    assert!(hi == Rational::from_int(12));
}

#[test]
fn components_are_sorted_by_center() {
    let sum = DistributionSum::from_components(vec![
        gaussian(Rational::from_int(4), Rational::one(), Rational::one()),
        gaussian(Rational::from_int(-2), Rational::one(), Rational::one()),
        gaussian(Rational::new(1, 2), Rational::one(), Rational::one()),
    ]);
    let centers: Vec<Rational> = sum.components().iter().map(|c| c.center).collect();
    assert_eq!(centers.len(), 3);
    assert!(centers[0] == Rational::from_int(-2));
    assert!(centers[1] == Rational::new(1, 2));
    assert!(centers[2] == Rational::from_int(4));
}

#[test]
fn with_fwhm_normalized_keeps_the_parts() {
    let d = gaussian(Rational::new(3, 2), Rational::new(1, 4), Rational::new(2, 5));
    assert!(d.kind == DistributionKind::Gaussian);
    assert!(d.center == Rational::new(3, 2));
    assert!(d.fwhm == Rational::new(1, 4));
    assert!(d.normalization == Rational::new(2, 5));
    let (lo, hi) = d.extent_by_fwhm(Rational::from_int(4));
    assert!(lo == Rational::new(1, 2));
    assert!(hi == Rational::new(5, 2));
}
