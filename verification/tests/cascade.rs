use protonolysis::distribution::DistributionKind;
use protonolysis::peak::{FractionalStageIndex, Peak, Peaklet, Splitter};
use protonolysis::Rational;

fn peak_one_triplet() -> Peak {
    Peak {
        splitters: vec![Splitter { n: 2, j: Rational::from_int(6) }],
        fwhm: Rational::one(),
    }
}

fn peak_doublet_triplet() -> Peak {
    Peak {
        splitters: vec![
            Splitter { n: 1, j: Rational::from_int(8) },
            Splitter { n: 2, j: Rational::from_int(2) },
        ],
        fwhm: Rational::one(),
    }
}

#[test]
fn triplet_cascade_stages() {
    let cascade = peak_one_triplet().build_multiplet_cascade();
    assert_eq!(cascade.child_stages_count(), 1);

    let base = cascade.base_peaklet();
    assert!(base.delta == Rational::zero());
    assert!(base.integration == Rational::one());

    let groups = cascade.iter_nth_stage(1);
    assert_eq!(groups.len(), 1);
    let children = &groups[0].children;
    assert_eq!(children.len(), 3);
    assert_eq!(groups[0].children_count(), 3);
    assert!(children[0].delta == Rational::from_int(-6));
    assert!(children[1].delta == Rational::zero());
    assert!(children[2].delta == Rational::from_int(6));
    assert!(children[0].integration == Rational::new(1, 4));
    assert!(children[1].integration == Rational::new(1, 2));
    assert!(children[2].integration == Rational::new(1, 4));
}

#[test]
fn doublet_triplet_counts_and_group_sums() {
    let peak = peak_doublet_triplet();
    assert_eq!(peak.total_peaklet_count(), 6);

    let cascade = peak.build_multiplet_cascade();
    assert_eq!(cascade.child_stages_count(), 2);

    for group in cascade.iter_nth_stage(2) {
        let mut sum = Rational::zero();
        for child in &group.children {
            sum = sum.add(&child.integration);
        }
        assert!(sum == group.parent.integration);
    }
}

#[test]
fn empty_peak_is_a_singlet() {
    let peak = Peak { splitters: vec![], fwhm: Rational::one() };
    assert_eq!(peak.stage_count(), 1);
    let cascade = peak.build_multiplet_cascade();
    assert_eq!(cascade.child_stages_count(), 0);
    let base = cascade.base_peaklet();
    assert!(base.delta == Rational::zero());
    assert!(base.integration == Rational::one());
}

#[test]
fn zero_count_splitter_keeps_the_parent() {
    let peak = Peak {
        splitters: vec![Splitter { n: 0, j: Rational::from_int(5) }],
        fwhm: Rational::one(),
    };
    let cascade = peak.build_multiplet_cascade();
    let groups = cascade.iter_nth_stage(1);
    assert_eq!(groups.len(), 1);
    assert_eq!(groups[0].children.len(), 1);
    assert!(groups[0].children[0].delta == Rational::zero());
    assert!(groups[0].children[0].integration == Rational::one());
}

#[test]
fn max_integration_of_triplet_stage() {
    let cascade = peak_one_triplet().build_multiplet_cascade();
    assert!(cascade.max_integration_of_stage(0) == Rational::one());
    assert!(cascade.max_integration_of_stage(1) == Rational::new(1, 2));
}

#[test]
fn wide_splitting_is_resolved() {
    // j = 10 Hz against a 1 Hz line width: clearly separated.
    let peak = Peak {
        splitters: vec![Splitter { n: 1, j: Rational::from_int(10) }],
        fwhm: Rational::one(),
    };
    let cascade = peak.build_multiplet_cascade();
    assert!(cascade.is_stage_resolved(0));
    assert!(cascade.is_stage_resolved(1));
}

#[test]
fn narrow_splitting_is_not_resolved() {
    // j = 1/2 Hz against a 1 Hz line width: visually merged.
    let peak = Peak {
        splitters: vec![Splitter { n: 1, j: Rational::new(1, 2) }],
        fwhm: Rational::one(),
    };
    let cascade = peak.build_multiplet_cascade();
    assert!(cascade.is_stage_resolved(0));
    assert!(!cascade.is_stage_resolved(1));
}

#[test]
fn resolution_threshold_is_eleven_tenths() {
    // Adjacent peaklets exactly at 1.1 line widths apart are resolved;
    // just below, they are not.
    let at_threshold = Peak {
        splitters: vec![Splitter { n: 1, j: Rational::new(11, 10) }],
        fwhm: Rational::one(),
    };
    assert!(at_threshold.build_multiplet_cascade().is_stage_resolved(1));
    let below = Peak {
        splitters: vec![Splitter { n: 1, j: Rational::new(109, 100) }],
        fwhm: Rational::one(),
    };
    assert!(!below.build_multiplet_cascade().is_stage_resolved(1));
}

#[test]
fn overlap_check_matches_distance() {
    let a = Peaklet { delta: Rational::zero(), integration: Rational::one() };
    let close = Peaklet { delta: Rational::one(), integration: Rational::one() };
    let far = Peaklet { delta: Rational::from_int(2), integration: Rational::one() };
    assert!(a.overlaps_with(close, Rational::one()));
    assert!(!a.overlaps_with(far, Rational::one()));
}

#[test]
fn partial_peak_at_half_stage_halves_the_coupling() {
    let peak = peak_doublet_triplet();
    let index = FractionalStageIndex::new(Rational::new(3, 2));
    assert_eq!(index.full(), 1);
    assert!(index.has_significant_partial());
    assert_eq!(index.total_stage_count(), 2);

    let partial = peak.nth_partial_peak(index);
    assert_eq!(partial.splitters.len(), 2);
    assert!(partial.splitters[0].j == Rational::from_int(8));
    // The last active splitter's j is exactly half its original 2 Hz.
    assert!(partial.splitters[1].j == Rational::one());
}

#[test]
fn partial_peak_at_integer_is_plain_truncation() {
    let peak = peak_doublet_triplet();
    let index = FractionalStageIndex::new(Rational::one());
    assert_eq!(index.total_stage_count(), index.full());
    assert!(!index.has_significant_partial());
    assert!(index.partial_and_index().is_none());

    let partial = peak.nth_partial_peak(index);
    assert_eq!(partial.splitters.len(), 1);
    assert_eq!(partial.splitters[0].n, 1);
    assert!(partial.splitters[0].j == Rational::from_int(8));
    assert!(partial.fwhm == peak.fwhm);

    // The truncated peak's cascade matches the full cascade's first stages.
    let truncated = partial.build_multiplet_cascade();
    let full = peak.build_multiplet_cascade();
    let truncated_groups = truncated.iter_nth_stage(1);
    let full_groups = full.iter_nth_stage(1);
    assert_eq!(truncated_groups.len(), full_groups.len());
    for (a, b) in truncated_groups.iter().zip(full_groups.iter()) {
        assert_eq!(a.children.len(), b.children.len());
        for (x, y) in a.children.iter().zip(b.children.iter()) {
            assert!(x.delta == y.delta);
            assert!(x.integration == y.integration);
        }
    }
}

#[test]
fn partial_peak_at_zero_keeps_no_splitters() {
    let peak = peak_doublet_triplet();
    let partial = peak.nth_partial_peak(FractionalStageIndex::new(Rational::zero()));
    assert!(partial.splitters.is_empty());
    assert!(partial.fwhm == peak.fwhm);
    assert_eq!(partial.build_multiplet_cascade().child_stages_count(), 0);
}

#[test]
fn partial_peak_below_one_scales_the_first_splitter() {
    let peak = peak_one_triplet();
    let index = FractionalStageIndex::new(Rational::new(1, 4));
    assert_eq!(index.full(), 0);
    assert_eq!(index.total_stage_count(), 1);
    let partial = peak.nth_partial_peak(index);
    assert_eq!(partial.splitters.len(), 1);
    assert!(partial.splitters[0].j == Rational::new(3, 2));
}

#[test]
fn buildable_check_accepts_and_rejects() {
    assert!(peak_one_triplet().is_buildable());
    assert!(peak_doublet_triplet().is_buildable());

    // Too many protons in total: the binomial weights would overflow.
    let too_many = Peak {
        splitters: vec![Splitter { n: 9, j: Rational::one() }; 7],
        fwhm: Rational::one(),
    };
    assert!(!too_many.is_buildable());

    // Coupling-constant denominators whose product overflows the common
    // shift denominator.
    let fine_denominators = Peak {
        splitters: vec![Splitter { n: 1, j: Rational::new(1, 1 << 31) }; 2],
        fwhm: Rational::one(),
    };
    assert!(!fine_denominators.is_buildable());
}

#[test]
fn scale_check_accepts_and_rejects() {
    let cascade = peak_one_triplet().build_multiplet_cascade();
    assert!(cascade.can_scale(Rational::from_int(600)));
    assert!(!cascade.can_scale(Rational::from_int(-1)));
    assert!(!cascade.can_scale(Rational::zero()));
    assert!(!cascade.can_scale(Rational::new(600, 1 << 57)));
}

#[test]
fn final_waveform_conserves_total_weight() {
    // Mass conservation through the whole splitting tree: the
    // normalizations of the fully split waveform sum to exactly one.
    let configs = vec![
        peak_one_triplet(),
        peak_doublet_triplet(),
        Peak {
            splitters: vec![
                Splitter { n: 3, j: Rational::from_int(7) },
                Splitter { n: 1, j: Rational::new(3, 2) },
                Splitter { n: 2, j: Rational::new(1, 4) },
            ],
            fwhm: Rational::new(1, 2),
        },
    ];
    for peak in configs {
        let cascade = peak.build_multiplet_cascade();
        let waveform = cascade.final_waveform(Rational::from_int(600), DistributionKind::Gaussian);
        let components = waveform.components();
        // All normalizations share one denominator: sum the numerators.
        let den = components[0].normalization.den();
        let mut numerator_sum: i64 = 0;
        for c in components {
            assert_eq!(c.normalization.den(), den);
            numerator_sum += c.normalization.num();
        }
        assert_eq!(numerator_sum, den);
    }
}

#[test]
fn waveform_scales_shifts_to_ppm() {
    let cascade = peak_one_triplet().build_multiplet_cascade();
    let waveform = cascade.nth_waveform(1, Rational::from_int(600), DistributionKind::Lorentzian);
    let components = waveform.components();
    assert_eq!(components.len(), 3);
    // Sorted by center: -6 Hz, 0, +6 Hz at 600 MHz = -0.01, 0, 0.01 ppm.
    assert!(components[0].center == Rational::new(-1, 100));
    assert!(components[1].center == Rational::zero());
    assert!(components[2].center == Rational::new(1, 100));
    for c in components {
        assert!(c.kind == DistributionKind::Lorentzian);
        // 1 Hz line width at 600 MHz.
        assert!(c.fwhm == Rational::new(1, 600));
    }
}
