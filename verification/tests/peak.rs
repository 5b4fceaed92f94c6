use protonolysis::peak::{self, FractionalStageIndex, Peak, Splitter};
use protonolysis::utils::StoreOnNthCall;
use protonolysis::Rational;

#[test]
fn pattern_names_and_abbreviations() {
    let names = [
        "singlet", "doublet", "triplet", "quartet", "pentet", "hextet", "heptet",
    ];
    let abbreviations = ["s", "d", "t", "q", "p", "h", "hept"];
    for n in 0..=6u32 {
        let splitter = Splitter { n, j: Rational::one() };
        assert_eq!(splitter.name_pattern(), Some(names[n as usize]));
        assert_eq!(splitter.abbreviate_pattern(), abbreviations[n as usize]);
        assert_eq!(splitter.resultant_peaklet_count(), n + 1);
    }
    let unnamed = Splitter { n: 8, j: Rational::one() };
    assert_eq!(unnamed.name_pattern(), None);
    // Beyond the named patterns, the abbreviation is the peaklet count.
    assert_eq!(unnamed.abbreviate_pattern(), "9");
    let wide = Splitter { n: 41, j: Rational::one() };
    assert_eq!(wide.abbreviate_pattern(), "42");
}

#[test]
fn peak_ratios_are_binomial() {
    let splitter = Splitter { n: 4, j: Rational::one() };
    assert_eq!(splitter.peak_ratios(), vec![1, 4, 6, 4, 1]);
}

#[test]
fn peak_name_concatenates_simple_abbreviations() {
    let no_splitters = Peak { splitters: vec![], fwhm: Rational::one() };
    assert_eq!(no_splitters.name(), Some("s".to_owned()));

    let dt = Peak {
        splitters: vec![
            Splitter { n: 1, j: Rational::from_int(8) },
            Splitter { n: 2, j: Rational::from_int(2) },
        ],
        fwhm: Rational::one(),
    };
    assert_eq!(dt.name(), Some("dt".to_owned()));

    // One multi-character abbreviation spoils the whole name.
    let with_heptet = Peak {
        splitters: vec![
            Splitter { n: 1, j: Rational::from_int(8) },
            Splitter { n: 6, j: Rational::from_int(2) },
        ],
        fwhm: Rational::one(),
    };
    assert_eq!(with_heptet.name(), None);
}

#[test]
fn default_peak_and_splitter() {
    let peak = Peak::default();
    assert!(peak.splitters.is_empty());
    assert!(peak.fwhm == Rational::new(1, 2));
    let splitter = Splitter::default();
    assert_eq!(splitter.n, 1);
    assert!(splitter.j == Rational::from_int(5));
}

#[test]
fn sort_by_j_is_descending() {
    let mut peak = Peak {
        splitters: vec![
            Splitter { n: 1, j: Rational::from_int(2) },
            Splitter { n: 2, j: Rational::from_int(7) },
            Splitter { n: 3, j: Rational::new(7, 2) },
        ],
        fwhm: Rational::one(),
    };
    peak.sort_by_j();
    let js: Vec<Rational> = peak.splitters.iter().map(|s| s.j).collect();
    assert!(js[0] == Rational::from_int(7));
    assert!(js[1] == Rational::new(7, 2));
    assert!(js[2] == Rational::from_int(2));
    let counts: Vec<u32> = peak.splitters.iter().map(|s| s.n).collect();
    assert_eq!(counts, vec![2, 3, 1]);
}

#[test]
fn fractional_stage_index_parts() {
    let whole = FractionalStageIndex::new(Rational::from_int(2));
    assert_eq!(whole.full(), 2);
    assert!(!whole.has_significant_partial());
    assert_eq!(whole.partial_and_index(), None);
    assert_eq!(whole.total_stage_count(), 2);

    let halfway = FractionalStageIndex::new(Rational::new(3, 2));
    assert_eq!(halfway.full(), 1);
    assert!(halfway.has_significant_partial());
    let (stage, part) = halfway.partial_and_index().unwrap();
    assert_eq!(stage, 2);
    assert!(part == Rational::new(1, 2));
    assert_eq!(halfway.total_stage_count(), 2);

    let zero = FractionalStageIndex::new(Rational::zero());
    assert_eq!(zero.full(), 0);
    assert_eq!(zero.total_stage_count(), 0);
}

#[test]
fn unit_conversions_are_exact() {
    let ppm = peak::j_to_ppm(Rational::from_int(6), Rational::from_int(600));
    assert!(ppm == Rational::new(1, 100));

    let tesla = peak::mhz_to_tesla(Rational::from_int(600));
    assert_eq!(tesla.num(), 600_000_000_000);
    assert_eq!(tesla.den(), 42_577_478_518);
}

#[test]
fn rational_comparisons_are_by_value() {
    assert!(Rational::new(1, 2) == Rational::new(2, 4));
    assert!(Rational::new(1, 3) != Rational::new(1, 2));
    assert!(Rational::new(1, 3).lt(&Rational::new(1, 2)));
    assert!(Rational::new(-1, 2).le(&Rational::zero()));
    assert!(Rational::new(3, 2).add(&Rational::new(1, 2)) == Rational::from_int(2));
    assert!(Rational::from_int(3).sub(&Rational::new(1, 2)) == Rational::new(5, 2));
    assert!(Rational::new(2, 3).mul(&Rational::new(3, 4)) == Rational::new(1, 2));
    assert!(Rational::new(2, 3).div(&Rational::new(4, 3)) == Rational::new(1, 2));
}

#[test]
fn store_on_nth_call_stores_the_second_value() {
    let mut store: StoreOnNthCall<2, i32> = StoreOnNthCall::default();
    assert_eq!(store.get(), None);
    store.set(5);
    assert_eq!(store.get(), None);
    store.set(7);
    assert_eq!(store.get(), Some(&7));
    store.set(9);
    assert_eq!(store.get(), Some(&7));
}
