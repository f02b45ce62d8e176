use std::collections::BTreeSet;

use citest::ci_tests::{
    check_row_count, constant_input_error, discrete_meta, pearson_equivalence_meta, ChiSquared, CressieRead,
    FisherZ, FreemanTukey, LogLikelihood, ModifiedLikelihood, PearsonCorrelation,
};
use citest::registry::{all_metas, registry_position};
use citest::{CiError, DataType, IndependenceRule};

const EXPECTED_NAMES: [&str; 7] = [
    "chi_squared",
    "log_likelihood",
    "cressie_read",
    "freeman_tukey",
    "modified_likelihood",
    "pearson_correlation",
    "pearson_equivalence",
];

#[test]
fn chi_squared_meta_is_correct() {
    let m = ChiSquared::new().meta();
    assert_eq!(m.name, "chi_squared");
    assert_eq!(m.data_types, &[DataType::Discrete]);
    assert!(m.symmetric);
    assert_eq!(m.rule, IndependenceRule::PValueGe);
}

#[test]
fn modified_likelihood_meta_is_correct() {
    let m = ModifiedLikelihood::new().meta();
    assert_eq!(m.name, "modified_likelihood");
    assert_eq!(m.data_types, &[DataType::Discrete]);
    assert!(m.symmetric);
    assert_eq!(m.rule, IndependenceRule::PValueGe);
}

#[test]
fn fisher_z_meta_is_correct() {
    let m = FisherZ::new().meta();
    assert_eq!(m.name, "fisher_z");
    assert_eq!(m.data_types, &[DataType::Continuous]);
    assert!(m.symmetric);
    assert_eq!(m.rule, IndependenceRule::PValueGe);
}

#[test]
fn exposes_seven_unique_metas() {
    let metas = all_metas();
    assert_eq!(metas.len(), 7, "expected exactly 7 registered tests");
    let names: BTreeSet<&str> = metas.iter().map(|m| m.name).collect();
    assert_eq!(names.len(), 7, "test names must be unique");
    for expected in EXPECTED_NAMES {
        assert!(names.contains(expected), "missing test `{expected}`");
    }
}

#[test]
fn default_matches_new() {
    assert_eq!(ChiSquared::default(), ChiSquared::new());
    assert!(ChiSquared::default().yates, "Yates on by default");
}

#[test]
fn every_power_divergence_member_defaults_to_yates() {
    assert!(LogLikelihood::default().yates && LogLikelihood::new().yates);
    assert!(CressieRead::default().yates && CressieRead::new().yates);
    assert!(FreemanTukey::default().yates && FreemanTukey::new().yates);
    assert!(ModifiedLikelihood::default().yates && ModifiedLikelihood::new().yates);
}

#[test]
fn discrete_members_share_the_discrete_meta() {
    for (meta, name) in [
        (LogLikelihood::new().meta(), "log_likelihood"),
        (CressieRead::new().meta(), "cressie_read"),
        (FreemanTukey::new().meta(), "freeman_tukey"),
    ] {
        assert_eq!(meta.name, name);
        assert_eq!(meta.data_types, &[DataType::Discrete]);
        assert!(meta.symmetric);
        assert_eq!(meta.rule, IndependenceRule::PValueGe);
    }
    let m = discrete_meta("custom");
    assert_eq!(m.name, "custom");
    assert_eq!(m.data_types, &[DataType::Discrete]);
}

#[test]
fn pearson_correlation_meta_is_correct() {
    let m = PearsonCorrelation::new().meta();
    assert_eq!(m.name, "pearson_correlation");
    assert_eq!(m.data_types, &[DataType::Continuous]);
    assert!(m.symmetric);
    assert_eq!(m.rule, IndependenceRule::PValueGe);
}

#[test]
fn pearson_equivalence_meta_uses_pvalue_lt() {
    let m = pearson_equivalence_meta();
    assert_eq!(m.name, "pearson_equivalence");
    assert_eq!(m.rule, IndependenceRule::PValueLt);
    assert_eq!(m.data_types, &[DataType::Continuous]);
    assert!(m.symmetric);
}

#[test]
fn metas_come_in_registry_order() {
    let metas = all_metas();
    for (i, expected) in EXPECTED_NAMES.iter().enumerate() {
        assert_eq!(metas[i].name, *expected);
        assert_eq!(registry_position(expected), Some(i));
    }
    assert_eq!(metas[6].rule, IndependenceRule::PValueLt);
    assert!(metas[..6].iter().all(|m| m.rule == IndependenceRule::PValueGe));
    assert!(metas[..5].iter().all(|m| m.data_types == [DataType::Discrete]));
    assert!(metas[5..].iter().all(|m| m.data_types == [DataType::Continuous]));
}

#[test]
fn unknown_name_has_no_registry_position() {
    assert_eq!(registry_position("not_a_real_test"), None);
    assert_eq!(registry_position("fisher_z"), None);
}

#[test]
fn row_count_needs_three_more_than_the_conditioning_set() {
    assert!(check_row_count(3, 0).is_ok());
    assert!(check_row_count(5, 2).is_ok());
    let err = check_row_count(2, 0).unwrap_err();
    assert!(matches!(err, CiError::DegenerateData(_)));
    assert_eq!(err.to_string(), "degenerate data: need at least 3 rows for correlation, got 2");
    let err = check_row_count(4, 2).unwrap_err();
    assert_eq!(err.to_string(), "degenerate data: need at least |Z| + 3 = 5 rows, got 4");
}

#[test]
fn constant_input_names_the_input() {
    let err = constant_input_error("y");
    assert!(matches!(err, CiError::DegenerateData(_)));
    assert_eq!(err.to_string(), "degenerate data: input `y` is constant; Pearson correlation is undefined");
}
