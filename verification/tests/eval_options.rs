use qfactors::eval_options::{Binning, Demean, Weighting};

#[test]
fn evaluation_options_parse_by_name() {
    assert_eq!(Binning::parse("daily"), Some(Binning::Daily));
    assert_eq!(Binning::parse("global"), Some(Binning::Global));
    assert_eq!(Binning::parse("weekly"), None);
    assert_eq!(Demean::parse("none"), Some(Demean::Raw));
    assert_eq!(Demean::parse("universe"), Some(Demean::Universe));
    assert_eq!(Demean::parse("group"), Some(Demean::Group));
    assert_eq!(Demean::parse("Group"), None);
    assert_eq!(Weighting::parse("factor"), Some(Weighting::Factor));
    assert_eq!(Weighting::parse("quantile"), Some(Weighting::Quantile));
    assert_eq!(Weighting::parse(""), None);
}
