//! The evaluation options that are chosen by name: how factor values are
//! binned into quantiles, how they are demeaned, and how portfolios weight
//! them.
use vstd::prelude::*;
use crate::frame::str_eq;

verus! {

/// How factor values are split into quantiles.
#[derive(PartialEq, Eq, Structural, Clone, Copy, Debug)]
pub enum Binning {
    /// Within each time.
    Daily,
    /// Over the whole panel.
    Global,
}

/// What is subtracted from factor values before they are compared.
#[derive(PartialEq, Eq, Structural, Clone, Copy, Debug)]
pub enum Demean {
    /// Values are left as they are (the option named `none`).
    Raw,
    Universe,
    Group,
}

/// How a portfolio weights its members.
#[derive(PartialEq, Eq, Structural, Clone, Copy, Debug)]
pub enum Weighting {
    Factor,
    Quantile,
}

impl Binning {
    /// Reads a binning from its name, `daily` or `global`.
    pub fn parse(value: &str) -> (r: Option<Self>)
        ensures
            r == if value@ == "daily"@ {
                Some(Binning::Daily)
            } else if value@ == "global"@ {
                Some(Binning::Global)
            } else {
                None::<Binning>
            },
    {
        if str_eq(value, "daily") {
            Some(Binning::Daily)
        } else if str_eq(value, "global") {
            Some(Binning::Global)
        } else {
            None
        }
    }
}

impl Demean {
    /// Reads a demeaning from its name, `none`, `universe` or `group`.
    pub fn parse(value: &str) -> (r: Option<Self>)
        ensures
            r == if value@ == "none"@ {
                Some(Demean::Raw)
            } else if value@ == "universe"@ {
                Some(Demean::Universe)
            } else if value@ == "group"@ {
                Some(Demean::Group)
            } else {
                None::<Demean>
            },
    {
        if str_eq(value, "none") {
            Some(Demean::Raw)
        } else if str_eq(value, "universe") {
            Some(Demean::Universe)
        } else if str_eq(value, "group") {
            Some(Demean::Group)
        } else {
            None
        }
    }
}

impl Weighting {
    /// Reads a weighting from its name, `factor` or `quantile`.
    pub fn parse(value: &str) -> (r: Option<Self>)
        ensures
            r == if value@ == "factor"@ {
                Some(Weighting::Factor)
            } else if value@ == "quantile"@ {
                Some(Weighting::Quantile)
            } else {
                None::<Weighting>
            },
    {
        if str_eq(value, "factor") {
            Some(Weighting::Factor)
        } else if str_eq(value, "quantile") {
            Some(Weighting::Quantile)
        } else {
            None
        }
    }
}

} // verus!
