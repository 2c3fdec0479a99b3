//! Panel layout, structural validation and factor planning for cross-sectional
//! factor research, with machine-checked contracts.
pub mod error;
pub mod frame;
pub mod key;
pub mod sort;
pub mod prepared_panel;
pub mod obs_range_cache;
pub mod factor;
pub mod column_store;
pub mod compute_panel;
pub mod compute_sink;
pub mod grid;
pub mod cellset;
pub mod expr;
pub mod alpha;
pub mod compute_alpha;
pub mod alpha_eval;
pub mod registry;
pub mod factor_attr;
pub mod factors;
pub mod report;
pub mod factor_sig;
pub mod compute_run;
pub mod eval_options;
