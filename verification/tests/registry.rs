use qfactors::error::QFactorsError;
use qfactors::factor::{ColumnSpec, DType, FactorDescriptor, default_output_columns};
use qfactors::registry::FactorRegistry;

const INPUTS: &[ColumnSpec] = &[ColumnSpec { name: "close", dtype: DType::F64 }];
const OUTPUTS: &[ColumnSpec] = &[ColumnSpec { name: "dummy", dtype: DType::F64 }];
const PAIR: &[ColumnSpec] = &[
    ColumnSpec { name: "first", dtype: DType::F64 },
    ColumnSpec { name: "last", dtype: DType::F64 },
];

fn dummy_descriptor() -> FactorDescriptor {
    FactorDescriptor {
        factor_name: "dummy",
        kernel_name: "dummy",
        window: 2,
        inputs: INPUTS,
        outputs: OUTPUTS,
        param_set: None,
    }
}

#[test]
fn registry_rejects_duplicate_factor_names() {
    let err = FactorRegistry::from_descriptors(vec![dummy_descriptor(), dummy_descriptor()]).unwrap_err();

    assert!(matches!(err, QFactorsError::DuplicateFactorName(name) if name == "dummy"));
}

#[test]
fn registry_finds_descriptors_by_name() {
    let other = FactorDescriptor { factor_name: "other", window: 5, ..dummy_descriptor() };
    let registry = FactorRegistry::from_descriptors(vec![dummy_descriptor(), other]).unwrap();
    assert_eq!(registry.get("other").map(|d| d.window), Some(5));
    assert!(registry.get("missing").is_none());
    assert_eq!(
        registry.descriptors().iter().map(|d| d.factor_name).collect::<Vec<_>>(),
        ["dummy", "other"]
    );
}

#[test]
fn output_columns_follow_output_count() {
    assert_eq!(default_output_columns(&dummy_descriptor()), ["dummy"]);
    let bounds = FactorDescriptor { factor_name: "bounds", outputs: PAIR, ..dummy_descriptor() };
    assert_eq!(default_output_columns(&bounds), ["bounds.first", "bounds.last"]);
}
