use qfactors::factor::DType;
use qfactors::factor_attr::{AttrItem, AttrValue, FactorArgs, MacroError, OutputShape};
use qfactors::factor_sig::{
    ArgModel, FunctionAnalysis, PatModel, PathModel, SignatureModel, TypeModel, parse_output_shape,
    parse_return_type, parse_slice_type,
};

fn path(ident: &str) -> TypeModel {
    TypeModel::Path(PathModel {
        ident: Some(ident.to_string()),
        last_ident: Some(ident.to_string()),
        last_angle_args: None,
        first_type_arg: None,
    })
}

fn result_of(inner: TypeModel) -> TypeModel {
    TypeModel::Path(PathModel {
        ident: None,
        last_ident: Some("Result".to_string()),
        last_angle_args: Some(vec![true]),
        first_type_arg: Some(Box::new(inner)),
    })
}

fn slice_of(elem: &str) -> TypeModel {
    TypeModel::Reference { mutable: false, elem: Box::new(TypeModel::Slice(Box::new(path(elem)))) }
}

fn arg(name: &str, ty: TypeModel) -> ArgModel {
    ArgModel::Typed { pat: PatModel::Ident { name: name.to_string(), has_subpat: false }, ty }
}

fn signature(name: &str, inputs: Vec<ArgModel>, output: Option<TypeModel>) -> SignatureModel {
    SignatureModel {
        name: name.to_string(),
        is_const: false,
        is_async: false,
        is_unsafe: false,
        is_generic: false,
        is_variadic: false,
        inputs,
        output,
    }
}

fn window(n: &str) -> FactorArgs {
    FactorArgs::parse(&vec![AttrItem::NameValue {
        name: "window".to_string(),
        value: AttrValue::Int(n.to_string()),
    }])
    .unwrap()
}

#[test]
fn basic_kernel_is_analysed() {
    let sig = signature("ret", vec![arg("open", slice_of("f64")), arg("close", slice_of("f64"))], Some(path("f64")));
    let analysis = FunctionAnalysis::new(&sig, &window("2")).unwrap();
    assert_eq!(analysis.kernel_name, "ret");
    assert_eq!(analysis.inputs.iter().map(|i| (i.name.clone(), i.dtype)).collect::<Vec<_>>(), [
        ("open".to_string(), DType::F64),
        ("close".to_string(), DType::F64)
    ]);
    assert_eq!(analysis.output_names, ["ret"]);
    assert_eq!(analysis.output_count, 1);
    assert!(!analysis.returns_result);
    assert_eq!(analysis.factors.len(), 1);
    assert_eq!(analysis.factors[0].factor_name, "ret");
}

#[test]
fn result_of_tuple_with_windows_and_outputs() {
    let args = FactorArgs::parse(&vec![
        AttrItem::NameValue {
            name: "windows".to_string(),
            value: AttrValue::Array(vec![AttrValue::Int("2".to_string()), AttrValue::Int("3".to_string())]),
        },
        AttrItem::NameValue {
            name: "outputs".to_string(),
            value: AttrValue::Array(vec![
                AttrValue::Str("change".to_string()),
                AttrValue::Str("volume".to_string()),
            ]),
        },
    ])
    .unwrap();
    let sig = signature(
        "stats",
        vec![arg("close", slice_of("f64")), arg("volume", slice_of("u32")), arg("timestamp", slice_of("i64"))],
        Some(result_of(TypeModel::Tuple(vec![path("f64"), path("f64")]))),
    );
    let analysis = FunctionAnalysis::new(&sig, &args).unwrap();
    assert!(analysis.returns_result);
    assert_eq!(analysis.output_names, ["change", "volume"]);
    assert_eq!(analysis.inputs[1].dtype, DType::U32);
    assert_eq!(analysis.inputs[2].dtype, DType::I64);
    assert_eq!(
        analysis.factors.iter().map(|f| f.factor_name.clone()).collect::<Vec<_>>(),
        ["stats_2", "stats_3"]
    );
}

#[test]
fn bad_signatures_are_refused() {
    let sig = signature("bad", vec![arg("values", slice_of("i32"))], Some(path("f64")));
    assert_eq!(FunctionAnalysis::new(&sig, &window("2")).unwrap_err(), MacroError::InputDType);

    let sig = signature("bad", vec![arg("values", slice_of("f64"))], Some(path("u32")));
    assert_eq!(FunctionAnalysis::new(&sig, &window("2")).unwrap_err(), MacroError::ReturnTypeUnsupported);

    let one_output = FactorArgs::parse(&vec![
        AttrItem::NameValue { name: "window".to_string(), value: AttrValue::Int("2".to_string()) },
        AttrItem::NameValue {
            name: "outputs".to_string(),
            value: AttrValue::Array(vec![AttrValue::Str("first".to_string())]),
        },
    ])
    .unwrap();
    let sig = signature("bad", vec![arg("values", slice_of("f64"))], Some(TypeModel::Tuple(vec![path("f64"), path("f64")])));
    assert_eq!(FunctionAnalysis::new(&sig, &one_output).unwrap_err(), MacroError::OutputsLengthMismatch);

    let mut sig = signature("bad", vec![], Some(path("f64")));
    sig.is_async = true;
    assert_eq!(FunctionAnalysis::new(&sig, &window("2")).unwrap_err(), MacroError::AsyncFn);

    let sig = signature("bad", vec![ArgModel::Receiver], Some(path("f64")));
    assert_eq!(FunctionAnalysis::new(&sig, &window("2")).unwrap_err(), MacroError::MethodUnsupported);

    let sig = signature("bad", vec![], None);
    assert_eq!(FunctionAnalysis::new(&sig, &window("2")).unwrap_err(), MacroError::ReturnMissing);
}

#[test]
fn slice_and_shape_rules() {
    assert_eq!(parse_slice_type(&slice_of("u32")), Ok(DType::U32));
    let mutable = TypeModel::Reference { mutable: true, elem: Box::new(TypeModel::Slice(Box::new(path("f64")))) };
    assert_eq!(parse_slice_type(&mutable), Err(MacroError::InputMutable));
    assert_eq!(parse_slice_type(&path("f64")), Err(MacroError::InputNotSlice));
    assert!(matches!(parse_output_shape(&path("f64")), Ok(OutputShape::Single)));
    assert!(matches!(
        parse_output_shape(&TypeModel::Tuple(vec![path("f64"), path("f64"), path("f64")])),
        Ok(OutputShape::Tuple(3))
    ));
    assert_eq!(
        parse_output_shape(&TypeModel::Tuple(vec![path("f64")])).unwrap_err(),
        MacroError::TupleTooShort
    );
    assert_eq!(
        parse_output_shape(&TypeModel::Tuple(vec![path("f64"), path("u32")])).unwrap_err(),
        MacroError::OutputNotF64
    );
    let bad_result = TypeModel::Path(PathModel {
        ident: None,
        last_ident: Some("Result".to_string()),
        last_angle_args: Some(vec![true, true]),
        first_type_arg: Some(Box::new(path("f64"))),
    });
    assert_eq!(parse_return_type(&Some(bad_result)).unwrap_err(), MacroError::ResultArity);
}

#[test]
fn every_signature_refusal_is_reported() {
    let flags: [(fn(&mut SignatureModel), MacroError); 4] = [
        (|s| s.is_const = true, MacroError::ConstFn),
        (|s| s.is_unsafe = true, MacroError::UnsafeFn),
        (|s| s.is_generic = true, MacroError::GenericFn),
        (|s| s.is_variadic = true, MacroError::VariadicFn),
    ];
    for (set, expected) in flags {
        let mut sig = signature("bad", vec![], Some(path("f64")));
        set(&mut sig);
        assert_eq!(FunctionAnalysis::new(&sig, &window("2")).unwrap_err(), expected);
    }
    let sig = signature(
        "bad",
        vec![ArgModel::Typed { pat: PatModel::Other, ty: slice_of("f64") }],
        Some(path("f64")),
    );
    assert_eq!(FunctionAnalysis::new(&sig, &window("2")).unwrap_err(), MacroError::InputPattern);
    let sig = signature(
        "bad",
        vec![ArgModel::Typed {
            pat: PatModel::Ident { name: "x".to_string(), has_subpat: true },
            ty: slice_of("f64"),
        }],
        Some(path("f64")),
    );
    assert_eq!(FunctionAnalysis::new(&sig, &window("2")).unwrap_err(), MacroError::InputPlainIdent);
    assert_eq!(MacroError::GenericFn.message(), "factor functions cannot be generic");
}

#[test]
fn repeated_attribute_arguments_are_refused() {
    let windows = || AttrItem::NameValue {
        name: "windows".to_string(),
        value: AttrValue::Array(vec![AttrValue::Int("2".to_string())]),
    };
    let outputs = || AttrItem::NameValue {
        name: "outputs".to_string(),
        value: AttrValue::Array(vec![AttrValue::Str("x".to_string())]),
    };
    assert_eq!(FactorArgs::parse(&vec![windows(), windows()]).unwrap_err(), MacroError::DuplicateWindows);
    assert_eq!(FactorArgs::parse(&vec![outputs(), outputs()]).unwrap_err(), MacroError::DuplicateOutputs);
}
