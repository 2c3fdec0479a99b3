use qfactors::factor::DType;
use qfactors::factor_attr::{
    AttrItem, AttrValue, FactorArgs, MacroError, OutputShape, WindowArgs, factor_names,
    format_decimal, input_dtype, parse_decimal, parse_outputs, parse_window, parse_windows,
    resolve_output_names,
};

fn int_lit(digits: &str) -> AttrValue {
    AttrValue::Int(digits.to_string())
}

fn name_value(name: &str, value: AttrValue) -> AttrItem {
    AttrItem::NameValue { name: name.to_string(), value }
}

#[test]
fn window_must_be_a_positive_integer() {
    assert_eq!(parse_window(&int_lit("60")), Ok(60));
    assert_eq!(parse_window(&int_lit("0")), Err(MacroError::WindowZero));
    assert_eq!(parse_window(&AttrValue::Str("5".to_string())), Err(MacroError::WindowNotInteger));
    assert_eq!(
        parse_window(&int_lit("99999999999999999999999")),
        Err(MacroError::WindowTooLarge)
    );
    assert_eq!(MacroError::WindowZero.message(), "`window` must be greater than zero");
}

#[test]
fn windows_must_be_a_non_empty_array() {
    assert_eq!(parse_windows(&AttrValue::Array(vec![int_lit("2"), int_lit("3")])), Ok(vec![2, 3]));
    assert_eq!(parse_windows(&AttrValue::Array(vec![])), Err(MacroError::WindowsEmpty));
    assert_eq!(parse_windows(&int_lit("2")), Err(MacroError::WindowsNotArray));
    assert_eq!(
        parse_windows(&AttrValue::Array(vec![int_lit("2"), int_lit("0")])),
        Err(MacroError::WindowZero)
    );
}

#[test]
fn outputs_must_be_non_empty_strings() {
    let ok = AttrValue::Array(vec![AttrValue::Str("first".to_string()), AttrValue::Str("last".to_string())]);
    assert_eq!(parse_outputs(&ok), Ok(vec!["first".to_string(), "last".to_string()]));
    assert_eq!(parse_outputs(&AttrValue::Array(vec![])), Err(MacroError::OutputsEmpty));
    assert_eq!(
        parse_outputs(&AttrValue::Array(vec![AttrValue::Str(String::new())])),
        Err(MacroError::OutputEmpty)
    );
    assert_eq!(parse_outputs(&AttrValue::Array(vec![int_lit("1")])), Err(MacroError::OutputNotString));
    assert_eq!(parse_outputs(&AttrValue::Other), Err(MacroError::OutputsNotArray));
}

#[test]
fn attribute_arguments_are_checked_in_order() {
    let args = FactorArgs::parse(&vec![name_value("window", int_lit("60"))]).unwrap();
    assert!(matches!(args.windows, WindowArgs::Single(60)));
    assert!(args.outputs.is_none());

    let args = FactorArgs::parse(&vec![
        name_value("windows", AttrValue::Array(vec![int_lit("2"), int_lit("3")])),
        name_value("outputs", AttrValue::Array(vec![AttrValue::Str("x".to_string())])),
    ])
    .unwrap();
    assert!(matches!(&args.windows, WindowArgs::Multi(ws) if ws == &vec![2, 3]));
    assert_eq!(args.outputs, Some(vec!["x".to_string()]));

    let err = FactorArgs::parse(&vec![name_value("window", int_lit("1")), name_value("window", int_lit("2"))]).unwrap_err();
    assert_eq!(err, MacroError::DuplicateWindow);
    let err = FactorArgs::parse(&vec![
        name_value("window", int_lit("1")),
        name_value("windows", AttrValue::Array(vec![int_lit("2")])),
    ])
    .unwrap_err();
    assert_eq!(err, MacroError::WindowAndWindows);
    assert_eq!(FactorArgs::parse(&vec![]).unwrap_err(), MacroError::MissingWindow);
    assert_eq!(
        FactorArgs::parse(&vec![name_value("params", AttrValue::Other)]).unwrap_err(),
        MacroError::ParamsUnsupported
    );
    assert_eq!(
        FactorArgs::parse(&vec![name_value("lag", int_lit("1"))]).unwrap_err(),
        MacroError::UnsupportedAttribute
    );
    assert_eq!(FactorArgs::parse(&vec![AttrItem::Other]).unwrap_err(), MacroError::NotNameValue);
}

#[test]
fn output_names_follow_the_return_shape() {
    let (names, count) = resolve_output_names("ret", None, &OutputShape::Single).unwrap();
    assert_eq!((names, count), (vec!["ret".to_string()], 1));
    let declared = vec!["first".to_string(), "last".to_string()];
    let (names, count) = resolve_output_names("bounds", Some(&declared), &OutputShape::Tuple(2)).unwrap();
    assert_eq!((names, count), (declared.clone(), 2));
    assert_eq!(
        resolve_output_names("bounds", None, &OutputShape::Tuple(2)).unwrap_err(),
        MacroError::MultiOutputsMissing
    );
    assert_eq!(
        resolve_output_names("bounds", Some(&declared), &OutputShape::Tuple(3)).unwrap_err(),
        MacroError::OutputsLengthMismatch
    );
    assert_eq!(
        resolve_output_names("ret", Some(&declared), &OutputShape::Single).unwrap_err(),
        MacroError::SingleOutputCount
    );
}

#[test]
fn multi_window_factors_are_named_by_window() {
    let single = factor_names("ret", &WindowArgs::Single(60));
    assert_eq!(single.len(), 1);
    assert_eq!((single[0].factor_name.as_str(), single[0].window), ("ret", 60));
    let multi = factor_names("delta", &WindowArgs::Multi(vec![2, 3, 120]));
    assert_eq!(
        multi.iter().map(|g| (g.factor_name.clone(), g.window)).collect::<Vec<_>>(),
        [("delta_2".to_string(), 2), ("delta_3".to_string(), 3), ("delta_120".to_string(), 120)]
    );
}

#[test]
fn decimal_form_reads_back() {
    for n in [0usize, 7, 10, 99, 100, 123456789, usize::MAX] {
        assert_eq!(format_decimal(n), n.to_string());
        assert_eq!(parse_decimal(&format_decimal(n)), Some(n));
    }
    assert_eq!(parse_decimal(""), None);
    assert_eq!(parse_decimal("1a"), None);
}

#[test]
fn input_dtypes_come_from_slice_types() {
    assert_eq!(input_dtype("f64"), Ok(DType::F64));
    assert_eq!(input_dtype("u32"), Ok(DType::U32));
    assert_eq!(input_dtype("i64"), Ok(DType::I64));
    assert_eq!(input_dtype("f32"), Err(MacroError::InputDType));
}
