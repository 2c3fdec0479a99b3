use qfactors::alpha::{A, close, delay, field, open, period_returns, rank, sum};
use qfactors::alpha_eval::delay as delay_grid;
use qfactors::expr::{Expr, collect_fields};
use qfactors::factors::{alpha8, ensure_linked};

#[test]
fn returns_expands_to_close_div_delay_minus_one() {
    assert_eq!(
        period_returns().into_expr(),
        Expr::Sub(
            Box::new(Expr::Div(
                Box::new(Expr::Field("close".to_string())),
                Box::new(Expr::Delay(Box::new(Expr::Field("close".to_string())), 1)),
            )),
            Box::new(Expr::Const(1.0f64.to_bits())),
        )
    );
}

#[test]
fn alpha8_expression_can_be_built_with_clone() {
    let inner = sum(open(), 5) * sum(period_returns(), 5);
    let expr = A::const_times((-1.0f64).to_bits(), rank(inner.clone() - delay(inner, 10))).into_expr();

    assert!(matches!(expr, Expr::Mul(_, _)));
}

#[test]
fn collect_fields_deduplicates_and_sorts() {
    let expr = Expr::Add(
        Box::new(Expr::Field("close".to_string())),
        Box::new(Expr::Delay(Box::new(Expr::Field("open".to_string())), 1)),
    );
    let mut fields = Vec::new();

    collect_fields(&expr, &mut fields);

    assert_eq!(fields, ["close".to_string(), "open".to_string()]);
}

#[test]
fn collect_fields_merges_into_existing_names() {
    let mut fields = vec!["close".to_string(), "volume".to_string()];
    collect_fields(&period_returns().into_expr(), &mut fields);
    collect_fields(&field("adv").into_expr(), &mut fields);
    assert_eq!(fields, ["adv", "close", "volume"]);
}

#[test]
fn delay_shifts_with_nan_prefix() {
    let values = [1.0f64, 2.0, 3.0, 4.0, 5.0].iter().map(|v| v.to_bits()).collect::<Vec<_>>();

    let out = delay_grid(&values, 2, 1, 5)
        .into_iter()
        .map(f64::from_bits)
        .collect::<Vec<_>>();

    assert!(out[0].is_nan());
    assert!(out[1].is_nan());
    assert_eq!(&out[2..], &[1.0, 2.0, 3.0]);
}

#[test]
fn delay_keeps_symbols_apart() {
    let values = [1.0f64, 2.0, 10.0, 20.0].iter().map(|v| v.to_bits()).collect::<Vec<_>>();
    let out = delay_grid(&values, 1, 2, 2).into_iter().map(f64::from_bits).collect::<Vec<_>>();
    assert!(out[0].is_nan());
    assert_eq!(out[1], 1.0);
    assert!(out[2].is_nan());
    assert_eq!(out[3], 10.0);
}

#[test]
fn operators_build_the_matching_nodes() {
    let e = (close() + open()).into_expr();
    assert!(matches!(e, Expr::Add(_, _)));
    let e = (close() / open()).into_expr();
    assert!(matches!(e, Expr::Div(_, _)));
    let e = (-close()).into_expr();
    assert!(matches!(e, Expr::Neg(_)));
    let e = close().times_const(2.0f64.to_bits()).into_expr();
    assert_eq!(
        e,
        Expr::Mul(Box::new(Expr::Field("close".to_string())), Box::new(Expr::Const(2.0f64.to_bits())))
    );
}

#[test]
fn alpha8_reads_open_and_close() {
    ensure_linked();
    let mut fields = Vec::new();
    collect_fields(&alpha8().into_expr(), &mut fields);
    assert_eq!(fields, ["close", "open"]);
}
