//! Building alpha expressions from fields, time-series operators and arithmetic.
use vstd::prelude::*;
use vstd::string::StringExecFns;
use crate::expr::{Expr, copy_expr};

verus! {

/// An alpha expression under construction.
#[derive(Debug, PartialEq)]
pub struct A(Expr);

/// The bits of the float one.
pub const ONE_BITS: u64 = 0x3ff0_0000_0000_0000u64;

/// `e` reads the field `name`.
pub open spec fn is_field(e: Expr, name: Seq<char>) -> bool {
    e matches Expr::Field(s) && s@ == name
}

impl A {
    /// The expression built so far.
    pub closed spec fn spec_expr(&self) -> Expr {
        self.0
    }

    pub fn into_expr(self) -> (r: Expr)
        ensures
            r == self.spec_expr(),
    {
        self.0
    }

    /// The sum of two expressions.
    pub fn plus(self, rhs: A) -> (r: A)
        ensures
            r.spec_expr() == Expr::Add(Box::new(self.spec_expr()), Box::new(rhs.spec_expr())),
    {
        A(Expr::Add(Box::new(self.0), Box::new(rhs.0)))
    }

    /// The difference of two expressions.
    pub fn minus(self, rhs: A) -> (r: A)
        ensures
            r.spec_expr() == Expr::Sub(Box::new(self.spec_expr()), Box::new(rhs.spec_expr())),
    {
        A(Expr::Sub(Box::new(self.0), Box::new(rhs.0)))
    }

    /// The product of two expressions.
    pub fn times(self, rhs: A) -> (r: A)
        ensures
            r.spec_expr() == Expr::Mul(Box::new(self.spec_expr()), Box::new(rhs.spec_expr())),
    {
        A(Expr::Mul(Box::new(self.0), Box::new(rhs.0)))
    }

    /// The quotient of two expressions.
    pub fn divided_by(self, rhs: A) -> (r: A)
        ensures
            r.spec_expr() == Expr::Div(Box::new(self.spec_expr()), Box::new(rhs.spec_expr())),
    {
        A(Expr::Div(Box::new(self.0), Box::new(rhs.0)))
    }

    /// The expression minus a constant, given by its bits.
    pub fn minus_const(self, bits: u64) -> (r: A)
        ensures
            r.spec_expr() == Expr::Sub(Box::new(self.spec_expr()), Box::new(Expr::Const(bits))),
    {
        A(Expr::Sub(Box::new(self.0), Box::new(Expr::Const(bits))))
    }

    /// The expression times a constant, given by its bits.
    pub fn times_const(self, bits: u64) -> (r: A)
        ensures
            r.spec_expr() == Expr::Mul(Box::new(self.spec_expr()), Box::new(Expr::Const(bits))),
    {
        A(Expr::Mul(Box::new(self.0), Box::new(Expr::Const(bits))))
    }

    /// A constant, given by its bits, times the expression.
    pub fn const_times(bits: u64, rhs: A) -> (r: A)
        ensures
            r.spec_expr() == Expr::Mul(Box::new(Expr::Const(bits)), Box::new(rhs.spec_expr())),
    {
        A(Expr::Mul(Box::new(Expr::Const(bits)), Box::new(rhs.0)))
    }

    /// The negated expression.
    pub fn negated(self) -> (r: A)
        ensures
            r.spec_expr() == Expr::Neg(Box::new(self.spec_expr())),
    {
        A(Expr::Neg(Box::new(self.0)))
    }
}

impl core::ops::Add for A {
    type Output = A;

    fn add(self, rhs: A) -> (r: A)
        ensures
            r.spec_expr() == Expr::Add(Box::new(self.spec_expr()), Box::new(rhs.spec_expr())),
    {
        self.plus(rhs)
    }
}

impl vstd::std_specs::ops::AddSpecImpl for A {
    open spec fn obeys_add_spec() -> bool {
        true
    }

    open spec fn add_req(self, rhs: A) -> bool {
        true
    }

    closed spec fn add_spec(self, rhs: A) -> A {
        A(Expr::Add(Box::new(self.0), Box::new(rhs.0)))
    }
}

impl core::ops::Sub for A {
    type Output = A;

    fn sub(self, rhs: A) -> (r: A)
        ensures
            r.spec_expr() == Expr::Sub(Box::new(self.spec_expr()), Box::new(rhs.spec_expr())),
    {
        self.minus(rhs)
    }
}

impl vstd::std_specs::ops::SubSpecImpl for A {
    open spec fn obeys_sub_spec() -> bool {
        true
    }

    open spec fn sub_req(self, rhs: A) -> bool {
        true
    }

    closed spec fn sub_spec(self, rhs: A) -> A {
        A(Expr::Sub(Box::new(self.0), Box::new(rhs.0)))
    }
}

impl core::ops::Mul for A {
    type Output = A;

    fn mul(self, rhs: A) -> (r: A)
        ensures
            r.spec_expr() == Expr::Mul(Box::new(self.spec_expr()), Box::new(rhs.spec_expr())),
    {
        self.times(rhs)
    }
}

impl vstd::std_specs::ops::MulSpecImpl for A {
    open spec fn obeys_mul_spec() -> bool {
        true
    }

    open spec fn mul_req(self, rhs: A) -> bool {
        true
    }

    closed spec fn mul_spec(self, rhs: A) -> A {
        A(Expr::Mul(Box::new(self.0), Box::new(rhs.0)))
    }
}

impl core::ops::Div for A {
    type Output = A;

    fn div(self, rhs: A) -> (r: A)
        ensures
            r.spec_expr() == Expr::Div(Box::new(self.spec_expr()), Box::new(rhs.spec_expr())),
    {
        self.divided_by(rhs)
    }
}

impl vstd::std_specs::ops::DivSpecImpl for A {
    open spec fn obeys_div_spec() -> bool {
        true
    }

    open spec fn div_req(self, rhs: A) -> bool {
        true
    }

    closed spec fn div_spec(self, rhs: A) -> A {
        A(Expr::Div(Box::new(self.0), Box::new(rhs.0)))
    }
}

impl core::ops::Neg for A {
    type Output = A;

    fn neg(self) -> (r: A)
        ensures
            r.spec_expr() == Expr::Neg(Box::new(self.spec_expr())),
    {
        self.negated()
    }
}

impl vstd::std_specs::ops::NegSpecImpl for A {
    open spec fn obeys_neg_spec() -> bool {
        true
    }

    open spec fn neg_req(self) -> bool {
        true
    }

    closed spec fn neg_spec(self) -> A {
        A(Expr::Neg(Box::new(self.0)))
    }
}

impl Clone for A {
    fn clone(&self) -> (r: Self)
        ensures
            r == *self,
    {
        A(copy_expr(&self.0))
    }
}

/// The field `name`.
pub fn field(name: &str) -> (r: A)
    ensures
        is_field(r.spec_expr(), name@),
{
    A(Expr::Field(<String as StringExecFns>::from_str(name)))
}

/// The field `open`.
pub fn open() -> (r: A)
    ensures
        is_field(r.spec_expr(), "open"@),
{
    field("open")
}

/// The field `close`.
pub fn close() -> (r: A)
    ensures
        is_field(r.spec_expr(), "close"@),
{
    field("close")
}

/// The cross-sectional rank of an expression.
pub fn rank(x: A) -> (r: A)
    ensures
        r.spec_expr() == Expr::Rank(Box::new(x.spec_expr())),
{
    A(Expr::Rank(Box::new(x.into_expr())))
}

/// The expression `d` periods earlier.
pub fn delay(x: A, d: usize) -> (r: A)
    ensures
        r.spec_expr() == Expr::Delay(Box::new(x.spec_expr()), d),
{
    A(Expr::Delay(Box::new(x.into_expr()), d))
}

/// The sum of the expression over the last `d` periods.
pub fn sum(x: A, d: usize) -> (r: A)
    ensures
        r.spec_expr() == Expr::TsSum(Box::new(x.spec_expr()), d),
{
    A(Expr::TsSum(Box::new(x.into_expr()), d))
}

/// `e` is `close / delay(close, 1) - 1`.
pub open spec fn is_period_returns(e: Expr) -> bool {
    e matches Expr::Sub(l, c) && *c == Expr::Const(ONE_BITS) && (*l matches Expr::Div(x, y)
        && is_field(*x, "close"@) && (*y matches Expr::Delay(z, d) && d == 1 && is_field(
        *z,
        "close"@,
    )))
}

/// One-period returns: `close / delay(close, 1) - 1`.
pub fn period_returns() -> (r: A)
    ensures
        is_period_returns(r.spec_expr()),
{
    close().divided_by(delay(close(), 1)).minus_const(ONE_BITS)
}

} // verus!
