//! Alpha expressions over named fields, and the set of fields one reads.
use vstd::prelude::*;
use crate::factor::strings_view;
use crate::key::{Cmp, Key, KeyView, key_lt, lemma_key_order};

verus! {

/// An alpha expression. Constants are held by their IEEE-754 bits.
#[derive(Debug, PartialEq)]
pub enum Expr {
    Field(String),
    Const(u64),
    Add(Box<Expr>, Box<Expr>),
    Sub(Box<Expr>, Box<Expr>),
    Mul(Box<Expr>, Box<Expr>),
    Div(Box<Expr>, Box<Expr>),
    Neg(Box<Expr>),
    Delay(Box<Expr>, usize),
    TsSum(Box<Expr>, usize),
    Rank(Box<Expr>),
}

/// A copy of an expression.
pub fn copy_expr(e: &Expr) -> (r: Expr)
    ensures
        r == *e,
    decreases e,
{
    match e {
        Expr::Field(name) => Expr::Field(name.clone()),
        Expr::Const(bits) => Expr::Const(*bits),
        Expr::Add(l, r) => Expr::Add(Box::new(copy_expr(l)), Box::new(copy_expr(r))),
        Expr::Sub(l, r) => Expr::Sub(Box::new(copy_expr(l)), Box::new(copy_expr(r))),
        Expr::Mul(l, r) => Expr::Mul(Box::new(copy_expr(l)), Box::new(copy_expr(r))),
        Expr::Div(l, r) => Expr::Div(Box::new(copy_expr(l)), Box::new(copy_expr(r))),
        Expr::Neg(inner) => Expr::Neg(Box::new(copy_expr(inner))),
        Expr::Delay(inner, d) => Expr::Delay(Box::new(copy_expr(inner)), *d),
        Expr::TsSum(inner, d) => Expr::TsSum(Box::new(copy_expr(inner)), *d),
        Expr::Rank(inner) => Expr::Rank(Box::new(copy_expr(inner))),
    }
}

impl Clone for Expr {
    fn clone(&self) -> (r: Self)
        ensures
            r == *self,
    {
        copy_expr(self)
    }
}

/// The fields an expression reads.
pub open spec fn fields_of(e: Expr) -> Set<Seq<char>>
    decreases e,
{
    match e {
        Expr::Field(name) => set![name@],
        Expr::Const(_) => Set::empty(),
        Expr::Add(l, r) => fields_of(*l).union(fields_of(*r)),
        Expr::Sub(l, r) => fields_of(*l).union(fields_of(*r)),
        Expr::Mul(l, r) => fields_of(*l).union(fields_of(*r)),
        Expr::Div(l, r) => fields_of(*l).union(fields_of(*r)),
        Expr::Neg(inner) => fields_of(*inner),
        Expr::Delay(inner, _) => fields_of(*inner),
        Expr::TsSum(inner, _) => fields_of(*inner),
        Expr::Rank(inner) => fields_of(*inner),
    }
}

/// `sub` occurs in `e`: it is `e` itself or occurs in one of its operands.
pub open spec fn occurs_in(sub: Expr, e: Expr) -> bool
    decreases e,
{
    sub == e || match e {
        Expr::Add(l, r) => occurs_in(sub, *l) || occurs_in(sub, *r),
        Expr::Sub(l, r) => occurs_in(sub, *l) || occurs_in(sub, *r),
        Expr::Mul(l, r) => occurs_in(sub, *l) || occurs_in(sub, *r),
        Expr::Div(l, r) => occurs_in(sub, *l) || occurs_in(sub, *r),
        Expr::Neg(inner) => occurs_in(sub, *inner),
        Expr::Delay(inner, _) => occurs_in(sub, *inner),
        Expr::TsSum(inner, _) => occurs_in(sub, *inner),
        Expr::Rank(inner) => occurs_in(sub, *inner),
        _ => false,
    }
}

/// An expression reads exactly the fields that occur in it: a field read
/// anywhere in `e`, on either side of any operator, is read by `e`, and `e`
/// reads no other.
pub proof fn lemma_fields_are_occurring_fields(e: Expr, name: Seq<char>)
    ensures
        fields_of(e).contains(name) <==> exists|s: String|
            s@ == name && #[trigger] occurs_in(Expr::Field(s), e),
    decreases e,
{
    match e {
        Expr::Field(n) => {
            if fields_of(e).contains(name) {
                assert(occurs_in(Expr::Field(n), e));
            }
            if exists|s: String| s@ == name && #[trigger] occurs_in(Expr::Field(s), e) {
                let s = choose|s: String| s@ == name && #[trigger] occurs_in(Expr::Field(s), e);
                assert(Expr::Field(s) == e);
            }
        },
        Expr::Const(_) => {},
        Expr::Add(l, r) => {
            lemma_fields_are_occurring_fields(*l, name);
            lemma_fields_are_occurring_fields(*r, name);
            lemma_binary_occurs(e, *l, *r, name);
        },
        Expr::Sub(l, r) => {
            lemma_fields_are_occurring_fields(*l, name);
            lemma_fields_are_occurring_fields(*r, name);
            lemma_binary_occurs(e, *l, *r, name);
        },
        Expr::Mul(l, r) => {
            lemma_fields_are_occurring_fields(*l, name);
            lemma_fields_are_occurring_fields(*r, name);
            lemma_binary_occurs(e, *l, *r, name);
        },
        Expr::Div(l, r) => {
            lemma_fields_are_occurring_fields(*l, name);
            lemma_fields_are_occurring_fields(*r, name);
            lemma_binary_occurs(e, *l, *r, name);
        },
        Expr::Neg(inner) => {
            lemma_fields_are_occurring_fields(*inner, name);
            lemma_unary_occurs(e, *inner, name);
        },
        Expr::Delay(inner, _) => {
            lemma_fields_are_occurring_fields(*inner, name);
            lemma_unary_occurs(e, *inner, name);
        },
        Expr::TsSum(inner, _) => {
            lemma_fields_are_occurring_fields(*inner, name);
            lemma_unary_occurs(e, *inner, name);
        },
        Expr::Rank(inner) => {
            lemma_fields_are_occurring_fields(*inner, name);
            lemma_unary_occurs(e, *inner, name);
        },
    }
}

/// A field occurs in a binary node exactly when it occurs in an operand.
proof fn lemma_binary_occurs(e: Expr, l: Expr, r: Expr, name: Seq<char>)
    requires
        e is Add || e is Sub || e is Mul || e is Div,
        e matches Expr::Add(a, b) ==> *a == l && *b == r,
        e matches Expr::Sub(a, b) ==> *a == l && *b == r,
        e matches Expr::Mul(a, b) ==> *a == l && *b == r,
        e matches Expr::Div(a, b) ==> *a == l && *b == r,
    ensures
        (exists|s: String| s@ == name && #[trigger] occurs_in(Expr::Field(s), e)) <==> (exists|s: String|
            s@ == name && #[trigger] occurs_in(Expr::Field(s), l)) || (exists|s: String|
            s@ == name && #[trigger] occurs_in(Expr::Field(s), r)),
{
    if exists|s: String| s@ == name && #[trigger] occurs_in(Expr::Field(s), e) {
        let s = choose|s: String| s@ == name && #[trigger] occurs_in(Expr::Field(s), e);
        assert(Expr::Field(s) != e);
        assert(occurs_in(Expr::Field(s), l) || occurs_in(Expr::Field(s), r));
    }
    if exists|s: String| s@ == name && #[trigger] occurs_in(Expr::Field(s), l) {
        let s = choose|s: String| s@ == name && #[trigger] occurs_in(Expr::Field(s), l);
        assert(occurs_in(Expr::Field(s), e));
    }
    if exists|s: String| s@ == name && #[trigger] occurs_in(Expr::Field(s), r) {
        let s = choose|s: String| s@ == name && #[trigger] occurs_in(Expr::Field(s), r);
        assert(occurs_in(Expr::Field(s), e));
    }
}

/// A field occurs in a one-operand node exactly when it occurs in the operand.
proof fn lemma_unary_occurs(e: Expr, inner: Expr, name: Seq<char>)
    requires
        e is Neg || e is Delay || e is TsSum || e is Rank,
        e matches Expr::Neg(a) ==> *a == inner,
        e matches Expr::Delay(a, _) ==> *a == inner,
        e matches Expr::TsSum(a, _) ==> *a == inner,
        e matches Expr::Rank(a) ==> *a == inner,
    ensures
        (exists|s: String| s@ == name && #[trigger] occurs_in(Expr::Field(s), e)) <==> (exists|s: String|
            s@ == name && #[trigger] occurs_in(Expr::Field(s), inner)),
{
    if exists|s: String| s@ == name && #[trigger] occurs_in(Expr::Field(s), e) {
        let s = choose|s: String| s@ == name && #[trigger] occurs_in(Expr::Field(s), e);
        assert(Expr::Field(s) != e);
        assert(occurs_in(Expr::Field(s), inner));
    }
    if exists|s: String| s@ == name && #[trigger] occurs_in(Expr::Field(s), inner) {
        let s = choose|s: String| s@ == name && #[trigger] occurs_in(Expr::Field(s), inner);
        assert(occurs_in(Expr::Field(s), e));
    }
}

/// Names in strictly increasing byte order, so each occurs once.
pub open spec fn names_sorted(v: Seq<Seq<char>>) -> bool {
    forall|a: int, b: int| 0 <= a < b < v.len() ==> #[trigger] key_lt(KeyView::Str(v[a]), KeyView::Str(v[b]))
}

/// Adds `name` to the sorted names `out`, unless it is already there.
pub fn insert_name(out: &mut Vec<String>, name: &String)
    requires
        names_sorted(strings_view(old(out)@)),
    ensures
        names_sorted(strings_view(final(out)@)),
        strings_view(final(out)@).to_set() == strings_view(old(out)@).to_set().insert(name@),
{
    proof {
        lemma_key_order();
    }
    let ghost before = strings_view(out@);
    let key = Key::Str(name.clone());
    let mut p: usize = 0;
    let mut done = false;
    while !done && p < out.len()
        invariant
            strings_view(out@) == before,
            names_sorted(before),
            key@ == KeyView::Str(name@),
            p <= out.len(),
            forall|a: int| 0 <= a < p ==> key_lt(KeyView::Str(#[trigger] before[a]), key@),
            done ==> p < out.len() && key_lt(key@, KeyView::Str(before[p as int])),
        decreases out.len() - p, if done { 0int } else { 1int },
    {
        proof {
            lemma_key_order();
            assert(before[p as int] == out@[p as int]@);
        }
        let probe = Key::Str(out[p].clone());
        match probe.compare(&key) {
            Cmp::Less => {
                p = p + 1;
            },
            Cmp::Equal => {
                proof {
                    assert(before[p as int] == name@);
                    assert(before.to_set() =~= before.to_set().insert(name@));
                }
                return;
            },
            Cmp::Greater => {
                done = true;
            },
        }
    }
    out.insert(p, name.clone());
    proof {
        let after = strings_view(out@);
        assert(after =~= before.insert(p as int, name@));
        assert forall|a: int, b: int| 0 <= a < b < after.len() implies #[trigger] key_lt(
            KeyView::Str(after[a]),
            KeyView::Str(after[b]),
        ) by {
            if b < p {
                assert(after[a] == before[a] && after[b] == before[b]);
            } else if b == p {
                assert(after[a] == before[a]);
            } else if a < p {
                assert(after[a] == before[a] && after[b] == before[b - 1]);
                assert(key_lt(KeyView::Str(before[a]), key@));
                if p < before.len() {
                    assert(key_lt(key@, KeyView::Str(before[p as int])));
                    if b - 1 > p {
                        assert(key_lt(KeyView::Str(before[p as int]), KeyView::Str(before[b - 1])));
                    }
                }
            } else if a == p {
                assert(after[b] == before[b - 1]);
                assert(p < before.len());
                assert(key_lt(key@, KeyView::Str(before[p as int])));
                if b - 1 > p {
                    assert(key_lt(KeyView::Str(before[p as int]), KeyView::Str(before[b - 1])));
                }
            } else {
                assert(after[a] == before[a - 1] && after[b] == before[b - 1]);
            }
        }
        assert forall|x: Seq<char>| #[trigger] after.to_set().contains(x) <==> before.to_set().insert(
            name@,
        ).contains(x) by {
            if after.to_set().contains(x) {
                let i = choose|i: int| 0 <= i < after.len() && after[i] == x;
                if i < p {
                    assert(before[i] == x);
                } else if i > p {
                    assert(before[i - 1] == x);
                }
            }
            if before.to_set().contains(x) {
                let i = choose|i: int| 0 <= i < before.len() && before[i] == x;
                if i < p {
                    assert(after[i] == x);
                } else {
                    assert(after[i + 1] == x);
                }
            }
            if x == name@ {
                assert(after[p as int] == x);
            }
        }
        assert(after.to_set() =~= before.to_set().insert(name@));
    }
}

/// Adds the fields that `expr` reads to the sorted names `out`.
pub fn collect_fields(expr: &Expr, out: &mut Vec<String>)
    requires
        names_sorted(strings_view(old(out)@)),
    ensures
        names_sorted(strings_view(final(out)@)),
        strings_view(final(out)@).to_set() == strings_view(old(out)@).to_set().union(fields_of(*expr)),
    decreases expr,
{
    let ghost before = strings_view(out@).to_set();
    match expr {
        Expr::Field(name) => {
            insert_name(out, name);
            proof {
                assert(before.insert(name@) =~= before.union(fields_of(*expr)));
            }
        },
        Expr::Const(_) => {
            assert(before.union(fields_of(*expr)) =~= before);
        },
        Expr::Add(lhs, rhs) => {
            collect_fields(lhs, out);
            collect_fields(rhs, out);
            assert(before.union(fields_of(**lhs)).union(fields_of(**rhs)) =~= before.union(fields_of(*expr)));
        },
        Expr::Sub(lhs, rhs) => {
            collect_fields(lhs, out);
            collect_fields(rhs, out);
            assert(before.union(fields_of(**lhs)).union(fields_of(**rhs)) =~= before.union(fields_of(*expr)));
        },
        Expr::Mul(lhs, rhs) => {
            collect_fields(lhs, out);
            collect_fields(rhs, out);
            assert(before.union(fields_of(**lhs)).union(fields_of(**rhs)) =~= before.union(fields_of(*expr)));
        },
        Expr::Div(lhs, rhs) => {
            collect_fields(lhs, out);
            collect_fields(rhs, out);
            assert(before.union(fields_of(**lhs)).union(fields_of(**rhs)) =~= before.union(fields_of(*expr)));
        },
        Expr::Neg(inner) => {
            collect_fields(inner, out);
        },
        Expr::Delay(inner, _) => {
            collect_fields(inner, out);
        },
        Expr::TsSum(inner, _) => {
            collect_fields(inner, out);
        },
        Expr::Rank(inner) => {
            collect_fields(inner, out);
        },
    }
}

} // verus!
