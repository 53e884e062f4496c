//! The mathematical model of an expression: a binary tree over integers.

use crate::action::{divides_exactly, fits, Action};
use crate::decimal::decimal;
use vstd::prelude::*;

verus! {

/// An arithmetic expression: an input number, or an operation applied to two
/// sub-expressions. The operands are held in the order in which they were
/// combined, also under a reversed operation.
pub enum Expr {
    Literal(int),
    Composite(Action, Box<Expr>, Box<Expr>),
}

impl Expr {
    /// The value of the expression over the integers, `None` where some
    /// operation in it is undefined.
    pub open spec fn eval(self) -> Option<int>
        decreases self,
    {
        match self {
            Expr::Literal(n) => Some(n),
            Expr::Composite(action, left, right) => match (left.eval(), right.eval()) {
                (Some(a), Some(b)) => action.apply(a, b),
                _ => None,
            },
        }
    }

    /// Whether every value in the tree, from the literals up to the root,
    /// is defined and fits in an `i32`.
    pub open spec fn representable(self) -> bool
        decreases self,
    {
        match self {
            Expr::Literal(n) => fits(n),
            Expr::Composite(_, left, right) => {
                &&& left.representable()
                &&& right.representable()
                &&& self.eval() matches Some(v) && fits(v)
            },
        }
    }

    /// The composite of `left` and `right` under `action`, where that is
    /// representable.
    pub open spec fn combine(action: Action, left: Expr, right: Expr) -> Option<Expr> {
        let whole = Expr::Composite(action, Box::new(left), Box::new(right));
        if whole.representable() {
            Some(whole)
        } else {
            None
        }
    }

    /// The input numbers of the expression, from left to right in the order
    /// of combination.
    pub open spec fn leaves(self) -> Seq<int>
        decreases self,
    {
        match self {
            Expr::Literal(n) => seq![n],
            Expr::Composite(_, left, right) => left.leaves() + right.leaves(),
        }
    }

    /// The fully parenthesized text of the expression. A reversed operation
    /// shows its operands in the order in which it applies them.
    pub open spec fn text(self) -> Seq<char>
        decreases self,
    {
        match self {
            Expr::Literal(n) => decimal(n),
            Expr::Composite(action, left, right) => {
                let (first, second) = if action.is_reverse() {
                    (right.text(), left.text())
                } else {
                    (left.text(), right.text())
                };
                seq!['('] + first + seq![' ', action.sign(), ' '] + second + seq![')']
            },
        }
    }
}

/// Dividing one input by another gives the quotient where the division is
/// exact and the quotient fits in an `i32`, and nothing where the divisor is
/// zero or a remainder is left.
pub proof fn lemma_divide_inputs(a: i32, b: i32)
    ensures
        divides_exactly(a as int, b as int) && fits(a as int / b as int) ==> (Expr::combine(
            Action::Div,
            Expr::Literal(a as int),
            Expr::Literal(b as int),
        ) matches Some(whole) && whole.eval() == Some(a as int / b as int)),
        b == 0 || a as int % b as int != 0 ==> Expr::combine(
            Action::Div,
            Expr::Literal(a as int),
            Expr::Literal(b as int),
        ).is_none(),
{
    reveal_with_fuel(Expr::eval, 2);
    reveal_with_fuel(Expr::representable, 2);
}

/// Subtracting gives the difference of the values, and subtracting in
/// reverse the opposite difference, each where it fits in an `i32`. The
/// reversed subtraction reads as the plain one with its operands swapped.
pub proof fn lemma_subtract_both_ways(left: Expr, right: Expr)
    requires
        left.representable(),
        right.representable(),
    ensures
        fits(left.eval().unwrap() - right.eval().unwrap()) ==> (Expr::combine(
            Action::Sub,
            left,
            right,
        ) matches Some(whole) && whole.eval() == Some(
            left.eval().unwrap() - right.eval().unwrap(),
        )),
        fits(right.eval().unwrap() - left.eval().unwrap()) ==> (Expr::combine(
            Action::RSub,
            left,
            right,
        ) matches Some(whole) && whole.eval() == Some(
            right.eval().unwrap() - left.eval().unwrap(),
        )),
        Expr::Composite(Action::RSub, Box::new(left), Box::new(right)).text() == Expr::Composite(
            Action::Sub,
            Box::new(right),
            Box::new(left),
        ).text(),
        Expr::Composite(Action::Sub, Box::new(left), Box::new(right)).text() == seq!['(']
            + left.text() + seq![' ', '-', ' '] + right.text() + seq![')'],
{
    lemma_representable_has_value(left);
    lemma_representable_has_value(right);
}

/// A representable expression has a value, and the value fits in an `i32`.
pub proof fn lemma_representable_has_value(whole: Expr)
    requires
        whole.representable(),
    ensures
        whole.eval() matches Some(v) && fits(v),
{
}

} // verus!
