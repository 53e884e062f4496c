//! Expressions as the search holds them: shared, immutable, each with its
//! value computed once.

use crate::action::Action;
use crate::decimal::render_decimal;
use crate::expr::Expr;
use std::rc::Rc;
use vstd::prelude::*;

verus! {

/// Where a number comes from.
#[derive(Debug)]
enum Origin {
    /// It is one of the inputs.
    Input,
    /// It is the result of an operation on two numbers, held in the order in
    /// which they were combined.
    Combined(Action, Rc<Number>, Rc<Number>),
}

/// An expression together with its value.
///
/// Sub-expressions are shared by reference and never change, so one number
/// may stand in many combinations at once. The value is computed when the
/// number is built and only read afterwards.
#[derive(Debug)]
pub struct Number {
    value: i32,
    origin: Origin,
}

impl View for Number {
    type V = Expr;

    closed spec fn view(&self) -> Expr {
        self.tree()
    }
}

impl DeepView for Number {
    type V = Expr;

    open spec fn deep_view(&self) -> Expr {
        self.view()
    }
}

impl Number {
    spec fn tree(self) -> Expr
        decreases self,
    {
        match self.origin {
            Origin::Input => Expr::Literal(self.value as int),
            Origin::Combined(action, left, right) => Expr::Composite(
                action,
                Box::new(left.tree()),
                Box::new(right.tree()),
            ),
        }
    }

    /// Every number holds the value of its own expression, and no value in
    /// that expression is undefined or out of range.
    #[verifier::type_invariant]
    spec fn well_formed(self) -> bool {
        &&& self.tree().representable()
        &&& self.tree().eval() == Some(self.value as int)
    }

    /// The value that the number holds.
    pub closed spec fn cached(self) -> i32 {
        self.value
    }

    /// The input number `n`.
    pub fn single(n: i32) -> (r: Number)
        ensures
            r@ == Expr::Literal(n as int),
            r.cached() == n,
    {
        Number { value: n, origin: Origin::Input }
    }

    /// Combines `a` and `b`, in this order, under `action`. There is no
    /// result where the operation is undefined for their values, or where
    /// its result does not fit in an `i32`.
    pub fn double(action: Action, a: Rc<Number>, b: Rc<Number>) -> (r: Option<Number>)
        ensures
            match r {
                Some(n) => Some(n@) == Expr::combine(action, a@, b@),
                None => Expr::combine(action, a@, b@).is_none(),
            },
            r matches Some(n) ==> Some(n.cached()) == action.apply_i32(a.cached(), b.cached()),
            r.is_some() <==> action.apply_i32(a.cached(), b.cached()).is_some(),
    {
        let (a_val, b_val) = (a.value(), b.value());
        let value = action.perform(a_val, b_val)?;
        Some(Number { value, origin: Origin::Combined(action, a, b) })
    }

    /// The value of the expression, as computed when the number was built.
    pub fn value(&self) -> (v: i32)
        ensures
            v == self.cached(),
            self@.eval() == Some(v as int),
            self@.representable(),
    {
        proof {
            use_type_invariant(self);
        }
        self.value
    }

    /// The fully parenthesized text of the expression.
    pub fn render(&self) -> (s: String)
        ensures
            s@ == self@.text(),
        decreases self,
    {
        match &self.origin {
            Origin::Input => render_decimal(self.value),
            Origin::Combined(action, left, right) => {
                let (first, second) = match action {
                    Action::RSub | Action::RDiv => (right.render(), left.render()),
                    _ => (left.render(), right.render()),
                };
                proof {
                    reveal_strlit("(");
                    reveal_strlit(" ");
                    reveal_strlit(")");
                }
                let mut s = String::from_str("(");
                s.append(first.as_str());
                s.append(" ");
                s.append(action.symbol());
                s.append(" ");
                s.append(second.as_str());
                s.append(")");
                s
            },
        }
    }
}

} // verus!
