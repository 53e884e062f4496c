//! The six binary operations of the search.

use vstd::prelude::*;

verus! {

/// A binary operation on two integers, taken in position order.
///
/// Subtraction and division do not commute, so each has a reversed twin
/// that swaps its operands: the search only ever pairs an earlier element
/// with a later one, and both orders have to be reachable.
#[derive(Debug, Clone, Copy, PartialEq, Eq, Structural)]
pub enum Action {
    Add,
    Sub,
    Mul,
    Div,
    RSub,
    RDiv,
}

/// Whether `a` is a multiple of the non-zero `b`.
pub open spec fn divides_exactly(a: int, b: int) -> bool {
    b != 0 && a % b == 0
}

/// Whether `v` can be held in an `i32`.
pub open spec fn fits(v: int) -> bool {
    i32::MIN <= v <= i32::MAX
}

impl Action {
    /// The operations in the order in which they are declared, which is the
    /// order in which the search tries them on a pair.
    pub open spec fn order() -> Seq<Action> {
        seq![Action::Add, Action::Sub, Action::Mul, Action::Div, Action::RSub, Action::RDiv]
    }

    /// Whether the operation takes its operands in swapped order.
    pub open spec fn is_reverse(self) -> bool {
        self == Action::RSub || self == Action::RDiv
    }

    /// The result of the operation over the integers, `None` where it is
    /// undefined: a division by zero, or one that leaves a remainder.
    pub open spec fn apply(self, a: int, b: int) -> Option<int> {
        match self {
            Action::Add => Some(a + b),
            Action::Sub => Some(a - b),
            Action::Mul => Some(a * b),
            Action::Div => if divides_exactly(a, b) {
                Some(a / b)
            } else {
                None
            },
            Action::RSub => Some(b - a),
            Action::RDiv => if divides_exactly(b, a) {
                Some(b / a)
            } else {
                None
            },
        }
    }

    /// The result of the operation on machine integers: that of `apply`,
    /// unless it is undefined or too large for an `i32`.
    pub open spec fn apply_i32(self, a: i32, b: i32) -> Option<i32> {
        match self.apply(a as int, b as int) {
            Some(v) => if fits(v) {
                Some(v as i32)
            } else {
                None
            },
            None => None,
        }
    }

    /// The place of the operation in the declared order.
    pub open spec fn place(self) -> int {
        match self {
            Action::Add => 0,
            Action::Sub => 1,
            Action::Mul => 2,
            Action::Div => 3,
            Action::RSub => 4,
            Action::RDiv => 5,
        }
    }

    /// The operation that gives on swapped operands what this one gives on
    /// the operands as they stand.
    pub open spec fn mirror(self) -> Action {
        match self {
            Action::Add => Action::Add,
            Action::Sub => Action::RSub,
            Action::Mul => Action::Mul,
            Action::Div => Action::RDiv,
            Action::RSub => Action::Sub,
            Action::RDiv => Action::Div,
        }
    }

    /// The character that stands for the operation in a rendered
    /// expression. A reversed operation shares the sign of its twin.
    pub open spec fn sign(self) -> char {
        match self {
            Action::Add => '+',
            Action::Sub | Action::RSub => '-',
            Action::Mul => '*',
            Action::Div | Action::RDiv => '/',
        }
    }

    /// Every operation stands at its place in the declared order.
    pub proof fn lemma_place(self)
        ensures
            0 <= self.place() < Self::order().len(),
            Self::order()[self.place()] == self,
    {
    }

    /// Swapping the operands and mirroring the operation changes nothing.
    pub proof fn lemma_mirror(self, a: int, b: int)
        ensures
            self.mirror().apply(b, a) == self.apply(a, b),
            self.mirror().mirror() == self,
            self.mirror().sign() == self.sign(),
    {
    }

    /// Applies the operation to `a` and `b`. A result that is undefined or
    /// does not fit in an `i32` is `None`.
    pub fn perform(&self, a: i32, b: i32) -> (r: Option<i32>)
        ensures
            r == self.apply_i32(a, b),
    {
        match self {
            Action::Add => a.checked_add(b),
            Action::Sub => a.checked_sub(b),
            Action::RSub => b.checked_sub(a),
            Action::Mul => a.checked_mul(b),
            Action::Div => {
                Self::check_div(a, b)?;
                a.checked_div_euclid(b)
            },
            Action::RDiv => {
                Self::check_div(b, a)?;
                b.checked_div_euclid(a)
            },
        }
    }

    /// Tells whether `a` is exactly divisible by `b`.
    pub fn check_div(a: i32, b: i32) -> (r: Option<()>)
        ensures
            r.is_some() <==> divides_exactly(a as int, b as int),
    {
        match a.checked_rem_euclid(b) {
            Some(rem) => if rem == 0 {
                Some(())
            } else {
                None
            },
            None => if b == 0 {
                None
            } else {
                Some(())
            },
        }
    }

    /// The display symbol of the operation.
    pub fn symbol(&self) -> (s: &'static str)
        ensures
            s@ == seq![self.sign()],
    {
        proof {
            reveal_strlit("+");
            reveal_strlit("-");
            reveal_strlit("*");
            reveal_strlit("/");
        }
        let s = match self {
            Action::Add => "+",
            Action::Sub | Action::RSub => "-",
            Action::Mul => "*",
            Action::Div | Action::RDiv => "/",
        };
        s
    }

    /// The operation at place `k` of the declared order, if there is one.
    pub fn nth(k: usize) -> (r: Option<Action>)
        ensures
            r == if k < Self::order().len() {
                Some(Self::order()[k as int])
            } else {
                None
            },
    {
        match k {
            0 => Some(Action::Add),
            1 => Some(Action::Sub),
            2 => Some(Action::Mul),
            3 => Some(Action::Div),
            4 => Some(Action::RSub),
            5 => Some(Action::RDiv),
            _ => None,
        }
    }
}

} // verus!
