//! Completeness of the search: whatever can be made of a combination by
//! joining some of its elements, each taken at most once, the search makes
//! something of the same value.

use crate::action::Action;
use crate::cursor::{child, children, lemma_children_are_what_is_made, made_by};
use crate::expr::Expr;
use crate::solver::{
    expand, first_hit, hits, lemma_first_hit_is_first, lemma_level_within, lemma_search_is_exact,
    lemma_search_is_shallowest, level, search, within,
};
use vstd::prelude::*;

verus! {

/// A way to make one expression of a combination: which positions to take,
/// and how to join what stands there.
pub enum Plan {
    Take(int),
    Join(Action, Box<Plan>, Box<Plan>),
}

impl Plan {
    /// Whether the plan takes position `t`.
    pub open spec fn uses(self, t: int) -> bool
        decreases self,
    {
        match self {
            Plan::Take(u) => u == t,
            Plan::Join(_, left, right) => left.uses(t) || right.uses(t),
        }
    }

    /// The number of operations in the plan.
    pub open spec fn joins(self) -> nat
        decreases self,
    {
        match self {
            Plan::Take(_) => 0,
            Plan::Join(_, left, right) => 1 + left.joins() + right.joins(),
        }
    }

    /// The expression that the plan makes of `items`.
    pub open spec fn over(self, items: Seq<Expr>) -> Expr
        decreases self,
    {
        match self {
            Plan::Take(t) => items[t],
            Plan::Join(action, left, right) => Expr::Composite(
                action,
                Box::new(left.over(items)),
                Box::new(right.over(items)),
            ),
        }
    }

    /// Whether the plan can be carried out on `items`: every position it
    /// takes is one of `items`, and it takes none twice.
    pub open spec fn suits(self, items: Seq<Expr>) -> bool
        decreases self,
    {
        match self {
            Plan::Take(t) => 0 <= t < items.len(),
            Plan::Join(_, left, right) => {
                &&& left.suits(items)
                &&& right.suits(items)
                &&& forall|t: int| !(#[trigger] left.uses(t) && right.uses(t))
            },
        }
    }
}

/// Two expressions joined in one order and, under the mirrored operation, in
/// the other have the same value.
pub proof fn lemma_swapped(action: Action, left: Expr, right: Expr)
    ensures
        Expr::Composite(action.mirror(), Box::new(right), Box::new(left)).eval() == Expr::Composite(
            action,
            Box::new(left),
            Box::new(right),
        ).eval(),
        Expr::Composite(action.mirror(), Box::new(right), Box::new(left)).representable()
            == Expr::Composite(action, Box::new(left), Box::new(right)).representable(),
{
    if let (Some(a), Some(b)) = (left.eval(), right.eval()) {
        action.lemma_mirror(a, b);
    }
}

/// Whether the plan holds the join of the elements at `i` and `j`, in this
/// order, under `action`.
spec fn holds(plan: Plan, action: Action, i: int, j: int) -> bool
    decreases plan,
{
    match plan {
        Plan::Take(_) => false,
        Plan::Join(op, left, right) => {
            ||| (op == action && *left == Plan::Take(i) && *right == Plan::Take(j))
            ||| holds(*left, action, i, j)
            ||| holds(*right, action, i, j)
        },
    }
}

/// A join of two elements in the plan, found by going down on the left
/// wherever there is a join on the left.
spec fn innermost(plan: Plan) -> (Action, int, int)
    decreases plan,
{
    match plan {
        Plan::Take(t) => (Action::Add, t, t),
        Plan::Join(op, left, right) => match (*left, *right) {
            (Plan::Take(i), Plan::Take(j)) => (op, i, j),
            (Plan::Join(_, _, _), _) => innermost(*left),
            _ => innermost(*right),
        },
    }
}

/// A plan with an operation holds its innermost join.
proof fn lemma_innermost_is_held(plan: Plan)
    requires
        plan is Join,
    ensures
        holds(plan, innermost(plan).0, innermost(plan).1, innermost(plan).2),
    decreases plan,
{
    match plan {
        Plan::Take(_) => {},
        Plan::Join(op, left, right) => match (*left, *right) {
            (Plan::Take(i), Plan::Take(j)) => {},
            (Plan::Join(_, _, _), _) => {
                lemma_innermost_is_held(*left);
            },
            _ => {
                lemma_innermost_is_held(*right);
            },
        },
    }
}

/// A join that a suitable plan holds is of two distinct elements of the
/// combination, and is representable where what the plan makes is.
proof fn lemma_held_join(plan: Plan, items: Seq<Expr>, action: Action, i: int, j: int)
    requires
        plan.suits(items),
        holds(plan, action, i, j),
    ensures
        plan.uses(i),
        plan.uses(j),
        i != j,
        0 <= i < items.len(),
        0 <= j < items.len(),
        plan.over(items).representable() ==> Expr::Composite(
            action,
            Box::new(items[i]),
            Box::new(items[j]),
        ).representable(),
    decreases plan,
{
    match plan {
        Plan::Take(_) => {},
        Plan::Join(op, left, right) => {
            if op == action && *left == Plan::Take(i) && *right == Plan::Take(j) {
                assert(left.uses(i));
                assert(right.uses(j));
                assert(Plan::Take(i).suits(items));
                assert(Plan::Take(j).suits(items));
                assert(left.over(items) == items[i]);
                assert(right.over(items) == items[j]);
            } else if holds(*left, action, i, j) {
                lemma_held_join(*left, items, action, i, j);
            } else {
                lemma_held_join(*right, items, action, i, j);
            }
        },
    }
}

/// The smaller of two positions.
spec fn low(i: int, j: int) -> int {
    if i < j {
        i
    } else {
        j
    }
}

/// The larger of two positions.
spec fn high(i: int, j: int) -> int {
    if i < j {
        j
    } else {
        i
    }
}

/// Where the element at `t` stands in a child that was made of the elements
/// at `a < b`.
spec fn moved(t: int, a: int, b: int) -> int {
    if t < a {
        t + 1
    } else if t < b {
        t
    } else {
        t - 1
    }
}

/// Where the element at `u > 0` of a child stood before the elements at
/// `a < b` were joined.
spec fn unmoved(u: int, a: int, b: int) -> int {
    if u <= a {
        u - 1
    } else if u < b {
        u
    } else {
        u + 1
    }
}

/// The plan that is left once the join of the elements at `i` and `j` has
/// been made: it takes the result, at the head of the child, where that
/// join stood, and every other element where it stands in the child.
spec fn after(plan: Plan, i: int, j: int) -> Plan
    decreases plan,
{
    match plan {
        Plan::Take(t) => Plan::Take(moved(t, low(i, j), high(i, j))),
        Plan::Join(op, left, right) => if *left == Plan::Take(i) && *right == Plan::Take(j) {
            Plan::Take(0)
        } else {
            Plan::Join(op, Box::new(after(*left, i, j)), Box::new(after(*right, i, j)))
        },
    }
}

/// Whether `later` holds the join of the elements at `i` and `j` of `items`
/// at its head, and every other element of `items` behind it.
spec fn follows(later: Seq<Expr>, items: Seq<Expr>, action: Action, i: int, j: int) -> bool {
    &&& i != j
    &&& 0 <= i < items.len()
    &&& 0 <= j < items.len()
    &&& later.len() == items.len() - 1
    &&& later[0].representable()
    &&& later[0].eval() == Expr::Composite(action, Box::new(items[i]), Box::new(items[j])).eval()
    &&& forall|t: int|
        0 <= t < items.len() && t != i && t != j ==> later[#[trigger] moved(
            t,
            low(i, j),
            high(i, j),
        )] == items[t]
}

/// Once one of its joins has been made, what is left of a plan suits the
/// child, has one operation less, and makes of the child an expression of
/// the same value.
proof fn lemma_after(
    plan: Plan,
    items: Seq<Expr>,
    later: Seq<Expr>,
    action: Action,
    i: int,
    j: int,
)
    requires
        follows(later, items, action, i, j),
        plan.suits(items),
        plan.over(items).representable(),
        holds(plan, action, i, j) || (!plan.uses(i) && !plan.uses(j)),
    ensures
        after(plan, i, j).suits(later),
        after(plan, i, j).over(later).representable(),
        after(plan, i, j).over(later).eval() == plan.over(items).eval(),
        after(plan, i, j).joins() + (if holds(plan, action, i, j) {
            1nat
        } else {
            0nat
        }) == plan.joins(),
        forall|u: int| #[trigger]
            after(plan, i, j).uses(u) ==> if u == 0 {
                holds(plan, action, i, j)
            } else {
                plan.uses(unmoved(u, low(i, j), high(i, j)))
            },
    decreases plan,
{
    let a = low(i, j);
    let b = high(i, j);
    let rest = after(plan, i, j);
    match plan {
        Plan::Take(t) => {
            assert forall|u: int| #[trigger] rest.uses(u) implies plan.uses(unmoved(u, a, b))
                && u != 0 by {}
        },
        Plan::Join(op, left, right) => {
            if *left == Plan::Take(i) && *right == Plan::Take(j) {
                assert(left.uses(i));
                assert(!holds(Plan::Take(i), action, i, j));
                assert(!holds(Plan::Take(j), action, i, j));
                assert(left.joins() == 0 && right.joins() == 0);
                assert forall|u: int| #[trigger] rest.uses(u) implies u == 0 by {}
            } else {
                if holds(*left, action, i, j) {
                    lemma_held_join(*left, items, action, i, j);
                }
                if holds(*right, action, i, j) {
                    lemma_held_join(*right, items, action, i, j);
                }
                lemma_after(*left, items, later, action, i, j);
                lemma_after(*right, items, later, action, i, j);
                let first = after(*left, i, j);
                let second = after(*right, i, j);
                assert forall|u: int| !(#[trigger] first.uses(u) && second.uses(u)) by {
                    if first.uses(u) && second.uses(u) {
                        if u == 0 {
                            assert(left.uses(i) && right.uses(i));
                        } else {
                            assert(left.uses(unmoved(u, a, b)) && right.uses(unmoved(u, a, b)));
                        }
                    }
                }
                assert forall|u: int| #[trigger] rest.uses(u) implies if u == 0 {
                    holds(plan, action, i, j)
                } else {
                    plan.uses(unmoved(u, a, b))
                } by {
                    assert(first.uses(u) || second.uses(u));
                }
            }
        },
    }
}

/// The operation that joins the elements at `i` and `j`, taken in the order
/// of their positions, to what `action` makes of them in the order `i`, `j`.
spec fn in_order(action: Action, i: int, j: int) -> Action {
    if i < j {
        action
    } else {
        action.mirror()
    }
}

/// Two elements that can be joined have a child that holds the join, in one
/// order or the other.
proof fn lemma_child_follows(items: Seq<Expr>, action: Action, i: int, j: int)
    requires
        i != j,
        0 <= i < items.len(),
        0 <= j < items.len(),
        Expr::Composite(action, Box::new(items[i]), Box::new(items[j])).representable(),
    ensures
        child(items, low(i, j), high(i, j), in_order(action, i, j)) matches Some(later) && follows(
            later,
            items,
            action,
            i,
            j,
        ) && children(items).contains(later),
{
    let a = low(i, j);
    let b = high(i, j);
    let turned = in_order(action, i, j);
    lemma_swapped(action, items[i], items[j]);
    lemma_swapped(turned, items[a], items[b]);
    let later = child(items, a, b, turned).unwrap();
    let others = items.remove(b).remove(a);
    assert forall|t: int| 0 <= t < items.len() && t != i && t != j implies later[#[trigger] moved(
        t,
        a,
        b,
    )] == items[t] by {
        assert(later[moved(t, a, b)] == others[moved(t, a, b) - 1]);
    }
    lemma_children_are_what_is_made(items);
    turned.lemma_place();
    assert(made_by(items, a, b, turned.place(), later));
}

/// What a plan makes of a combination, the search reaches: some frontier
/// that comes of the combination alone has a combination whose first
/// element has that value.
proof fn lemma_plan_is_reached(items: Seq<Expr>, plan: Plan)
    requires
        plan is Join,
        plan.suits(items),
        plan.over(items).representable(),
    ensures
        exists|depth: nat, reached: Seq<Expr>|
            {
                &&& depth >= 1
                &&& #[trigger] level(seq![items], depth).contains(reached)
                &&& hits(reached, plan.over(items).eval().unwrap())
            },
    decreases plan.joins(),
{
    let (action, i, j) = innermost(plan);
    let target = plan.over(items).eval().unwrap();
    lemma_innermost_is_held(plan);
    lemma_held_join(plan, items, action, i, j);
    lemma_child_follows(items, action, i, j);
    let later = child(items, low(i, j), high(i, j), in_order(action, i, j)).unwrap();
    lemma_after(plan, items, later, action, i, j);
    let rest = after(plan, i, j);
    let first = seq![items];
    assert(expand(first) == children(items)) by {
        reveal_with_fuel(expand, 2);
    }
    assert(level(first, 1) == children(items)) by {
        reveal_with_fuel(level, 2);
    }
    match rest {
        Plan::Take(_) => {
            assert(rest == Plan::Take(0));
            assert(hits(later, target));
            assert(level(first, 1).contains(later));
        },
        Plan::Join(_, _, _) => {
            lemma_plan_is_reached(later, rest);
            let (below, reached) = choose|depth: nat, reached: Seq<Expr>|
                {
                    &&& depth >= 1
                    &&& #[trigger] level(seq![later], depth).contains(reached)
                    &&& hits(reached, target)
                };
            assert(within(seq![later], children(items))) by {
                assert forall|one: Seq<Expr>| seq![later].contains(one) implies one == later by {}
            }
            lemma_level_within(seq![later], children(items), below);
            assert(level(first, below + 1) == level(children(items), below));
        },
    }
}

/// The search is complete. Where some elements of a combination of the
/// frontier, each taken at most once, can be joined by one operation or
/// more into an expression of the target value, with every value on the
/// way defined and within the range of an `i32`, the search finds an
/// expression of the target value.
pub proof fn lemma_search_is_complete(frontier: Seq<Seq<Expr>>, at: int, plan: Plan, target: int)
    requires
        0 <= at < frontier.len(),
        plan is Join,
        plan.suits(frontier[at]),
        plan.over(frontier[at]).representable(),
        plan.over(frontier[at]).eval() == Some(target),
    ensures
        search(frontier, target) matches Some(found) && found.eval() == Some(target),
{
    let items = frontier[at];
    lemma_plan_is_reached(items, plan);
    let (depth, reached) = choose|depth: nat, reached: Seq<Expr>|
        {
            &&& depth >= 1
            &&& #[trigger] level(seq![items], depth).contains(reached)
            &&& hits(reached, target)
        };
    assert(within(seq![items], frontier)) by {
        assert forall|one: Seq<Expr>| seq![items].contains(one) implies one == items by {}
    }
    lemma_level_within(seq![items], frontier, depth);
    assert(level(frontier, depth).contains(reached));
    lemma_search_is_shallowest(frontier, target);
    lemma_first_hit_is_first(level(frontier, depth), target);
    lemma_search_is_exact(frontier, target);
}

} // verus!
