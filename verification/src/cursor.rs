//! The walk over one combination, as mathematics: every pair of positions,
//! and for each pair every operation, in a fixed order.

use crate::action::Action;
use crate::expr::Expr;
use vstd::prelude::*;

verus! {

/// The combination that replaces positions `a < b` of `items` by their
/// composite under `action`: the composite comes first, the untouched
/// elements follow in the order they had. `None` where the composite is not
/// representable.
pub open spec fn child(items: Seq<Expr>, a: int, b: int, action: Action) -> Option<Seq<Expr>> {
    match Expr::combine(action, items[a], items[b]) {
        Some(whole) => Some(seq![whole] + items.remove(b).remove(a)),
        None => None,
    }
}

/// A place in the walk over a combination: the pair `a < b` in hand and the
/// number of operations already tried on it.
pub struct Cursor {
    pub items: Seq<Expr>,
    pub a: int,
    pub b: int,
    pub tried: int,
}

impl Cursor {
    /// The place where the walk over `items` begins.
    pub open spec fn start(items: Seq<Expr>) -> Cursor {
        Cursor { items, a: 0, b: 1, tried: 0 }
    }

    /// Whether the cursor points at a pair of the combination.
    pub open spec fn live(self) -> bool {
        0 <= self.a < self.b < self.items.len()
    }

    /// The cursor moved to the next pair in lexicographic order. After the
    /// last pair it leaves the combination and is no longer live. The count
    /// of tried operations is kept.
    pub open spec fn next_pair(self) -> Cursor {
        if !self.live() {
            self
        } else if self.b + 1 < self.items.len() {
            Cursor { b: self.b + 1, ..self }
        } else {
            Cursor { a: self.a + 1, b: self.a + 2, ..self }
        }
    }

    /// The combinations that the walk still has to produce from here on, in
    /// the order of production: for the pair in hand the operations not yet
    /// tried, then pair after pair with every operation, skipping each
    /// composite that is not representable.
    pub open spec fn rest(self) -> Seq<Seq<Expr>>
        decreases self.items.len() - self.a, self.items.len() - self.b, 6 - self.tried,
    {
        if !self.live() {
            Seq::empty()
        } else if 0 <= self.tried < 6 {
            let later = Cursor { tried: self.tried + 1, ..self }.rest();
            match child(self.items, self.a, self.b, Action::order()[self.tried]) {
                Some(produced) => seq![produced] + later,
                None => later,
            }
        } else {
            Cursor { tried: 0, ..self.next_pair() }.rest()
        }
    }
}

/// Everything that one reduction step can make of `items`: for each pair of
/// positions `a < b`, in lexicographic order, and each operation, in
/// declared order, the child under it, where there is one.
pub open spec fn children(items: Seq<Expr>) -> Seq<Seq<Expr>> {
    Cursor::start(items).rest()
}

/// Every child is one element shorter than its parent, and only a
/// combination of two or more elements has children.
pub proof fn lemma_children_are_shorter(items: Seq<Expr>)
    ensures
        children(items).len() > 0 ==> items.len() >= 2,
        forall|k: int|
            0 <= k < children(items).len() ==> (#[trigger] children(items)[k]).len() == items.len()
                - 1,
{
    lemma_rest_is_shorter(Cursor::start(items));
}

/// What is still to come from any place in the walk is one element shorter
/// than the combination walked over.
pub proof fn lemma_rest_is_shorter(cursor: Cursor)
    ensures
        cursor.rest().len() > 0 ==> cursor.items.len() >= 2,
        forall|k: int|
            0 <= k < cursor.rest().len() ==> (#[trigger] cursor.rest()[k]).len()
                == cursor.items.len() - 1,
    decreases
            cursor.items.len() - cursor.a,
            cursor.items.len() - cursor.b,
            6 - cursor.tried,
{
    if !cursor.live() {
    } else if 0 <= cursor.tried < 6 {
        let later = Cursor { tried: cursor.tried + 1, ..cursor };
        lemma_rest_is_shorter(later);
        let items = cursor.items;
        match child(items, cursor.a, cursor.b, Action::order()[cursor.tried]) {
            Some(produced) => {
                assert(items.remove(cursor.b).remove(cursor.a).len() == items.len() - 2);
                assert(produced.len() == items.len() - 1);
                assert forall|k: int| 0 <= k < cursor.rest().len() implies (
                #[trigger] cursor.rest()[k]).len() == items.len() - 1 by {
                    if k > 0 {
                        assert(cursor.rest()[k] == later.rest()[k - 1]);
                    }
                }
            },
            None => {
                assert(cursor.rest() == later.rest());
            },
        }
    } else {
        let moved = Cursor { tried: 0, ..cursor.next_pair() };
        lemma_rest_is_shorter(moved);
        assert(cursor.rest() == moved.rest());
    }
}

/// Whether the operation at place `k` of the declared order gives positions
/// `a < b` of `items` a child.
pub open spec fn defined(items: Seq<Expr>, a: int, b: int, k: int) -> bool {
    child(items, a, b, Action::order()[k]).is_some()
}

/// Whether every operation gives every pair of positions of `items` a child.
pub open spec fn all_defined(items: Seq<Expr>) -> bool {
    forall|a: int, b: int, k: int|
        0 <= a < b < items.len() && 0 <= k < 6 ==> #[trigger] defined(items, a, b, k)
}

/// Whether `produced` is what the operation at place `k` of the declared
/// order makes of positions `a < b` of `items`.
pub open spec fn made_by(items: Seq<Expr>, a: int, b: int, k: int, produced: Seq<Expr>) -> bool {
    child(items, a, b, Action::order()[k]) == Some(produced)
}

/// The number of pairs and operations that the walk has not yet tried.
spec fn untried(cursor: Cursor) -> int {
    if !cursor.live() {
        0
    } else {
        let n = cursor.items.len() as int;
        let done = if cursor.tried < 6 {
            cursor.tried
        } else {
            6
        };
        (6 - done) + 6 * (n - 1 - cursor.b) + 3 * ((n - 1 - cursor.a) * (n - 2 - cursor.a))
    }
}

/// Whether the walk has yet to try the operation at place `k` on `a < b`.
spec fn ahead(cursor: Cursor, a: int, b: int, k: int) -> bool {
    &&& cursor.live()
    &&& 0 <= a < b < cursor.items.len()
    &&& 0 <= k < 6
    &&& a > cursor.a || (a == cursor.a && (b > cursor.b || (b == cursor.b && k >= cursor.tried)))
}

/// Whether all that the walk has yet to try gives a child.
spec fn defined_ahead(cursor: Cursor) -> bool {
    forall|a: int, b: int, k: int|
        ahead(cursor, a, b, k) ==> #[trigger] defined(cursor.items, a, b, k)
}

/// The walk produces at most one child for each pair and operation that it
/// has yet to try, and exactly one for each where all of them are defined.
proof fn lemma_rest_count(cursor: Cursor)
    requires
        0 <= cursor.tried,
    ensures
        cursor.rest().len() <= untried(cursor),
        cursor.rest().len() == untried(cursor) <==> defined_ahead(cursor),
    decreases
            cursor.items.len() - cursor.a,
            cursor.items.len() - cursor.b,
            6 - cursor.tried,
{
    let items = cursor.items;
    if !cursor.live() {
    } else if cursor.tried < 6 {
        let later = Cursor { tried: cursor.tried + 1, ..cursor };
        lemma_rest_count(later);
        if defined(items, cursor.a, cursor.b, cursor.tried) {
            assert(defined_ahead(later) ==> defined_ahead(cursor)) by {
                assert forall|a: int, b: int, k: int|
                    defined_ahead(later) && ahead(cursor, a, b, k) implies #[trigger] defined(
                    items,
                    a,
                    b,
                    k,
                ) by {
                    if !(a == cursor.a && b == cursor.b && k == cursor.tried) {
                        assert(ahead(later, a, b, k));
                    }
                }
            }
            assert(defined_ahead(cursor) ==> defined_ahead(later)) by {
                assert forall|a: int, b: int, k: int|
                    defined_ahead(cursor) && ahead(later, a, b, k) implies #[trigger] defined(
                    items,
                    a,
                    b,
                    k,
                ) by {
                    assert(ahead(cursor, a, b, k));
                }
            }
        } else {
            assert(ahead(cursor, cursor.a, cursor.b, cursor.tried));
        }
    } else {
        let moved = Cursor { tried: 0, ..cursor.next_pair() };
        lemma_rest_count(moved);
        assert(cursor.rest() == moved.rest());
        assert(untried(cursor) == untried(moved)) by (nonlinear_arith)
            requires
                cursor.live(),
                cursor.tried >= 6,
                moved == (Cursor { tried: 0, ..cursor.next_pair() }),
        ;
        assert(defined_ahead(moved) == defined_ahead(cursor)) by {
            assert forall|a: int, b: int, k: int| ahead(cursor, a, b, k) == ahead(moved, a, b, k) by {}
        }
    }
}

/// The product of two neighbouring numbers is even.
proof fn lemma_pairs_are_whole(n: int)
    requires
        n >= 0,
    ensures
        (n * (n - 1)) % 2 == 0,
    decreases n,
{
    if n >= 2 {
        lemma_pairs_are_whole(n - 2);
        assert(n * (n - 1) == (n - 2) * (n - 3) + 2 * (2 * n - 3)) by (nonlinear_arith);
    } else {
        assert(n * (n - 1) == 0) by (nonlinear_arith)
            requires
                n == 0 || n == 1,
        ;
    }
}

/// A combination of `n` elements has at most six children for each of its
/// `n * (n - 1) / 2` pairs of positions, and that many exactly when every
/// operation is defined for every pair.
pub proof fn lemma_children_count(items: Seq<Expr>)
    ensures
        children(items).len() <= 6 * (items.len() * (items.len() - 1) / 2),
        children(items).len() == 6 * (items.len() * (items.len() - 1) / 2) <==> all_defined(items),
{
    let n = items.len() as int;
    let start = Cursor::start(items);
    lemma_rest_count(start);
    lemma_pairs_are_whole(n);
    if n >= 2 {
        assert(untried(start) == 3 * (n * (n - 1))) by (nonlinear_arith)
            requires
                untried(start) == 6 + 6 * (n - 2) + 3 * ((n - 1) * (n - 2)),
        ;
        assert(all_defined(items) == defined_ahead(start)) by {
            assert forall|a: int, b: int, k: int|
                ahead(start, a, b, k) == (0 <= a < b < items.len() && 0 <= k < 6) by {}
        }
    } else {
        assert(3 * (n * (n - 1)) == 0) by (nonlinear_arith)
            requires
                n == 0 || n == 1,
        ;
    }
}

/// What is still to come in the walk is what the pairs and operations not
/// yet tried make, and nothing else.
proof fn lemma_rest_members(cursor: Cursor)
    requires
        0 <= cursor.tried,
    ensures
        forall|produced: Seq<Expr>|
            cursor.rest().contains(produced) <==> exists|a: int, b: int, k: int|
                ahead(cursor, a, b, k) && #[trigger] made_by(cursor.items, a, b, k, produced),
    decreases
            cursor.items.len() - cursor.a,
            cursor.items.len() - cursor.b,
            6 - cursor.tried,
{
    let items = cursor.items;
    if !cursor.live() {
    } else if cursor.tried < 6 {
        let later = Cursor { tried: cursor.tried + 1, ..cursor };
        lemma_rest_members(later);
        let shift: int = if defined(items, cursor.a, cursor.b, cursor.tried) {
            1
        } else {
            0
        };
        assert forall|produced: Seq<Expr>| cursor.rest().contains(produced) implies exists|
            a: int,
            b: int,
            k: int,
        |
            ahead(cursor, a, b, k) && #[trigger] made_by(items, a, b, k, produced) by {
            let i = choose|i: int| 0 <= i < cursor.rest().len() && cursor.rest()[i] == produced;
            if i < shift {
                assert(ahead(cursor, cursor.a, cursor.b, cursor.tried));
                assert(made_by(items, cursor.a, cursor.b, cursor.tried, produced));
            } else {
                assert(later.rest()[i - shift] == produced);
                assert(later.rest().contains(produced));
                let (a, b, k) = choose|a: int, b: int, k: int|
                    ahead(later, a, b, k) && #[trigger] made_by(items, a, b, k, produced);
                assert(ahead(cursor, a, b, k));
            }
        }
        assert forall|produced: Seq<Expr>|
            (exists|a: int, b: int, k: int|
                ahead(cursor, a, b, k) && #[trigger] made_by(
                    items,
                    a,
                    b,
                    k,
                    produced,
                )) implies cursor.rest().contains(produced) by {
            let (a, b, k) = choose|a: int, b: int, k: int|
                ahead(cursor, a, b, k) && #[trigger] made_by(items, a, b, k, produced);
            if a == cursor.a && b == cursor.b && k == cursor.tried {
                assert(cursor.rest()[0] == produced);
            } else {
                assert(ahead(later, a, b, k));
                assert(later.rest().contains(produced));
                let j = choose|j: int| 0 <= j < later.rest().len() && later.rest()[j] == produced;
                assert(cursor.rest()[j + shift] == produced);
            }
        }
    } else {
        let moved = Cursor { tried: 0, ..cursor.next_pair() };
        lemma_rest_members(moved);
        assert(cursor.rest() == moved.rest());
        assert forall|produced: Seq<Expr>| cursor.rest().contains(produced) implies exists|
            a: int,
            b: int,
            k: int,
        |
            ahead(cursor, a, b, k) && #[trigger] made_by(items, a, b, k, produced) by {
            let (a, b, k) = choose|a: int, b: int, k: int|
                ahead(moved, a, b, k) && #[trigger] made_by(items, a, b, k, produced);
            assert(ahead(cursor, a, b, k));
        }
        assert forall|produced: Seq<Expr>|
            (exists|a: int, b: int, k: int|
                ahead(cursor, a, b, k) && #[trigger] made_by(
                    items,
                    a,
                    b,
                    k,
                    produced,
                )) implies cursor.rest().contains(produced) by {
            let (a, b, k) = choose|a: int, b: int, k: int|
                ahead(cursor, a, b, k) && #[trigger] made_by(items, a, b, k, produced);
            assert(ahead(moved, a, b, k));
        }
    }
}

/// The children of a combination are what the operations make of its pairs
/// of positions, and nothing else.
pub proof fn lemma_children_are_what_is_made(items: Seq<Expr>)
    ensures
        forall|produced: Seq<Expr>|
            children(items).contains(produced) <==> exists|a: int, b: int, k: int|
                0 <= a < b < items.len() && 0 <= k < 6 && #[trigger] made_by(
                    items,
                    a,
                    b,
                    k,
                    produced,
                ),
{
    let start = Cursor::start(items);
    lemma_rest_members(start);
    assert forall|produced: Seq<Expr>| children(items).contains(produced) implies exists|
        a: int,
        b: int,
        k: int,
    |
        0 <= a < b < items.len() && 0 <= k < 6 && #[trigger] made_by(items, a, b, k, produced) by {
        let (a, b, k) = choose|a: int, b: int, k: int|
            ahead(start, a, b, k) && #[trigger] made_by(items, a, b, k, produced);
        assert(0 <= a < b < items.len() && 0 <= k < 6);
    }
    assert forall|produced: Seq<Expr>|
        (exists|a: int, b: int, k: int|
            0 <= a < b < items.len() && 0 <= k < 6 && #[trigger] made_by(
                items,
                a,
                b,
                k,
                produced,
            )) implies children(items).contains(produced) by {
        let (a, b, k) = choose|a: int, b: int, k: int|
            0 <= a < b < items.len() && 0 <= k < 6 && #[trigger] made_by(items, a, b, k, produced);
        assert(ahead(start, a, b, k));
    }
}

/// A combination of fewer than two elements has no children.
pub proof fn lemma_children_of_single(items: Seq<Expr>)
    requires
        items.len() <= 1,
    ensures
        children(items) == Seq::<Seq<Expr>>::empty(),
{
}

} // verus!
