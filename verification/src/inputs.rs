//! Which inputs an expression is made of: every step of the search keeps
//! the inputs of a combination, so what it finds uses each input of one
//! combination at most once.

use crate::action::Action;
use crate::cursor::{child, children, lemma_children_are_what_is_made, made_by};
use crate::expr::Expr;
use crate::solver::{expand, first_hit, hits, lemma_expand_is_narrower, lemma_first_hit_is_first, search, width};
use vstd::multiset::Multiset;
use vstd::prelude::*;
use vstd::seq_lib::lemma_multiset_commutative;

verus! {

/// The inputs of all the expressions of a combination, each as often as it
/// occurs.
pub open spec fn inputs_of(items: Seq<Expr>) -> Multiset<int>
    decreases items.len(),
{
    if items.len() == 0 {
        Multiset::empty()
    } else {
        inputs_of(items.drop_last()).add(items.last().leaves().to_multiset())
    }
}

/// A combination of one expression has the inputs of that expression.
proof fn lemma_inputs_of_one(only: Expr)
    ensures
        inputs_of(seq![only]) =~= only.leaves().to_multiset(),
{
    broadcast use vstd::multiset::group_multiset_axioms;

    let one = seq![only];
    assert(inputs_of(one.drop_last()) == Multiset::<int>::empty());
}

/// The inputs of two combinations put together are the inputs of both.
proof fn lemma_inputs_of_both(first: Seq<Expr>, second: Seq<Expr>)
    ensures
        inputs_of(first + second) =~= inputs_of(first).add(inputs_of(second)),
    decreases second.len(),
{
    if second.len() == 0 {
        assert(first + second =~= first);
    } else {
        lemma_inputs_of_both(first, second.drop_last());
        assert((first + second).drop_last() =~= first + second.drop_last());
    }
}

/// The inputs of a combination are those of one of its elements and those
/// of all the others.
proof fn lemma_inputs_of_removed(items: Seq<Expr>, at: int)
    requires
        0 <= at < items.len(),
    ensures
        inputs_of(items) =~= inputs_of(items.remove(at)).add(items[at].leaves().to_multiset()),
{
    let before = items.take(at);
    let one = seq![items[at]];
    let after = items.skip(at + 1);
    assert(items =~= before + one + after);
    lemma_inputs_of_both(before + one, after);
    lemma_inputs_of_both(before, one);
    lemma_inputs_of_both(before, after);
    lemma_inputs_of_one(items[at]);
}

/// A child has the inputs of its parent.
pub proof fn lemma_child_keeps_inputs(items: Seq<Expr>, a: int, b: int, action: Action)
    requires
        0 <= a < b < items.len(),
    ensures
        child(items, a, b, action) matches Some(produced) ==> inputs_of(produced) == inputs_of(
            items,
        ),
{
    if let Some(produced) = child(items, a, b, action) {
        let whole = produced[0];
        let others = items.remove(b).remove(a);
        lemma_multiset_commutative(items[a].leaves(), items[b].leaves());
        lemma_inputs_of_removed(items, b);
        lemma_inputs_of_removed(items.remove(b), a);
        lemma_inputs_of_both(seq![whole], others);
        lemma_inputs_of_one(whole);
    }
}

/// Every child of a combination has the inputs of the combination.
pub proof fn lemma_children_keep_inputs(items: Seq<Expr>)
    ensures
        forall|k: int|
            0 <= k < children(items).len() ==> inputs_of(#[trigger] children(items)[k])
                == inputs_of(items),
{
    lemma_children_are_what_is_made(items);
    assert forall|k: int| 0 <= k < children(items).len() implies inputs_of(
        #[trigger] children(items)[k],
    ) == inputs_of(items) by {
        let produced = children(items)[k];
        assert(children(items).contains(produced));
        let (a, b, n) = choose|a: int, b: int, n: int|
            0 <= a < b < items.len() && 0 <= n < 6 && #[trigger] made_by(items, a, b, n, produced);
        lemma_child_keeps_inputs(items, a, b, Action::order()[n]);
    }
}

/// Every combination of the next frontier has the inputs of a combination
/// of this one.
pub proof fn lemma_expand_keeps_inputs(frontier: Seq<Seq<Expr>>)
    ensures
        forall|k: int|
            0 <= k < expand(frontier).len() ==> exists|i: int|
                0 <= i < frontier.len() && inputs_of(#[trigger] expand(frontier)[k]) == inputs_of(
                    #[trigger] frontier[i],
                ),
    decreases frontier.len(),
{
    if frontier.len() > 0 {
        let before = frontier.drop_last();
        lemma_expand_keeps_inputs(before);
        lemma_children_keep_inputs(frontier.last());
        assert forall|k: int| 0 <= k < expand(frontier).len() implies exists|i: int|
            0 <= i < frontier.len() && inputs_of(#[trigger] expand(frontier)[k]) == inputs_of(
                #[trigger] frontier[i],
            ) by {
            if k < expand(before).len() {
                let i = choose|i: int|
                    0 <= i < before.len() && inputs_of(#[trigger] expand(before)[k]) == inputs_of(
                        #[trigger] before[i],
                    );
                assert(before[i] == frontier[i]);
            } else {
                assert(expand(frontier)[k] == children(frontier.last())[k - expand(before).len()]);
                assert(frontier.last() == frontier[frontier.len() - 1]);
            }
        }
    }
}

/// The inputs of the first element of a combination are among the inputs of
/// the combination.
proof fn lemma_first_is_within(items: Seq<Expr>)
    requires
        items.len() > 0,
    ensures
        items[0].leaves().to_multiset().subset_of(inputs_of(items)),
{
    lemma_inputs_of_removed(items, 0);
}

/// What the search finds is made of inputs of one combination of the
/// frontier, none used more often than it occurs there.
pub proof fn lemma_search_uses_inputs(frontier: Seq<Seq<Expr>>, target: int)
    ensures
        search(frontier, target) matches Some(found) ==> exists|i: int|
            0 <= i < frontier.len() && found.leaves().to_multiset().subset_of(
                inputs_of(#[trigger] frontier[i]),
            ),
    decreases width(frontier),
{
    let produced = expand(frontier);
    if produced.len() > 0 {
        lemma_expand_keeps_inputs(frontier);
        lemma_first_hit_is_first(produced, target);
        match first_hit(produced, target) {
            Some(found) => {
                let k = choose|k: int|
                    0 <= k < produced.len() && #[trigger] hits(produced[k], target) && found
                        == produced[k][0];
                lemma_first_is_within(produced[k]);
                let i = choose|i: int|
                    0 <= i < frontier.len() && inputs_of(#[trigger] expand(frontier)[k])
                        == inputs_of(#[trigger] frontier[i]);
                assert(found.leaves().to_multiset().subset_of(inputs_of(frontier[i])));
            },
            None => {
                lemma_expand_is_narrower(frontier);
                lemma_search_uses_inputs(produced, target);
                if let Some(found) = search(produced, target) {
                    let k = choose|k: int|
                        0 <= k < produced.len() && found.leaves().to_multiset().subset_of(
                            inputs_of(#[trigger] produced[k]),
                        );
                    let i = choose|i: int|
                        0 <= i < frontier.len() && inputs_of(#[trigger] expand(frontier)[k])
                            == inputs_of(#[trigger] frontier[i]);
                    assert(found.leaves().to_multiset().subset_of(inputs_of(frontier[i])));
                }
            },
        }
    }
}

/// A combination of input numbers has exactly those numbers as its inputs.
pub proof fn lemma_inputs_of_literals(items: Seq<Expr>, numbers: Seq<int>)
    requires
        items.len() == numbers.len(),
        forall|i: int| 0 <= i < items.len() ==> #[trigger] items[i] == Expr::Literal(numbers[i]),
    ensures
        inputs_of(items) == numbers.to_multiset(),
    decreases items.len(),
{
    if items.len() == 0 {
        numbers.to_multiset_ensures();
    } else {
        lemma_inputs_of_literals(items.drop_last(), numbers.drop_last());
        let last = numbers.last();
        assert(numbers =~= numbers.drop_last() + seq![last]);
        lemma_multiset_commutative(numbers.drop_last(), seq![last]);
    }
}

} // verus!
