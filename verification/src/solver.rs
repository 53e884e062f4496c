//! The search: breadth-first over reduction depth, stopping at the first
//! combination whose new element has the target value.

use crate::cursor::{children, lemma_children_are_shorter, lemma_rest_is_shorter};
use crate::expr::Expr;
use crate::number::Number;
use crate::permutator::MyPermutator;
use std::rc::Rc;
use vstd::prelude::*;

verus! {

/// The next frontier: the children of every combination of `frontier`, in
/// the order of the frontier and, for each combination, of production.
pub open spec fn expand(frontier: Seq<Seq<Expr>>) -> Seq<Seq<Expr>>
    decreases frontier.len(),
{
    if frontier.len() == 0 {
        Seq::empty()
    } else {
        expand(frontier.drop_last()) + children(frontier.last())
    }
}

/// Whether the first element of `combination` has the value `target`.
pub open spec fn hits(combination: Seq<Expr>, target: int) -> bool {
    combination.len() > 0 && combination[0].eval() == Some(target)
}

/// The first element of the earliest combination of `produced` that hits
/// `target`, if any does.
pub open spec fn first_hit(produced: Seq<Seq<Expr>>, target: int) -> Option<Expr>
    decreases produced.len(),
{
    if produced.len() == 0 {
        None
    } else {
        match first_hit(produced.drop_last(), target) {
            Some(found) => Some(found),
            None => if hits(produced.last(), target) {
                Some(produced.last()[0])
            } else {
                None
            },
        }
    }
}

/// The length of the longest combination of `frontier`.
pub open spec fn width(frontier: Seq<Seq<Expr>>) -> nat
    decreases frontier.len(),
{
    if frontier.len() == 0 {
        0
    } else {
        let before = width(frontier.drop_last());
        if before < frontier.last().len() {
            frontier.last().len()
        } else {
            before
        }
    }
}

/// What the search finds from `frontier`: the first hit among the children
/// of the frontier, else what it finds from those children, and nothing
/// once a frontier has no children.
pub open spec fn search(frontier: Seq<Seq<Expr>>, target: int) -> Option<Expr>
    decreases width(frontier),
{
    let produced = expand(frontier);
    if produced.len() == 0 {
        None
    } else {
        match first_hit(produced, target) {
            Some(found) => Some(found),
            None => {
                proof {
                    lemma_expand_is_narrower(frontier);
                }
                search(produced, target)
            },
        }
    }
}

/// A bound on every combination is a bound on the width.
proof fn lemma_width_is_least(frontier: Seq<Seq<Expr>>, bound: nat)
    requires
        forall|i: int| 0 <= i < frontier.len() ==> (#[trigger] frontier[i]).len() <= bound,
    ensures
        width(frontier) <= bound,
    decreases frontier.len(),
{
    if frontier.len() > 0 {
        lemma_width_is_least(frontier.drop_last(), bound);
    }
}

/// Every combination of the next frontier is shorter than the width of
/// this one.
proof fn lemma_expand_lengths(frontier: Seq<Seq<Expr>>)
    ensures
        expand(frontier).len() > 0 ==> width(frontier) >= 2,
        forall|k: int|
            0 <= k < expand(frontier).len() ==> (#[trigger] expand(frontier)[k]).len() + 1
                <= width(frontier),
    decreases frontier.len(),
{
    if frontier.len() > 0 {
        lemma_expand_lengths(frontier.drop_last());
        lemma_children_are_shorter(frontier.last());
        let earlier = expand(frontier.drop_last());
        let latest = children(frontier.last());
        assert forall|k: int| 0 <= k < expand(frontier).len() implies (#[trigger] expand(
            frontier,
        )[k]).len() + 1 <= width(frontier) by {
            if k < earlier.len() {
                assert(expand(frontier)[k] == earlier[k]);
            } else {
                assert(expand(frontier)[k] == latest[k - earlier.len()]);
            }
        }
    }
}

/// One step of the search makes the frontier narrower, unless it empties it.
pub proof fn lemma_expand_is_narrower(frontier: Seq<Seq<Expr>>)
    ensures
        expand(frontier).len() > 0 ==> width(expand(frontier)) < width(frontier),
        width(expand(frontier)) <= width(frontier),
{
    lemma_expand_lengths(frontier);
    let produced = expand(frontier);
    if produced.len() > 0 {
        lemma_width_is_least(produced, (width(frontier) - 1) as nat);
    }
}

/// The frontier after `depth` steps of the search.
pub open spec fn level(frontier: Seq<Seq<Expr>>, depth: nat) -> Seq<Seq<Expr>>
    decreases depth,
{
    if depth == 0 {
        frontier
    } else {
        level(expand(frontier), (depth - 1) as nat)
    }
}

/// The first hit is the first element of a combination that hits the
/// target, and no combination before that one hits it. There is none only
/// where no combination hits.
pub proof fn lemma_first_hit_is_first(produced: Seq<Seq<Expr>>, target: int)
    ensures
        match first_hit(produced, target) {
            Some(found) => exists|i: int|
                {
                    &&& 0 <= i < produced.len()
                    &&& #[trigger] hits(produced[i], target)
                    &&& found == produced[i][0]
                    &&& forall|j: int| 0 <= j < i ==> !#[trigger] hits(produced[j], target)
                },
            None => forall|i: int| 0 <= i < produced.len() ==> !#[trigger] hits(produced[i], target),
        },
    decreases produced.len(),
{
    if produced.len() > 0 {
        let before = produced.drop_last();
        lemma_first_hit_is_first(before, target);
        match first_hit(before, target) {
            Some(found) => {
                let i = choose|i: int|
                    {
                        &&& 0 <= i < before.len()
                        &&& #[trigger] hits(before[i], target)
                        &&& found == before[i][0]
                        &&& forall|j: int| 0 <= j < i ==> !#[trigger] hits(before[j], target)
                    };
                assert forall|j: int| 0 <= j < i implies !#[trigger] hits(produced[j], target) by {
                    assert(produced[j] == before[j]);
                }
            },
            None => {
                assert forall|j: int| 0 <= j < produced.len() - 1 implies !#[trigger] hits(
                    produced[j],
                    target,
                ) by {
                    assert(produced[j] == before[j]);
                }
            },
        }
    }
}

/// What the search finds has the target as its value.
pub proof fn lemma_search_is_exact(frontier: Seq<Seq<Expr>>, target: int)
    ensures
        search(frontier, target) matches Some(found) ==> found.eval() == Some(target),
    decreases width(frontier),
{
    let produced = expand(frontier);
    if produced.len() > 0 {
        lemma_first_hit_is_first(produced, target);
        if first_hit(produced, target).is_none() {
            lemma_expand_is_narrower(frontier);
            lemma_search_is_exact(produced, target);
        }
    }
}

/// Nothing comes of an empty frontier, however many steps are taken.
proof fn lemma_level_of_nothing(depth: nat)
    ensures
        level(Seq::<Seq<Expr>>::empty(), depth) == Seq::<Seq<Expr>>::empty(),
    decreases depth,
{
    if depth > 0 {
        lemma_level_of_nothing((depth - 1) as nat);
    }
}

/// The search finds the first hit of the shallowest level that has one, and
/// nothing only where no level has a hit.
pub proof fn lemma_search_is_shallowest(frontier: Seq<Seq<Expr>>, target: int)
    ensures
        match search(frontier, target) {
            Some(found) => exists|depth: nat|
                {
                    &&& depth >= 1
                    &&& first_hit(#[trigger] level(frontier, depth), target) == Some(found)
                    &&& forall|d: nat|
                        1 <= d < depth ==> first_hit(#[trigger] level(frontier, d), target).is_none()
                },
            None => forall|depth: nat|
                depth >= 1 ==> first_hit(#[trigger] level(frontier, depth), target).is_none(),
        },
    decreases width(frontier),
{
    let produced = expand(frontier);
    assert(level(frontier, 1) == produced) by {
        reveal_with_fuel(level, 2);
    }
    if produced.len() == 0 {
        assert forall|depth: nat| depth >= 1 implies first_hit(
            #[trigger] level(frontier, depth),
            target,
        ).is_none() by {
            lemma_level_of_nothing((depth - 1) as nat);
            assert(produced =~= Seq::<Seq<Expr>>::empty());
        }
    } else if first_hit(produced, target).is_none() {
        lemma_expand_is_narrower(frontier);
        lemma_search_is_shallowest(produced, target);
        match search(produced, target) {
            Some(found) => {
                let below = choose|depth: nat|
                    {
                        &&& depth >= 1
                        &&& first_hit(#[trigger] level(produced, depth), target) == Some(found)
                        &&& forall|d: nat|
                            1 <= d < depth ==> first_hit(
                                #[trigger] level(produced, d),
                                target,
                            ).is_none()
                    };
                let depth = below + 1;
                assert(level(frontier, depth) == level(produced, below));
                assert forall|d: nat| 1 <= d < depth implies first_hit(
                    #[trigger] level(frontier, d),
                    target,
                ).is_none() by {
                    if d > 1 {
                        assert(level(frontier, d) == level(produced, (d - 1) as nat));
                    }
                }
            },
            None => {
                assert forall|depth: nat| depth >= 1 implies first_hit(
                    #[trigger] level(frontier, depth),
                    target,
                ).is_none() by {
                    if depth > 1 {
                        assert(level(frontier, depth) == level(produced, (depth - 1) as nat));
                    }
                }
            },
        }
    }
}

/// The next frontier holds the children of the combinations of this one,
/// and nothing else.
pub proof fn lemma_expand_members(frontier: Seq<Seq<Expr>>)
    ensures
        forall|produced: Seq<Expr>|
            expand(frontier).contains(produced) <==> exists|i: int|
                0 <= i < frontier.len() && children(#[trigger] frontier[i]).contains(produced),
    decreases frontier.len(),
{
    if frontier.len() > 0 {
        let before = frontier.drop_last();
        let latest = children(frontier.last());
        lemma_expand_members(before);
        assert forall|produced: Seq<Expr>| expand(frontier).contains(produced) implies exists|
            i: int,
        |
            0 <= i < frontier.len() && children(#[trigger] frontier[i]).contains(produced) by {
            let k = choose|k: int| 0 <= k < expand(frontier).len() && expand(frontier)[k] == produced;
            if k < expand(before).len() {
                assert(expand(before).contains(produced));
                let i = choose|i: int|
                    0 <= i < before.len() && children(#[trigger] before[i]).contains(produced);
                assert(before[i] == frontier[i]);
            } else {
                assert(latest.contains(produced));
            }
        }
        assert forall|produced: Seq<Expr>|
            (exists|i: int|
                0 <= i < frontier.len() && children(#[trigger] frontier[i]).contains(
                    produced,
                )) implies expand(frontier).contains(produced) by {
            let i = choose|i: int|
                0 <= i < frontier.len() && children(#[trigger] frontier[i]).contains(produced);
            if i < before.len() {
                assert(before[i] == frontier[i]);
                assert(expand(before).contains(produced));
                let k = choose|k: int| 0 <= k < expand(before).len() && expand(before)[k] == produced;
                assert(expand(frontier)[k] == produced);
            } else {
                let k = choose|k: int| 0 <= k < latest.len() && latest[k] == produced;
                assert(expand(frontier)[expand(before).len() + k] == produced);
            }
        }
    }
}

/// Whether every combination of `part` is one of `whole`.
pub open spec fn within(part: Seq<Seq<Expr>>, whole: Seq<Seq<Expr>>) -> bool {
    forall|items: Seq<Expr>| part.contains(items) ==> whole.contains(items)
}

/// What comes of a part of a frontier comes of the whole frontier, at the
/// same depth.
pub proof fn lemma_level_within(part: Seq<Seq<Expr>>, whole: Seq<Seq<Expr>>, depth: nat)
    requires
        within(part, whole),
    ensures
        within(level(part, depth), level(whole, depth)),
    decreases depth,
{
    if depth > 0 {
        lemma_expand_members(part);
        lemma_expand_members(whole);
        assert forall|produced: Seq<Expr>| expand(part).contains(produced) implies expand(
            whole,
        ).contains(produced) by {
            let i = choose|i: int|
                0 <= i < part.len() && children(#[trigger] part[i]).contains(produced);
            assert(part.contains(part[i]));
        }
        lemma_level_within(expand(part), expand(whole), (depth - 1) as nat);
    }
}

/// A hit stays the first one when more combinations follow.
proof fn lemma_first_hit_stays(produced: Seq<Seq<Expr>>, more: Seq<Seq<Expr>>, target: int)
    requires
        first_hit(produced, target).is_some(),
    ensures
        first_hit(produced + more, target) == first_hit(produced, target),
    decreases more.len(),
{
    if more.len() == 0 {
        assert(produced + more =~= produced);
    } else {
        lemma_first_hit_stays(produced, more.drop_last(), target);
        assert((produced + more).drop_last() =~= produced + more.drop_last());
    }
}

/// The children of the first `upto` combinations come first among the
/// children of all, so a hit among them is the first hit of the frontier.
proof fn lemma_first_hit_of_prefix(frontier: Seq<Seq<Expr>>, upto: int, target: int)
    requires
        0 <= upto <= frontier.len(),
        first_hit(expand(frontier.take(upto)), target).is_some(),
    ensures
        first_hit(expand(frontier), target) == first_hit(expand(frontier.take(upto)), target),
    decreases frontier.len() - upto,
{
    if upto == frontier.len() {
        assert(frontier.take(upto) =~= frontier);
    } else {
        let wider = frontier.take(upto + 1);
        assert(wider.drop_last() =~= frontier.take(upto));
        lemma_first_hit_stays(expand(frontier.take(upto)), children(frontier[upto]), target);
        lemma_first_hit_of_prefix(frontier, upto + 1, target);
    }
}

/// Searches for an expression of value `target` that joins numbers of one
/// combination of the frontier `combinations`.
///
/// Level by level, every combination of the frontier is replaced by its
/// children. The first child whose new element has the value `target` ends
/// the search, and that element is returned. The search gives up when a
/// level has no children: there is then no such expression.
pub fn solve(combinations: Vec<Vec<Rc<Number>>>, target: i32) -> (r: Option<Rc<Number>>)
    ensures
        match r {
            Some(found) => Some(found@) == search(combinations.deep_view(), target as int),
            None => search(combinations.deep_view(), target as int).is_none(),
        },
        r matches Some(found) ==> found@.eval() == Some(target as int),
{
    let ghost answer = search(combinations.deep_view(), target as int);
    let mut current = combinations;
    while current.len() > 0
        invariant
            answer == search(combinations.deep_view(), target as int),
            answer == search(current.deep_view(), target as int),
        decreases width(current.deep_view()), current.len(),
    {
        let ghost level = current@;
        let ghost frontier = current.deep_view();
        let mut new_combinations: Vec<Vec<Rc<Number>>> = Vec::new();
        for combination in iter: current.into_iter()
            invariant
                answer == search(combinations.deep_view(), target as int),
                answer == search(frontier, target as int),
                iter.seq() == level,
                frontier.len() == level.len(),
                forall|i: int| 0 <= i < level.len() ==> frontier[i] == (#[trigger] level[i]).deep_view(),
                new_combinations.deep_view() == expand(frontier.take(iter.index() as int)),
                first_hit(new_combinations.deep_view(), target as int).is_none(),
        {
            let ghost upto = iter.index() as int;
            let ghost goal = expand(frontier.take(upto + 1));
            assert(frontier.take(upto + 1).drop_last() =~= frontier.take(upto));
            let mut my_permutator = MyPermutator::new(combination);
            loop
                invariant
                    answer == search(combinations.deep_view(), target as int),
                    answer == search(frontier, target as int),
                    0 <= upto < frontier.len(),
                    goal == expand(frontier.take(upto + 1)),
                    new_combinations.deep_view() + my_permutator@.rest() == goal,
                    first_hit(new_combinations.deep_view(), target as int).is_none(),
                ensures
                    new_combinations.deep_view() == goal,
                    first_hit(new_combinations.deep_view(), target as int).is_none(),
                decreases my_permutator@.rest().len(),
            {
                let ghost before = new_combinations.deep_view();
                let ghost at = my_permutator@;
                match my_permutator.next() {
                    None => {
                        break ;
                    },
                    Some(item) => {
                        let ghost produced = item.deep_view();
                        let ghost after = before.push(produced);
                        assert(at.rest()[0] == produced);
                        assert(produced.len() >= 1) by {
                            lemma_rest_is_shorter(at);
                        }
                        assert(after.drop_last() =~= before);
                        assert(after + my_permutator@.rest() =~= goal);
                        if *item[0] == target {
                            proof {
                                lemma_first_hit_stays(after, my_permutator@.rest(), target as int);
                                lemma_first_hit_of_prefix(frontier, upto + 1, target as int);
                            }
                            return Some(item[0].clone());
                        }
                        new_combinations.push(item);
                        assert(new_combinations.deep_view() =~= after);
                    },
                }
            }
        }
        assert(frontier.take(frontier.len() as int) =~= frontier);
        proof {
            lemma_expand_is_narrower(frontier);
        }
        current = new_combinations;
    }
    None
}

} // verus!
