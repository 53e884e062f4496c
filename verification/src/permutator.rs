//! The enumerator: it produces the children of one combination, one at a
//! time and on demand.

use crate::action::Action;
use crate::cursor::Cursor;
use crate::expr::Expr;
use crate::number::Number;
use std::rc::Rc;
use vstd::prelude::*;

verus! {

/// The elements of `items` before position `upto`, without those at `a` and
/// `b`.
spec fn kept(items: Seq<Expr>, a: int, b: int, upto: int) -> Seq<Expr> {
    let low = if upto < a { upto } else { a };
    let mid_from = if upto < a + 1 { upto } else { a + 1 };
    let mid_to = if upto < b { upto } else { b };
    let high_from = if upto < b + 1 { upto } else { b + 1 };
    items.subrange(0, low) + items.subrange(mid_from, mid_to) + items.subrange(high_from, upto)
}

/// Produces the children of one combination, one at a time.
pub struct MyPermutator {
    init_combination: Vec<Rc<Number>>,
    a: usize,
    b: usize,
    tried: usize,
}

impl View for MyPermutator {
    type V = Cursor;

    closed spec fn view(&self) -> Cursor {
        Cursor {
            items: self.init_combination.deep_view(),
            a: self.a as int,
            b: self.b as int,
            tried: self.tried as int,
        }
    }
}

impl MyPermutator {
    #[verifier::type_invariant]
    spec fn well_formed(self) -> bool {
        self.a < self.b && self.tried <= 6
    }

    /// A walk over `numbers`, at its beginning.
    pub fn new(numbers: Vec<Rc<Number>>) -> (r: MyPermutator)
        ensures
            r@ == Cursor::start(numbers.deep_view()),
    {
        MyPermutator { init_combination: numbers, a: 0, b: 1, tried: 0 }
    }

    /// Moves on to the next pair of positions. `None` where there is none
    /// left: the walk is then over.
    pub fn next_pair(&mut self) -> (r: Option<()>)
        ensures
            final(self)@ == old(self)@.next_pair(),
            r.is_some() <==> final(self)@.live(),
    {
        proof {
            use_type_invariant(&*self);
        }
        let len = self.init_combination.len();
        if self.b >= len {
            return None;
        }
        self.b += 1;
        if self.b == len {
            self.a += 1;
            if self.a == len - 1 {
                return None;
            }
            self.b = self.a + 1;
        }
        Some(())
    }

    /// The next child of the combination, `None` when all have been
    /// produced. A pair and operation whose composite is not representable
    /// is passed over.
    pub fn next(&mut self) -> (r: Option<Vec<Rc<Number>>>)
        ensures
            final(self)@.items == old(self)@.items,
            match r {
                Some(produced) => old(self)@.rest() == seq![produced.deep_view()]
                    + final(self)@.rest(),
                None => old(self)@.rest().len() == 0 && final(self)@.rest().len() == 0,
            },
    {
        loop
            invariant
                self@.items == old(self)@.items,
                self@.rest() == old(self)@.rest(),
            decreases
                    self@.items.len() - self@.a,
                    self@.items.len() - self@.b,
                    6 - self@.tried,
        {
            proof {
                use_type_invariant(&*self);
            }
            let len = self.init_combination.len();
            if self.b >= len {
                return None;
            }
            match Action::nth(self.tried) {
                None => {
                    let ghost stale = self@;
                    assert(stale.rest() == Cursor { tried: 0, ..stale.next_pair() }.rest());
                    if self.next_pair().is_none() {
                        return None;
                    }
                    self.tried = 0;
                },
                Some(action) => {
                    let ghost before = self@;
                    self.tried += 1;
                    let new_number = Number::double(
                        action,
                        self.init_combination[self.a].clone(),
                        self.init_combination[self.b].clone(),
                    );
                    if let Some(new_number) = new_number {
                        let ghost whole = new_number@;
                        let mut result: Vec<Rc<Number>> = Vec::new();
                        result.push(Rc::new(new_number));
                        let mut i: usize = 0;
                        while i < len
                            invariant
                                i <= len,
                                len == self.init_combination.len(),
                                self.a < self.b < len,
                                self@.items == before.items,
                                result.deep_view() == seq![whole] + kept(
                                    before.items,
                                    self.a as int,
                                    self.b as int,
                                    i as int,
                                ),
                            decreases len - i,
                        {
                            let ghost earlier = result.deep_view();
                            if i != self.a && i != self.b {
                                result.push(self.init_combination[i].clone());
                                assert(result.deep_view() =~= earlier.push(before.items[i as int]));
                            }
                            assert(kept(before.items, self.a as int, self.b as int, i + 1) =~= if i
                                != self.a && i != self.b {
                                kept(before.items, self.a as int, self.b as int, i as int).push(
                                    before.items[i as int],
                                )
                            } else {
                                kept(before.items, self.a as int, self.b as int, i as int)
                            });
                            i += 1;
                        }
                        assert(kept(before.items, self.a as int, self.b as int, len as int)
                            =~= before.items.remove(self.b as int).remove(self.a as int));
                        return Some(result);
                    }
                },
            }
        }
    }
}

} // verus!
