//! Reading a rendered expression back: the grammar of the text that
//! `Expr::text` writes, and the proof that reading returns the value of what
//! was written.

use crate::action::Action;
use crate::decimal::{decimal, digits};
use crate::expr::Expr;
use vstd::prelude::*;

verus! {

/// The number that a decimal digit stands for, `None` for any other
/// character.
pub open spec fn digit_value(c: char) -> Option<int> {
    if c == '0' {
        Some(0)
    } else if c == '1' {
        Some(1)
    } else if c == '2' {
        Some(2)
    } else if c == '3' {
        Some(3)
    } else if c == '4' {
        Some(4)
    } else if c == '5' {
        Some(5)
    } else if c == '6' {
        Some(6)
    } else if c == '7' {
        Some(7)
    } else if c == '8' {
        Some(8)
    } else if c == '9' {
        Some(9)
    } else {
        None
    }
}

/// The operation that a sign stands for when it is read left to right.
pub open spec fn sign_action(c: char) -> Option<Action> {
    if c == '+' {
        Some(Action::Add)
    } else if c == '-' {
        Some(Action::Sub)
    } else if c == '*' {
        Some(Action::Mul)
    } else if c == '/' {
        Some(Action::Div)
    } else {
        None
    }
}

/// The end of the run of digits that begins at `at`.
pub open spec fn digits_end(text: Seq<char>, at: int) -> int
    decreases text.len() - at,
{
    if 0 <= at < text.len() && digit_value(text[at]).is_some() {
        digits_end(text, at + 1)
    } else {
        at
    }
}

/// The number written by the digits of `text` from `from` up to `to`.
pub open spec fn number_at(text: Seq<char>, from: int, to: int) -> int
    decreases to - from,
{
    if to <= from {
        0
    } else {
        match digit_value(text[to - 1]) {
            Some(d) => number_at(text, from, to - 1) * 10 + d,
            None => 0,
        }
    }
}

/// Reads a decimal number at `at`: an optional minus sign, then one or more
/// digits. Gives the number and the position after it.
pub open spec fn read_number(text: Seq<char>, at: int) -> Option<(int, int)> {
    let negative = 0 <= at < text.len() && text[at] == '-';
    let from = if negative {
        at + 1
    } else {
        at
    };
    let to = digits_end(text, from);
    if to <= from {
        None
    } else if negative {
        Some((-number_at(text, from, to), to))
    } else {
        Some((number_at(text, from, to), to))
    }
}

/// Reads an expression at `at`: a number, or two expressions in
/// parentheses with a sign between them, set off by single spaces. Gives the
/// value, computed with the first operand on the left of the operation, and
/// the position after the expression. `None` where the text is not of that
/// form or an operation is undefined.
pub open spec fn read_expression(text: Seq<char>, at: int) -> Option<(int, int)>
    decreases text.len() - at,
{
    if !(0 <= at < text.len()) {
        None
    } else if text[at] != '(' {
        read_number(text, at)
    } else {
        match read_expression(text, at + 1) {
            None => None,
            Some((left, sign_at)) => {
                if !(at < sign_at && sign_at + 3 <= text.len()) {
                    None
                } else if text[sign_at] != ' ' || text[sign_at + 2] != ' ' {
                    None
                } else {
                    match (sign_action(text[sign_at + 1]), read_expression(text, sign_at + 3)) {
                        (Some(action), Some((right, close_at))) => {
                            if 0 <= close_at < text.len() && text[close_at] == ')' {
                                match action.apply(left, right) {
                                    Some(value) => Some((value, close_at + 1)),
                                    None => None,
                                }
                            } else {
                                None
                            }
                        },
                        _ => None,
                    }
                }
            },
        }
    }
}

/// The value of the expression that `text` is, `None` where it is none.
pub open spec fn parse(text: Seq<char>) -> Option<int> {
    match read_expression(text, 0) {
        Some((value, end)) => if end == text.len() {
            Some(value)
        } else {
            None
        },
        None => None,
    }
}

/// Whether `part` stands in `text` at `at`, and no digit follows it.
pub open spec fn stands_at(text: Seq<char>, at: int, part: Seq<char>) -> bool {
    &&& 0 <= at
    &&& at + part.len() <= text.len()
    &&& text.subrange(at, at + part.len()) == part
    &&& at + part.len() < text.len() ==> digit_value(text[at + part.len()]).is_none()
}

/// The digits of a number are digits, and there is at least one.
proof fn lemma_digits_are_digits(n: nat)
    ensures
        digits(n).len() >= 1,
        forall|i: int| 0 <= i < digits(n).len() ==> digit_value(#[trigger] digits(n)[i]).is_some(),
        digits(n)[0] != '-',
        digits(n)[0] != '(',
    decreases n,
{
    if n >= 10 {
        lemma_digits_are_digits(n / 10);
    }
}

/// A run of digits that stands in a text ends where it ends.
proof fn lemma_digits_end(text: Seq<char>, from: int, n: nat, done: int)
    requires
        stands_at(text, from, digits(n)),
        0 <= done <= digits(n).len(),
    ensures
        digits_end(text, from + done) == from + digits(n).len(),
    decreases digits(n).len() - done,
{
    lemma_digits_are_digits(n);
    if done < digits(n).len() {
        assert(text[from + done] == text.subrange(from, from + digits(n).len())[done]);
        lemma_digits_end(text, from, n, done + 1);
    }
}

/// The digits of a number that stand in a text write that number.
proof fn lemma_number_at(text: Seq<char>, from: int, n: nat)
    requires
        0 <= from,
        from + digits(n).len() <= text.len(),
        text.subrange(from, from + digits(n).len()) == digits(n),
    ensures
        number_at(text, from, from + digits(n).len()) == n,
    decreases n,
{
    let len = digits(n).len() as int;
    assert(text[from + len - 1] == text.subrange(from, from + len)[len - 1]);
    if n < 10 {
        assert(number_at(text, from, from) == 0);
    } else {
        let shorter = digits(n / 10);
        assert(text.subrange(from, from + shorter.len()) =~= shorter) by {
            assert forall|i: int| 0 <= i < shorter.len() implies text.subrange(
                from,
                from + shorter.len(),
            )[i] == shorter[i] by {
                assert(text[from + i] == text.subrange(from, from + len)[i]);
            }
        }
        lemma_number_at(text, from, n / 10);
    }
}

/// A number written in decimal reads back as itself.
proof fn lemma_read_number(text: Seq<char>, at: int, n: int)
    requires
        stands_at(text, at, decimal(n)),
    ensures
        read_number(text, at) == Some((n, at + decimal(n).len())),
        text[at] != '(',
{
    let len = decimal(n).len() as int;
    if n < 0 {
        let m = (-n) as nat;
        lemma_digits_are_digits(m);
        assert(text[at] == text.subrange(at, at + len)[0]);
        assert(text.subrange(at + 1, at + 1 + digits(m).len()) =~= digits(m)) by {
            assert forall|i: int| 0 <= i < digits(m).len() implies text.subrange(
                at + 1,
                at + 1 + digits(m).len(),
            )[i] == digits(m)[i] by {
                assert(text[at + 1 + i] == text.subrange(at, at + len)[1 + i]);
            }
        }
        lemma_digits_end(text, at + 1, m, 0);
        lemma_number_at(text, at + 1, m);
    } else {
        let m = n as nat;
        lemma_digits_are_digits(m);
        lemma_digits_end(text, at, m, 0);
        lemma_number_at(text, at, m);
    }
}

/// What an expression writes reads back, wherever it stands, as the value
/// of the expression.
proof fn lemma_read_expression(text: Seq<char>, at: int, whole: Expr)
    requires
        whole.eval().is_some(),
        stands_at(text, at, whole.text()),
    ensures
        whole.text().len() >= 1,
        read_expression(text, at) == Some((whole.eval().unwrap(), at + whole.text().len())),
    decreases whole,
{
    match whole {
        Expr::Literal(n) => {
            lemma_read_number(text, at, n);
        },
        Expr::Composite(action, left, right) => {
            let (first, second) = if action.is_reverse() {
                (*right, *left)
            } else {
                (*left, *right)
            };
            let written = whole.text();
            let one = first.text();
            let two = second.text();
            let middle = seq![' ', action.sign(), ' '];
            let sign_at = at + 1 + one.len();
            let second_at = sign_at + 3;
            let close_at = second_at + two.len();
            assert(written == seq!['('] + one + middle + two + seq![')']);
            assert forall|i: int| 0 <= i < written.len() implies text[at + i] == written[i] by {
                assert(text[at + i] == text.subrange(at, at + written.len())[i]);
            }
            assert(text[at] == '(') by {
                assert(written[0] == '(');
            }
            assert(text[sign_at] == ' ' && text[sign_at + 1] == action.sign() && text[sign_at + 2]
                == ' ') by {
                assert(written[sign_at - at] == middle[0]);
                assert(written[sign_at - at + 1] == middle[1]);
                assert(written[sign_at - at + 2] == middle[2]);
            }
            assert(text[close_at] == ')') by {
                assert(written[close_at - at] == ')');
            }
            assert(text.subrange(at + 1, at + 1 + one.len()) =~= one) by {
                assert forall|i: int| 0 <= i < one.len() implies text[at + 1 + i] == one[i] by {
                    assert(written[1 + i] == one[i]);
                }
            }
            assert(text.subrange(second_at, second_at + two.len()) =~= two) by {
                assert forall|i: int| 0 <= i < two.len() implies text[second_at + i] == two[i] by {
                    assert(written[second_at - at + i] == two[i]);
                }
            }
            lemma_read_expression(text, at + 1, first);
            lemma_read_expression(text, second_at, second);
        },
    }
}

/// The text of an expression that has a value reads back as that value.
pub proof fn lemma_text_reads_back(whole: Expr)
    requires
        whole.eval().is_some(),
    ensures
        parse(whole.text()) == whole.eval(),
{
    let written = whole.text();
    assert(written.subrange(0, written.len() as int) =~= written);
    lemma_read_expression(written, 0, whole);
}

} // verus!
