use countdown::decimal::render_decimal;
use countdown::{Action, Number};
use std::rc::Rc;

fn lit(n: i32) -> Rc<Number> {
    Rc::new(Number::single(n))
}

fn join(action: Action, a: &Rc<Number>, b: &Rc<Number>) -> Rc<Number> {
    Rc::new(Number::double(action, a.clone(), b.clone()).unwrap())
}

#[test]
fn single_holds_its_input() {
    assert_eq!(Number::single(42).value(), 42);
    assert_eq!(Number::single(-42).value(), -42);
    assert_eq!(Number::single(0).value(), 0);
    assert_eq!(Number::single(i32::MIN).value(), i32::MIN);
}

#[test]
fn single_renders_as_its_digits() {
    assert_eq!(Number::single(42).render(), "42");
    assert_eq!(Number::single(0).render(), "0");
    assert_eq!(Number::single(-5).render(), "-5");
    assert_eq!(Number::single(1000).render(), "1000");
}

#[test]
fn decimal_covers_the_whole_range() {
    assert_eq!(render_decimal(0), "0");
    assert_eq!(render_decimal(9), "9");
    assert_eq!(render_decimal(10), "10");
    assert_eq!(render_decimal(-10), "-10");
    assert_eq!(render_decimal(1234567890), "1234567890");
    assert_eq!(render_decimal(i32::MAX), "2147483647");
    assert_eq!(render_decimal(i32::MIN), "-2147483648");
    for n in [-100_000, -101, -1, 1, 7, 99, 100, 5040, 65536] {
        assert_eq!(render_decimal(n), n.to_string());
    }
}

#[test]
fn divide_gives_the_quotient_of_an_exact_division() {
    for (a, b) in [(100, 25), (8, 8), (0, 5), (-12, 4), (12, -4), (-12, -4), (i32::MIN, 2)] {
        let whole = Number::double(Action::Div, lit(a), lit(b)).unwrap();
        assert_eq!(whole.value(), a / b);
    }
}

#[test]
fn divide_is_inapplicable_otherwise() {
    for (a, b) in [(7, 2), (1, 3), (5, 0), (0, 0), (-7, 2), (25, 100)] {
        assert!(Number::double(Action::Div, lit(a), lit(b)).is_none());
    }
    assert!(Number::double(Action::Div, lit(i32::MIN), lit(-1)).is_none());
}

#[test]
fn reverse_divide_swaps_the_operands() {
    let whole = Number::double(Action::RDiv, lit(25), lit(100)).unwrap();
    assert_eq!(whole.value(), 4);
    assert_eq!(whole.render(), "(100 / 25)");
    assert!(Number::double(Action::RDiv, lit(100), lit(25)).is_none());
    assert!(Number::double(Action::RDiv, lit(0), lit(25)).is_none());
}

#[test]
fn subtract_and_reverse_subtract_mirror_each_other() {
    let (a, b) = (lit(8), lit(25));
    let plain = join(Action::Sub, &a, &b);
    let reverse = join(Action::RSub, &a, &b);
    assert_eq!(plain.value(), 8 - 25);
    assert_eq!(reverse.value(), 25 - 8);
    assert_eq!(plain.render(), "(8 - 25)");
    assert_eq!(reverse.render(), "(25 - 8)");
    assert_eq!(reverse.render(), join(Action::Sub, &b, &a).render());
}

#[test]
fn subtract_out_of_range_is_inapplicable() {
    assert!(Number::double(Action::Sub, lit(i32::MIN), lit(1)).is_none());
    assert!(Number::double(Action::RSub, lit(1), lit(i32::MIN)).is_none());
    assert!(Number::double(Action::Add, lit(i32::MAX), lit(1)).is_none());
    assert!(Number::double(Action::Mul, lit(i32::MAX), lit(2)).is_none());
}

#[test]
fn value_is_computed_once_and_stays() {
    let whole = join(Action::Mul, &join(Action::Add, &lit(100), &lit(50)), &lit(8));
    assert_eq!(whole.value(), (100 + 50) * 8);
    assert_eq!(whole.value(), whole.value());
    let shared = whole.clone();
    let above = join(Action::Sub, &shared, &lit(200));
    assert_eq!(above.value(), 1000);
    assert_eq!(whole.value(), 1200);
    assert_eq!(shared.value(), 1200);
}

#[test]
fn composite_renders_fully_parenthesized() {
    let sum = join(Action::Add, &lit(100), &lit(50));
    let diff = join(Action::RSub, &lit(8), &lit(25));
    let product = join(Action::Mul, &sum, &diff);
    assert_eq!(product.render(), "((100 + 50) * (25 - 8))");
    assert_eq!(product.value(), 150 * 17);
    let quotient = join(Action::Div, &product, &lit(-5));
    assert_eq!(quotient.render(), "(((100 + 50) * (25 - 8)) / -5)");
    assert_eq!(quotient.value(), -510);
    let back = join(Action::RDiv, &lit(-5), &product);
    assert_eq!(back.render(), "(((100 + 50) * (25 - 8)) / -5)");
    assert_eq!(back.value(), -510);
}

#[test]
fn negative_literals_keep_their_sign() {
    let whole = join(Action::Sub, &lit(3), &lit(-5));
    assert_eq!(whole.render(), "(3 - -5)");
    assert_eq!(whole.value(), 8);
}

#[test]
fn equality_goes_by_value_alone() {
    let six_a = join(Action::Mul, &lit(2), &lit(3));
    let six_b = join(Action::Add, &lit(1), &lit(5));
    let six_c = lit(6);
    assert!(*six_a == *six_b);
    assert!(*six_a == *six_c);
    assert!(*six_a != *lit(7));
    assert_ne!(six_a.render(), six_b.render());
}

#[test]
fn equality_with_a_bare_integer() {
    let six = join(Action::Mul, &lit(2), &lit(3));
    assert!(*six == 6);
    assert!(*six != 5);
    assert!(*lit(-1) == -1);
}
