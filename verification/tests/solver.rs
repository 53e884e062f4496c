use countdown::{solve, Number};
use std::rc::Rc;

fn frontier(inputs: &[i32]) -> Vec<Vec<Rc<Number>>> {
    vec![inputs.iter().map(|x| Rc::new(Number::single(*x))).collect()]
}

fn read_number(text: &[u8], at: &mut usize) -> i64 {
    let negative = text[*at] == b'-';
    if negative {
        *at += 1;
    }
    assert!(text[*at].is_ascii_digit());
    let mut n: i64 = 0;
    while *at < text.len() && text[*at].is_ascii_digit() {
        n = n * 10 + (text[*at] - b'0') as i64;
        *at += 1;
    }
    if negative {
        -n
    } else {
        n
    }
}

fn read_expression(text: &[u8], at: &mut usize) -> i64 {
    if text[*at] != b'(' {
        return read_number(text, at);
    }
    *at += 1;
    let left = read_expression(text, at);
    assert_eq!(text[*at], b' ');
    let sign = text[*at + 1];
    assert_eq!(text[*at + 2], b' ');
    *at += 3;
    let right = read_expression(text, at);
    assert_eq!(text[*at], b')');
    *at += 1;
    match sign {
        b'+' => left + right,
        b'-' => left - right,
        b'*' => left * right,
        b'/' => {
            assert!(right != 0 && left % right == 0);
            left / right
        }
        _ => panic!("unknown sign"),
    }
}

fn evaluate(text: &str) -> i64 {
    let mut at = 0;
    let value = read_expression(text.as_bytes(), &mut at);
    assert_eq!(at, text.len());
    value
}

fn literals_of(text: &str) -> Vec<i64> {
    let mut found: Vec<i64> = text
        .split(|c: char| c == '(' || c == ')' || c == ' ')
        .filter(|piece| piece.chars().any(|c| c.is_ascii_digit()))
        .map(|piece| piece.parse().unwrap())
        .collect();
    found.sort();
    found
}

fn is_sub_multiset(part: &[i64], whole: &[i32]) -> bool {
    let mut left: Vec<i64> = whole.iter().map(|x| *x as i64).collect();
    for x in part {
        match left.iter().position(|y| y == x) {
            Some(i) => {
                left.remove(i);
            }
            None => return false,
        }
    }
    true
}

#[test]
fn finds_334() {
    let inputs = [100, 50, 25, 8, 5, 8];
    let found = solve(frontier(&inputs), 334).unwrap();
    assert_eq!(found.value(), 334);
    let text = found.render();
    assert_eq!(evaluate(&text), 334);
    assert!(is_sub_multiset(&literals_of(&text), &inputs));
    assert_eq!(text, "((50 * 5) + ((100 - 8) - 8))");
}

#[test]
fn finds_634() {
    let inputs = [50, 100, 25, 2, 7, 2];
    let found = solve(frontier(&inputs), 634);
    assert!(found.is_some());
    let found = found.unwrap();
    assert_eq!(found.value(), 634);
    let text = found.render();
    assert_eq!(evaluate(&text), 634);
    assert!(is_sub_multiset(&literals_of(&text), &inputs));
    assert_eq!(text, "((((50 * 25) / 2) + 7) + 2)");
}

#[test]
fn reports_an_unreachable_target() {
    assert!(solve(frontier(&[1, 1]), 5).is_none());
    assert!(solve(frontier(&[1, 1]), 3).is_none());
    assert!(solve(frontier(&[2, 3, 4]), 1000).is_none());
}

#[test]
fn reaches_everything_two_ones_can_make() {
    assert_eq!(solve(frontier(&[1, 1]), 2).unwrap().render(), "(1 + 1)");
    assert_eq!(solve(frontier(&[1, 1]), 0).unwrap().render(), "(1 - 1)");
    assert_eq!(solve(frontier(&[1, 1]), 1).unwrap().render(), "(1 * 1)");
}

#[test]
fn single_input_is_never_a_solution() {
    assert!(solve(frontier(&[5]), 5).is_none());
    assert!(solve(frontier(&[5]), 0).is_none());
}

#[test]
fn empty_frontier_has_no_solution() {
    assert!(solve(Vec::new(), 0).is_none());
    assert!(solve(vec![Vec::new()], 0).is_none());
    assert!(solve(vec![Vec::new(), Vec::new()], 7).is_none());
}

#[test]
fn first_match_in_expansion_order_wins() {
    assert_eq!(solve(frontier(&[2, 2]), 4).unwrap().render(), "(2 + 2)");
    assert_eq!(solve(frontier(&[2, 2, 5]), 4).unwrap().render(), "(2 + 2)");
    assert_eq!(solve(frontier(&[5, 2, 2]), 4).unwrap().render(), "(2 + 2)");
    assert_eq!(solve(frontier(&[0, 0]), 0).unwrap().render(), "(0 + 0)");
}

#[test]
fn reverse_operations_reach_the_other_order() {
    let found = solve(frontier(&[3, 5]), 2).unwrap();
    assert_eq!(found.render(), "(5 - 3)");
    assert_eq!(found.value(), 2);
    let found = solve(frontier(&[2, 6]), 3).unwrap();
    assert_eq!(found.render(), "(6 / 2)");
    assert_eq!(found.value(), 3);
}

#[test]
fn shallow_matches_come_before_deep_ones() {
    let found = solve(frontier(&[1, 2, 3]), 6).unwrap();
    assert_eq!(found.render(), "(2 * 3)");
    let found = solve(frontier(&[1, 2, 3]), 9).unwrap();
    assert_eq!(found.render(), "((1 + 2) * 3)");
    assert_eq!(found.value(), 9);
}

#[test]
fn every_combination_of_the_frontier_is_searched() {
    let mut both = frontier(&[1, 1]);
    both.extend(frontier(&[10, 20]));
    let found = solve(both, 30).unwrap();
    assert_eq!(found.render(), "(10 + 20)");
    let mut both = frontier(&[10, 20]);
    both.extend(frontier(&[25, 5]));
    assert_eq!(solve(both, 30).unwrap().render(), "(10 + 20)");
    let mut uneven = frontier(&[7]);
    uneven.extend(frontier(&[1, 2, 3]));
    uneven.extend(frontier(&[4, 5]));
    assert_eq!(solve(uneven, 9).unwrap().render(), "(4 + 5)");
}

#[test]
fn rendered_results_evaluate_to_their_value() {
    let inputs = [100, 50, 25, 8, 5, 8];
    for target in [0, 1, 17, 150, 334, 1000, 5000, -92, -4992] {
        if let Some(found) = solve(frontier(&inputs), target) {
            assert_eq!(found.value(), target);
            assert_eq!(evaluate(&found.render()), target as i64);
        }
    }
}

#[test]
fn overflowing_products_are_passed_over() {
    let found = solve(frontier(&[65536, 65536, 2]), 131072).unwrap();
    assert_eq!(found.render(), "(65536 + 65536)");
    assert!(solve(frontier(&[65536, 65536]), 0).is_some());
    assert!(solve(frontier(&[65536, 65536]), 1).is_some());
    assert!(solve(frontier(&[65536, 65536]), i32::MAX).is_none());
    assert!(solve(frontier(&[65536, 65536]), i32::MIN).is_none());
    let found = solve(frontier(&[65536, 65536, 65536]), 65537).unwrap();
    assert_eq!(found.render(), "((65536 / 65536) + 65536)");
}

fn collect_reachable(list: &[i64], out: &mut Vec<i64>) {
    for i in 0..list.len() {
        for j in 0..list.len() {
            if i == j {
                continue;
            }
            let (a, b) = (list[i], list[j]);
            let mut results = vec![a + b, a - b, a * b];
            if b != 0 && a % b == 0 {
                results.push(a / b);
            }
            for v in results {
                if v < i32::MIN as i64 || v > i32::MAX as i64 {
                    continue;
                }
                out.push(v);
                let mut next = vec![v];
                for (k, x) in list.iter().enumerate() {
                    if k != i && k != j {
                        next.push(*x);
                    }
                }
                collect_reachable(&next, out);
            }
        }
    }
}

#[test]
fn finds_exactly_what_can_be_made() {
    for inputs in [vec![1, 1], vec![2, 3, 4], vec![0, 5, 7], vec![3, 3, 8, 8], vec![-2, 6, 10]] {
        let list: Vec<i64> = inputs.iter().map(|x| *x as i64).collect();
        let mut reachable = Vec::new();
        collect_reachable(&list, &mut reachable);
        reachable.sort();
        reachable.dedup();
        for target in -120..=120 {
            let found = solve(frontier(&inputs), target);
            assert_eq!(found.is_some(), reachable.binary_search(&(target as i64)).is_ok());
            if let Some(found) = found {
                assert_eq!(found.value(), target);
                let text = found.render();
                assert_eq!(evaluate(&text), target as i64);
                assert!(is_sub_multiset(&literals_of(&text), &inputs));
            }
        }
    }
}

#[test]
fn large_values_are_reached_when_they_fit() {
    let found = solve(frontier(&[46341, 46340]), 46341 * 46340).unwrap();
    assert_eq!(found.render(), "(46341 * 46340)");
    assert_eq!(found.value(), 2147441940);
    assert!(solve(frontier(&[46341, 46341]), 0).is_some());
    let found = solve(frontier(&[i32::MIN, 1]), i32::MIN).unwrap();
    assert_eq!(found.render(), "(-2147483648 * 1)");
    let found = solve(frontier(&[i32::MAX, i32::MIN]), -1).unwrap();
    assert_eq!(found.render(), "(2147483647 + -2147483648)");
}
