use countdown::{Action, MyPermutator, Number};
use std::rc::Rc;

fn lits(inputs: &[i32]) -> Vec<Rc<Number>> {
    inputs.iter().map(|x| Rc::new(Number::single(*x))).collect()
}

fn drain(inputs: &[i32]) -> Vec<Vec<Rc<Number>>> {
    let mut walk = MyPermutator::new(lits(inputs));
    let mut out = Vec::new();
    while let Some(child) = walk.next() {
        out.push(child);
    }
    out
}

fn values(combination: &[Rc<Number>]) -> Vec<i32> {
    combination.iter().map(|n| n.value()).collect()
}

fn texts(combination: &[Rc<Number>]) -> Vec<String> {
    combination.iter().map(|n| n.render()).collect()
}

fn count_defined(inputs: &[i32]) -> usize {
    let mut count = 0;
    for a in 0..inputs.len() {
        for b in a + 1..inputs.len() {
            for k in 0..6 {
                if Action::nth(k).unwrap().perform(inputs[a], inputs[b]).is_some() {
                    count += 1;
                }
            }
        }
    }
    count
}

#[test]
fn single_element_has_no_children() {
    let mut walk = MyPermutator::new(lits(&[7]));
    assert!(walk.next().is_none());
    assert!(walk.next().is_none());
}

#[test]
fn empty_combination_has_no_children() {
    let mut walk = MyPermutator::new(Vec::new());
    assert!(walk.next().is_none());
    assert!(walk.next_pair().is_none());
    assert!(walk.next().is_none());
}

#[test]
fn pair_is_tried_under_every_operation_in_order() {
    let children = drain(&[6, 3]);
    let got: Vec<Vec<String>> = children.iter().map(|c| texts(c)).collect();
    assert_eq!(
        got,
        vec![
            vec!["(6 + 3)".to_string()],
            vec!["(6 - 3)".to_string()],
            vec!["(6 * 3)".to_string()],
            vec!["(6 / 3)".to_string()],
            vec!["(3 - 6)".to_string()],
        ]
    );
    let got: Vec<Vec<i32>> = children.iter().map(|c| values(c)).collect();
    assert_eq!(got, vec![vec![9], vec![3], vec![18], vec![2], vec![-3]]);
}

#[test]
fn inapplicable_operations_are_skipped() {
    let children = drain(&[5, 0]);
    let got: Vec<Vec<i32>> = children.iter().map(|c| values(c)).collect();
    assert_eq!(got, vec![vec![5], vec![5], vec![0], vec![-5], vec![0]]);
    let got: Vec<String> = children.iter().map(|c| c[0].render()).collect();
    assert_eq!(got, vec!["(5 + 0)", "(5 - 0)", "(5 * 0)", "(0 - 5)", "(0 / 5)"]);
}

#[test]
fn pairs_come_in_lexicographic_order() {
    let children = drain(&[1, 2, 4, 8]);
    let adds: Vec<Vec<String>> = children
        .iter()
        .filter(|c| c[0].render().contains('+'))
        .map(|c| texts(c))
        .collect();
    let expected: Vec<Vec<String>> = [
        ["(1 + 2)", "4", "8"],
        ["(1 + 4)", "2", "8"],
        ["(1 + 8)", "2", "4"],
        ["(2 + 4)", "1", "8"],
        ["(2 + 8)", "1", "4"],
        ["(4 + 8)", "1", "2"],
    ]
    .iter()
    .map(|c| c.iter().map(|s| s.to_string()).collect())
    .collect();
    assert_eq!(adds, expected);
}

#[test]
fn untouched_elements_keep_their_order() {
    let children = drain(&[10, 20, 30, 40, 50]);
    for child in &children {
        assert_eq!(child.len(), 4);
        let rest = values(&child[1..]);
        let mut sorted = rest.clone();
        sorted.sort();
        assert_eq!(rest, sorted);
    }
    let first = &children[0];
    assert_eq!(values(first), vec![30, 30, 40, 50]);
    let last = children.last().unwrap();
    assert_eq!(last[0].render(), "(50 - 40)");
    assert_eq!(values(last), vec![10, 10, 20, 30]);
}

#[test]
fn children_share_the_untouched_numbers() {
    let inputs = lits(&[3, 4, 5]);
    let third = inputs[2].clone();
    let mut walk = MyPermutator::new(inputs);
    let child = walk.next().unwrap();
    assert_eq!(child[0].render(), "(3 + 4)");
    assert!(Rc::ptr_eq(&child[1], &third));
}

#[test]
fn children_never_exceed_six_per_pair() {
    for inputs in [
        vec![1],
        vec![1, 1],
        vec![6, 3],
        vec![5, 0],
        vec![0, 0],
        vec![100, 50, 25],
        vec![100, 50, 25, 8, 5, 8],
        vec![i32::MAX, i32::MAX, i32::MIN],
    ] {
        let n = inputs.len();
        let children = drain(&inputs);
        assert!(children.len() <= 6 * (n * (n - 1) / 2));
        assert_eq!(children.len(), count_defined(&inputs));
    }
}

#[test]
fn children_are_six_per_pair_when_all_is_defined() {
    assert_eq!(drain(&[1, 1]).len(), 6);
    assert_eq!(drain(&[2, 2, 2]).len(), 18);
    assert_eq!(drain(&[-3, 3, 3, -3]).len(), 36);
    assert_eq!(drain(&[6, 3]).len(), 5);
    assert_eq!(drain(&[0, 0]).len(), 4);
    assert_eq!(drain(&[100, 50, 25, 8, 5, 8]).len(), 68);
}

#[test]
fn walk_stays_over_once_it_is_over() {
    let mut walk = MyPermutator::new(lits(&[1, 1, 1]));
    let mut count = 0;
    while walk.next().is_some() {
        count += 1;
    }
    assert_eq!(count, 18);
    for _ in 0..10 {
        assert!(walk.next().is_none());
        assert!(walk.next_pair().is_none());
    }
}

#[test]
fn next_pair_skips_what_is_left_of_the_pair() {
    let mut walk = MyPermutator::new(lits(&[1, 2, 4]));
    assert_eq!(walk.next().unwrap()[0].render(), "(1 + 2)");
    assert_eq!(walk.next_pair(), Some(()));
    assert_eq!(walk.next().unwrap()[0].render(), "(1 - 4)");
    assert_eq!(walk.next_pair(), Some(()));
    assert_eq!(walk.next().unwrap()[0].render(), "(2 * 4)");
    assert_eq!(walk.next_pair(), None);
    assert!(walk.next().is_none());
}

#[test]
fn next_pair_counts_the_pairs() {
    for n in 0..7usize {
        let inputs: Vec<i32> = (0..n as i32).collect();
        let mut walk = MyPermutator::new(lits(&inputs));
        let mut moves = 0;
        while walk.next_pair().is_some() {
            moves += 1;
        }
        let pairs = if n < 2 { 0 } else { n * (n - 1) / 2 };
        assert_eq!(moves, if pairs == 0 { 0 } else { pairs - 1 });
    }
}
