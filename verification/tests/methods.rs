use votery::cardinal::{CardinalDense, CardinalRef};
use votery::star::Star;
use votery::util::get_order;

#[test]
fn get_order_ordered() {
    let a: Vec<usize> = (0..20).into_iter().collect();
    let mut b = a.clone();
    b.reverse();
    assert_eq!(get_order(&a, true), b);
}

#[test]
fn get_order_single() {
    let a = vec![6425654];
    let b = vec![0];
    assert_eq!(get_order(&a, true), b);
}

#[test]
fn get_order_empty() {
    let a: Vec<usize> = vec![];
    let b: Vec<usize> = vec![];
    assert_eq!(get_order(&a, true), b);
}

#[test]
fn get_order_ties() {
    let a: Vec<usize> = vec![43, 5, 5, 12, 5, 10, 12, 0, 60, 4];
    let b = vec![1, 4, 4, 2, 4, 3, 2, 6, 0, 5];
    assert_eq!(get_order(&a, true), b);
}

#[test]
fn simple_example() {
    let mut votes = CardinalDense::new(4, 0, 4);
    votes.add(CardinalRef::new(&[1, 3, 2, 4])).unwrap();
    votes.add(CardinalRef::new(&[3, 1, 1, 3])).unwrap();
    votes.add(CardinalRef::new(&[0, 2, 1, 2])).unwrap();
    votes.add(CardinalRef::new(&[2, 4, 2, 2])).unwrap();
    // Scoring round should have 1 and 3 as the candidates.
    // Then 3 is preferred on two ballots, tied on one and not preferred on one, so it should win.
    let res = Star::count(&votes).unwrap().as_vote();
    let correct_winner = match res.as_ref().winners() {
        &[win] => win == 3,
        _ => false,
    };
    assert!(correct_winner);
}
