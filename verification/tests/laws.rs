use std::cmp::Ordering;
use votery::binary::{BinaryDense, BinaryRef};
use votery::cardinal::{CardinalDense, CardinalRef};
use votery::order::{Order, OrderOwned};
use votery::rank::Rank;
use votery::specific::SpecificDense;
use votery::star::Star;
use votery::tied::TiedRank;
use votery::util::get_order;

#[test]
fn get_order_upward_twice_is_once() {
    let xs: Vec<usize> = vec![5, 3, 3, 9, 0];
    let a = get_order(&xs, false);
    assert_eq!(a, vec![2, 1, 1, 3, 0]);
    assert_eq!(get_order(&a, false), a);
}

#[test]
fn get_order_downward_three_times_is_once() {
    let xs: Vec<usize> = vec![5, 3, 3, 9, 0];
    let a = get_order(&xs, true);
    assert_eq!(a, vec![1, 2, 2, 0, 3]);
    let b = get_order(&a, true);
    assert_eq!(b, vec![2, 1, 1, 3, 0]);
    assert_eq!(get_order(&b, true), a);
}

#[test]
fn reverse_twice_gives_back() {
    let before = TiedRank::parse_order(5, "0,{1,2},3").unwrap();
    let mut after = TiedRank::parse_order(5, "0,{1,2},3").unwrap();
    after.reverse();
    assert_eq!(after.order, vec![3, 2, 1, 0]);
    assert_eq!(after.tied, vec![false, true, false]);
    after.reverse();
    assert!(before == after);
}

#[test]
fn top_of_top_is_top() {
    let rank = TiedRank::parse_order(5, "{0,1,2},3,4").unwrap();
    let first = rank.as_ref().top(2);
    assert_eq!(first.len(), 3);
    let second = first.top(2);
    assert_eq!(first.order, second.order);
    assert_eq!(first.tied, second.tied);
}

#[test]
fn keep_top_keeps_threshold() {
    let mut rank = TiedRank::parse_order(5, "0,{1,2},3").unwrap();
    let (o, t) = rank.top_n_threshold(2);
    assert_eq!(o, vec![1, 2]);
    assert_eq!(t, vec![true]);
    rank.keep_top(2);
    assert_eq!(rank.order, vec![0, 1, 2]);
    let (o2, t2) = rank.top_n_threshold(2);
    assert_eq!(o, o2);
    assert_eq!(t, t2);
}

#[test]
fn groups_make_up_the_ranking() {
    let rank = TiedRank::parse_order(5, "{0,1},2,{3,4}").unwrap();
    let r = rank.as_ref();
    let mut it = r.iter_groups();
    let mut all: Vec<usize> = Vec::new();
    let mut lens: Vec<usize> = Vec::new();
    while let Some(g) = it.next() {
        lens.push(g.len());
        all.extend_from_slice(g);
    }
    assert_eq!(lens, vec![2, 1, 2]);
    assert_eq!(all, rank.order);
}

#[test]
fn categorize_counts() {
    let po = Rank::new(4, vec![2, 0]).to_partial();
    let one = po.categorize(1);
    assert_eq!(one.len(), 1);
    assert_eq!(one[0].len(), 4);
    let three = po.categorize(3);
    assert!(three.len() <= 3);
}

#[test]
fn ranked_above_unranked() {
    let po = Rank::new(3, vec![1]).to_partial();
    assert_eq!(po.ord(0, 1), Some(Ordering::Less));
    assert_eq!(po.ord(1, 2), Some(Ordering::Greater));
    assert_eq!(po.ord(0, 2), None);
}

#[test]
fn kp_transform_one_order_per_threshold() {
    let mut cv = CardinalDense::new(2, 0, 2);
    cv.add(CardinalRef::new(&[0, 2])).unwrap();
    cv.add(CardinalRef::new(&[1, 1])).unwrap();
    let b = cv.kp_transform().unwrap();
    assert_eq!(b.len(), 4);
}

#[test]
fn majority_is_an_element() {
    let mut s = SpecificDense::new(3);
    s.add(2).unwrap();
    s.add(2).unwrap();
    s.add(0).unwrap();
    assert_eq!(s.majority(), Some(2));
}

#[test]
fn binary_cardinal_binary() {
    let mut b = BinaryDense::new(3);
    b.add(BinaryRef::new(&[true, false, true])).unwrap();
    b.add(BinaryRef::new(&[false, false, true])).unwrap();
    let c = CardinalDense::try_from(&b).unwrap();
    let back = c.to_binary_cutoff(1).unwrap();
    assert_eq!(back.orders, b.orders);
}

#[test]
fn text_reads_back() {
    for (elements, s) in [(5, "2,{0,1},4"), (3, "{0,1,2}"), (4, "3,1"), (2, "")] {
        let rank = TiedRank::parse_order(elements, s).unwrap();
        let text = rank.as_ref().to_string();
        assert_eq!(text, s);
        let back = TiedRank::parse_order(elements, &text).unwrap();
        assert!(back == rank);
    }
}

#[test]
fn remove_last_then_complete() {
    let mut before = TiedRank::parse_order(5, "{0,1},3").unwrap();
    before.make_complete(true);
    assert_eq!(before.order, vec![0, 1, 3, 2, 4]);
    assert_eq!(before.tied, vec![true, false, true, true]);
    let mut after = TiedRank::parse_order(5, "{0,1},3").unwrap();
    after.make_complete(true);
    after.remove_last();
    assert_eq!(after.order, vec![0, 1]);
    after.make_complete(false);
    assert_eq!(after.order, vec![0, 1, 2, 3, 4]);
    assert_eq!(after.tied, before.tied);
    after.normalize();
    before.normalize();
    assert!(after == before);
}

#[test]
fn star_clear_top_two() {
    let mut votes = CardinalDense::new(3, 0, 5);
    votes.add(CardinalRef::new(&[5, 1, 0])).unwrap();
    votes.add(CardinalRef::new(&[3, 4, 0])).unwrap();
    votes.add(CardinalRef::new(&[2, 5, 0])).unwrap();
    let res = Star::count(&votes).unwrap().as_vote();
    assert_eq!(res.order, vec![1, 0, 2]);
    assert_eq!(res.tied, vec![false, false]);
}

#[test]
fn star_tie_for_second_goes_to_matchup_winner() {
    // 1 and 2 tie on total score; 1 is preferred to 2 on more ballots, so
    // 1 meets 0 in the runoff.
    let mut votes = CardinalDense::new(3, 0, 2);
    votes.add(CardinalRef::new(&[2, 1, 0])).unwrap();
    votes.add(CardinalRef::new(&[2, 1, 0])).unwrap();
    votes.add(CardinalRef::new(&[2, 0, 2])).unwrap();
    let res = Star::count(&votes).unwrap().as_vote();
    assert_eq!(res.order, vec![0, 1, 2]);
    assert_eq!(res.tied, vec![false, false]);
}

#[test]
fn star_tie_for_second_goes_to_most_top_scores() {
    // 1 and 2 tie on total score and on their matchup; 2 gets the highest
    // score more often, so 2 meets 0 in the runoff, and loses it.
    let mut votes = CardinalDense::new(3, 0, 4);
    votes.add(CardinalRef::new(&[4, 3, 4])).unwrap();
    votes.add(CardinalRef::new(&[4, 3, 1])).unwrap();
    votes.add(CardinalRef::new(&[4, 0, 3])).unwrap();
    votes.add(CardinalRef::new(&[4, 2, 0])).unwrap();
    let res = Star::count(&votes).unwrap().as_vote();
    assert_eq!(res.order, vec![0, 2, 1]);
    assert_eq!(res.tied, vec![false, false]);
}

#[test]
fn star_undecided_scoring_round_keeps_the_tie() {
    // 1 and 2 cannot be told apart by any tiebreaker, so the scoring
    // round's ranking is the result.
    let mut votes = CardinalDense::new(3, 0, 2);
    votes.add(CardinalRef::new(&[2, 1, 0])).unwrap();
    votes.add(CardinalRef::new(&[2, 0, 1])).unwrap();
    let res = Star::count(&votes).unwrap().as_vote();
    assert_eq!(res.order, vec![0, 1, 2]);
    assert_eq!(res.tied, vec![false, true]);
}

#[test]
fn categorize_keeps_every_element_larger_first() {
    // {0,1,2} < {3,4} < {5,6} < {7}
    let po = votery::cardinal::Cardinal::new(vec![0, 0, 0, 1, 1, 2, 2, 3]).to_partial();
    let cats = po.categorize(2);
    assert_eq!(cats, vec![vec![3, 4, 5, 6, 7], vec![0, 1, 2]]);
    let mut all: Vec<usize> = cats.concat();
    all.sort();
    assert_eq!(all, (0..8).collect::<Vec<usize>>());
}

#[test]
fn decided_top_has_empty_threshold() {
    let r = TiedRank::parse_order(3, "0,1,2").unwrap();
    let (o, t) = r.top_n_threshold(2);
    assert!(o.is_empty());
    assert!(t.is_empty());
}

#[test]
fn partial_order_add_then_remove_restores() {
    let mut po = Rank::new(3, vec![2, 0]).to_partial();
    let orig = po.clone();
    po.add(2);
    assert!(po.valid());
    po.remove(2);
    assert!(po.valid());
    assert_eq!(po.elements(), 3);
    for i in 0..3 {
        for j in 0..3 {
            assert_eq!(po.le(i, j), orig.le(i, j));
        }
    }
}

#[test]
fn clone_from_ref_takes_any_length() {
    let mut a = votery::cardinal::Cardinal::new(vec![1, 2]);
    a.clone_from_ref(CardinalRef::new(&[5, 6, 7]));
    assert_eq!(a.as_ref().values(), &[5, 6, 7]);
    let mut b = votery::binary::Binary::new(vec![true]);
    b.clone_from_ref(BinaryRef::new(&[false, true]));
    assert_eq!(b.as_ref().values(), &[false, true]);
}

#[test]
fn categorize_keeps_unseparated_elements_in_order() {
    let po = votery::partial_order::PartialOrder::new_empty(4);
    assert_eq!(po.categorize(2), vec![vec![0, 1, 2, 3]]);
}

#[test]
fn total_orders_sort_by_a_comparison() {
    let mut t = votery::strict::Total::new(vec![2, 0, 3, 1]);
    t.sort_by(|a, b| b.cmp(a));
    assert_eq!(t.order, vec![3, 2, 1, 0]);
    // Stable: elements of equal parity keep their order.
    let mut r = votery::rank::TotalRank::new(vec![2, 0, 3, 1]);
    r.sort_with(|a, b| (a % 2).cmp(&(b % 2)));
    assert_eq!(r.order, vec![2, 0, 3, 1]);
    r.sort_by(|a, b| a.cmp(b));
    assert_eq!(r.order, vec![0, 1, 2, 3]);
}
