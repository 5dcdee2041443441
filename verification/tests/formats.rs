use votery::binary::BinaryDense;
use votery::cardinal::CardinalDense;
use votery::order::OrderOwned;
use votery::chains::ChainDense;
use votery::random_ballot::{RandomBallot, RandomBallotSingle};
use votery::soc::StrictOrdersComplete;
use votery::soi::StrictOrdersIncomplete;
use votery::strict::{StrictIRef, TotalDense};
use votery::toc::TiedOrdersComplete;
use votery::toi::TiedOrdersIncomplete;
use votery::total_ranking::TotalRankingDense;

#[test]
fn total_ranking_parse_and_print() {
    let mut t = TotalRankingDense::new(3);
    assert_eq!(t.parse_add("2,0,1\n0,1,2\r\n1,2,0"), Ok(()));
    assert_eq!(t.orders_count, 3);
    assert_eq!(t.to_string(), "2,0,1\n0,1,2\n1,2,0\n");
    assert!(t.valid());
}

#[test]
fn total_ranking_parse_errors() {
    let cases = [
        ("x,0,1", "Order is not a number"),
        ("3,0,1", "Ranking of element larger than or equal to number of elements"),
        ("0,0,1", "Not a total ranking"),
        ("0,1", "Too few elements listed in order"),
        ("", "Order is not a number"),
    ];
    for (text, err) in cases {
        let mut t = TotalRankingDense::new(3);
        assert_eq!(t.parse_add(&format!("0,1,2\n{}\n", text)), Err(err), "{}", text);
        assert_eq!(t.orders_count, 1);
        assert_eq!(t.orders, vec![0, 1, 2]);
    }
    let mut t = TotalRankingDense::new(3);
    assert_eq!(t.parse_add(""), Ok(()));
    assert_eq!(t.orders_count, 0);
}

#[test]
fn total_ranking_add_and_remove() {
    let mut t = TotalRankingDense::new(3);
    assert_eq!(t.add(&[0, 1]), Err("Order must contains all elements"));
    assert_eq!(t.add(&[2, 0, 1]), Ok(()));
    assert_eq!(t.add(&[0, 2, 1]), Ok(()));
    t.remove_element(0).unwrap();
    assert_eq!(t.elements(), 2);
    assert_eq!(t.orders, vec![0, 1, 1, 0]);
}

#[test]
fn binary_parse_and_print() {
    let mut b = BinaryDense::new(3);
    assert_eq!(b.parse_add("1,0,1\n0,0,0\n"), Ok(()));
    assert_eq!(b.len(), 2);
    assert_eq!(b.to_string(), "1,0,1\n0,0,0\n");
    for bad in ["1,0", "1,2,1", "1;0;1", "1,0,1,"] {
        let mut b = BinaryDense::new(3);
        assert_eq!(b.parse_add(&format!("1,1,1\n{}", bad)), Err("Invalid vote"), "{}", bad);
        assert_eq!(b.len(), 1);
    }
}

#[test]
fn cardinal_parse_and_print() {
    let mut c = CardinalDense::new(3, 1, 4);
    assert_eq!(c.parse_add("1,4,2\n3,3,3\n"), Ok(()));
    assert_eq!(c.len(), 2);
    assert_eq!(c.to_string(), "1,4,2\n3,3,3\n");
    let cases = [
        ("0,1,1", "Cardinal order is smaller than min value"),
        ("5,1,1", "Cardinal order is larger than max value"),
        ("a,1,1", "Order is not a number"),
        ("1,1", "Too few elements listed in order"),
        ("1,1,1,1", "Too many elements listed in order"),
    ];
    for (text, err) in cases {
        let mut c = CardinalDense::new(3, 1, 4);
        assert_eq!(c.parse_add(text), Err(err), "{}", text);
        assert_eq!(c.len(), 0);
    }
}

#[test]
fn strict_complete_orders() {
    let mut s = StrictOrdersComplete::new(3);
    assert!(s.add_from_str("2,0,1"));
    assert!(!s.add_from_str("2,0"));
    assert!(!s.add_from_str("2,2,1"));
    assert!(!s.add_from_str("2,0,3"));
    assert_eq!(s.orders(), 1);
    let mut it = s.iter();
    assert_eq!(it.size_hint(), (1, Some(1)));
    assert_eq!(it.next(), Some(&[2usize, 0, 1][..]));
    assert_eq!(it.next(), None);
    assert!(s.valid());
}

#[test]
fn chains_from_totals() {
    let mut c = ChainDense::new(4);
    c.add(StrictIRef::new(4, &[2, 0])).unwrap();
    c.add(StrictIRef::new(4, &[3])).unwrap();
    assert_eq!(c.len(), 2);
    assert_eq!(c.get(0).order, &[2, 0]);
    assert_eq!(c.get(1).order, &[3]);
    assert!(c.try_get(2).is_none());
    assert!(c.valid());
    let mut t = TotalDense::new(2);
    t.add(votery::strict::TotalRef::new(&[1, 0])).unwrap();
    let d = ChainDense::from_total(t);
    assert_eq!(d.len(), 1);
    assert_eq!(d.get(0).order, &[1, 0]);
}

#[test]
fn random_ballot_from_given_draws() {
    let mut s = StrictOrdersIncomplete::new(4);
    assert!(s.add_from_str("2,0"));
    assert!(s.add_from_str("1"));
    assert!(s.add_from_str("3,2"));
    let b = RandomBallot::count_from(&s, &[2, 0, 1], 3);
    assert_eq!(b.ranking.order, vec![3, 2, 0]);
    let b = RandomBallot::count_from(&s, &[2, 0, 1], 2);
    assert_eq!(b.ranking.order, vec![3, 2]);
    let b = RandomBallot::count_from(&s, &[1], 4);
    assert_eq!(b.ranking.order, vec![1]);
}

#[test]
fn random_ballot_single_from_given_draw() {
    let mut t = TiedOrdersIncomplete::new(3);
    assert!(t.add_from_str("{0,1},2"));
    assert!(t.add_from_str("2"));
    let b = RandomBallotSingle::count_from(&t, 0);
    let v = b.as_vote();
    assert_eq!(v.order, vec![0, 1, 2]);
    assert_eq!(v.tied, vec![true, false]);
}

#[test]
fn strict_complete_converts_to_other_formats() {
    let mut s = StrictOrdersComplete::new(3);
    assert!(s.add_from_str("2,0,1"));
    assert!(s.add_from_str("0,1,2"));

    let i = StrictOrdersIncomplete::from_complete(s.clone());
    assert_eq!(i.orders_count(), 2);
    assert_eq!(i.order_i(0).order, &[2, 0, 1]);
    assert_eq!(i.order_i(1).order, &[0, 1, 2]);
    assert!(i.valid());

    let t = TiedOrdersIncomplete::from_strict(i);
    assert_eq!(t.orders(), 2);
    assert_eq!(t.order_i(0).order, &[2, 0, 1]);
    assert_eq!(t.order_i(0).tied, &[false, false]);
    assert_eq!(t.order_i(1).order, &[0, 1, 2]);
    assert_eq!(t.order_i(1).tied, &[false, false]);
    assert!(t.valid());

    let c = TiedOrdersComplete::from_strict(s);
    assert_eq!(c.voters(), 2);
    assert_eq!(c.vote_i(0).order, &[2, 0, 1]);
    assert_eq!(c.vote_i(1).tied, &[false, false]);
    assert!(c.valid());
}

#[test]
fn strict_incomplete_remove_element_lowers_elements() {
    let mut s = StrictOrdersIncomplete::new(3);
    assert!(s.add_from_str("0,1,2"));
    assert_eq!(s.remove_element(0), Ok(()));
    assert_eq!(s.elements(), 2);
    assert_eq!(s.orders_count(), 1);
    assert_eq!(s.order_i(0).order, &[0, 1]);
}

#[test]
fn tied_complete_to_cardinal_scores_top_group_with_candidates() {
    let mut t = TiedOrdersComplete::new(3);
    assert!(t.add_from_str("2,{0,1}"));
    let c = t.to_cardinal().unwrap();
    assert_eq!(c.max(), 3);
    assert_eq!(c.get(0).values(), &[2, 2, 3]);
}

#[test]
fn cardinal_maps_succeed_when_they_fit() {
    let mut c = CardinalDense::new(2, 1, 3);
    c.add(votery::cardinal::CardinalRef::new(&[1, 3])).unwrap();
    assert!(c.map_add(2).is_ok());
    assert_eq!(c.get(0).values(), &[3, 5]);
    assert!(c.map_mul(2).is_ok());
    assert_eq!(c.get(0).values(), &[6, 10]);
    assert!(c.map_sub(6).is_ok());
    assert_eq!(c.get(0).values(), &[0, 4]);
    assert!(c.map_sub(1).is_err());
    assert!(c.map_add(usize::MAX).is_err());
    let s = c.sum().unwrap();
    assert_eq!(s.as_ref().values(), &[0, 4]);
}

#[test]
fn clone_then_remove_gives_the_orders_back() {
    let mut t = TiedOrdersIncomplete::new(3);
    assert!(t.add_from_str("2,{0,1}"));
    assert!(t.add_from_str("1"));
    let orig = t.clone();
    t.add_clone(0);
    assert_eq!(t.elements(), 4);
    assert_eq!(t.remove_element(3), Ok(()));
    assert_eq!(t.elements(), orig.elements());
    assert_eq!(t.orders(), orig.orders());
    for i in 0..t.orders() {
        assert_eq!(t.order_i(i).order, orig.order_i(i).order);
        assert_eq!(t.order_i(i).tied, orig.order_i(i).tied);
    }
}

#[test]
fn clone_sets_are_not_split() {
    let mut t = TiedOrdersIncomplete::new(3);
    assert!(t.add_from_str("0,{1,2}"));
    assert!(t.is_clone_set(&[1, 2]));
    assert!(t.add_from_str("1,0,2"));
    assert!(!t.is_clone_set(&[1, 2]));
    assert!(t.is_clone_set(&[0]));
}

#[test]
fn strict_incomplete_remove_missing_element_changes_nothing() {
    let mut s = StrictOrdersIncomplete::new(3);
    assert!(s.add_from_str("0,1,2"));
    assert_eq!(s.remove_element(5), Ok(()));
    assert_eq!(s.elements(), 3);
    assert_eq!(s.order_i(0).order, &[0, 1, 2]);
}
