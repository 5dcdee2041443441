use rand::rngs::StdRng;
use rand::SeedableRng;
use votery::binary::BinaryDense;
use votery::cardinal::CardinalDense;
use votery::random_ballot::{RandomBallot, RandomBallotSingle};
use votery::rank::Rank;
use votery::soc::StrictOrdersComplete;
use votery::soi::StrictOrdersIncomplete;
use votery::toi::TiedOrdersIncomplete;

#[test]
fn shuffled_orders_are_permutations() {
    let mut rng = StdRng::seed_from_u64(7);
    let mut s = StrictOrdersComplete::new(6);
    s.generate_uniform(&mut rng, 30);
    assert_eq!(s.orders(), 30);
    assert!(s.valid());
    let mut it = s.iter();
    let mut moved = false;
    while let Some(o) = it.next() {
        if o != &[0, 1, 2, 3, 4, 5][..] {
            moved = true;
        }
    }
    assert!(moved);
}

#[test]
fn single_draw_is_some_vote() {
    let mut rng = StdRng::seed_from_u64(11);
    let mut t = TiedOrdersIncomplete::new(5);
    for s in ["0", "1", "2", "3", "4"] {
        assert!(t.add_from_str(s));
    }
    let mut seen = [false; 5];
    for _ in 0..60 {
        let b = RandomBallotSingle::count(&t, &mut rng, 1).unwrap();
        assert_eq!(b.ranking.order.len(), 1);
        seen[b.ranking.order[0]] = true;
    }
    assert!(seen.iter().filter(|x| **x).count() >= 2);
}

#[test]
fn random_ballot_ranks_listed_elements() {
    let mut rng = StdRng::seed_from_u64(3);
    let mut s = StrictOrdersIncomplete::new(4);
    assert!(s.add_from_str("2,0"));
    assert!(s.add_from_str("1"));
    assert!(s.add_from_str("3,2"));
    let b = RandomBallot::count(&s, &mut rng, 4).unwrap();
    let mut sorted = b.ranking.order.clone();
    sorted.sort();
    assert_eq!(sorted, vec![0, 1, 2, 3]);
}

#[test]
fn coin_flips_vary() {
    let mut rng = StdRng::seed_from_u64(5);
    let mut b = BinaryDense::new(10);
    b.generate_uniform(&mut rng, 20);
    assert_eq!(b.len(), 20);
    assert!(b.orders.iter().any(|x| *x));
    assert!(b.orders.iter().any(|x| !*x));
}

#[test]
fn scores_in_range_and_varied() {
    let mut rng = StdRng::seed_from_u64(9);
    let mut c = CardinalDense::new(5, 2, 6);
    c.generate_uniform(&mut rng, 20);
    assert_eq!(c.len(), 20);
    assert!(c.orders.iter().all(|x| 2 <= *x && *x <= 6));
    assert!(c.orders.iter().any(|x| *x != c.orders[0]));
}

#[test]
fn random_ranks_are_chains() {
    let mut rng = StdRng::seed_from_u64(13);
    let mut lens = Vec::new();
    for _ in 0..30 {
        let r = Rank::random(&mut rng, 8);
        let mut o = r.order.clone();
        o.sort();
        o.dedup();
        assert_eq!(o.len(), r.order.len());
        assert!(r.order.iter().all(|x| *x < 8));
        lens.push(r.order.len());
    }
    assert!(lens.iter().any(|l| *l != lens[0]));
}
