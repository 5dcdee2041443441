use votery::tied::TiedRank;

#[test]
fn iter_groups_zero() {
    let rank = TiedRank::new_zero();
    let first_group = rank.as_ref().iter_groups().next();
    assert!(first_group.is_none());
}

#[test]
fn top_exact_four() {
    let elements = 5;
    let x = 4;
    let examples = [
        "0,1,2,3,4",
        "{0,1},2,3,4",
        "0,{1,2},3,4",
        "0,1,{2,3},4",
        "{0,1,2},3,4",
        "0,{1,2,3},4",
        "{0,1,2,3},4",
    ];
    for s in examples {
        let rank = TiedRank::parse_order(elements, s).expect("Could not parse");
        assert!(rank.as_ref().top(x).len() == x);
    }
}

#[test]
fn tied_remove_last() {
    let mut r = TiedRank::new_tied(20);
    r.remove_last();
    assert!(r.len() == 0);
}

#[test]
fn parse_rank_tied_examples() {
    // Arbitrary
    let elements = 10;

    let examples = [
        ("", true),
        ("1", true),
        ("{1}", true),
        ("{0},{1}", true),
        ("{0},{1}", true),
        (",", false),
        (",,", false),
        (",1", false),
        ("1,", false),
        ("{1", false),
        ("1}", false),
        ("{0,1,{2,3}", false),
        ("{{0}}", false),
        ("{0}}", false),
        ("{0},}", false),
        ("{,{0},}", false),
        (" 1", false),
    ];
    for (s, some) in examples {
        let order_o = TiedRank::parse_order(elements, s);
        match (order_o, some) {
            (Some(_), true) | (None, false) => {}
            (None, true) => panic!("`{}` could not be parsed", s),
            (Some(order), false) => panic!("`{}` was parsed to `{}`", s, order.as_ref().to_string()),
        }
    }
}
