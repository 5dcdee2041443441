use std::cmp::Ordering;
use votery::partial_order::PartialOrder;

#[test]
fn empty_equal() {
    let po = PartialOrder::new_empty(123);
    for i in 0..po.elements() {
        match po.ord(i, i) {
            Some(Ordering::Equal) => {}
            _ => panic!(),
        }
    }
}
