use trade::matching_engine::{MatchingEngine, Order};
use trade::order_book::Side;

#[test]
fn non_marketable_insertion() {
    let mut me = MatchingEngine::new(16);
    let id = me.limit(Order { price: 100, size: 5, side: Side::Bid });
    assert_eq!(id, Some(0));
    assert_eq!(me.best_limits(), (100, u64::MAX));
    assert_eq!(me.size_at_price(100), 5);
}

#[test]
fn symmetric_book() {
    let mut me = MatchingEngine::new(16);
    assert_eq!(me.limit(Order { price: 100, size: 5, side: Side::Bid }), Some(0));
    let id = me.limit(Order { price: 105, size: 3, side: Side::Ask });
    assert_eq!(id, Some(1));
    assert_eq!(me.best_limits(), (100, 105));
    assert_eq!(me.size_at_price(105), 3);
}

#[test]
fn partial_fill() {
    let mut me = MatchingEngine::new(16);
    assert_eq!(me.limit(Order { price: 100, size: 5, side: Side::Bid }), Some(0));
    assert_eq!(me.limit(Order { price: 105, size: 3, side: Side::Ask }), Some(1));
    let id = me.limit(Order { price: 105, size: 2, side: Side::Bid });
    assert_eq!(id, None);
    assert_eq!(me.size_at_price(105), 1);
    assert_eq!(me.best_limits(), (100, 105));
}

#[test]
fn full_sweep_and_rest() {
    let mut me = MatchingEngine::new(16);
    assert_eq!(me.limit(Order { price: 100, size: 5, side: Side::Bid }), Some(0));
    assert_eq!(me.limit(Order { price: 105, size: 3, side: Side::Ask }), Some(1));
    assert_eq!(me.limit(Order { price: 105, size: 2, side: Side::Bid }), None);
    let id = me.limit(Order { price: 110, size: 10, side: Side::Bid });
    assert_eq!(id, Some(2));
    assert_eq!(me.best_limits(), (110, u64::MAX));
    assert_eq!(me.size_at_price(110), 9);
    assert_eq!(me.size_at_price(105), 0);
}

#[test]
fn time_priority() {
    let mut me = MatchingEngine::new(16);
    assert_eq!(me.limit(Order { price: 100, size: 5, side: Side::Bid }), Some(0));
    assert_eq!(me.limit(Order { price: 100, size: 7, side: Side::Bid }), Some(1));
    assert_eq!(me.limit(Order { price: 100, size: 2, side: Side::Bid }), Some(2));
    // The ask consumes the first bid fully and one unit of the second.
    let id = me.limit(Order { price: 95, size: 6, side: Side::Ask });
    assert_eq!(id, None);
    assert_eq!(me.size_at_price(100), 8);
    assert_eq!(me.best_limits(), (100, u64::MAX));
}

#[test]
fn sweep_across_several_limits() {
    let mut me = MatchingEngine::new(16);
    assert_eq!(me.limit(Order { price: 101, size: 2, side: Side::Ask }), Some(0));
    assert_eq!(me.limit(Order { price: 102, size: 3, side: Side::Ask }), Some(1));
    assert_eq!(me.limit(Order { price: 104, size: 4, side: Side::Ask }), Some(2));
    // A bid for everything up to 103 drains 101 and 102 and rests there.
    let id = me.limit(Order { price: 103, size: 9, side: Side::Bid });
    assert_eq!(id, Some(3));
    assert_eq!(me.best_limits(), (103, 104));
    assert_eq!(me.size_at_price(101), 0);
    assert_eq!(me.size_at_price(102), 0);
    assert_eq!(me.size_at_price(103), 4);
    assert_eq!(me.size_at_price(104), 4);
}

#[test]
fn ask_sweep_downward() {
    let mut me = MatchingEngine::new(16);
    assert_eq!(me.limit(Order { price: 99, size: 1, side: Side::Bid }), Some(0));
    assert_eq!(me.limit(Order { price: 100, size: 2, side: Side::Bid }), Some(1));
    // A marketable ask consumes the better (higher) bid first.
    let id = me.limit(Order { price: 100, size: 1, side: Side::Ask });
    assert_eq!(id, None);
    assert_eq!(me.size_at_price(100), 1);
    assert_eq!(me.size_at_price(99), 1);
    assert_eq!(me.best_limits(), (100, u64::MAX));
    // Sweeping both bids leaves the remainder resting as the best ask.
    let id2 = me.limit(Order { price: 98, size: 5, side: Side::Ask });
    assert_eq!(id2, Some(2));
    assert_eq!(me.best_limits(), (0, 98));
    assert_eq!(me.size_at_price(98), 3);
}

#[test]
fn freed_entries_are_reused() {
    let mut me = MatchingEngine::new(2);
    for round in 0..5u64 {
        assert_eq!(
            me.limit(Order { price: 10, size: 1, side: Side::Bid }),
            Some(round)
        );
        // Each ask is fully filled by the resting bid and gets no id.
        assert_eq!(me.limit(Order { price: 10, size: 1, side: Side::Ask }), None);
        assert_eq!(me.size_at_price(10), 0);
    }
    assert_eq!(me.best_limits(), (0, u64::MAX));
}
