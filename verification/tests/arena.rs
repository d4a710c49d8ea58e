use lib::arena::Arena;
use lib::orderbook::{OrderBook, PriceLevel};

#[test]
fn arena_hands_out_fresh_indices() {
    let mut a: Arena<u32> = Arena::new();
    assert_eq!(a.insert(10), 0);
    assert_eq!(a.insert(20), 1);
    assert_eq!(a.get(0), Some(&10));
    assert_eq!(a.get(1), Some(&20));
    assert_eq!(a.get(2), None);
}

#[test]
fn arena_reuses_removed_slots() {
    let mut a: Arena<u32> = Arena::new();
    a.insert(10);
    a.insert(20);
    a.insert(30);
    assert_eq!(a.remove(1), Some(20));
    assert_eq!(a.get(1), None);
    assert_eq!(a.insert(40), 1);
    assert_eq!(a.get(1), Some(&40));
    assert_eq!(a.insert(50), 3);
}

#[test]
fn arena_remove_of_vacant_slot_is_harmless() {
    let mut a: Arena<u32> = Arena::new();
    a.insert(10);
    assert_eq!(a.remove(0), Some(10));
    assert_eq!(a.remove(0), None);
    assert_eq!(a.remove(5), None);
    assert_eq!(a.insert(11), 0);
    assert_eq!(a.insert(12), 1);
}

#[test]
fn arena_set_replaces_value() {
    let mut a: Arena<u32> = Arena::new();
    let i = a.insert(1);
    a.set(i, 2);
    assert_eq!(a.get(i), Some(&2));
}

#[test]
fn price_level_new_is_empty() {
    let l = PriceLevel::new();
    assert!(l.is_empty());
    let l2 = PriceLevel { head: Some(3), tail: Some(3) };
    assert!(!l2.is_empty());
}

#[test]
fn order_book_best_prices() {
    let mut b = OrderBook::new();
    assert_eq!(b.best_bid(), None);
    assert_eq!(b.best_ask(), None);
    b.bids.insert(99, PriceLevel::new());
    b.bids.insert(101, PriceLevel::new());
    b.bids.insert(100, PriceLevel::new());
    b.asks.insert(105, PriceLevel::new());
    b.asks.insert(103, PriceLevel::new());
    assert_eq!(b.best_bid(), Some(101));
    assert_eq!(b.best_ask(), Some(103));
}
