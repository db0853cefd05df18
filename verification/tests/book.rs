use quote_book::{Quote, QuoteManager, Timestamp, TradingSymbol};

fn symbol(name: &str) -> TradingSymbol {
    TradingSymbol::new(name.to_string())
}

fn never() -> Timestamp {
    Timestamp::new(i64::MAX, 0)
}

fn quote(id: u128, name: &str, price: i64, volume: usize) -> Quote {
    Quote { id, symbol: symbol(name), price, volume_available: volume, expiration_date: never() }
}

fn ids(manager: &QuoteManager, name: &str) -> Vec<u128> {
    let s = symbol(name);
    let mut out = Vec::new();
    for i in 0..manager.depth(&s) {
        out.push(manager.quote_at(&s, i).unwrap().id);
    }
    out
}

fn prices(manager: &QuoteManager, name: &str) -> Vec<i64> {
    let s = symbol(name);
    let mut out = Vec::new();
    for i in 0..manager.depth(&s) {
        out.push(manager.quote_at(&s, i).unwrap().price);
    }
    out
}

/// Every resting quote has a record that names its slot, and there are as
/// many records as resting quotes.
fn assert_index_consistent(manager: &QuoteManager, names: &[&str]) {
    let mut resting: usize = 0;
    for name in names {
        let s = symbol(name);
        for i in 0..manager.depth(&s) {
            let q = manager.quote_at(&s, i).unwrap();
            assert!(q.symbol.same_as(&s));
            let record = manager.position_of(q.id).unwrap();
            assert_eq!(record.position, i);
            assert!(record.symbol.same_as(&s));
            resting += 1;
        }
        let p = prices(manager, name);
        for i in 1..p.len() {
            assert!(p[i - 1] >= p[i]);
        }
    }
    assert_eq!(manager.tracked_quotes(), resting);
}

#[test]
fn new_book_is_empty() {
    let manager = QuoteManager::new();
    assert_eq!(manager.tracked_quotes(), 0);
    assert_eq!(manager.depth(&symbol("X")), 0);
    assert!(manager.quote_at(&symbol("X"), 0).is_none());
    assert!(manager.position_of(1).is_none());
}

#[test]
fn add_orders_by_descending_price() {
    let mut manager = QuoteManager::new();
    manager.add_quote(quote(1, "X", 100, 100));
    manager.add_quote(quote(2, "X", 101, 50));
    manager.add_quote(quote(3, "X", 99, 10));
    assert_eq!(ids(&manager, "X"), vec![2, 1, 3]);
    assert_eq!(prices(&manager, "X"), vec![101, 100, 99]);
    assert_eq!(manager.position_of(2).unwrap().position, 0);
    assert_eq!(manager.position_of(1).unwrap().position, 1);
    assert_eq!(manager.position_of(3).unwrap().position, 2);
    assert_index_consistent(&manager, &["X"]);
}

#[test]
fn add_in_the_middle_moves_the_records_behind_it() {
    let mut manager = QuoteManager::new();
    manager.add_quote(quote(1, "X", 30, 1));
    manager.add_quote(quote(2, "X", 10, 1));
    manager.add_quote(quote(3, "X", 20, 1));
    assert_eq!(ids(&manager, "X"), vec![1, 3, 2]);
    assert_eq!(manager.position_of(2).unwrap().position, 2);
    manager.add_quote(quote(4, "X", 40, 1));
    assert_eq!(ids(&manager, "X"), vec![4, 1, 3, 2]);
    assert_eq!(manager.position_of(4).unwrap().position, 0);
    assert_eq!(manager.position_of(1).unwrap().position, 1);
    assert_eq!(manager.position_of(3).unwrap().position, 2);
    assert_eq!(manager.position_of(2).unwrap().position, 3);
}

#[test]
fn equal_prices_keep_insertion_order() {
    let mut manager = QuoteManager::new();
    manager.add_quote(quote(1, "X", 100, 1));
    manager.add_quote(quote(2, "X", 100, 1));
    manager.add_quote(quote(3, "X", 100, 1));
    assert_eq!(ids(&manager, "X"), vec![1, 2, 3]);
    manager.add_quote(quote(4, "X", 101, 1));
    manager.add_quote(quote(5, "X", 99, 1));
    manager.add_quote(quote(6, "X", 100, 1));
    manager.add_quote(quote(7, "X", 101, 1));
    assert_eq!(ids(&manager, "X"), vec![4, 7, 1, 2, 3, 6, 5]);
    assert_index_consistent(&manager, &["X"]);
}

#[test]
fn negative_and_extreme_prices_are_ordered() {
    let mut manager = QuoteManager::new();
    manager.add_quote(quote(1, "X", -5, 1));
    manager.add_quote(quote(2, "X", i64::MIN, 1));
    manager.add_quote(quote(3, "X", i64::MAX, 1));
    manager.add_quote(quote(4, "X", 0, 1));
    assert_eq!(ids(&manager, "X"), vec![3, 4, 1, 2]);
}

#[test]
fn add_is_idempotent_by_identifier() {
    let mut manager = QuoteManager::new();
    manager.add_quote(quote(1, "X", 100, 100));
    manager.add_quote(quote(2, "X", 101, 50));
    manager.add_quote(quote(1, "X", 100, 100));
    assert_eq!(ids(&manager, "X"), vec![2, 1]);
    // A different quote under a tracked identifier is dropped as well.
    manager.add_quote(quote(1, "Y", 500, 7));
    assert_eq!(ids(&manager, "X"), vec![2, 1]);
    assert_eq!(manager.depth(&symbol("Y")), 0);
    assert_eq!(manager.quote_at(&symbol("X"), 1).unwrap().price, 100);
    assert_eq!(manager.quote_at(&symbol("X"), 1).unwrap().volume_available, 100);
    assert_eq!(manager.tracked_quotes(), 2);
    assert_index_consistent(&manager, &["X", "Y"]);
}

#[test]
fn get_or_initialize_returns_the_record() {
    let mut manager = QuoteManager::new();
    manager.add_quote(quote(1, "X", 100, 1));
    let record = manager.get_or_initialize_pos_obj(quote(2, "X", 90, 1));
    assert_eq!(record.position, 1);
    assert!(record.symbol.same_as(&symbol("X")));
    let record = manager.get_or_initialize_pos_obj(quote(1, "X", 5, 1));
    assert_eq!(record.position, 0);
    let record = manager.get_or_initialize_pos_obj(quote(3, "X", 200, 1));
    assert_eq!(record.position, 0);
    assert_eq!(manager.position_of(1).unwrap().position, 1);
    assert_eq!(manager.position_of(2).unwrap().position, 2);
}

#[test]
fn remove_sets_positions_to_the_new_places() {
    let mut manager = QuoteManager::new();
    for id in 1..=6u128 {
        manager.add_quote(quote(id, "X", 100 - id as i64, 1));
    }
    assert_eq!(ids(&manager, "X"), vec![1, 2, 3, 4, 5, 6]);
    manager.remove_quote(&quote(3, "X", 97, 1));
    assert_eq!(ids(&manager, "X"), vec![1, 2, 4, 5, 6]);
    assert_eq!(manager.position_of(4).unwrap().position, 2);
    assert_eq!(manager.position_of(6).unwrap().position, 4);
    assert!(manager.position_of(3).is_none());
    // Repeated removals must not let the records drift.
    manager.remove_quote(&quote(1, "X", 99, 1));
    manager.remove_quote(&quote(5, "X", 95, 1));
    assert_eq!(ids(&manager, "X"), vec![2, 4, 6]);
    assert_eq!(manager.position_of(2).unwrap().position, 0);
    assert_eq!(manager.position_of(4).unwrap().position, 1);
    assert_eq!(manager.position_of(6).unwrap().position, 2);
    assert_index_consistent(&manager, &["X"]);
}

#[test]
fn remove_unknown_is_a_no_op() {
    let mut manager = QuoteManager::new();
    manager.remove_quote(&quote(9, "X", 1, 1));
    manager.remove_quote_by_id(9);
    assert_eq!(manager.tracked_quotes(), 0);
    manager.add_quote(quote(1, "X", 100, 1));
    manager.remove_quote(&quote(9, "X", 100, 1));
    manager.remove_quote_by_id(10);
    assert_eq!(ids(&manager, "X"), vec![1]);
    assert_index_consistent(&manager, &["X"]);
}

#[test]
fn remove_by_id_takes_the_quote_out() {
    let mut manager = QuoteManager::new();
    manager.add_quote(quote(1, "X", 100, 1));
    manager.add_quote(quote(2, "X", 90, 1));
    manager.add_quote(quote(3, "Y", 80, 1));
    manager.remove_quote_by_id(1);
    assert_eq!(ids(&manager, "X"), vec![2]);
    assert_eq!(ids(&manager, "Y"), vec![3]);
    assert_eq!(manager.position_of(2).unwrap().position, 0);
    manager.remove_quote_by_id(1);
    assert_eq!(manager.tracked_quotes(), 2);
    assert_index_consistent(&manager, &["X", "Y"]);
}

#[test]
fn remove_reads_only_the_identifier() {
    let mut manager = QuoteManager::new();
    manager.add_quote(quote(1, "X", 100, 1));
    manager.add_quote(quote(2, "Y", 100, 1));
    // The quote handed in names another symbol and price: the tracked
    // quote with its identifier is the one that leaves.
    manager.remove_quote(&quote(1, "Y", 3, 8));
    assert_eq!(manager.depth(&symbol("X")), 0);
    assert_eq!(ids(&manager, "Y"), vec![2]);
    assert_index_consistent(&manager, &["X", "Y"]);
}

#[test]
fn round_trip_empties_book_and_index() {
    let orders: [[u128; 5]; 4] =
        [[1, 2, 3, 4, 5], [5, 4, 3, 2, 1], [3, 1, 5, 2, 4], [2, 5, 1, 4, 3]];
    for order in orders {
        let mut manager = QuoteManager::new();
        manager.add_quote(quote(1, "X", 100, 1));
        manager.add_quote(quote(2, "Y", 100, 1));
        manager.add_quote(quote(3, "X", 101, 1));
        manager.add_quote(quote(4, "X", 100, 1));
        manager.add_quote(quote(5, "Y", 7, 1));
        assert_eq!(manager.tracked_quotes(), 5);
        for id in order {
            manager.remove_quote_by_id(id);
            assert_index_consistent(&manager, &["X", "Y"]);
        }
        assert_eq!(manager.tracked_quotes(), 0);
        assert_eq!(manager.depth(&symbol("X")), 0);
        assert_eq!(manager.depth(&symbol("Y")), 0);
        for id in 1..=5 {
            assert!(manager.position_of(id).is_none());
        }
    }
}

#[test]
fn a_symbol_can_be_reused_after_it_ran_empty() {
    let mut manager = QuoteManager::new();
    manager.add_quote(quote(1, "X", 100, 1));
    manager.remove_quote_by_id(1);
    manager.add_quote(quote(2, "X", 50, 1));
    manager.add_quote(quote(1, "X", 60, 1));
    assert_eq!(ids(&manager, "X"), vec![1, 2]);
    assert_index_consistent(&manager, &["X"]);
}

#[test]
fn symbols_do_not_touch_each_other() {
    let mut manager = QuoteManager::new();
    manager.add_quote(quote(1, "X", 10, 1));
    manager.add_quote(quote(2, "Y", 30, 1));
    manager.add_quote(quote(3, "X", 20, 1));
    manager.add_quote(quote(4, "Y", 40, 1));
    assert_eq!(ids(&manager, "X"), vec![3, 1]);
    assert_eq!(ids(&manager, "Y"), vec![4, 2]);
    assert_eq!(manager.depth(&symbol("XY")), 0);
    assert_eq!(manager.depth(&symbol("")), 0);
    assert_index_consistent(&manager, &["X", "Y"]);
}

#[test]
fn index_stays_consistent_under_mixed_operations() {
    let mut manager = QuoteManager::new();
    let names = ["A", "B", "C"];
    let mut state: u64 = 12345;
    for step in 0..400u128 {
        state = state.wrapping_mul(6364136223846793005).wrapping_add(1442695040888963407);
        let pick = (state >> 33) as usize;
        let id = (pick % 40) as u128;
        if step % 3 == 2 {
            manager.remove_quote_by_id(id);
        } else {
            let price = ((pick / 40) % 7) as i64;
            manager.add_quote(quote(id, names[pick % 3], price, 1));
        }
        assert_index_consistent(&manager, &names);
    }
}

#[test]
fn a_cloned_symbol_names_the_same_instrument() {
    let shared = TradingSymbol::new("ABC".to_string());
    let copy = shared.clone();
    assert!(copy.same_as(&shared));
    assert!(!copy.same_as(&symbol("ABD")));
    let mut manager = QuoteManager::new();
    manager.add_quote(Quote {
        id: 1,
        symbol: copy,
        price: 5,
        volume_available: 1,
        expiration_date: never(),
    });
    assert_eq!(manager.depth(&shared), 1);
    assert!(manager.position_of(1).unwrap().symbol.same_as(&shared));
    assert!(manager.quote_at(&shared, 0).unwrap().symbol.same_as(&symbol("ABC")));
}

#[test]
fn a_cloned_quote_has_the_same_fields() {
    let q = Quote {
        id: 77,
        symbol: symbol("X"),
        price: -3,
        volume_available: 9,
        expiration_date: Timestamp::new(4, 5),
    };
    let c = q.clone();
    assert_eq!(c.id, 77);
    assert!(c.symbol.same_as(&q.symbol));
    assert_eq!(c.price, -3);
    assert_eq!(c.volume_available, 9);
    assert_eq!(c.expiration_date, Timestamp::new(4, 5));
}
