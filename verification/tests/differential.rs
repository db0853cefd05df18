use quote_book::{AveragePrice, Quote, QuoteManager, Timestamp, TradingSymbol};

/// A resting quote as the reference keeps it.
#[derive(Clone, Debug, PartialEq)]
struct Resting {
    id: u128,
    price: i64,
    volume: usize,
    expires: i64,
}

/// The book written down naively: one sorted list per symbol, searched
/// from the front for everything.
struct Reference {
    lists: Vec<(String, Vec<Resting>)>,
}

impl Reference {
    fn new() -> Reference {
        Reference { lists: Vec::new() }
    }

    fn tracks(&self, id: u128) -> bool {
        self.lists.iter().any(|(_, list)| list.iter().any(|q| q.id == id))
    }

    fn list(&mut self, name: &str) -> &mut Vec<Resting> {
        if !self.lists.iter().any(|(n, _)| n == name) {
            self.lists.push((name.to_string(), Vec::new()));
        }
        let at = self.lists.iter().position(|(n, _)| n == name).unwrap();
        &mut self.lists[at].1
    }

    fn add(&mut self, name: &str, q: Resting) {
        if self.tracks(q.id) {
            return;
        }
        let list = self.list(name);
        let mut at: usize = 0;
        while at < list.len() && list[at].price >= q.price {
            at += 1;
        }
        list.insert(at, q);
    }

    fn remove(&mut self, id: u128) {
        for (_, list) in self.lists.iter_mut() {
            list.retain(|q| q.id != id);
        }
    }

    fn valid(q: &Resting, now: i64) -> bool {
        q.volume > 0 && q.expires > now
    }

    fn best(&mut self, name: &str, now: i64) -> Option<Resting> {
        let list = self.list(name);
        while !list.is_empty() && !Reference::valid(&list[0], now) {
            list.remove(0);
        }
        list.first().cloned()
    }

    fn execute(&mut self, name: &str, want: usize, now: i64) -> (usize, i128) {
        let mut remaining = want;
        let mut notional: i128 = 0;
        while remaining > 0 {
            let best = match self.best(name, now) {
                Some(best) => best,
                None => break,
            };
            let take = best.volume.min(remaining);
            self.list(name)[0].volume -= take;
            remaining -= take;
            notional += best.price as i128 * take as i128;
        }
        (want - remaining, notional)
    }
}

fn symbol(name: &str) -> TradingSymbol {
    TradingSymbol::new(name.to_string())
}

fn assert_same(manager: &QuoteManager, reference: &Reference, names: &[&str]) {
    let mut resting: usize = 0;
    for name in names {
        let s = symbol(name);
        let expected: Vec<Resting> = reference
            .lists
            .iter()
            .find(|(n, _)| n == name)
            .map(|(_, list)| list.clone())
            .unwrap_or_default();
        assert_eq!(manager.depth(&s), expected.len());
        for (i, want) in expected.iter().enumerate() {
            let found = manager.quote_at(&s, i).unwrap();
            assert_eq!(found.id, want.id);
            assert_eq!(found.price, want.price);
            assert_eq!(found.volume_available, want.volume);
            assert_eq!(found.expiration_date, Timestamp::new(want.expires, 0));
            assert!(found.symbol.same_as(&s));
            let record = manager.position_of(want.id).unwrap();
            assert_eq!(record.position, i);
            assert!(record.symbol.same_as(&s));
        }
        assert!(manager.quote_at(&s, expected.len()).is_none());
        resting += expected.len();
    }
    assert_eq!(manager.tracked_quotes(), resting);
}

fn run(seed: u64, steps: usize) {
    let names = ["A", "B", "C"];
    let mut manager = QuoteManager::new();
    let mut reference = Reference::new();
    let mut state = seed;
    let mut next = move |bound: u64| -> u64 {
        state = state.wrapping_mul(6364136223846793005).wrapping_add(1442695040888963407);
        (state >> 33) % bound
    };
    for step in 0..steps {
        let name = names[next(3) as usize];
        let now = (step / 8) as i64;
        match next(10) {
            0..=4 => {
                let q = Resting {
                    id: next(60) as u128,
                    price: next(9) as i64 - 4,
                    volume: next(6) as usize,
                    expires: now + next(12) as i64 - 2,
                };
                manager.add_quote(Quote {
                    id: q.id,
                    symbol: symbol(name),
                    price: q.price,
                    volume_available: q.volume,
                    expiration_date: Timestamp::new(q.expires, 0),
                });
                reference.add(name, q);
            }
            5 => {
                let id = next(60) as u128;
                manager.remove_quote_by_id(id);
                reference.remove(id);
            }
            6 => {
                let id = next(60) as u128;
                manager.remove_quote(&Quote {
                    id,
                    symbol: symbol(name),
                    price: 0,
                    volume_available: 0,
                    expiration_date: Timestamp::new(0, 0),
                });
                reference.remove(id);
            }
            7 => {
                let expected = reference.best(name, now);
                let found = manager.find_best_quote_at(symbol(name), Timestamp::new(now, 0));
                match (found, expected) {
                    (Some(found), Some(expected)) => {
                        assert_eq!(found.id, expected.id);
                        assert_eq!(found.volume_available, expected.volume);
                    }
                    (None, None) => {}
                    (found, expected) => panic!("{:?} against {:?}", found, expected),
                }
            }
            _ => {
                let want = next(12) as usize;
                let (executed, notional) = reference.execute(name, want, now);
                let trade = manager.execute_trade_at(
                    symbol(name),
                    want,
                    Timestamp::new(now, 0),
                    step as u128,
                );
                assert_eq!(trade.id, step as u128);
                assert_eq!(trade.volume_requested, want);
                assert_eq!(trade.volume_executed, executed);
                let expected = if executed > 0 {
                    Some(AveragePrice { notional, volume: executed })
                } else {
                    None
                };
                assert_eq!(trade.volume_weighted_average_price, expected);
            }
        }
        assert_same(&manager, &reference, &names);
    }
}

#[test]
fn agrees_with_a_naive_book_on_a_first_run() {
    run(1, 3_000);
}

#[test]
fn agrees_with_a_naive_book_on_a_second_run() {
    run(0x9e37_79b9_7f4a_7c15, 3_000);
}

#[test]
fn agrees_with_a_naive_book_on_a_third_run() {
    run(77, 3_000);
}

#[test]
fn a_long_sweep_fills_in_price_order() {
    let mut manager = QuoteManager::new();
    let n: usize = 20_000;
    for i in 0..n {
        manager.add_quote(Quote {
            id: i as u128,
            symbol: symbol("ABC"),
            price: (n - i) as i64,
            volume_available: 1,
            expiration_date: Timestamp::new(10, 0),
        });
    }
    assert_eq!(manager.depth(&symbol("ABC")), n);
    let trade = manager.execute_trade_at(symbol("ABC"), n - 1, Timestamp::new(0, 0), 1);
    assert_eq!(trade.volume_executed, n - 1);
    // The prices n, n - 1, ..., 2 were taken, one unit each.
    let expected = (n as i128) * (n as i128 + 1) / 2 - 1;
    assert_eq!(
        trade.volume_weighted_average_price,
        Some(AveragePrice { notional: expected, volume: n - 1 })
    );
    assert_eq!(manager.depth(&symbol("ABC")), 2);
    assert_eq!(manager.quote_at(&symbol("ABC"), 0).unwrap().volume_available, 0);
    assert_eq!(manager.position_of((n - 1) as u128).unwrap().position, 1);
    let trade = manager.execute_trade_at(symbol("ABC"), 5, Timestamp::new(10, 0), 2);
    assert_eq!(trade.volume_executed, 0);
    assert_eq!(manager.tracked_quotes(), 0);
}
