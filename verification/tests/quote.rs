use quote_book::{Quote, Timestamp, TradingSymbol};

fn with(volume: usize, expires: Timestamp) -> Quote {
    Quote {
        id: 1,
        symbol: TradingSymbol::new("X".to_string()),
        price: 1,
        volume_available: volume,
        expiration_date: expires,
    }
}

#[test]
fn timestamps_order_by_seconds_then_nanoseconds() {
    let base = Timestamp::new(5, 100);
    assert!(Timestamp::new(6, 0).is_after(&base));
    assert!(Timestamp::new(5, 101).is_after(&base));
    assert!(!Timestamp::new(5, 100).is_after(&base));
    assert!(!Timestamp::new(5, 99).is_after(&base));
    assert!(!Timestamp::new(4, 4_000_000_000).is_after(&base));
    assert!(Timestamp::new(-1, 0).is_after(&Timestamp::new(-2, 999_999_999)));
    assert!(Timestamp::new(i64::MAX, u32::MAX).is_after(&Timestamp::new(i64::MAX, 0)));
    assert!(!Timestamp::new(i64::MIN, 0).is_after(&Timestamp::new(i64::MIN, 0)));
    // Inside a leap second the nanoseconds run past one billion.
    assert!(Timestamp::new(59, 1_500_000_000).is_after(&Timestamp::new(59, 999_999_999)));
    assert!(Timestamp::new(60, 0).is_after(&Timestamp::new(59, 1_500_000_000)));
}

#[test]
fn validity_needs_volume_and_time() {
    let now = Timestamp::new(100, 0);
    assert!(with(1, Timestamp::new(100, 1)).is_valid_at(&now));
    assert!(with(usize::MAX, Timestamp::new(101, 0)).is_valid_at(&now));
    assert!(!with(0, Timestamp::new(101, 0)).is_valid_at(&now));
    assert!(!with(1, Timestamp::new(100, 0)).is_valid_at(&now));
    assert!(!with(1, Timestamp::new(99, 999_999_999)).is_valid_at(&now));
    assert!(!with(0, Timestamp::new(0, 0)).is_valid_at(&now));
}

#[test]
fn validity_by_the_wall_clock() {
    assert!(with(1, Timestamp::new(i64::MAX, 0)).is_valid());
    assert!(!with(0, Timestamp::new(i64::MAX, 0)).is_valid());
    // The Unix epoch lies in the past of every clock this runs on.
    assert!(!with(1, Timestamp::new(0, 0)).is_valid());
    assert!(!with(1, Timestamp::new(i64::MIN, 0)).is_valid());
}

#[test]
fn the_clock_agrees_with_chrono() {
    let before = chrono::Utc::now();
    let soon = Timestamp::new(before.timestamp() + 3_600, 0);
    let past = Timestamp::new(before.timestamp() - 3_600, 0);
    assert!(with(1, soon).is_valid());
    assert!(!with(1, past).is_valid());
}
