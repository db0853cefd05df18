use crate::clock::{current_time, Timestamp};
use crate::symbol::TradingSymbol;
use vstd::prelude::*;

verus! {

/// A resting order: an offer of `volume_available` units of `symbol` at
/// `price`, good until `expiration_date`.
///
/// `id` names the quote for its whole life and is supplied by the caller.
/// `price` counts minimum price increments; a higher price is a better one.
#[derive(Debug)]
pub struct Quote {
    pub id: u128,
    pub symbol: TradingSymbol,
    pub price: i64,
    /// The units still on offer. Matching lowers the count; nothing raises
    /// it.
    pub volume_available: usize,
    /// The quote can trade at every instant strictly before this one.
    pub expiration_date: Timestamp,
}

/// What a quote is, as a mathematical value.
pub struct QuoteView {
    pub id: u128,
    pub symbol: Seq<char>,
    pub price: int,
    pub volume_available: nat,
    pub expiration_date: Timestamp,
}

impl QuoteView {
    /// A quote can trade at `now` when it still has volume and has not
    /// expired: its expiration lies strictly after `now`.
    pub open spec fn valid_at(self, now: Timestamp) -> bool {
        self.volume_available > 0 && self.expiration_date.later_than(now)
    }

    /// The same quote with `volume` units left.
    pub open spec fn with_volume(self, volume: nat) -> QuoteView {
        QuoteView { volume_available: volume, ..self }
    }
}

impl View for Quote {
    type V = QuoteView;

    open spec fn view(&self) -> QuoteView {
        QuoteView {
            id: self.id,
            symbol: self.symbol@,
            price: self.price as int,
            volume_available: self.volume_available as nat,
            expiration_date: self.expiration_date,
        }
    }
}

impl Clone for Quote {
    fn clone(&self) -> (copy: Quote)
        ensures
            copy == *self,
    {
        Quote {
            id: self.id,
            symbol: self.symbol.clone(),
            price: self.price,
            volume_available: self.volume_available,
            expiration_date: self.expiration_date,
        }
    }
}

impl Quote {
    /// Whether the quote can trade at the instant `now`.
    pub fn is_valid_at(&self, now: &Timestamp) -> (valid: bool)
        ensures
            valid == self@.valid_at(*now),
    {
        self.volume_available > 0 && self.expiration_date.is_after(now)
    }

    /// Whether the quote can trade right now, by the wall clock.
    ///
    /// The clock is read once; the answer is the one `is_valid_at` gives for
    /// that reading.
    pub fn is_valid(&self) -> (valid: bool)
        ensures
            exists|now: Timestamp| valid == #[trigger] self@.valid_at(now),
    {
        let now = current_time();
        self.is_valid_at(&now)
    }
}

} // verus!
