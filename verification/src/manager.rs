use crate::book::{BookView, PositionView};
use crate::clock::{current_time, Timestamp};
use crate::indexed_book::IndexedBook;
use crate::laws::lemma_lookup_evicts_the_stale;
use crate::matching::fill;
use crate::quote::{Quote, QuoteView};
use crate::symbol::TradingSymbol;
use crate::trade::{fresh_trade_id, TradingResult, RANDOM_UUID_BITS, VERSION_AND_VARIANT_BITS};
use vstd::prelude::*;

verus! {

/// The position record of one tracked quote.
#[derive(Debug)]
pub struct QuotePosObj {
    /// The place of the quote in its symbol's sequence, counted from zero
    /// at the best quote.
    pub position: usize,
    /// The symbol whose sequence holds the quote.
    pub symbol: TradingSymbol,
}

impl View for QuotePosObj {
    type V = PositionView;

    open spec fn view(&self) -> PositionView {
        PositionView { symbol: self.symbol@, position: self.position as nat }
    }
}

/// What a lookup can hand out, as a mathematical value.
pub open spec fn seen(best: Option<&Quote>) -> Option<QuoteView> {
    match best {
        Some(quote) => Some(quote@),
        None => None,
    }
}

/// A lookup of the best quote of `symbol` at `now` took the book from
/// `before` to `after` and handed out `best`.
pub open spec fn looked_up_at(
    before: BookView,
    after: BookView,
    best: Option<QuoteView>,
    symbol: Seq<char>,
    now: Timestamp,
) -> bool {
    after == before.evict(symbol, now) && best == before.best(symbol, now)
}

/// An execution of `want` units of `symbol` at `now` took the book from
/// `before` to `after` and is recorded in `result`: what was executed and
/// at what notional is what `fill` gives for the symbol's sequence, and
/// the average price is their fraction, absent when nothing was executed.
pub open spec fn executed_at(
    before: BookView,
    after: BookView,
    result: TradingResult,
    symbol: Seq<char>,
    want: nat,
    now: Timestamp,
) -> bool {
    let filled = fill(before.sequence(symbol), want, now);
    &&& after == before.execute(symbol, want, now)
    &&& result.symbol@ == symbol
    &&& result.volume_requested == want
    &&& result.volume_executed == filled.executed
    &&& match result.volume_weighted_average_price {
        Some(average) => filled.executed > 0 && average.notional == filled.notional
            && average.volume == filled.executed,
        None => filled.executed == 0,
    }
}

/// The quote book: for every symbol the resting quotes in priority order,
/// and an index from quote identifier to the slot the quote rests in.
///
/// The book is changed through the methods of this type only, and each of
/// them leaves it well formed: every sequence sorted from the highest
/// price down, every resting quote recorded at its slot, and no record
/// without its quote.
pub struct QuoteManager {
    book: IndexedBook,
}

impl View for QuoteManager {
    type V = BookView;

    closed spec fn view(&self) -> BookView {
        self.book@
    }
}

impl QuoteManager {
    /// Holds of every manager at every moment.
    #[verifier::type_invariant]
    spec fn well_formed(self) -> bool {
        self.book.wf()
    }

    /// An empty book.
    pub fn new() -> (manager: QuoteManager)
        ensures
            manager@ == BookView::empty(),
            manager@.wf(),
    {
        QuoteManager { book: IndexedBook::new() }
    }

    /// The position record of `quote`, which is entered into the book first
    /// when its identifier is not tracked yet.
    ///
    /// A tracked identifier is left as it is: the quote handed in is
    /// dropped and the record of the resting quote is returned. A new quote
    /// goes behind every resting quote of its symbol priced at or above it,
    /// so that among equal prices the earlier quote keeps priority, and the
    /// records of the quotes behind it move up by one.
    pub fn get_or_initialize_pos_obj(&mut self, quote: Quote) -> (record: &QuotePosObj)
        ensures
            final(self)@ == old(self)@.add(quote@),
            final(self)@.wf(),
            record@ == final(self)@.positions[quote.id],
    {
        proof {
            use_type_invariant(&*self);
        }
        let id: u128 = quote.id;
        let mut book = IndexedBook::new();
        std::mem::swap(&mut book, &mut self.book);
        book.add_quote(quote);
        self.book = book;
        self.book.position_of(id).unwrap()
    }

    /// Enters `quote` into the book unless its identifier is tracked
    /// already, in which case nothing changes.
    pub fn add_quote(&mut self, quote: Quote)
        ensures
            final(self)@ == old(self)@.add(quote@),
            final(self)@.wf(),
    {
        self.get_or_initialize_pos_obj(quote);
    }

    /// Takes the quote with the identifier of `quote` out of the book, if
    /// one is tracked, and brings the records of the quotes behind it in
    /// step: each is set to the place its quote now stands at.
    ///
    /// Only the identifier of `quote` is read; where the quote rests is
    /// taken from its position record.
    pub fn remove_quote(&mut self, quote: &Quote)
        ensures
            final(self)@ == old(self)@.remove(quote.id),
            final(self)@.wf(),
    {
        proof {
            use_type_invariant(&*self);
        }
        let mut book = IndexedBook::new();
        std::mem::swap(&mut book, &mut self.book);
        book.remove_quote(quote);
        self.book = book;
    }

    /// Takes the quote with this identifier out of the book, if one is
    /// tracked.
    pub fn remove_quote_by_id(&mut self, quote_id: u128)
        ensures
            final(self)@ == old(self)@.remove(quote_id),
            final(self)@.wf(),
    {
        proof {
            use_type_invariant(&*self);
        }
        let quote = match self.book.quote_of(quote_id) {
            Some(quote) => quote.clone(),
            None => {
                return ;
            },
        };
        self.remove_quote(&quote);
    }

    /// The best quote of `symbol` that can trade at the instant `now`: the
    /// highest priced one and, among equals, the one that came first.
    ///
    /// On the way every quote in front of it that cannot trade, for want
    /// of volume or because it has expired, is removed from the book; when
    /// no quote can trade, all quotes of the symbol are.
    pub fn find_best_quote_at(&mut self, symbol: TradingSymbol, now: Timestamp) -> (best: Option<
        &Quote,
    >)
        ensures
            looked_up_at(old(self)@, final(self)@, seen(best), symbol@, now),
            final(self)@.wf(),
    {
        proof {
            use_type_invariant(&*self);
            lemma_lookup_evicts_the_stale(self@, symbol@, now);
        }
        let mut book = IndexedBook::new();
        std::mem::swap(&mut book, &mut self.book);
        book.evict(&symbol, &now);
        self.book = book;
        self.book.quote_at(&symbol, 0)
    }

    /// The best quote of `symbol` that can trade now, by the wall clock.
    ///
    /// The clock is read once, and the call then does what
    /// `find_best_quote_at` does for that reading; the book may shrink.
    pub fn find_best_quote_by_symbol(&mut self, symbol: TradingSymbol) -> (best: Option<&Quote>)
        ensures
            exists|now: Timestamp| #[trigger]
                looked_up_at(old(self)@, final(self)@, seen(best), symbol@, now),
            final(self)@.wf(),
    {
        let now = current_time();
        self.find_best_quote_at(symbol, now)
    }

    /// Executes a request for `volume_requested` units of `symbol` at the
    /// instant `now` and records it under the identifier `id`.
    ///
    /// The best quote that can trade gives what it has, up to what is
    /// still wanted, then the next best, until the request is filled or no
    /// quote of the symbol can trade. Quotes met on the way that cannot
    /// trade are removed; a quote that was emptied by the last fill of the
    /// request stays in the book until a later lookup meets it.
    pub fn execute_trade_at(
        &mut self,
        symbol: TradingSymbol,
        volume_requested: usize,
        now: Timestamp,
        id: u128,
    ) -> (result: TradingResult)
        ensures
            result.id == id,
            executed_at(old(self)@, final(self)@, result, symbol@, volume_requested as nat, now),
            final(self)@.wf(),
    {
        proof {
            use_type_invariant(&*self);
        }
        let mut book = IndexedBook::new();
        std::mem::swap(&mut book, &mut self.book);
        let result = book.execute_trade_at(symbol, volume_requested, now, id);
        self.book = book;
        result
    }

    /// Executes a request for `volume_requested` units of `symbol` now.
    ///
    /// The clock is read once and a fresh identifier is drawn; the call
    /// then does what `execute_trade_at` does with the two.
    pub fn execute_trade(&mut self, symbol: TradingSymbol, volume_requested: usize) -> (result:
        TradingResult)
        ensures
            result.id & VERSION_AND_VARIANT_BITS == RANDOM_UUID_BITS,
            exists|now: Timestamp| #[trigger]
                executed_at(
                    old(self)@,
                    final(self)@,
                    result,
                    symbol@,
                    volume_requested as nat,
                    now,
                ),
            final(self)@.wf(),
    {
        let now = current_time();
        let id: u128 = fresh_trade_id();
        self.execute_trade_at(symbol, volume_requested, now, id)
    }

    /// The position record of the quote with this identifier, if one is
    /// tracked.
    pub fn position_of(&self, id: u128) -> (record: Option<&QuotePosObj>)
        ensures
            match record {
                Some(found) => self@.tracks(id) && found@ == self@.positions[id],
                None => !self@.tracks(id),
            },
            self@.wf(),
    {
        proof {
            use_type_invariant(self);
        }
        self.book.position_of(id)
    }

    /// How many quotes are tracked, over all symbols.
    pub fn tracked_quotes(&self) -> (count: usize)
        ensures
            count == self@.positions.len(),
            self@.wf(),
    {
        proof {
            use_type_invariant(self);
        }
        self.book.tracked_quotes()
    }

    /// How many quotes rest for `symbol`.
    pub fn depth(&self, symbol: &TradingSymbol) -> (count: usize)
        ensures
            count == self@.sequence(symbol@).len(),
            self@.wf(),
    {
        proof {
            use_type_invariant(self);
        }
        self.book.depth(symbol)
    }

    /// The quote that rests at place `position` of `symbol`, counted from
    /// the best one, if the sequence is that long.
    pub fn quote_at(&self, symbol: &TradingSymbol, position: usize) -> (quote: Option<&Quote>)
        ensures
            match quote {
                Some(found) => position < self@.sequence(symbol@).len() && found@
                    == self@.sequence(symbol@)[position as int],
                None => position >= self@.sequence(symbol@).len(),
            },
            self@.wf(),
    {
        proof {
            use_type_invariant(self);
        }
        self.book.quote_at(symbol, position)
    }
}

} // verus!
