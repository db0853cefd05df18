use crate::book::{BookView, PositionView};
use crate::clock::Timestamp;
use crate::manager::{executed_at, QuotePosObj};
use crate::matching::fill;
use crate::quote::{Quote, QuoteView};
use crate::symbol::TradingSymbol;
use crate::trade::{AveragePrice, TradingResult};
use std::collections::HashMap;
use std::collections::VecDeque;
use vstd::prelude::*;

verus! {

broadcast use vstd::std_specs::hash::group_hash_axioms;

/// The resting quotes of one symbol, best first.
struct SymbolQuotes {
    symbol: TradingSymbol,
    quotes: VecDeque<Quote>,
}

/// The views of a run of quotes, in the same order.
spec fn views(s: Seq<Quote>) -> Seq<QuoteView> {
    s.map_values(|q: Quote| q@)
}

/// Whether a quote with identifier `id` stands in `quotes` at a place from
/// `from` up to, but not including, `to`.
spec fn occurs_between(quotes: Seq<Quote>, from: int, to: int, id: u128) -> bool {
    exists|j: int| from <= j < to && j < quotes.len() && (#[trigger] quotes[j]).id == id
}

/// One more fill keeps the running notional within two to the 63rd, which
/// no price exceeds in size, times the units filled, and so within an
/// `i128`.
proof fn lemma_notional_step(notional: int, price: int, take: int, done: int)
    requires
        i64::MIN <= price <= i64::MAX,
        0 <= take,
        0 <= done,
        done + take <= usize::MAX,
        -0x8000_0000_0000_0000 * done <= notional <= 0x8000_0000_0000_0000 * done,
    ensures
        -0x8000_0000_0000_0000 * (done + take) <= notional + price * take,
        notional + price * take <= 0x8000_0000_0000_0000 * (done + take),
        i128::MIN <= price * take <= i128::MAX,
        i128::MIN <= notional + price * take <= i128::MAX,
{
    assert(-0x8000_0000_0000_0000 * take <= price * take <= 0x8000_0000_0000_0000 * take)
        by (nonlinear_arith)
        requires
            -0x8000_0000_0000_0000 <= price < 0x8000_0000_0000_0000,
            0 <= take,
    ;
}

/// The sequences of resting quotes, one slot per symbol, with the index
/// from quote identifier to position record.
///
/// Symbols are found by comparing their text, slot by slot; no symbol is
/// kept twice, and a symbol stays kept when its last quote leaves.
pub(crate) struct IndexedBook {
    position_map: HashMap<u128, QuotePosObj>,
    symbol_quotes: Vec<SymbolQuotes>,
}

impl View for IndexedBook {
    type V = BookView;

    closed spec fn view(&self) -> BookView {
        BookView {
            quotes: Map::new(
                |symbol: Seq<char>|
                    self.has_slot(symbol) && self.symbol_quotes[self.slot(symbol)].quotes@.len()
                        > 0,
                |symbol: Seq<char>| views(self.symbol_quotes[self.slot(symbol)].quotes@),
            ),
            positions: Map::new(
                |id: u128| self.position_map@.contains_key(id),
                |id: u128| self.position_map@[id]@,
            ),
        }
    }
}

impl IndexedBook {
    /// The quotes kept in slot `b`, best first.
    #[verifier::inline]
    spec fn run(&self, b: int) -> Seq<Quote> {
        self.symbol_quotes[b].quotes@
    }

    /// The symbol kept in slot `b`.
    #[verifier::inline]
    spec fn symbol_of(&self, b: int) -> Seq<char> {
        self.symbol_quotes[b].symbol@
    }

    /// Whether `symbol` is kept.
    spec fn has_slot(&self, symbol: Seq<char>) -> bool {
        exists|b: int|
            0 <= b < self.symbol_quotes.len() && (#[trigger] self.symbol_quotes[b]).symbol@
                == symbol
    }

    /// The slot of a kept symbol.
    spec fn slot(&self, symbol: Seq<char>) -> int {
        choose|b: int|
            0 <= b < self.symbol_quotes.len() && (#[trigger] self.symbol_quotes[b]).symbol@
                == symbol
    }

    /// No symbol is kept twice.
    pub(crate) closed spec fn slots_distinct(&self) -> bool {
        forall|a: int, b: int|
            0 <= a < b < self.symbol_quotes.len() ==> (#[trigger] self.symbol_quotes[a]).symbol@
                != (#[trigger] self.symbol_quotes[b]).symbol@
    }

    /// The invariant: no symbol is kept twice, and the book that this
    /// stands for is well formed.
    pub(crate) open spec fn wf(&self) -> bool {
        self.slots_distinct() && self@.wf()
    }

    /// The symbol of slot `b` is found in slot `b` and nowhere else, and
    /// its sequence in the book is the run of that slot.
    proof fn lemma_slot(&self, b: int)
        requires
            self.slots_distinct(),
            0 <= b < self.symbol_quotes.len(),
        ensures
            self.has_slot(self.symbol_of(b)),
            self.slot(self.symbol_of(b)) == b,
            self@.sequence(self.symbol_of(b)) == views(self.run(b)),
            self@.quotes.contains_key(self.symbol_of(b)) <==> self.run(b).len() > 0,
    {
    }

    /// No symbols and no records.
    pub(crate) fn new() -> (book: IndexedBook)
        ensures
            book.wf(),
            book@ == BookView::empty(),
    {
        let book = IndexedBook { position_map: HashMap::new(), symbol_quotes: Vec::new() };
        assert(book@.quotes =~= Map::<Seq<char>, Seq<QuoteView>>::empty());
        assert(book@.positions =~= Map::<u128, PositionView>::empty());
        book
    }

    /// The place of `symbol` among the kept symbols, if it is kept.
    fn find_slot(&self, symbol: &TradingSymbol) -> (found: Option<usize>)
        ensures
            match found {
                Some(b) => b < self.symbol_quotes.len() && self.symbol_of(b as int) == symbol@,
                None => forall|b: int|
                    0 <= b < self.symbol_quotes.len() ==> (#[trigger] self.symbol_quotes[b]).symbol@
                        != symbol@,
            },
    {
        let mut b: usize = 0;
        while b < self.symbol_quotes.len()
            invariant
                b <= self.symbol_quotes.len(),
                forall|c: int| 0 <= c < b ==> (#[trigger] self.symbol_quotes[c]).symbol@ != symbol@,
            decreases self.symbol_quotes.len() - b,
        {
            if self.symbol_quotes[b].symbol.same_as(symbol) {
                return Some(b);
            }
            b += 1;
        }
        None
    }

    /// The place of `symbol` among the kept symbols; the symbol is entered
    /// with no quotes when it is not kept yet.
    fn ensure_slot(&mut self, symbol: &TradingSymbol) -> (b: usize)
        requires
            old(self).wf(),
        ensures
            final(self).wf(),
            final(self)@ == old(self)@,
            b < final(self).symbol_quotes.len(),
            final(self).symbol_of(b as int) == symbol@,
    {
        match self.find_slot(symbol) {
            Some(b) => b,
            None => {
                let ghost before = *self;
                let b: usize = self.symbol_quotes.len();
                self.symbol_quotes.push(
                    SymbolQuotes { symbol: symbol.clone(), quotes: VecDeque::new() },
                );
                proof {
                    assert forall|name: Seq<char>|
                        self@.quotes.contains_key(name) == before@.quotes.contains_key(name) && (
                        self@.quotes.contains_key(name) ==> self@.quotes[name]
                            == before@.quotes[name]) by {
                        if name != symbol@ && before.has_slot(name) {
                            let c = before.slot(name);
                            assert(self.symbol_quotes[c] == before.symbol_quotes[c]);
                        }
                    }
                    assert(self@.quotes =~= before@.quotes);
                }
                b
            },
        }
    }

    /// When only the run of slot `b` differs between `before` and `after`,
    /// only the sequence of its symbol differs between their books.
    proof fn lemma_one_slot_changed(before: &IndexedBook, after: &IndexedBook, b: int)
        requires
            before.slots_distinct(),
            0 <= b < before.symbol_quotes.len(),
            after.symbol_quotes.len() == before.symbol_quotes.len(),
            forall|c: int|
                0 <= c < before.symbol_quotes.len() ==> (#[trigger] after.symbol_quotes[c]).symbol@
                    == before.symbol_of(c),
            forall|c: int|
                0 <= c < before.symbol_quotes.len() && c != b ==> (
                #[trigger] after.symbol_quotes[c]).quotes@ == before.run(c),
        ensures
            after.slots_distinct(),
            after@.quotes == if after.run(b).len() == 0 {
                before@.quotes.remove(before.symbol_of(b))
            } else {
                before@.quotes.insert(before.symbol_of(b), views(after.run(b)))
            },
    {
        let symbol = before.symbol_of(b);
        let expected = if after.run(b).len() == 0 {
            before@.quotes.remove(symbol)
        } else {
            before@.quotes.insert(symbol, views(after.run(b)))
        };
        assert forall|name: Seq<char>|
            #![trigger after@.quotes.dom().contains(name)]
            #![trigger expected.dom().contains(name)]
            after@.quotes.contains_key(name) == expected.contains_key(name) && (
            after@.quotes.contains_key(name) ==> after@.quotes[name] == expected[name]) by {
            if before.has_slot(name) {
                after.lemma_slot(before.slot(name));
            }
        }
    }

    /// The place at which a quote of the given price enters the run: the
    /// first place whose quote is priced below it, found by halving.
    fn insertion_index(quotes: &VecDeque<Quote>, price: i64) -> (k: usize)
        requires
            crate::book::sorted_by_price(views(quotes@)),
        ensures
            k == crate::book::insertion_point(views(quotes@), price as int),
            k <= quotes@.len(),
    {
        let mut low: usize = 0;
        let mut high: usize = quotes.len();
        while low < high
            invariant
                low <= high <= quotes@.len(),
                crate::book::sorted_by_price(views(quotes@)),
                forall|i: int| 0 <= i < low ==> views(quotes@)[i].price >= price,
                forall|i: int| high <= i < quotes@.len() ==> views(quotes@)[i].price < price,
            decreases high - low,
        {
            let middle: usize = low + (high - low) / 2;
            proof {
                assert(views(quotes@)[middle as int] == quotes@[middle as int]@);
            }
            if quotes[middle].price >= price {
                low = middle + 1;
            } else {
                high = middle;
            }
        }
        proof {
            crate::book::lemma_insertion_point_unique(views(quotes@), price as int, low as int);
        }
        low
    }

    /// Brings the position records of slot `b` in step with its run from
    /// place `from` on: each record is set to the place its quote stands at.
    fn resync(&mut self, b: usize, from: usize)
        requires
            b < old(self).symbol_quotes.len(),
            from <= old(self).run(b as int).len(),
            forall|i: int, j: int|
                from <= i < j < old(self).run(b as int).len() ==> (#[trigger] old(self).run(
                    b as int,
                )[i]).id != (#[trigger] old(self).run(b as int)[j]).id,
        ensures
            final(self).symbol_quotes == old(self).symbol_quotes,
            forall|i: int|
                from <= i < old(self).run(b as int).len() ==> {
                    let id = (#[trigger] old(self).run(b as int)[i]).id;
                    &&& final(self).position_map@.contains_key(id)
                    &&& final(self).position_map@[id]@ == PositionView {
                        symbol: old(self).symbol_of(b as int),
                        position: i as nat,
                    }
                },
            forall|id: u128|
                !occurs_between(
                    old(self).run(b as int),
                    from as int,
                    old(self).run(b as int).len() as int,
                    id,
                ) ==> {
                    &&& #[trigger] final(self).position_map@.contains_key(id) == old(
                        self,
                    ).position_map@.contains_key(id)
                    &&& old(self).position_map@.contains_key(id) ==> final(self).position_map@[id]
                        == old(self).position_map@[id]
                },
    {
        let ghost before = *self;
        let ghost run = self.run(b as int);
        let n: usize = self.symbol_quotes[b].quotes.len();
        let mut i: usize = from;
        while i < n
            invariant
                self.symbol_quotes == before.symbol_quotes,
                b < self.symbol_quotes.len(),
                run == self.run(b as int),
                n == run.len(),
                from <= i <= n,
                forall|x: int, y: int|
                    from <= x < y < run.len() ==> (#[trigger] run[x]).id != (#[trigger] run[y]).id,
                forall|j: int|
                    from <= j < i ==> {
                        let id = (#[trigger] run[j]).id;
                        &&& self.position_map@.contains_key(id)
                        &&& self.position_map@[id]@ == PositionView {
                            symbol: self.symbol_of(b as int),
                            position: j as nat,
                        }
                    },
                forall|id: u128|
                    !occurs_between(run, from as int, i as int, id) ==> {
                        &&& #[trigger] self.position_map@.contains_key(id)
                            == before.position_map@.contains_key(id)
                        &&& before.position_map@.contains_key(id) ==> self.position_map@[id]
                            == before.position_map@[id]
                    },
            decreases n - i,
        {
            let id: u128 = self.symbol_quotes[b].quotes[i].id;
            let symbol = self.symbol_quotes[b].symbol.clone();
            self.position_map.insert(id, QuotePosObj { position: i, symbol });
            proof {
                assert forall|other: u128| !occurs_between(run, from as int, i + 1, other) implies {
                    &&& #[trigger] self.position_map@.contains_key(other)
                        == before.position_map@.contains_key(other)
                    &&& before.position_map@.contains_key(other) ==> self.position_map@[other]
                        == before.position_map@[other]
                } by {}
            }
            i += 1;
        }
    }

    /// Enters `quote` unless its identifier is tracked already: behind every
    /// quote of its symbol priced at or above it, with a record of its own,
    /// and with the records of the quotes behind it moved up.
    pub(crate) fn add_quote(&mut self, quote: Quote)
        requires
            old(self).wf(),
        ensures
            final(self).wf(),
            final(self)@ == old(self)@.add(quote@),
    {
        let id: u128 = quote.id;
        if !self.position_map.contains_key(&id) {
            let ghost q = quote@;
            let b = self.ensure_slot(&quote.symbol);
            let ghost before = *self;
            proof {
                before.lemma_slot(b as int);
            }
            let k = Self::insertion_index(&self.symbol_quotes[b].quotes, quote.price);
            self.symbol_quotes[b].quotes.insert(k, quote);
            let ghost run = self.run(b as int);
            let ghost old_run = before.run(b as int);
            proof {
                assert(views(run) =~= views(old_run).insert(k as int, q));
                assert forall|i: int, j: int| k <= i < j < run.len() implies (#[trigger] run[i]).id
                    != (#[trigger] run[j]).id by {
                    assert(before@.listed_at(q.symbol, j - 1));
                    if i > k {
                        assert(before@.listed_at(q.symbol, i - 1));
                    }
                }
            }
            self.resync(b, k);
            proof {
                Self::lemma_one_slot_changed(&before, self, b as int);
                let model = before@.add(q);
                assert forall|other: u128|
                    #![trigger self@.positions.dom().contains(other)]
                    #![trigger model.positions.dom().contains(other)]
                    self@.positions.contains_key(other) == model.positions.contains_key(other) && (
                    self@.positions.contains_key(other) ==> self@.positions[other]
                        == model.positions[other]) by {
                    if occurs_between(run, k as int, run.len() as int, other) {
                        let j = choose|j: int|
                            k <= j < run.len() && j < run.len() && (#[trigger] run[j]).id == other;
                        if j > k {
                            assert(before@.listed_at(q.symbol, j - 1));
                        }
                    } else {
                        assert(run[k as int].id == q.id);
                        if before@.positions.contains_key(other) {
                            let p = before@.positions[other];
                            if p.symbol == q.symbol && p.position >= k {
                                assert(run[p.position as int + 1].id == other);
                            }
                        }
                    }
                }
                assert(self@.positions =~= model.positions);
                crate::book::lemma_add_preserves_wf(before@, q);
            }
        }
    }

    /// The record of a tracked identifier names a kept symbol and a place in
    /// its run, and the quote there carries the identifier.
    proof fn lemma_record_resolves(&self, id: u128, b: int)
        requires
            self.wf(),
            self.position_map@.contains_key(id),
            0 <= b < self.symbol_quotes.len(),
            self.symbol_of(b) == self.position_map@[id].symbol@,
        ensures
            self.position_map@[id].position < self.run(b).len(),
            self.run(b)[self.position_map@[id].position as int].id == id,
            self@.sequence(self.position_map@[id].symbol@) == views(self.run(b)),
    {
        assert(self@.positions.contains_key(id));
    }

    /// The symbol of a tracked identifier's record is a kept symbol.
    proof fn lemma_record_has_slot(&self, id: u128)
        requires
            self.wf(),
            self.position_map@.contains_key(id),
        ensures
            self.has_slot(self.position_map@[id].symbol@),
    {
        assert(self@.positions.contains_key(id));
    }

    /// The kept symbols of `self` and `other` are the same, place by place.
    spec fn same_slots(&self, other: &IndexedBook) -> bool {
        &&& self.symbol_quotes.len() == other.symbol_quotes.len()
        &&& forall|c: int|
            0 <= c < self.symbol_quotes.len() ==> (#[trigger] self.symbol_quotes[c]).symbol@
                == other.symbol_of(c)
    }

    /// Takes the quote at place `position` of slot `b` out of the book and
    /// brings the records of the quotes behind it in step.
    fn remove_at(&mut self, b: usize, position: usize)
        requires
            old(self).wf(),
            b < old(self).symbol_quotes.len(),
            position < old(self).run(b as int).len(),
        ensures
            final(self).wf(),
            final(self)@ == old(self)@.remove(old(self).run(b as int)[position as int].id),
    {
        let ghost before = *self;
        let ghost old_run = before.run(b as int);
        let ghost symbol = before.symbol_of(b as int);
        let id: u128 = self.symbol_quotes[b].quotes[position].id;
        proof {
            assert(before@.listed_at(symbol, position as int));
        }
        self.symbol_quotes[b].quotes.remove(position);
        self.position_map.remove(&id);
        let ghost run = self.run(b as int);
        proof {
            assert(views(run) =~= views(old_run).remove(position as int));
            assert forall|i: int, j: int| position <= i < j < run.len() implies (
            #[trigger] run[i]).id != (#[trigger] run[j]).id by {
                assert(before@.listed_at(symbol, i + 1));
                assert(before@.listed_at(symbol, j + 1));
            }
        }
        self.resync(b, position);
        proof {
            Self::lemma_one_slot_changed(&before, self, b as int);
            let model = before@.remove(id);
            assert forall|other: u128|
                #![trigger self@.positions.dom().contains(other)]
                #![trigger model.positions.dom().contains(other)]
                self@.positions.contains_key(other) == model.positions.contains_key(other) && (
                self@.positions.contains_key(other) ==> self@.positions[other]
                    == model.positions[other]) by {
                if occurs_between(run, position as int, run.len() as int, other) {
                    let j = choose|j: int|
                        position <= j < run.len() && j < run.len() && (#[trigger] run[j]).id
                            == other;
                    assert(before@.listed_at(symbol, j + 1));
                } else if other != id && before@.positions.contains_key(other) {
                    let r = before@.positions[other];
                    if r.symbol == symbol && r.position > position {
                        assert(run[r.position as int - 1].id == other);
                    }
                }
            }
            assert(self@.positions =~= model.positions);
            crate::book::lemma_remove_preserves_wf(before@, id);
        }
    }

    /// Takes the quote with the identifier of `quote` out, if one is
    /// tracked: the position record says where it rests.
    ///
    /// A record whose symbol is not kept would be a broken invariant; that
    /// branch cannot be reached.
    pub(crate) fn remove_quote(&mut self, quote: &Quote)
        requires
            old(self).wf(),
        ensures
            final(self).wf(),
            final(self)@ == old(self)@.remove(quote.id),
    {
        let id: u128 = quote.id;
        let (position, symbol) = match self.position_map.get(&id) {
            Some(record) => (record.position, record.symbol.clone()),
            None => return ,
        };
        let b = match self.find_slot(&symbol) {
            Some(b) => b,
            None => {
                proof {
                    self.lemma_record_has_slot(id);
                }
                vstd::pervasive::unreached()
            },
        };
        proof {
            self.lemma_record_resolves(id, b as int);
        }
        self.remove_at(b, position);
    }

    /// The resting quote with this identifier, if one is tracked. A record
    /// that names no slot would be a broken invariant; that branch cannot be
    /// reached.
    pub(crate) fn quote_of(&self, id: u128) -> (quote: Option<&Quote>)
        requires
            self.wf(),
        ensures
            match quote {
                Some(found) => self@.tracks(id) && found.id == id,
                None => !self@.tracks(id),
            },
    {
        let record = match self.position_map.get(&id) {
            Some(record) => record,
            None => {
                return None;
            },
        };
        let b = match self.find_slot(&record.symbol) {
            Some(b) => b,
            None => {
                proof {
                    self.lemma_record_has_slot(id);
                }
                vstd::pervasive::unreached()
            },
        };
        proof {
            self.lemma_record_resolves(id, b as int);
        }
        Some(&self.symbol_quotes[b].quotes[record.position])
    }

    /// What holds while quotes are leaving the front of slot `b`, before
    /// the records are brought in step again: the first `gone` quotes that
    /// `before` had there are out, with their records; the others stand as
    /// they stood, but for their volume; every other slot and every other
    /// record is as `before` had it.
    spec fn shed_from(&self, before: &IndexedBook, b: int, gone: nat) -> bool {
        &&& self.same_slots(before)
        &&& 0 <= b < before.symbol_quotes.len()
        &&& forall|c: int|
            0 <= c < before.symbol_quotes.len() && c != b ==> (
            #[trigger] self.symbol_quotes[c]).quotes@ == before.run(c)
        &&& gone + self.run(b).len() == before.run(b).len()
        &&& forall|i: int|
            0 <= i < self.run(b).len() ==> (#[trigger] self.run(b)[i])@.with_volume(0)
                == before.run(b)[gone + i]@.with_volume(0)
        &&& forall|id: u128| #[trigger]
            self.position_map@.contains_key(id) <==> before.position_map@.contains_key(id)
                && !occurs_between(before.run(b), 0, gone as int, id)
        &&& forall|id: u128|
            self.position_map@.contains_key(id) ==> #[trigger] self.position_map@[id]
                == before.position_map@[id]
    }

    /// Lets the first quote of slot `b` go, with its record. The records of
    /// the quotes behind it are left as they are.
    fn shed_front(&mut self, b: usize, Ghost(before): Ghost<IndexedBook>, Ghost(gone): Ghost<nat>)
        requires
            before.wf(),
            old(self).shed_from(&before, b as int, gone),
            old(self).run(b as int).len() > 0,
        ensures
            final(self).shed_from(&before, b as int, gone + 1),
            final(self).run(b as int) == old(self).run(b as int).skip(1),
    {
        if let Some(front) = self.symbol_quotes[b].quotes.pop_front() {
            self.position_map.remove(&front.id);
        }
    }

    /// Takes `take` units from the first quote of slot `b`. The quote stays
    /// where it is, also when nothing is left on it.
    fn lower_front(
        &mut self,
        b: usize,
        take: usize,
        Ghost(before): Ghost<IndexedBook>,
        Ghost(gone): Ghost<nat>,
    )
        requires
            old(self).shed_from(&before, b as int, gone),
            old(self).run(b as int).len() > 0,
            take <= old(self).run(b as int)[0].volume_available,
        ensures
            final(self).shed_from(&before, b as int, gone),
            views(final(self).run(b as int)) == views(old(self).run(b as int)).update(
                0,
                old(self).run(b as int)[0]@.with_volume(
                    (old(self).run(b as int)[0].volume_available - take) as nat,
                ),
            ),
    {
        if let Some(mut front) = self.symbol_quotes[b].quotes.pop_front() {
            front.volume_available = front.volume_available - take;
            self.symbol_quotes[b].quotes.push_front(front);
        }
    }

    /// Ends a round of letting quotes go from the front of slot `b`: when
    /// any went, the records of the quotes that stayed are set to their new
    /// places.
    fn settle(
        &mut self,
        b: usize,
        shed: bool,
        Ghost(before): Ghost<IndexedBook>,
        Ghost(gone): Ghost<nat>,
    )
        requires
            before.wf(),
            old(self).shed_from(&before, b as int, gone),
            shed == (gone > 0),
        ensures
            final(self).wf(),
            final(self).run(b as int) == old(self).run(b as int),
            final(self)@ == before@.reseat(
                before.symbol_of(b as int),
                gone,
                views(final(self).run(b as int)),
            ),
    {
        let ghost symbol = before.symbol_of(b as int);
        let ghost old_run = before.run(b as int);
        let ghost run = self.run(b as int);
        let ghost rest = views(run);
        proof {
            assert forall|i: int, j: int| 0 <= i < j < run.len() implies (#[trigger] run[i]).id != (
            #[trigger] run[j]).id by {
                assert(before@.listed_at(symbol, gone + i));
                assert(before@.listed_at(symbol, gone + j));
            }
        }
        if shed {
            self.resync(b, 0);
        }
        proof {
            Self::lemma_one_slot_changed(&before, self, b as int);
            let model = before@.reseat(symbol, gone, rest);
            assert forall|id: u128|
                #![trigger self@.positions.dom().contains(id)]
                #![trigger model.positions.dom().contains(id)]
                self@.positions.contains_key(id) == model.positions.contains_key(id) && (
                self@.positions.contains_key(id) ==> self@.positions[id]
                    == model.positions[id]) by {
                if occurs_between(run, 0, run.len() as int, id) {
                    let j = choose|j: int|
                        0 <= j < run.len() && j < run.len() && (#[trigger] run[j]).id == id;
                    assert(before@.listed_at(symbol, gone + j));
                } else if occurs_between(old_run, 0, gone as int, id) {
                    let j = choose|j: int|
                        0 <= j < gone && j < old_run.len() && (#[trigger] old_run[j]).id == id;
                    assert(before@.listed_at(symbol, j));
                } else if before@.positions.contains_key(id) {
                    let p = before@.positions[id];
                    if p.symbol == symbol && p.position >= gone {
                        assert(run[p.position - gone].id == id);
                    }
                }
            }
            assert(self@.positions =~= model.positions);
            crate::book::lemma_reseat_preserves_wf(before@, symbol, gone, rest);
        }
    }

    /// Lazy eviction on `symbol`: its leading quotes that cannot trade at
    /// `now` are let go, and the records of those that stay are brought in
    /// step once.
    pub(crate) fn evict(&mut self, symbol: &TradingSymbol, now: &Timestamp)
        requires
            old(self).wf(),
        ensures
            final(self).wf(),
            final(self)@ == old(self)@.evict(symbol@, *now),
    {
        let b = match self.find_slot(symbol) {
            Some(b) => b,
            None => {
                proof {
                    crate::book::lemma_reseat_nothing(self@, symbol@);
                }
                return ;
            },
        };
        let ghost before = *self;
        let ghost s = views(before.run(b as int));
        let ghost mut gone: nat = 0;
        let mut shed = false;
        while self.symbol_quotes[b].quotes.len() > 0
            && !self.symbol_quotes[b].quotes[0].is_valid_at(now)
            invariant
                before.wf(),
                self.shed_from(&before, b as int, gone),
                s == views(before.run(b as int)),
                shed == (gone > 0),
                forall|i: int| 0 <= i < gone ==> !(#[trigger] s[i]).valid_at(*now),
                self.run(b as int) == before.run(b as int).skip(gone as int),
            decreases self.run(b as int).len(),
        {
            self.shed_front(b, Ghost(before), Ghost(gone));
            proof {
                gone = gone + 1;
            }
            shed = true;
        }
        proof {
            crate::book::lemma_stale_prefix_unique(s, *now, gone as int);
            assert(views(self.run(b as int)) =~= s.skip(gone as int));
        }
        self.settle(b, shed, Ghost(before), Ghost(gone));
    }

    /// Executes a request for `volume_requested` units of `symbol` at
    /// `now`. While something is wanted and a quote is left, the first
    /// quote is let go when it cannot trade, and gives what it has, up to
    /// what is wanted, when it can. The records are brought in step once,
    /// at the end.
    pub(crate) fn execute_trade_at(
        &mut self,
        symbol: TradingSymbol,
        volume_requested: usize,
        now: Timestamp,
        id: u128,
    ) -> (result: TradingResult)
        requires
            old(self).wf(),
        ensures
            final(self).wf(),
            result.id == id,
            executed_at(old(self)@, final(self)@, result, symbol@, volume_requested as nat, now),
    {
        let ghost before = *self;
        let ghost name = symbol@;
        let ghost s0 = before@.sequence(name);
        let ghost want = volume_requested as nat;
        let mut remaining: usize = volume_requested;
        let mut notional: i128 = 0;
        match self.find_slot(&symbol) {
            None => {
                proof {
                    crate::book::lemma_reseat_nothing(before@, name);
                }
            },
            Some(b) => {
                let ghost mut gone: nat = 0;
                let mut shed = false;
                while remaining > 0 && self.symbol_quotes[b].quotes.len() > 0
                    invariant
                        before.wf(),
                        self.shed_from(&before, b as int, gone),
                        shed == (gone > 0),
                        name == before.symbol_of(b as int),
                        s0 == views(before.run(b as int)),
                        want == volume_requested,
                        remaining <= volume_requested,
                        fill(s0, want, now).rest == fill(
                            views(self.run(b as int)),
                            remaining as nat,
                            now,
                        ).rest,
                        fill(s0, want, now).executed == (want - remaining) + fill(
                            views(self.run(b as int)),
                            remaining as nat,
                            now,
                        ).executed,
                        fill(s0, want, now).notional == notional + fill(
                            views(self.run(b as int)),
                            remaining as nat,
                            now,
                        ).notional,
                        -0x8000_0000_0000_0000 * (want - remaining) <= notional,
                        notional <= 0x8000_0000_0000_0000 * (want - remaining),
                    decreases remaining + self.run(b as int).len(),
                {
                    let ghost cur = views(self.run(b as int));
                    let front = &self.symbol_quotes[b].quotes[0];
                    if !front.is_valid_at(&now) {
                        self.shed_front(b, Ghost(before), Ghost(gone));
                        proof {
                            gone = gone + 1;
                            assert(views(self.run(b as int)) =~= cur.drop_first());
                        }
                        shed = true;
                    } else {
                        let price: i64 = front.price;
                        let available: usize = front.volume_available;
                        let take: usize = if available < remaining {
                            available
                        } else {
                            remaining
                        };
                        self.lower_front(b, take, Ghost(before), Ghost(gone));
                        proof {
                            let left = views(self.run(b as int));
                            if available < remaining {
                                assert(left.drop_first() =~= cur.drop_first());
                            }
                            lemma_notional_step(
                                notional as int,
                                price as int,
                                take as int,
                                (want - remaining) as int,
                            );
                        }
                        remaining = remaining - take;
                        notional = notional + (price as i128) * (take as i128);
                    }
                }
                self.settle(b, shed, Ghost(before), Ghost(gone));
            },
        }
        let volume_executed: usize = volume_requested - remaining;
        let average = if volume_executed > 0 {
            Some(AveragePrice { notional, volume: volume_executed })
        } else {
            None
        };
        TradingResult {
            id,
            symbol,
            volume_executed,
            volume_requested,
            volume_weighted_average_price: average,
        }
    }

    /// The position record of the quote with this identifier, if one is
    /// tracked.
    pub(crate) fn position_of(&self, id: u128) -> (record: Option<&QuotePosObj>)
        ensures
            match record {
                Some(found) => self@.tracks(id) && found@ == self@.positions[id],
                None => !self@.tracks(id),
            },
    {
        self.position_map.get(&id)
    }

    /// How many quotes are tracked, over all symbols.
    pub(crate) fn tracked_quotes(&self) -> (count: usize)
        ensures
            count == self@.positions.len(),
    {
        assert(self@.positions.dom() =~= self.position_map@.dom());
        self.position_map.len()
    }

    /// How many quotes rest for `symbol`.
    pub(crate) fn depth(&self, symbol: &TradingSymbol) -> (count: usize)
        requires
            self.wf(),
        ensures
            count == self@.sequence(symbol@).len(),
    {
        match self.find_slot(symbol) {
            Some(b) => self.symbol_quotes[b].quotes.len(),
            None => 0,
        }
    }

    /// The quote that rests at place `position` of `symbol`, counted from
    /// the best one, if the sequence is that long.
    pub(crate) fn quote_at(&self, symbol: &TradingSymbol, position: usize) -> (quote: Option<
        &Quote,
    >)
        requires
            self.wf(),
        ensures
            match quote {
                Some(found) => position < self@.sequence(symbol@).len() && found@
                    == self@.sequence(symbol@)[position as int],
                None => position >= self@.sequence(symbol@).len(),
            },
    {
        match self.find_slot(symbol) {
            Some(b) => {
                if position < self.symbol_quotes[b].quotes.len() {
                    Some(&self.symbol_quotes[b].quotes[position])
                } else {
                    None
                }
            },
            None => None,
        }
    }
}

} // verus!
