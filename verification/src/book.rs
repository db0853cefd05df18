use crate::clock::Timestamp;
use crate::quote::QuoteView;
use vstd::prelude::*;

verus! {

/// Where a tracked quote rests: the symbol whose sequence holds it and its
/// zero-based place in that sequence.
pub struct PositionView {
    pub symbol: Seq<char>,
    pub position: nat,
}

/// The book as a mathematical value.
///
/// `quotes` gives, for every symbol that has resting quotes, their sequence
/// in priority order, best first; a symbol without resting quotes is not a
/// key. `positions` is the index from quote identifier to slot.
pub struct BookView {
    pub quotes: Map<Seq<char>, Seq<QuoteView>>,
    pub positions: Map<u128, PositionView>,
}

/// Prices never rise along the sequence.
pub open spec fn sorted_by_price(s: Seq<QuoteView>) -> bool {
    forall|i: int, j: int| 0 <= i < j < s.len() ==> s[i].price >= s[j].price
}

/// The place at which a quote of the given price enters `s`: the length of
/// the leading run of quotes priced at or above it.
pub open spec fn insertion_point(s: Seq<QuoteView>, price: int) -> nat
    decreases s.len(),
{
    if s.len() == 0 || s.first().price < price {
        0
    } else {
        1 + insertion_point(s.drop_first(), price)
    }
}

/// The length of the leading run of quotes that cannot trade at `now`.
pub open spec fn stale_prefix(s: Seq<QuoteView>, now: Timestamp) -> nat
    decreases s.len(),
{
    if s.len() == 0 || s.first().valid_at(now) {
        0
    } else {
        1 + stale_prefix(s.drop_first(), now)
    }
}

impl BookView {
    /// The book with no quotes and no position records.
    pub open spec fn empty() -> BookView {
        BookView { quotes: Map::empty(), positions: Map::empty() }
    }

    /// The resting quotes of `symbol`, best first; empty when there are none.
    pub open spec fn sequence(self, symbol: Seq<char>) -> Seq<QuoteView> {
        if self.quotes.contains_key(symbol) {
            self.quotes[symbol]
        } else {
            Seq::empty()
        }
    }

    /// Whether a quote with this identifier is in the book.
    pub open spec fn tracks(self, id: u128) -> bool {
        self.positions.contains_key(id)
    }

    /// The quote in place `i` of `symbol` belongs to that symbol and its
    /// position record names exactly this slot.
    pub open spec fn listed_at(self, symbol: Seq<char>, i: int) -> bool {
        let q = self.quotes[symbol][i];
        &&& q.symbol == symbol
        &&& self.positions.contains_key(q.id)
        &&& self.positions[q.id] == PositionView { symbol, position: i as nat }
    }

    /// The position record of `id` names a slot that exists and holds the
    /// quote with that identifier.
    pub open spec fn resolves(self, id: u128) -> bool {
        let p = self.positions[id];
        &&& self.quotes.contains_key(p.symbol)
        &&& p.position < self.quotes[p.symbol].len()
        &&& self.quotes[p.symbol][p.position as int].id == id
    }

    /// The invariant of the book: every listed sequence is non-empty and
    /// sorted by non-increasing price, every resting quote has a position
    /// record that names its slot, and every position record names the slot
    /// of the quote it is for.
    pub open spec fn wf(self) -> bool {
        &&& forall|symbol: Seq<char>| #[trigger]
            self.quotes.contains_key(symbol) ==> self.quotes[symbol].len() > 0 && sorted_by_price(
                self.quotes[symbol],
            )
        &&& forall|symbol: Seq<char>, i: int|
            self.quotes.contains_key(symbol) && 0 <= i < self.quotes[symbol].len()
                ==> #[trigger] self.listed_at(symbol, i)
        &&& forall|id: u128| #[trigger] self.positions.contains_key(id) ==> self.resolves(id)
    }

    /// The book after `add`: unchanged when the identifier is already
    /// tracked; otherwise the quote enters its symbol's sequence behind
    /// every quote priced at or above it, and the records of the quotes
    /// behind it move up by one.
    pub open spec fn add(self, q: QuoteView) -> BookView {
        if self.tracks(q.id) {
            self
        } else {
            let s = self.sequence(q.symbol);
            let k = insertion_point(s, q.price);
            BookView {
                quotes: self.quotes.insert(q.symbol, s.insert(k as int, q)),
                positions: Map::new(
                    |id: u128| id == q.id || self.positions.contains_key(id),
                    |id: u128|
                        if id == q.id {
                            PositionView { symbol: q.symbol, position: k }
                        } else if self.positions[id].symbol == q.symbol
                            && self.positions[id].position >= k {
                            PositionView {
                                symbol: q.symbol,
                                position: self.positions[id].position + 1,
                            }
                        } else {
                            self.positions[id]
                        },
                ),
            }
        }
    }

    /// The book after `remove`: unchanged when the identifier is not
    /// tracked; otherwise the quote leaves its sequence, its record is
    /// deleted, and the records of the quotes behind it move down by one.
    pub open spec fn remove(self, id: u128) -> BookView {
        if !self.tracks(id) {
            self
        } else {
            let p = self.positions[id];
            let s = self.sequence(p.symbol).remove(p.position as int);
            BookView {
                quotes: if s.len() == 0 {
                    self.quotes.remove(p.symbol)
                } else {
                    self.quotes.insert(p.symbol, s)
                },
                positions: Map::new(
                    |other: u128| other != id && self.positions.contains_key(other),
                    |other: u128|
                        if self.positions[other].symbol == p.symbol
                            && self.positions[other].position > p.position {
                            PositionView {
                                symbol: p.symbol,
                                position: (self.positions[other].position - 1) as nat,
                            }
                        } else {
                            self.positions[other]
                        },
                ),
            }
        }
    }

    /// The book in which the first `k` quotes of `symbol` have left and the
    /// quotes that stay read `rest`: the records of the leavers are deleted
    /// and those of the stayers move down by `k`.
    pub open spec fn reseat(self, symbol: Seq<char>, k: nat, rest: Seq<QuoteView>) -> BookView {
        BookView {
            quotes: if rest.len() == 0 {
                self.quotes.remove(symbol)
            } else {
                self.quotes.insert(symbol, rest)
            },
            positions: Map::new(
                |id: u128|
                    self.positions.contains_key(id) && !(self.positions[id].symbol == symbol
                        && self.positions[id].position < k),
                |id: u128|
                    if self.positions[id].symbol == symbol {
                        PositionView {
                            symbol,
                            position: (self.positions[id].position - k) as nat,
                        }
                    } else {
                        self.positions[id]
                    },
            ),
        }
    }

    /// The book after lazy eviction on `symbol` at `now`: the leading quotes
    /// that cannot trade are gone.
    pub open spec fn evict(self, symbol: Seq<char>, now: Timestamp) -> BookView {
        let s = self.sequence(symbol);
        let k = stale_prefix(s, now);
        self.reseat(symbol, k, s.skip(k as int))
    }

    /// The best quote of `symbol` that can trade at `now`: the first one
    /// behind the stale prefix, if any.
    pub open spec fn best(self, symbol: Seq<char>, now: Timestamp) -> Option<QuoteView> {
        let s = self.sequence(symbol);
        let k = stale_prefix(s, now);
        if k < s.len() {
            Some(s[k as int])
        } else {
            None
        }
    }
}

/// The insertion point splits a sorted sequence: every quote before it is
/// priced at or above `price`, every quote from it on is priced below.
pub proof fn lemma_insertion_point_splits(s: Seq<QuoteView>, price: int)
    requires
        sorted_by_price(s),
    ensures
        insertion_point(s, price) <= s.len(),
        forall|i: int| 0 <= i < insertion_point(s, price) ==> s[i].price >= price,
        forall|i: int| insertion_point(s, price) <= i < s.len() ==> s[i].price < price,
    decreases s.len(),
{
    if s.len() == 0 || s.first().price < price {
    } else {
        let t = s.drop_first();
        lemma_insertion_point_splits(t, price);
        assert forall|i: int| 0 <= i < insertion_point(s, price) implies s[i].price >= price by {
            if i > 0 {
                assert(t[i - 1] == s[i]);
            }
        }
        assert forall|i: int| insertion_point(s, price) <= i < s.len() implies s[i].price
            < price by {
            assert(t[i - 1] == s[i]);
        }
    }
}

/// A place that splits the sequence by `price` is the insertion point.
pub proof fn lemma_insertion_point_unique(s: Seq<QuoteView>, price: int, k: int)
    requires
        0 <= k <= s.len(),
        forall|i: int| 0 <= i < k ==> s[i].price >= price,
        k < s.len() ==> s[k].price < price,
    ensures
        insertion_point(s, price) == k,
    decreases s.len(),
{
    if s.len() == 0 || k == 0 {
    } else {
        lemma_insertion_point_unique(s.drop_first(), price, k - 1);
    }
}

/// The stale prefix holds only quotes that cannot trade, and the quote
/// right behind it, if there is one, can.
pub proof fn lemma_stale_prefix_splits(s: Seq<QuoteView>, now: Timestamp)
    ensures
        stale_prefix(s, now) <= s.len(),
        forall|i: int| 0 <= i < stale_prefix(s, now) ==> !s[i].valid_at(now),
        stale_prefix(s, now) < s.len() ==> s[stale_prefix(s, now) as int].valid_at(now),
    decreases s.len(),
{
    if s.len() == 0 || s.first().valid_at(now) {
    } else {
        let t = s.drop_first();
        lemma_stale_prefix_splits(t, now);
        assert forall|i: int| 0 <= i < stale_prefix(s, now) implies !s[i].valid_at(now) by {
            if i > 0 {
                assert(t[i - 1] == s[i]);
            }
        }
    }
}

/// A place that has only stale quotes before it and a tradable quote, or
/// the end of the sequence, at it is the stale prefix.
pub proof fn lemma_stale_prefix_unique(s: Seq<QuoteView>, now: Timestamp, k: int)
    requires
        0 <= k <= s.len(),
        forall|i: int| 0 <= i < k ==> !s[i].valid_at(now),
        k < s.len() ==> s[k].valid_at(now),
    ensures
        stale_prefix(s, now) == k,
    decreases s.len(),
{
    if s.len() == 0 || k == 0 {
    } else {
        lemma_stale_prefix_unique(s.drop_first(), now, k - 1);
    }
}

/// Adding a quote keeps the book well formed: the sequences stay sorted and
/// the index stays in step with them.
pub proof fn lemma_add_preserves_wf(v: BookView, q: QuoteView)
    requires
        v.wf(),
    ensures
        v.add(q).wf(),
{
    if !v.tracks(q.id) {
        let w = v.add(q);
        let s = v.sequence(q.symbol);
        let k = insertion_point(s, q.price) as int;
        lemma_insertion_point_splits(s, q.price);
        assert forall|symbol: Seq<char>, i: int|
            w.quotes.contains_key(symbol) && 0 <= i < w.quotes[symbol].len()
                implies #[trigger] w.listed_at(symbol, i) by {
            if symbol == q.symbol {
                if i < k {
                    assert(v.listed_at(symbol, i));
                } else if i > k {
                    assert(v.listed_at(symbol, i - 1));
                }
            } else {
                assert(v.listed_at(symbol, i));
            }
        }
    }
}

/// Removing a quote keeps the book well formed.
pub proof fn lemma_remove_preserves_wf(v: BookView, id: u128)
    requires
        v.wf(),
    ensures
        v.remove(id).wf(),
{
    if v.tracks(id) {
        let w = v.remove(id);
        let p = v.positions[id];
        let at = p.position as int;
        assert forall|symbol: Seq<char>, i: int|
            w.quotes.contains_key(symbol) && 0 <= i < w.quotes[symbol].len()
                implies #[trigger] w.listed_at(symbol, i) by {
            if symbol == p.symbol {
                if i < at {
                    assert(v.listed_at(symbol, i));
                } else {
                    assert(v.listed_at(symbol, i + 1));
                }
            } else {
                assert(v.listed_at(symbol, i));
            }
        }
    }
}

/// Letting the first `k` quotes of a symbol go keeps the book well formed,
/// whatever happens to the volumes of those that stay.
pub proof fn lemma_reseat_preserves_wf(v: BookView, symbol: Seq<char>, k: nat, rest: Seq<QuoteView>)
    requires
        v.wf(),
        k + rest.len() == v.sequence(symbol).len(),
        forall|i: int|
            0 <= i < rest.len() ==> {
                &&& (#[trigger] rest[i]).id == v.sequence(symbol)[k + i].id
                &&& rest[i].symbol == v.sequence(symbol)[k + i].symbol
                &&& rest[i].price == v.sequence(symbol)[k + i].price
            },
    ensures
        v.reseat(symbol, k, rest).wf(),
{
    let w = v.reseat(symbol, k, rest);
    assert forall|other: Seq<char>, i: int|
        w.quotes.contains_key(other) && 0 <= i < w.quotes[other].len()
            implies #[trigger] w.listed_at(other, i) by {
        if other == symbol {
            assert(v.listed_at(symbol, k + i));
        } else {
            assert(v.listed_at(other, i));
        }
    }
}

/// After a reseat the symbol's sequence reads `rest` and every other
/// sequence is as it was.
pub proof fn lemma_reseat_sequences(v: BookView, symbol: Seq<char>, k: nat, rest: Seq<QuoteView>)
    ensures
        v.reseat(symbol, k, rest).sequence(symbol) == rest,
        forall|other: Seq<char>|
            other != symbol ==> #[trigger] v.reseat(symbol, k, rest).sequence(other) == v.sequence(
                other,
            ),
{
}

/// Letting nobody go and changing nothing leaves the book as it is.
pub proof fn lemma_reseat_nothing(v: BookView, symbol: Seq<char>)
    requires
        v.wf(),
    ensures
        v.reseat(symbol, 0, v.sequence(symbol)) == v,
{
    let w = v.reseat(symbol, 0, v.sequence(symbol));
    assert(w.quotes =~= v.quotes);
    assert(w.positions =~= v.positions);
}

} // verus!
