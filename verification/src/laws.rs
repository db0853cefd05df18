use crate::book::{
    insertion_point, lemma_add_preserves_wf, lemma_insertion_point_splits,
    lemma_remove_preserves_wf, lemma_reseat_nothing, lemma_reseat_preserves_wf,
    lemma_stale_prefix_splits, stale_prefix, BookView, PositionView,
};
use crate::clock::Timestamp;
use crate::matching::{fill, Fill};
use crate::quote::QuoteView;
use vstd::prelude::*;

verus! {

/// The book after the quotes of `quotes` were added to `v` one after the
/// other, the first one first.
pub open spec fn add_all(v: BookView, quotes: Seq<QuoteView>) -> BookView
    decreases quotes.len(),
{
    if quotes.len() == 0 {
        v
    } else {
        add_all(v, quotes.drop_last()).add(quotes.last())
    }
}

/// The book after the identifiers of `ids` were removed from `v` one after
/// the other, the first one first.
pub open spec fn remove_all(v: BookView, ids: Seq<u128>) -> BookView
    decreases ids.len(),
{
    if ids.len() == 0 {
        v
    } else {
        remove_all(v, ids.drop_last()).remove(ids.last())
    }
}

/// The index agrees with the book: the position record of a tracked
/// identifier names a slot that exists, and the quote in that slot has this
/// identifier and the record's symbol.
pub proof fn lemma_record_names_its_quote(v: BookView, id: u128)
    requires
        v.wf(),
        v.tracks(id),
    ensures
        v.positions[id].position < v.sequence(v.positions[id].symbol).len(),
        v.sequence(v.positions[id].symbol)[v.positions[id].position as int].id == id,
        v.sequence(v.positions[id].symbol)[v.positions[id].position as int].symbol
            == v.positions[id].symbol,
{
    assert(v.listed_at(v.positions[id].symbol, v.positions[id].position as int));
}

/// The book agrees with the index: a quote that rests in place `i` of
/// `symbol` is tracked, and its record names that very slot.
pub proof fn lemma_resting_quote_is_tracked(v: BookView, symbol: Seq<char>, i: int)
    requires
        v.wf(),
        0 <= i < v.sequence(symbol).len(),
    ensures
        v.tracks(v.sequence(symbol)[i].id),
        v.positions[v.sequence(symbol)[i].id] == (PositionView { symbol, position: i as nat }),
        v.sequence(symbol)[i].symbol == symbol,
{
    assert(v.listed_at(symbol, i));
}

/// In a well-formed book no identifier rests in two slots.
pub proof fn lemma_slots_are_distinct(v: BookView, a: Seq<char>, i: int, b: Seq<char>, j: int)
    requires
        v.wf(),
        v.quotes.contains_key(a),
        0 <= i < v.quotes[a].len(),
        v.quotes.contains_key(b),
        0 <= j < v.quotes[b].len(),
        v.quotes[a][i].id == v.quotes[b][j].id,
    ensures
        a == b,
        i == j,
{
    assert(v.listed_at(a, i));
    assert(v.listed_at(b, j));
}

/// In a well-formed book the index is determined by the sequences: two
/// well-formed books with the same sequences are the same book.
pub proof fn lemma_sequences_determine_book(a: BookView, b: BookView)
    requires
        a.wf(),
        b.wf(),
        a.quotes == b.quotes,
    ensures
        a == b,
{
    assert forall|id: u128| a.positions.contains_key(id) implies b.positions.contains_key(id)
        && a.positions[id] == b.positions[id] by {
        let p = a.positions[id];
        assert(b.listed_at(p.symbol, p.position as int));
    }
    assert forall|id: u128| b.positions.contains_key(id) implies a.positions.contains_key(id) by {
        let p = b.positions[id];
        assert(a.listed_at(p.symbol, p.position as int));
    }
    assert(a.positions =~= b.positions);
}

/// In a well-formed book every symbol's sequence runs from the highest
/// price to the lowest.
pub proof fn lemma_sequences_are_sorted(v: BookView, symbol: Seq<char>, i: int, j: int)
    requires
        v.wf(),
        0 <= i <= j < v.sequence(symbol).len(),
    ensures
        v.sequence(symbol)[i].price >= v.sequence(symbol)[j].price,
{
}

/// A new quote goes into its symbol's sequence at one place: behind every
/// quote priced at or above it, so behind the earlier quotes of its own
/// price, and in front of every quote priced below it. The quotes that were
/// there keep their order, and the other symbols are not touched.
pub proof fn lemma_add_keeps_priority(v: BookView, q: QuoteView)
    requires
        v.wf(),
        !v.tracks(q.id),
    ensures
        v.add(q).wf(),
        v.add(q).sequence(q.symbol) == v.sequence(q.symbol).insert(
            insertion_point(v.sequence(q.symbol), q.price) as int,
            q,
        ),
        insertion_point(v.sequence(q.symbol), q.price) <= v.sequence(q.symbol).len(),
        forall|i: int|
            0 <= i < insertion_point(v.sequence(q.symbol), q.price) ==> v.sequence(
                q.symbol,
            )[i].price >= q.price,
        forall|i: int|
            insertion_point(v.sequence(q.symbol), q.price) <= i < v.sequence(q.symbol).len()
                ==> v.sequence(q.symbol)[i].price < q.price,
        forall|other: Seq<char>|
            other != q.symbol ==> #[trigger] v.add(q).sequence(other) == v.sequence(other),
{
    lemma_add_preserves_wf(v, q);
    lemma_insertion_point_splits(v.sequence(q.symbol), q.price);
}

/// A removed quote leaves its place, the others of its symbol close ranks
/// in the order they had, and the other symbols are not touched.
pub proof fn lemma_remove_keeps_order(v: BookView, id: u128)
    requires
        v.wf(),
        v.tracks(id),
    ensures
        v.remove(id).wf(),
        !v.remove(id).tracks(id),
        v.remove(id).sequence(v.positions[id].symbol) == v.sequence(v.positions[id].symbol).remove(
            v.positions[id].position as int,
        ),
        forall|other: Seq<char>|
            other != v.positions[id].symbol ==> #[trigger] v.remove(id).sequence(other)
                == v.sequence(other),
{
    lemma_remove_preserves_wf(v, id);
}

/// Adding a quote and then adding a quote with the same identifier again
/// leaves the book as the first add left it.
pub proof fn lemma_add_is_idempotent(v: BookView, q: QuoteView, again: QuoteView)
    requires
        again.id == q.id,
    ensures
        v.add(q).add(again) == v.add(q),
{
}

/// Adding quotes keeps the book well formed, and tracks no identifier that
/// was neither tracked before nor among those added.
pub proof fn lemma_add_all(v: BookView, quotes: Seq<QuoteView>)
    requires
        v.wf(),
    ensures
        add_all(v, quotes).wf(),
        forall|id: u128| #[trigger]
            add_all(v, quotes).tracks(id) ==> v.tracks(id) || exists|i: int|
                0 <= i < quotes.len() && (#[trigger] quotes[i]).id == id,
    decreases quotes.len(),
{
    if quotes.len() > 0 {
        let front = quotes.drop_last();
        lemma_add_all(v, front);
        lemma_add_preserves_wf(add_all(v, front), quotes.last());
        assert forall|id: u128| #[trigger] add_all(v, quotes).tracks(id) implies v.tracks(id)
            || exists|i: int| 0 <= i < quotes.len() && (#[trigger] quotes[i]).id == id by {
            if id != quotes.last().id {
                assert(add_all(v, front).tracks(id));
            }
        }
    }
}

/// Removing identifiers keeps the book well formed, tracks nothing new and
/// tracks none of the identifiers removed.
pub proof fn lemma_remove_all(v: BookView, ids: Seq<u128>)
    requires
        v.wf(),
    ensures
        remove_all(v, ids).wf(),
        forall|id: u128| #[trigger]
            remove_all(v, ids).tracks(id) ==> v.tracks(id) && !ids.contains(id),
    decreases ids.len(),
{
    if ids.len() > 0 {
        let front = ids.drop_last();
        lemma_remove_all(v, front);
        lemma_remove_preserves_wf(remove_all(v, front), ids.last());
        assert forall|id: u128| #[trigger] remove_all(v, ids).tracks(id) implies v.tracks(id)
            && !ids.contains(id) by {
            assert(remove_all(v, front).tracks(id));
            if ids.contains(id) {
                let i = choose|i: int| 0 <= i < ids.len() && ids[i] == id;
                assert(front[i] == id);
            }
        }
    }
}

/// A well-formed book that tracks no identifier is the empty book.
pub proof fn lemma_untracked_book_is_empty(v: BookView)
    requires
        v.wf(),
        forall|id: u128| !v.tracks(id),
    ensures
        v == BookView::empty(),
{
    assert forall|symbol: Seq<char>| !v.quotes.contains_key(symbol) by {
        if v.quotes.contains_key(symbol) {
            assert(v.listed_at(symbol, 0));
            assert(v.tracks(v.quotes[symbol][0].id));
        }
    }
    assert(v.quotes =~= Map::<Seq<char>, Seq<QuoteView>>::empty());
    assert(v.positions =~= Map::<u128, PositionView>::empty());
}

/// When quotes are added to the empty book and then every one of their
/// identifiers is removed, in any order and however often, the book and the
/// index are empty again.
pub proof fn lemma_round_trip(quotes: Seq<QuoteView>, order: Seq<u128>)
    requires
        forall|i: int| 0 <= i < quotes.len() ==> order.contains((#[trigger] quotes[i]).id),
    ensures
        remove_all(add_all(BookView::empty(), quotes), order) == BookView::empty(),
{
    let full = add_all(BookView::empty(), quotes);
    lemma_add_all(BookView::empty(), quotes);
    lemma_remove_all(full, order);
    lemma_untracked_book_is_empty(remove_all(full, order));
}

/// The quote that a lookup hands out can trade; no quote in front of it
/// could, and none of those is tracked afterwards; the quotes from it on
/// are what is left of the symbol's sequence.
pub proof fn lemma_lookup_evicts_the_stale(v: BookView, symbol: Seq<char>, now: Timestamp)
    requires
        v.wf(),
    ensures
        v.evict(symbol, now).wf(),
        v.best(symbol, now) matches Some(q) ==> q.valid_at(now),
        stale_prefix(v.sequence(symbol), now) <= v.sequence(symbol).len(),
        forall|i: int|
            0 <= i < stale_prefix(v.sequence(symbol), now) ==> !(#[trigger] v.sequence(
                symbol,
            )[i]).valid_at(now) && !v.evict(symbol, now).tracks(v.sequence(symbol)[i].id),
        v.evict(symbol, now).sequence(symbol) == v.sequence(symbol).skip(
            stale_prefix(v.sequence(symbol), now) as int,
        ),
        v.best(symbol, now) is None ==> v.evict(symbol, now).sequence(symbol).len() == 0,
{
    let s = v.sequence(symbol);
    let k = stale_prefix(s, now);
    lemma_stale_prefix_splits(s, now);
    lemma_reseat_preserves_wf(v, symbol, k, s.skip(k as int));
    assert forall|i: int| 0 <= i < k implies !(#[trigger] s[i]).valid_at(now) && !v.evict(
        symbol,
        now,
    ).tracks(s[i].id) by {
        assert(v.listed_at(symbol, i));
    }
}

/// A request for nothing executes nothing and leaves the book alone.
pub proof fn lemma_zero_request(v: BookView, symbol: Seq<char>, now: Timestamp)
    requires
        v.wf(),
    ensures
        fill(v.sequence(symbol), 0, now) == (Fill {
            rest: v.sequence(symbol),
            executed: 0,
            notional: 0,
        }),
        v.execute(symbol, 0, now) == v,
{
    lemma_reseat_nothing(v, symbol);
}

} // verus!
