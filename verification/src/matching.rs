use crate::book::{lemma_reseat_preserves_wf, lemma_stale_prefix_splits, stale_prefix, BookView};
use crate::clock::Timestamp;
use crate::quote::QuoteView;
use vstd::prelude::*;

verus! {

/// What one execution does to one symbol's sequence.
pub struct Fill {
    /// The sequence that is left, best first.
    pub rest: Seq<QuoteView>,
    /// The units that changed hands.
    pub executed: nat,
    /// The sum of price times units over everything taken.
    pub notional: int,
}

/// Matching a request for `want` units against the sequence `s` at `now`,
/// by price priority and, at one price, time priority: the sequence is
/// walked from the front.
///
/// A quote that cannot trade is dropped. A quote that can trade and covers
/// what is still wanted gives that much and stays where it is, even when
/// nothing is left on it. A quote that cannot cover it gives all it has and
/// is dropped, and the walk goes on for the remainder. Nothing is touched
/// once nothing is wanted.
pub open spec fn fill(s: Seq<QuoteView>, want: nat, now: Timestamp) -> Fill
    decreases s.len(),
{
    if want == 0 || s.len() == 0 {
        Fill { rest: s, executed: 0, notional: 0 }
    } else if !s.first().valid_at(now) {
        fill(s.drop_first(), want, now)
    } else if s.first().volume_available >= want {
        Fill {
            rest: s.update(0, s.first().with_volume((s.first().volume_available - want) as nat)),
            executed: want,
            notional: s.first().price * want,
        }
    } else {
        let after = fill(s.drop_first(), (want - s.first().volume_available) as nat, now);
        Fill {
            rest: after.rest,
            executed: s.first().volume_available + after.executed,
            notional: s.first().price * s.first().volume_available + after.notional,
        }
    }
}

/// The volume that can trade at `now`: the sum of `volume_available` over
/// the quotes of `s` that are valid then.
pub open spec fn supply(s: Seq<QuoteView>, now: Timestamp) -> nat
    decreases s.len(),
{
    if s.len() == 0 {
        0
    } else if s.first().valid_at(now) {
        s.first().volume_available + supply(s.drop_first(), now)
    } else {
        supply(s.drop_first(), now)
    }
}

impl BookView {
    /// The book after an execution of `want` units of `symbol` at `now`:
    /// the symbol's sequence is what `fill` leaves, the quotes that were
    /// dropped are no longer tracked, and the others keep their order.
    pub open spec fn execute(self, symbol: Seq<char>, want: nat, now: Timestamp) -> BookView {
        let s = self.sequence(symbol);
        let rest = fill(s, want, now).rest;
        self.reseat(symbol, (s.len() - rest.len()) as nat, rest)
    }
}

/// `rest` is what an execution can leave of `s`: a tail of it, the same
/// quotes in the same order, with at most the volume of the first one
/// lowered.
pub open spec fn remainder_of(rest: Seq<QuoteView>, s: Seq<QuoteView>) -> bool {
    &&& rest.len() <= s.len()
    &&& forall|i: int|
        0 <= i < rest.len() ==> {
            &&& (#[trigger] rest[i]).with_volume(0) == s[s.len() - rest.len() + i].with_volume(0)
            &&& rest[i].volume_available <= s[s.len() - rest.len() + i].volume_available
            &&& i > 0 ==> rest[i] == s[s.len() - rest.len() + i]
        }
}

/// What `fill` leaves is a remainder of the sequence it was given, and it
/// never executes more than was asked for.
pub proof fn lemma_fill_leaves_a_tail(s: Seq<QuoteView>, want: nat, now: Timestamp)
    ensures
        remainder_of(fill(s, want, now).rest, s),
        fill(s, want, now).executed <= want,
    decreases s.len(),
{
    if want == 0 || s.len() == 0 {
    } else if s.first().valid_at(now) && s.first().volume_available >= want {
    } else {
        let t = s.drop_first();
        let less = if s.first().valid_at(now) {
            (want - s.first().volume_available) as nat
        } else {
            want
        };
        lemma_fill_leaves_a_tail(t, less, now);
    }
}

/// An execution takes what is wanted or, when the book cannot cover it,
/// everything that can trade.
pub proof fn lemma_fill_executes_up_to_supply(s: Seq<QuoteView>, want: nat, now: Timestamp)
    ensures
        fill(s, want, now).executed == if want <= supply(s, now) {
            want
        } else {
            supply(s, now)
        },
    decreases s.len(),
{
    if want == 0 || s.len() == 0 {
    } else if !s.first().valid_at(now) {
        lemma_fill_executes_up_to_supply(s.drop_first(), want, now);
    } else if s.first().volume_available >= want {
    } else {
        lemma_fill_executes_up_to_supply(
            s.drop_first(),
            (want - s.first().volume_available) as nat,
            now,
        );
    }
}

/// A partial fill empties the sequence: when less was executed than was
/// asked for, no quote of the symbol is left.
pub proof fn lemma_partial_fill_exhausts(s: Seq<QuoteView>, want: nat, now: Timestamp)
    requires
        fill(s, want, now).executed < want,
    ensures
        fill(s, want, now).rest.len() == 0,
    decreases s.len(),
{
    if want == 0 || s.len() == 0 {
    } else if !s.first().valid_at(now) {
        lemma_partial_fill_exhausts(s.drop_first(), want, now);
    } else if s.first().volume_available >= want {
    } else {
        lemma_partial_fill_exhausts(
            s.drop_first(),
            (want - s.first().volume_available) as nat,
            now,
        );
    }
}

/// The notional lies between the executed volume at the lowest price and
/// at the highest price of the sequence, so the average price of a fill
/// lies between those two prices.
pub proof fn lemma_fill_notional_bounds(
    s: Seq<QuoteView>,
    want: nat,
    now: Timestamp,
    low: int,
    high: int,
)
    requires
        forall|i: int| 0 <= i < s.len() ==> low <= (#[trigger] s[i]).price <= high,
    ensures
        low * fill(s, want, now).executed <= fill(s, want, now).notional,
        fill(s, want, now).notional <= high * fill(s, want, now).executed,
    decreases s.len(),
{
    if want == 0 || s.len() == 0 {
        assert(low * 0 == 0 && high * 0 == 0);
    } else {
        let t = s.drop_first();
        let price = s.first().price;
        if !s.first().valid_at(now) {
            lemma_fill_notional_bounds(t, want, now, low, high);
        } else if s.first().volume_available >= want {
            assert(low * want <= price * want <= high * want) by (nonlinear_arith)
                requires
                    low <= price <= high,
                    want >= 0,
            ;
        } else {
            let given = s.first().volume_available;
            let after = fill(t, (want - given) as nat, now);
            lemma_fill_notional_bounds(t, (want - given) as nat, now, low, high);
            assert(low * given <= price * given <= high * given) by (nonlinear_arith)
                requires
                    low <= price <= high,
                    given >= 0,
            ;
            assert(low * (given + after.executed) == low * given + low * after.executed)
                by (nonlinear_arith);
            assert(high * (given + after.executed) == high * given + high * after.executed)
                by (nonlinear_arith);
        }
    }
}

/// With something wanted, the stale quotes at the front play no part:
/// matching behind them gives the same fill.
pub proof fn lemma_fill_skips_stale_prefix(s: Seq<QuoteView>, want: nat, now: Timestamp)
    requires
        want > 0,
    ensures
        fill(s, want, now) == fill(s.skip(stale_prefix(s, now) as int), want, now),
    decreases s.len(),
{
    if s.len() == 0 || s.first().valid_at(now) {
        assert(s.skip(0) =~= s);
    } else {
        let t = s.drop_first();
        lemma_fill_skips_stale_prefix(t, want, now);
        lemma_stale_prefix_splits(t, now);
        assert(t.skip(stale_prefix(t, now) as int) =~= s.skip(stale_prefix(s, now) as int));
    }
}

/// An execution keeps the book well formed.
pub proof fn lemma_execute_preserves_wf(v: BookView, symbol: Seq<char>, want: nat, now: Timestamp)
    requires
        v.wf(),
    ensures
        v.execute(symbol, want, now).wf(),
{
    let s = v.sequence(symbol);
    let rest = fill(s, want, now).rest;
    let k = (s.len() - rest.len()) as nat;
    lemma_fill_leaves_a_tail(s, want, now);
    lemma_reseat_preserves_wf(v, symbol, k, rest);
}

/// An execution touches one symbol: its sequence becomes what `fill`
/// leaves, which is nothing at all after a partial fill, and every other
/// sequence is as it was.
pub proof fn lemma_execute_touches_one_symbol(
    v: BookView,
    symbol: Seq<char>,
    want: nat,
    now: Timestamp,
)
    ensures
        v.execute(symbol, want, now).sequence(symbol) == fill(v.sequence(symbol), want, now).rest,
        forall|other: Seq<char>|
            other != symbol ==> #[trigger] v.execute(symbol, want, now).sequence(other)
                == v.sequence(other),
        fill(v.sequence(symbol), want, now).executed < want ==> v.execute(
            symbol,
            want,
            now,
        ).sequence(symbol).len() == 0,
{
    let s = v.sequence(symbol);
    if fill(s, want, now).executed < want {
        lemma_partial_fill_exhausts(s, want, now);
    }
}

} // verus!
