//! Limit order book reconstruction from a snapshot plus incremental deltas.
//!
//! Prices are exact integer minor units (cents), so two messages quoting
//! the same price always address the same book row; volumes are hundredths.
//! Each side keeps its levels as a strictly price-ascending vector and is
//! specified as a map from price to resting volume; the book carries a
//! cached best price per side and the spread, recomputed after every batch.

use vstd::prelude::*;

verus! {

/// Tag of one incremental book instruction.
#[derive(Debug, Copy, Clone, PartialEq, Eq, Structural)]
pub enum Delta {
    New,
    Change,
    Delete,
}

/// One incremental instruction: the tag, the price level it addresses in
/// cents, and the new resting volume in hundredths.
#[derive(Debug, Copy, Clone)]
pub struct OrderBookDelta(pub Delta, pub u64, pub u64);

/// One book message from the venue: a snapshot or a delta batch. Deltas of
/// a batch are applied in the order received, asks independently of bids.
pub struct BookData {
    pub asks: Vec<OrderBookDelta>,
    pub bids: Vec<OrderBookDelta>,
    pub change_id: i64,
    pub instrument_name: String,
    pub prev_change_id: Option<i64>,
    pub timestamp: u64,
}

/// Whether the level sequence is strictly ascending by price (so each
/// price occurs at most once).
pub open spec fn levels_sorted(s: Seq<(u64, u64)>) -> bool {
    forall|i: int, j: int| 0 <= i < j < s.len() ==> s[i].0 < s[j].0
}

/// The price → volume map a level sequence denotes.
pub open spec fn levels_map(s: Seq<(u64, u64)>) -> Map<u64, u64> {
    Map::new(
        |p: u64| exists|i: int| 0 <= i < s.len() && (#[trigger] s[i]).0 == p,
        |p: u64| s[choose|i: int| 0 <= i < s.len() && (#[trigger] s[i]).0 == p].1,
    )
}

/// A level's price is a key of the denoted map, bound to that level's
/// volume (prices are distinct, so the level is the one for its price).
proof fn lemma_level_at(s: Seq<(u64, u64)>, i: int)
    requires
        levels_sorted(s),
        0 <= i < s.len(),
    ensures
        levels_map(s).contains_key(s[i].0),
        levels_map(s)[s[i].0] == s[i].1,
{
    assert(0 <= i < s.len() && s[i].0 == s[i].0);
    let k = choose|k: int| 0 <= k < s.len() && (#[trigger] s[k]).0 == s[i].0;
    if k < i {
        assert(s[k].0 < s[i].0);
    } else if i < k {
        assert(s[i].0 < s[k].0);
    }
}

/// One side of the book: resting volume per price level, price-ascending.
#[derive(Debug)]
pub struct BookSide {
    pub levels: Vec<(u64, u64)>,
}

impl View for BookSide {
    type V = Map<u64, u64>;

    open spec fn view(&self) -> Map<u64, u64> {
        levels_map(self.levels@)
    }
}

impl BookSide {
    /// The level vector is strictly ascending by price.
    pub open spec fn wf(self) -> bool {
        levels_sorted(self.levels@)
    }

    /// An empty side.
    pub fn new() -> (side: BookSide)
        ensures
            side.wf(),
            side@ == Map::<u64, u64>::empty(),
    {
        let side = BookSide { levels: Vec::new() };
        proof {
            assert(side@ =~= Map::<u64, u64>::empty());
        }
        side
    }

    /// First position whose price is not below `price`.
    fn position(&self, price: u64) -> (i: usize)
        requires
            self.wf(),
        ensures
            i <= self.levels@.len(),
            forall|j: int| 0 <= j < i ==> (#[trigger] self.levels@[j]).0 < price,
            i < self.levels@.len() ==> self.levels@[i as int].0 >= price,
    {
        let mut i: usize = 0;
        while i < self.levels.len() && self.levels[i].0 < price
            invariant
                self.wf(),
                i <= self.levels@.len(),
                forall|j: int| 0 <= j < i ==> (#[trigger] self.levels@[j]).0 < price,
            decreases self.levels@.len() - i,
        {
            i = i + 1;
        }
        i
    }

    /// The resting volume at `price`, if that level exists.
    pub fn get(&self, price: u64) -> (r: Option<u64>)
        requires
            self.wf(),
        ensures
            self@.contains_key(price) ==> r == Some(self@[price]),
            !self@.contains_key(price) ==> r == None::<u64>,
    {
        let i = self.position(price);
        if i < self.levels.len() && self.levels[i].0 == price {
            proof {
                lemma_level_at(self.levels@, i as int);
            }
            Some(self.levels[i].1)
        } else {
            proof {
                assert forall|k: int| 0 <= k < self.levels@.len() implies (
                #[trigger] self.levels@[k]).0 != price by {
                    if k > i {
                        assert(self.levels@[i as int].0 < self.levels@[k].0);
                    }
                }
            }
            None
        }
    }

    /// Set the volume at `price`, adding the level if it is absent.
    pub fn upsert(&mut self, price: u64, volume: u64)
        requires
            old(self).wf(),
        ensures
            final(self).wf(),
            final(self)@ == old(self)@.insert(price, volume),
    {
        let ghost s0 = self.levels@;
        let i = self.position(price);
        if i < self.levels.len() && self.levels[i].0 == price {
            self.levels.remove(i);
            self.levels.insert(i, (price, volume));
            proof {
                assert(self.levels@ =~= s0.update(i as int, (price, volume)));
                assert(self.wf());
                lemma_upsert_map(s0, self.levels@, i as int, price, volume);
            }
        } else {
            self.levels.insert(i, (price, volume));
            proof {
                assert forall|a: int, b: int|
                    0 <= a < b < self.levels@.len() implies self.levels@[a].0
                    < self.levels@[b].0 by {
                    if a < i && b > i {
                        assert(s0[a] == self.levels@[a]);
                        assert(s0[b - 1] == self.levels@[b]);
                        if i < s0.len() {
                            assert(s0[a].0 < price);
                        }
                    }
                }
                assert(self.wf());
                lemma_upsert_map(s0, self.levels@, i as int, price, volume);
            }
        }
    }

    /// Drop the level at `price`; absent prices are tolerated as no-ops.
    pub fn remove(&mut self, price: u64)
        requires
            old(self).wf(),
        ensures
            final(self).wf(),
            final(self)@ == old(self)@.remove(price),
    {
        let ghost s0 = self.levels@;
        let i = self.position(price);
        if i < self.levels.len() && self.levels[i].0 == price {
            self.levels.remove(i);
            proof {
                assert(self.wf());
                assert forall|q: u64|
                    levels_map(self.levels@).contains_key(q) == #[trigger] levels_map(
                        s0,
                    ).remove(price).contains_key(q) by {
                    if levels_map(self.levels@).contains_key(q) {
                        let k = choose|k: int|
                            0 <= k < self.levels@.len() && (#[trigger] self.levels@[k]).0 == q;
                        if k < i {
                            assert(s0[k].0 == q);
                            if q == price {
                                assert(s0[k].0 < s0[i as int].0);
                            }
                        } else {
                            assert(s0[k + 1].0 == q);
                            if q == price {
                                assert(s0[i as int].0 < s0[k + 1].0);
                            }
                        }
                    }
                    if levels_map(s0).remove(price).contains_key(q) {
                        let k = choose|k: int| 0 <= k < s0.len() && (#[trigger] s0[k]).0 == q;
                        if k < i {
                            assert(self.levels@[k].0 == q);
                        } else if k > i {
                            assert(self.levels@[k - 1].0 == q);
                        }
                    }
                }
                assert forall|q: u64|
                    levels_map(self.levels@).contains_key(q) implies levels_map(self.levels@)[q]
                    == levels_map(s0).remove(price)[q] by {
                    let k = choose|k: int|
                        0 <= k < self.levels@.len() && (#[trigger] self.levels@[k]).0 == q;
                    lemma_level_at(self.levels@, k);
                    if k < i {
                        lemma_level_at(s0, k);
                    } else {
                        lemma_level_at(s0, k + 1);
                    }
                }
                assert(self@ =~= levels_map(s0).remove(price));
            }
        } else {
            proof {
                assert forall|k: int| 0 <= k < s0.len() implies (#[trigger] s0[k]).0 != price by {
                    if k > i {
                        assert(s0[i as int].0 < s0[k].0);
                    }
                }
                assert forall|q: u64|
                    levels_map(s0).contains_key(q) == #[trigger] levels_map(s0).remove(
                        price,
                    ).contains_key(q) by {
                    if levels_map(s0).contains_key(q) {
                        let k = choose|k: int| 0 <= k < s0.len() && (#[trigger] s0[k]).0 == q;
                        assert(s0[k].0 != price);
                    }
                }
                assert(self@ =~= levels_map(s0).remove(price));
            }
        }
    }
}

/// After writing `(price, volume)` at position `i` — either updating the
/// level in place or inserting a fresh one — the denoted map is the old map
/// with `price` bound to `volume`.
proof fn lemma_upsert_map(s0: Seq<(u64, u64)>, s1: Seq<(u64, u64)>, i: int, price: u64, volume: u64)
    requires
        levels_sorted(s0),
        levels_sorted(s1),
        0 <= i < s1.len(),
        s1[i] == (price, volume),
        s1.len() == s0.len() ==> s1 == s0.update(i, (price, volume)) && s0[i].0 == price,
        s1.len() != s0.len() ==> s1 == s0.insert(i, (price, volume)) && s1.len() == s0.len() + 1,
    ensures
        levels_map(s1) == levels_map(s0).insert(price, volume),
{
    let updated = s1.len() == s0.len();
    assert forall|q: u64|
        levels_map(s1).contains_key(q) == #[trigger] levels_map(s0).insert(
            price,
            volume,
        ).contains_key(q) by {
        if levels_map(s1).contains_key(q) {
            let k = choose|k: int| 0 <= k < s1.len() && (#[trigger] s1[k]).0 == q;
            if k != i {
                if updated {
                    assert(s0[k].0 == q);
                } else if k < i {
                    assert(s0[k].0 == q);
                } else {
                    assert(s0[k - 1].0 == q);
                }
            }
        }
        if q != price && levels_map(s0).contains_key(q) {
            let k = choose|k: int| 0 <= k < s0.len() && (#[trigger] s0[k]).0 == q;
            if updated {
                if k != i {
                    assert(s1[k].0 == q);
                } else {
                    assert(q == price);
                }
            } else {
                if k < i {
                    assert(s1[k].0 == q);
                } else {
                    assert(s1[k + 1].0 == q);
                }
            }
        }
        if q == price {
            assert(s1[i].0 == q);
        }
    }
    assert forall|q: u64| levels_map(s1).contains_key(q) implies levels_map(s1)[q] == levels_map(
        s0,
    ).insert(price, volume)[q] by {
        let k = choose|k: int| 0 <= k < s1.len() && (#[trigger] s1[k]).0 == q;
        lemma_level_at(s1, k);
        if k == i {
            assert(levels_map(s1)[q] == volume);
        } else {
            if updated {
                lemma_level_at(s0, k);
                if q == price {
                    if k < i {
                        assert(s1[k].0 < s1[i].0);
                    } else {
                        assert(s1[i].0 < s1[k].0);
                    }
                }
            } else {
                if k < i {
                    lemma_level_at(s0, k);
                } else {
                    lemma_level_at(s0, k - 1);
                }
                if q == price {
                    if k < i {
                        assert(s1[k].0 < s1[i].0);
                    } else {
                        assert(s1[i].0 < s1[k].0);
                    }
                }
            }
        }
    }
    assert(levels_map(s1) =~= levels_map(s0).insert(price, volume));
}

/// `k` is the lowest price present in `m`.
pub open spec fn is_min_key(m: Map<u64, u64>, k: u64) -> bool {
    m.contains_key(k) && forall|j: u64| m.contains_key(j) ==> k <= j
}

/// `k` is the highest price present in `m`.
pub open spec fn is_max_key(m: Map<u64, u64>, k: u64) -> bool {
    m.contains_key(k) && forall|j: u64| m.contains_key(j) ==> j <= k
}

/// The lowest price present in `m`, or nothing if `m` is empty.
pub open spec fn spec_min_key(m: Map<u64, u64>) -> Option<u64> {
    if exists|k: u64| is_min_key(m, k) {
        Some(choose|k: u64| is_min_key(m, k))
    } else {
        None
    }
}

/// The highest price present in `m`, or nothing if `m` is empty.
pub open spec fn spec_max_key(m: Map<u64, u64>) -> Option<u64> {
    if exists|k: u64| is_max_key(m, k) {
        Some(choose|k: u64| is_max_key(m, k))
    } else {
        None
    }
}

/// Two lowest prices are equal, so any witness settles `spec_min_key`.
pub proof fn lemma_min_key_unique(m: Map<u64, u64>, k: u64)
    requires
        is_min_key(m, k),
    ensures
        spec_min_key(m) == Some(k),
{
    let k2 = choose|x: u64| is_min_key(m, x);
    assert(k2 <= k && k <= k2);
}

/// Two highest prices are equal, so any witness settles `spec_max_key`.
pub proof fn lemma_max_key_unique(m: Map<u64, u64>, k: u64)
    requires
        is_max_key(m, k),
    ensures
        spec_max_key(m) == Some(k),
{
    let k2 = choose|x: u64| is_max_key(m, x);
    assert(k2 <= k && k <= k2);
}

/// A side holding any price at all holds a lowest one.
pub proof fn lemma_nonempty_has_min(m: Map<u64, u64>, j: u64)
    requires
        m.contains_key(j),
    ensures
        spec_min_key(m) is Some,
    decreases j,
{
    if exists|x: u64| x < j && m.contains_key(x) {
        let x = choose|x: u64| x < j && m.contains_key(x);
        lemma_nonempty_has_min(m, x);
    } else {
        assert forall|y: u64| m.contains_key(y) implies j <= y by {
            if y < j {
                assert(y < j && m.contains_key(y));
            }
        }
        assert(is_min_key(m, j));
        lemma_min_key_unique(m, j);
    }
}

/// A side holding any price at all holds a highest one.
pub proof fn lemma_nonempty_has_max(m: Map<u64, u64>, j: u64)
    requires
        m.contains_key(j),
    ensures
        spec_max_key(m) is Some,
    decreases u64::MAX - j,
{
    if exists|x: u64| x > j && m.contains_key(x) {
        let x = choose|x: u64| x > j && m.contains_key(x);
        lemma_nonempty_has_max(m, x);
    } else {
        assert forall|y: u64| m.contains_key(y) implies y <= j by {
            if y > j {
                assert(y > j && m.contains_key(y));
            }
        }
        assert(is_max_key(m, j));
        lemma_max_key_unique(m, j);
    }
}

impl BookSide {
    /// The side's lowest price, or nothing if the side is empty.
    pub fn min_price(&self) -> (r: Option<u64>)
        requires
            self.wf(),
        ensures
            r == spec_min_key(self@),
    {
        if self.levels.len() == 0 {
            proof {
                assert forall|k: u64| !is_min_key(self@, k) by {
                    assert(!self@.contains_key(k));
                }
            }
            None
        } else {
            let p = self.levels[0].0;
            proof {
                lemma_level_at(self.levels@, 0);
                assert forall|j: u64| self@.contains_key(j) implies p <= j by {
                    let k = choose|k: int|
                        0 <= k < self.levels@.len() && (#[trigger] self.levels@[k]).0 == j;
                    if k > 0 {
                        assert(self.levels@[0].0 < self.levels@[k].0);
                    }
                }
                lemma_min_key_unique(self@, p);
            }
            Some(p)
        }
    }

    /// The side's highest price, or nothing if the side is empty.
    pub fn max_price(&self) -> (r: Option<u64>)
        requires
            self.wf(),
        ensures
            r == spec_max_key(self@),
    {
        if self.levels.len() == 0 {
            proof {
                assert forall|k: u64| !is_max_key(self@, k) by {
                    assert(!self@.contains_key(k));
                }
            }
            None
        } else {
            let n = self.levels.len();
            let p = self.levels[n - 1].0;
            proof {
                lemma_level_at(self.levels@, n - 1);
                assert forall|j: u64| self@.contains_key(j) implies j <= p by {
                    let k = choose|k: int|
                        0 <= k < self.levels@.len() && (#[trigger] self.levels@[k]).0 == j;
                    if k < n - 1 {
                        assert(self.levels@[k].0 < self.levels@[n - 1].0);
                    }
                }
                lemma_max_key_unique(self@, p);
            }
            Some(p)
        }
    }
}

/// One side and its cached best after one ask instruction: `New` upserts
/// the row and improves the cached best in O(1) when the price beats it;
/// `Change` upserts the row without touching the cached best; `Delete`
/// drops the row and rescans the side's extreme only when the dropped price
/// was the cached best.
pub open spec fn spec_ask_step(
    state: (Map<u64, u64>, Option<u64>),
    d: OrderBookDelta,
) -> (Map<u64, u64>, Option<u64>) {
    let (m, best) = state;
    match d.0 {
        Delta::New => (
            m.insert(d.1, d.2),
            match best {
                None => Some(d.1),
                Some(b) => if d.1 < b {
                    Some(d.1)
                } else {
                    best
                },
            },
        ),
        Delta::Change => (m.insert(d.1, d.2), best),
        Delta::Delete => {
            let m2 = m.remove(d.1);
            (
                m2,
                if best == Some(d.1) {
                    spec_min_key(m2)
                } else {
                    best
                },
            )
        },
    }
}

/// Mirror of [`spec_ask_step`] for the bid side: a higher bid improves the
/// best, and a delete of the best rescans for the highest remaining bid.
pub open spec fn spec_bid_step(
    state: (Map<u64, u64>, Option<u64>),
    d: OrderBookDelta,
) -> (Map<u64, u64>, Option<u64>) {
    let (m, best) = state;
    match d.0 {
        Delta::New => (
            m.insert(d.1, d.2),
            match best {
                None => Some(d.1),
                Some(b) => if d.1 > b {
                    Some(d.1)
                } else {
                    best
                },
            },
        ),
        Delta::Change => (m.insert(d.1, d.2), best),
        Delta::Delete => {
            let m2 = m.remove(d.1);
            (
                m2,
                if best == Some(d.1) {
                    spec_max_key(m2)
                } else {
                    best
                },
            )
        },
    }
}

/// The ask side after a whole batch of instructions, applied in order.
pub open spec fn spec_ask_apply(
    state: (Map<u64, u64>, Option<u64>),
    ds: Seq<OrderBookDelta>,
) -> (Map<u64, u64>, Option<u64>)
    decreases ds.len(),
{
    if ds.len() == 0 {
        state
    } else {
        spec_ask_apply(spec_ask_step(state, ds[0]), ds.subrange(1, ds.len() as int))
    }
}

/// The bid side after a whole batch of instructions, applied in order.
pub open spec fn spec_bid_apply(
    state: (Map<u64, u64>, Option<u64>),
    ds: Seq<OrderBookDelta>,
) -> (Map<u64, u64>, Option<u64>)
    decreases ds.len(),
{
    if ds.len() == 0 {
        state
    } else {
        spec_bid_apply(spec_bid_step(state, ds[0]), ds.subrange(1, ds.len() as int))
    }
}

/// A side map after upserting every row of a snapshot, tags ignored.
pub open spec fn spec_upsert_all(m: Map<u64, u64>, ds: Seq<OrderBookDelta>) -> Map<u64, u64>
    decreases ds.len(),
{
    if ds.len() == 0 {
        m
    } else {
        spec_upsert_all(m.insert(ds[0].1, ds[0].2), ds.subrange(1, ds.len() as int))
    }
}

proof fn lemma_ask_apply_snoc(
    state: (Map<u64, u64>, Option<u64>),
    ds: Seq<OrderBookDelta>,
    d: OrderBookDelta,
)
    ensures
        spec_ask_apply(state, ds.push(d)) == spec_ask_step(spec_ask_apply(state, ds), d),
    decreases ds.len(),
{
    if ds.len() == 0 {
        reveal_with_fuel(spec_ask_apply, 2);
        assert(ds.push(d)[0] == d);
        assert(ds.push(d).subrange(1, 1) =~= Seq::<OrderBookDelta>::empty());
    } else {
        assert(ds.push(d)[0] == ds[0]);
        assert(ds.push(d).subrange(1, ds.len() as int + 1) =~= ds.subrange(1, ds.len() as int).push(d));
        lemma_ask_apply_snoc(spec_ask_step(state, ds[0]), ds.subrange(1, ds.len() as int), d);
    }
}

proof fn lemma_bid_apply_snoc(
    state: (Map<u64, u64>, Option<u64>),
    ds: Seq<OrderBookDelta>,
    d: OrderBookDelta,
)
    ensures
        spec_bid_apply(state, ds.push(d)) == spec_bid_step(spec_bid_apply(state, ds), d),
    decreases ds.len(),
{
    if ds.len() == 0 {
        reveal_with_fuel(spec_bid_apply, 2);
        assert(ds.push(d)[0] == d);
        assert(ds.push(d).subrange(1, 1) =~= Seq::<OrderBookDelta>::empty());
    } else {
        assert(ds.push(d)[0] == ds[0]);
        assert(ds.push(d).subrange(1, ds.len() as int + 1) =~= ds.subrange(1, ds.len() as int).push(d));
        lemma_bid_apply_snoc(spec_bid_step(state, ds[0]), ds.subrange(1, ds.len() as int), d);
    }
}

proof fn lemma_upsert_all_snoc(m: Map<u64, u64>, ds: Seq<OrderBookDelta>, d: OrderBookDelta)
    ensures
        spec_upsert_all(m, ds.push(d)) == spec_upsert_all(m, ds).insert(d.1, d.2),
    decreases ds.len(),
{
    if ds.len() == 0 {
        reveal_with_fuel(spec_upsert_all, 2);
        assert(ds.push(d)[0] == d);
        assert(ds.push(d).subrange(1, 1) =~= Seq::<OrderBookDelta>::empty());
    } else {
        assert(ds.push(d)[0] == ds[0]);
        assert(ds.push(d).subrange(1, ds.len() as int + 1) =~= ds.subrange(1, ds.len() as int).push(d));
        lemma_upsert_all_snoc(m.insert(ds[0].1, ds[0].2), ds.subrange(1, ds.len() as int), d);
    }
}

/// The spread is best ask minus best bid, absent while either side has no
/// best.
pub open spec fn spec_spread(ask: Option<u64>, bid: Option<u64>) -> Option<i128> {
    match (ask, bid) {
        (Some(a), Some(b)) => Some((a - b) as i128),
        _ => None,
    }
}

/// The reconstructed book for one instrument. `ask` and `bid` cache the
/// best (lowest ask, highest bid) price of their side, `None` while the
/// side is empty; `spread` is `ask - bid`, recomputed after every batch.
#[derive(Debug)]
pub struct OrderBook {
    pub ask: Option<u64>,
    pub bid: Option<u64>,
    pub spread: Option<i128>,
    pub asks: BookSide,
    pub bids: BookSide,
}

impl OrderBook {
    /// Both sides keep their levels strictly price-ascending.
    pub open spec fn wf(self) -> bool {
        self.asks.wf() && self.bids.wf()
    }

    /// An empty book: no levels, no best prices, no spread.
    pub fn new() -> (book: OrderBook)
        ensures
            book.wf(),
            book.ask == None::<u64>,
            book.bid == None::<u64>,
            book.spread == None::<i128>,
            book.asks@ == Map::<u64, u64>::empty(),
            book.bids@ == Map::<u64, u64>::empty(),
    {
        OrderBook {
            ask: None,
            bid: None,
            spread: None,
            asks: BookSide::new(),
            bids: BookSide::new(),
        }
    }

    /// Load the initial snapshot: every row of both sides is inserted
    /// unconditionally, tags ignored, and the best prices are computed
    /// afresh as the extremes of the loaded sides; then the spread. Used
    /// once, on the first message after subscribing.
    pub fn load(&mut self, book_data: &BookData)
        requires
            old(self).wf(),
        ensures
            final(self).wf(),
            final(self).asks@ == spec_upsert_all(old(self).asks@, book_data.asks@),
            final(self).bids@ == spec_upsert_all(old(self).bids@, book_data.bids@),
            final(self).ask == spec_min_key(final(self).asks@),
            final(self).bid == spec_max_key(final(self).bids@),
            final(self).spread == spec_spread(final(self).ask, final(self).bid),
    {
        let n = book_data.asks.len();
        let mut i: usize = 0;
        while i < n
            invariant
                self.wf(),
                n == book_data.asks@.len(),
                i <= n,
                self.asks@ == spec_upsert_all(old(self).asks@, book_data.asks@.subrange(0, i as int)),
                self.bids == old(self).bids,
            decreases n - i,
        {
            let d = book_data.asks[i];
            self.asks.upsert(d.1, d.2);
            proof {
                lemma_upsert_all_snoc(
                    old(self).asks@,
                    book_data.asks@.subrange(0, i as int),
                    d,
                );
                assert(book_data.asks@.subrange(0, i + 1) =~= book_data.asks@.subrange(
                    0,
                    i as int,
                ).push(d));
            }
            i = i + 1;
        }
        proof {
            assert(book_data.asks@.subrange(0, n as int) =~= book_data.asks@);
        }
        let m = book_data.bids.len();
        let mut j: usize = 0;
        while j < m
            invariant
                self.wf(),
                m == book_data.bids@.len(),
                j <= m,
                self.asks@ == spec_upsert_all(old(self).asks@, book_data.asks@),
                self.bids@ == spec_upsert_all(old(self).bids@, book_data.bids@.subrange(0, j as int)),
            decreases m - j,
        {
            let d = book_data.bids[j];
            self.bids.upsert(d.1, d.2);
            proof {
                lemma_upsert_all_snoc(
                    old(self).bids@,
                    book_data.bids@.subrange(0, j as int),
                    d,
                );
                assert(book_data.bids@.subrange(0, j + 1) =~= book_data.bids@.subrange(
                    0,
                    j as int,
                ).push(d));
            }
            j = j + 1;
        }
        proof {
            assert(book_data.bids@.subrange(0, m as int) =~= book_data.bids@);
        }
        self.ask = self.asks.min_price();
        self.bid = self.bids.max_price();
        self.spread = match (self.ask, self.bid) {
            (Some(a), Some(b)) => Some(a as i128 - b as i128),
            _ => None,
        };
    }

    /// Apply one delta batch: each ask instruction in order, each bid
    /// instruction in order — see [`spec_ask_step`] for how a single
    /// instruction moves the side and its cached best — then recompute the
    /// spread. Instructions for absent prices are tolerated: `Change`
    /// upserts and `Delete` is a no-op.
    pub fn update(&mut self, book_data: &BookData)
        requires
            old(self).wf(),
        ensures
            final(self).wf(),
            (final(self).asks@, final(self).ask) == spec_ask_apply(
                (old(self).asks@, old(self).ask),
                book_data.asks@,
            ),
            (final(self).bids@, final(self).bid) == spec_bid_apply(
                (old(self).bids@, old(self).bid),
                book_data.bids@,
            ),
            final(self).spread == spec_spread(final(self).ask, final(self).bid),
    {
        let n = book_data.asks.len();
        let mut i: usize = 0;
        while i < n
            invariant
                self.wf(),
                n == book_data.asks@.len(),
                i <= n,
                (self.asks@, self.ask) == spec_ask_apply(
                    (old(self).asks@, old(self).ask),
                    book_data.asks@.subrange(0, i as int),
                ),
                self.bids == old(self).bids,
                self.bid == old(self).bid,
            decreases n - i,
        {
            let d = book_data.asks[i];
            let ghost st = (self.asks@, self.ask);
            match d.0 {
                Delta::New => {
                    self.asks.upsert(d.1, d.2);
                    let improves = match self.ask {
                        None => true,
                        Some(b) => d.1 < b,
                    };
                    if improves {
                        self.ask = Some(d.1);
                    }
                },
                Delta::Change => {
                    self.asks.upsert(d.1, d.2);
                },
                Delta::Delete => {
                    self.asks.remove(d.1);
                    let was_best = match self.ask {
                        Some(b) => b == d.1,
                        None => false,
                    };
                    if was_best {
                        self.ask = self.asks.min_price();
                    }
                },
            }
            proof {
                assert((self.asks@, self.ask) == spec_ask_step(st, d));
                lemma_ask_apply_snoc(
                    (old(self).asks@, old(self).ask),
                    book_data.asks@.subrange(0, i as int),
                    d,
                );
                assert(book_data.asks@.subrange(0, i + 1) =~= book_data.asks@.subrange(
                    0,
                    i as int,
                ).push(d));
            }
            i = i + 1;
        }
        proof {
            assert(book_data.asks@.subrange(0, n as int) =~= book_data.asks@);
        }
        let m = book_data.bids.len();
        let mut j: usize = 0;
        while j < m
            invariant
                self.wf(),
                m == book_data.bids@.len(),
                j <= m,
                (self.asks@, self.ask) == spec_ask_apply(
                    (old(self).asks@, old(self).ask),
                    book_data.asks@,
                ),
                (self.bids@, self.bid) == spec_bid_apply(
                    (old(self).bids@, old(self).bid),
                    book_data.bids@.subrange(0, j as int),
                ),
            decreases m - j,
        {
            let d = book_data.bids[j];
            let ghost st = (self.bids@, self.bid);
            match d.0 {
                Delta::New => {
                    self.bids.upsert(d.1, d.2);
                    let improves = match self.bid {
                        None => true,
                        Some(b) => d.1 > b,
                    };
                    if improves {
                        self.bid = Some(d.1);
                    }
                },
                Delta::Change => {
                    self.bids.upsert(d.1, d.2);
                },
                Delta::Delete => {
                    self.bids.remove(d.1);
                    let was_best = match self.bid {
                        Some(b) => b == d.1,
                        None => false,
                    };
                    if was_best {
                        self.bid = self.bids.max_price();
                    }
                },
            }
            proof {
                assert((self.bids@, self.bid) == spec_bid_step(st, d));
                lemma_bid_apply_snoc(
                    (old(self).bids@, old(self).bid),
                    book_data.bids@.subrange(0, j as int),
                    d,
                );
                assert(book_data.bids@.subrange(0, j + 1) =~= book_data.bids@.subrange(
                    0,
                    j as int,
                ).push(d));
            }
            j = j + 1;
        }
        proof {
            assert(book_data.bids@.subrange(0, m as int) =~= book_data.bids@);
        }
        self.spread = match (self.ask, self.bid) {
            (Some(a), Some(b)) => Some(a as i128 - b as i128),
            _ => None,
        };
    }
}

/// A side without a lowest price holds no price at all.
proof fn lemma_no_min_no_keys(m: Map<u64, u64>)
    requires
        spec_min_key(m) is None,
    ensures
        forall|j: u64| !m.contains_key(j),
{
    assert forall|j: u64| !m.contains_key(j) by {
        if m.contains_key(j) {
            lemma_nonempty_has_min(m, j);
        }
    }
}

/// A side without a highest price holds no price at all.
proof fn lemma_no_max_no_keys(m: Map<u64, u64>)
    requires
        spec_max_key(m) is None,
    ensures
        forall|j: u64| !m.contains_key(j),
{
    assert forall|j: u64| !m.contains_key(j) by {
        if m.contains_key(j) {
            lemma_nonempty_has_max(m, j);
        }
    }
}

/// One `New` or `Delete` ask instruction keeps the cached best equal to the
/// side's true minimum.
proof fn lemma_ask_step_tracks(m: Map<u64, u64>, best: Option<u64>, d: OrderBookDelta)
    requires
        best == spec_min_key(m),
        d.0 != Delta::Change,
    ensures
        spec_ask_step((m, best), d).1 == spec_min_key(spec_ask_step((m, best), d).0),
{
    let p = d.1;
    match d.0 {
        Delta::New => {
            let m2 = m.insert(p, d.2);
            match best {
                None => {
                    lemma_no_min_no_keys(m);
                    assert(is_min_key(m2, p));
                    lemma_min_key_unique(m2, p);
                },
                Some(b) => {
                    assert(is_min_key(m, b));
                    if p < b {
                        assert(is_min_key(m2, p));
                        lemma_min_key_unique(m2, p);
                    } else {
                        assert(m2.contains_key(b));
                        assert(is_min_key(m2, b));
                        lemma_min_key_unique(m2, b);
                    }
                },
            }
        },
        Delta::Change => {},
        Delta::Delete => {
            let m2 = m.remove(p);
            if best == Some(p) {
            } else {
                match best {
                    None => {
                        lemma_no_min_no_keys(m);
                        assert forall|k: u64| !is_min_key(m2, k) by {
                            assert(!m.contains_key(k));
                        }
                    },
                    Some(b) => {
                        assert(is_min_key(m, b));
                        assert(is_min_key(m2, b));
                        lemma_min_key_unique(m2, b);
                    },
                }
            }
        },
    }
}

/// One `New` or `Delete` bid instruction keeps the cached best equal to the
/// side's true maximum.
proof fn lemma_bid_step_tracks(m: Map<u64, u64>, best: Option<u64>, d: OrderBookDelta)
    requires
        best == spec_max_key(m),
        d.0 != Delta::Change,
    ensures
        spec_bid_step((m, best), d).1 == spec_max_key(spec_bid_step((m, best), d).0),
{
    let p = d.1;
    match d.0 {
        Delta::New => {
            let m2 = m.insert(p, d.2);
            match best {
                None => {
                    lemma_no_max_no_keys(m);
                    assert(is_max_key(m2, p));
                    lemma_max_key_unique(m2, p);
                },
                Some(b) => {
                    assert(is_max_key(m, b));
                    if p > b {
                        assert(is_max_key(m2, p));
                        lemma_max_key_unique(m2, p);
                    } else {
                        assert(m2.contains_key(b));
                        assert(is_max_key(m2, b));
                        lemma_max_key_unique(m2, b);
                    }
                },
            }
        },
        Delta::Change => {},
        Delta::Delete => {
            let m2 = m.remove(p);
            if best == Some(p) {
            } else {
                match best {
                    None => {
                        lemma_no_max_no_keys(m);
                        assert forall|k: u64| !is_max_key(m2, k) by {
                            assert(!m.contains_key(k));
                        }
                    },
                    Some(b) => {
                        assert(is_max_key(m, b));
                        assert(is_max_key(m2, b));
                        lemma_max_key_unique(m2, b);
                    },
                }
            }
        },
    }
}

/// Law: over any batch free of `Change` instructions — so any run of `New`
/// rows and `Delete`s, in any order — the cached best ask stays the side's
/// true minimum price. In particular, after `New` rows followed by a
/// `Delete` of the current best, the engine's cached best is the lowest
/// remaining price: the next-best is recomputed correctly.
pub proof fn lemma_best_ask_tracks_min(
    m: Map<u64, u64>,
    best: Option<u64>,
    ds: Seq<OrderBookDelta>,
)
    requires
        best == spec_min_key(m),
        forall|i: int| 0 <= i < ds.len() ==> (#[trigger] ds[i]).0 != Delta::Change,
    ensures
        spec_ask_apply((m, best), ds).1 == spec_min_key(spec_ask_apply((m, best), ds).0),
    decreases ds.len(),
{
    if ds.len() > 0 {
        lemma_ask_step_tracks(m, best, ds[0]);
        let (m1, b1) = spec_ask_step((m, best), ds[0]);
        lemma_best_ask_tracks_min(m1, b1, ds.subrange(1, ds.len() as int));
    }
}

/// Law: a batch of only `Change` instructions rewrites the ask side's
/// volumes — the side ends as the plain upsert of every row — but never
/// moves the cached best ask.
pub proof fn lemma_change_only_keeps_best_ask(
    m: Map<u64, u64>,
    best: Option<u64>,
    ds: Seq<OrderBookDelta>,
)
    requires
        forall|i: int| 0 <= i < ds.len() ==> (#[trigger] ds[i]).0 == Delta::Change,
    ensures
        spec_ask_apply((m, best), ds).1 == best,
        spec_ask_apply((m, best), ds).0 == spec_upsert_all(m, ds),
    decreases ds.len(),
{
    if ds.len() > 0 {
        lemma_change_only_keeps_best_ask(
            m.insert(ds[0].1, ds[0].2),
            best,
            ds.subrange(1, ds.len() as int),
        );
    }
}

/// Law: a batch of only `Change` instructions rewrites the bid side's
/// volumes — the side ends as the plain upsert of every row — but never
/// moves the cached best bid.
pub proof fn lemma_change_only_keeps_best_bid(
    m: Map<u64, u64>,
    best: Option<u64>,
    ds: Seq<OrderBookDelta>,
)
    requires
        forall|i: int| 0 <= i < ds.len() ==> (#[trigger] ds[i]).0 == Delta::Change,
    ensures
        spec_bid_apply((m, best), ds).1 == best,
        spec_bid_apply((m, best), ds).0 == spec_upsert_all(m, ds),
    decreases ds.len(),
{
    if ds.len() > 0 {
        lemma_change_only_keeps_best_bid(
            m.insert(ds[0].1, ds[0].2),
            best,
            ds.subrange(1, ds.len() as int),
        );
    }
}

/// Law: mirror of [`lemma_best_ask_tracks_min`] for the bid side — over any
/// `Change`-free batch the cached best bid stays the side's true maximum,
/// so deleting the best bid recomputes the next-best correctly.
pub proof fn lemma_best_bid_tracks_max(
    m: Map<u64, u64>,
    best: Option<u64>,
    ds: Seq<OrderBookDelta>,
)
    requires
        best == spec_max_key(m),
        forall|i: int| 0 <= i < ds.len() ==> (#[trigger] ds[i]).0 != Delta::Change,
    ensures
        spec_bid_apply((m, best), ds).1 == spec_max_key(spec_bid_apply((m, best), ds).0),
    decreases ds.len(),
{
    if ds.len() > 0 {
        lemma_bid_step_tracks(m, best, ds[0]);
        let (m1, b1) = spec_bid_step((m, best), ds[0]);
        lemma_best_bid_tracks_max(m1, b1, ds.subrange(1, ds.len() as int));
    }
}

} // verus!
