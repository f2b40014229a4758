//! Trade stream aggregation into OHLCV candle series.
//!
//! A [`TradeLog`] fans every incoming trade out to one candle chart per
//! registered [`Resolution`]. Each chart is a time-ordered series of
//! [`Candle`] buckets; only the most recent candle of a chart is mutable,
//! and a trade past a candle's upper edge seals it and opens a successor.

use vstd::arithmetic::div_mod::{
    lemma_div_is_ordered, lemma_div_multiples_vanish, lemma_fundamental_div_mod,
    lemma_mod_division_less_than_divisor,
};
use vstd::prelude::*;

verus! {

/// Direction of the price move a trade caused, relative to the previous tick.
#[derive(Debug, Copy, Clone, PartialEq, Eq, Structural)]
pub enum TickDirection {
    PlusTick,
    ZeroPlusTick,
    MinusTick,
    ZeroMinusTick,
}

/// Taker side of a trade.
#[derive(Debug, Copy, Clone, PartialEq, Eq, Structural)]
pub enum Direction {
    Buy,
    Sell,
}

/// Candle bucket width, ordered by duration.
#[derive(Debug, Copy, Clone, PartialEq, Eq, Structural, Hash)]
pub enum Resolution {
    Minute1,
    Minute3,
    Minute5,
    Minute10,
    Minute15,
    Minute30,
    Hour1,
    Hour2,
    Hour3,
    Hour4,
    Hour6,
    Hour12,
    Day1,
}

impl Resolution {
    /// Bucket width in minutes.
    pub open spec fn spec_minutes(self) -> u64 {
        match self {
            Resolution::Minute1 => 1,
            Resolution::Minute3 => 3,
            Resolution::Minute5 => 5,
            Resolution::Minute10 => 10,
            Resolution::Minute15 => 15,
            Resolution::Minute30 => 30,
            Resolution::Hour1 => 60,
            Resolution::Hour2 => 120,
            Resolution::Hour3 => 180,
            Resolution::Hour4 => 240,
            Resolution::Hour6 => 360,
            Resolution::Hour12 => 720,
            Resolution::Day1 => 1440,
        }
    }

    /// Bucket width in minutes.
    pub fn minutes(&self) -> (m: u64)
        ensures
            m == self.spec_minutes(),
    {
        match self {
            Resolution::Minute1 => 1,
            Resolution::Minute3 => 3,
            Resolution::Minute5 => 5,
            Resolution::Minute10 => 10,
            Resolution::Minute15 => 15,
            Resolution::Minute30 => 30,
            Resolution::Hour1 => 60,
            Resolution::Hour2 => 120,
            Resolution::Hour3 => 180,
            Resolution::Hour4 => 240,
            Resolution::Hour6 => 360,
            Resolution::Hour12 => 720,
            Resolution::Day1 => 1440,
        }
    }
}

/// Every resolution is between one minute and one day wide.
pub proof fn lemma_minutes_bounds(r: Resolution)
    ensures
        1 <= r.spec_minutes() <= 1440,
{
}

/// One executed trade as the venue reports it. Prices are exact integer
/// minor units (cents); `timestamp` is milliseconds since the Unix epoch.
/// Immutable once constructed from wire data.
pub struct Trade {
    pub trade_seq: u64,
    pub trade_id: String,
    pub timestamp: u64,
    pub tick_direction: TickDirection,
    pub price: u64,
    pub mark_price: u64,
    pub instrument_name: String,
    pub index_price: u64,
    pub direction: Direction,
    pub amount: u64,
}

impl Trade {
    /// A trade with every field at its neutral value.
    pub fn new() -> (t: Trade)
        ensures
            t.trade_seq == 0,
            t.trade_id@ == "0"@,
            t.timestamp == 0,
            t.tick_direction == TickDirection::PlusTick,
            t.price == 0,
            t.mark_price == 0,
            t.instrument_name@ == ""@,
            t.index_price == 0,
            t.direction == Direction::Sell,
            t.amount == 0,
    {
        Trade {
            trade_seq: 0,
            trade_id: "0".to_owned(),
            timestamp: 0,
            tick_direction: TickDirection::PlusTick,
            price: 0,
            mark_price: 0,
            instrument_name: "".to_owned(),
            index_price: 0,
            direction: Direction::Sell,
            amount: 0,
        }
    }
}

/// One OHLCV bucket. `duration` is the bucket width in seconds;
/// `start_timestamp` is the bucket's start, aligned by [`spec_align`].
/// `cost` accumulates the traded amount; `volume` is reserved and stays 0.
#[derive(Debug, Copy, Clone, PartialEq, Eq, Structural)]
pub struct Candle {
    pub duration: u64,
    pub start_timestamp: u64,
    pub open: u64,
    pub high: u64,
    pub low: u64,
    pub close: u64,
    pub cost: u64,
    pub volume: u64,
}

/// Start of the bucket of width `duration_secs` that contains the
/// millisecond timestamp: the timestamp is truncated to whole seconds,
/// rounded down to a multiple of the width, and scaled back to
/// milliseconds. Buckets are fixed-size, non-overlapping windows anchored
/// at the Unix epoch.
pub open spec fn spec_align(duration_secs: int, timestamp_ms: int) -> int
    recommends
        duration_secs > 0,
{
    timestamp_ms / 1000 / duration_secs * duration_secs * 1000
}

/// An aligned bucket start never exceeds the timestamp it was derived from.
proof fn lemma_align_bounds(duration_secs: int, timestamp_ms: int)
    requires
        0 < duration_secs,
        0 <= timestamp_ms,
    ensures
        0 <= spec_align(duration_secs, timestamp_ms) <= timestamp_ms,
{
    let s = timestamp_ms / 1000;
    let q = s / duration_secs;
    lemma_fundamental_div_mod(timestamp_ms, 1000);
    lemma_mod_division_less_than_divisor(timestamp_ms, 1000);
    lemma_fundamental_div_mod(s, duration_secs);
    lemma_mod_division_less_than_divisor(s, duration_secs);
    assert(q * duration_secs == duration_secs * q) by (nonlinear_arith);
    assert(q >= 0 && q * duration_secs >= 0) by (nonlinear_arith)
        requires
            q == s / duration_secs,
            s >= 0,
            duration_secs > 0,
    ;
}

/// Aligning is monotone in the timestamp.
proof fn lemma_align_mono(duration_secs: int, a: int, b: int)
    requires
        0 < duration_secs,
        0 <= a <= b,
    ensures
        spec_align(duration_secs, a) <= spec_align(duration_secs, b),
{
    lemma_div_is_ordered(a, b, 1000);
    lemma_div_is_ordered(a / 1000, b / 1000, duration_secs);
    let qa = a / 1000 / duration_secs;
    let qb = b / 1000 / duration_secs;
    assert(qa * duration_secs * 1000 <= qb * duration_secs * 1000) by (nonlinear_arith)
        requires
            qa <= qb,
            duration_secs > 0,
    ;
}

/// Aligning an already aligned timestamp changes nothing.
proof fn lemma_align_idempotent(duration_secs: int, timestamp_ms: int)
    requires
        0 < duration_secs,
        0 <= timestamp_ms,
    ensures
        spec_align(duration_secs, spec_align(duration_secs, timestamp_ms)) == spec_align(
            duration_secs,
            timestamp_ms,
        ),
{
    let q = timestamp_ms / 1000 / duration_secs;
    let al = q * duration_secs * 1000;
    lemma_div_multiples_vanish(q * duration_secs, 1000);
    assert(al == 1000 * (q * duration_secs)) by (nonlinear_arith)
        requires
            al == q * duration_secs * 1000,
    ;
    assert(al / 1000 == q * duration_secs);
    lemma_div_multiples_vanish(q, duration_secs);
    assert(q * duration_secs == duration_secs * q) by (nonlinear_arith);
    assert(q * duration_secs / duration_secs == q);
}

/// A fresh candle of width `duration_secs`, seeded from `t` alone: all four
/// prices start at the trade's price and the cost at its amount.
pub open spec fn spec_seed(t: Trade, duration_secs: u64) -> Candle {
    Candle {
        duration: duration_secs,
        start_timestamp: spec_align(duration_secs as int, t.timestamp as int) as u64,
        open: t.price,
        high: t.price,
        low: t.price,
        close: t.price,
        cost: t.amount,
        volume: 0,
    }
}

/// Whether the candle is still the live bucket when a trade stamped
/// `timestamp_ms` arrives: it absorbs every trade strictly below its upper
/// edge `start_timestamp + duration` (a stamp before the start is tolerated
/// and absorbed as well).
pub open spec fn spec_in_window(c: Candle, timestamp_ms: u64) -> bool {
    timestamp_ms < c.start_timestamp + c.duration
}

/// The candle after absorbing one in-window trade: `open` is set only while
/// still at its zero sentinel, `low`/`high` stretch to cover the price,
/// `close` always becomes the price, and `cost` accumulates the amount.
pub open spec fn spec_absorb(c: Candle, t: Trade) -> Candle
    recommends
        c.cost + t.amount <= u64::MAX,
{
    Candle {
        open: if c.open == 0 {
            t.price
        } else {
            c.open
        },
        low: if c.low == 0 || c.low > t.price {
            t.price
        } else {
            c.low
        },
        high: if c.high < t.price {
            t.price
        } else {
            c.high
        },
        close: t.price,
        cost: (c.cost + t.amount) as u64,
        ..c
    }
}

impl Candle {
    /// An empty one-minute candle anchored at the epoch, every price at the
    /// zero sentinel.
    pub fn new() -> (c: Candle)
        ensures
            c == (Candle {
                duration: 60,
                start_timestamp: 0,
                open: 0,
                high: 0,
                low: 0,
                close: 0,
                cost: 0,
                volume: 0,
            }),
    {
        Candle {
            duration: 60,
            start_timestamp: 0,
            open: 0,
            high: 0,
            low: 0,
            close: 0,
            cost: 0,
            volume: 0,
        }
    }

    /// Bucket start for `timestamp` under a width of `duration_secs` seconds.
    pub fn align_to(duration_secs: u64, timestamp: u64) -> (aligned: u64)
        requires
            duration_secs > 0,
        ensures
            aligned == spec_align(duration_secs as int, timestamp as int),
            aligned <= timestamp,
    {
        let s: u64 = timestamp / 1000;
        let q: u64 = s / duration_secs;
        proof {
            lemma_fundamental_div_mod(s as int, duration_secs as int);
            lemma_mod_division_less_than_divisor(s as int, duration_secs as int);
            assert(q * duration_secs == duration_secs as int * (s as int / duration_secs as int))
                by (nonlinear_arith)
                requires
                    q == s as int / duration_secs as int,
            ;
            assert(q * duration_secs <= s);
            lemma_fundamental_div_mod(timestamp as int, 1000);
            lemma_mod_division_less_than_divisor(timestamp as int, 1000);
        }
        let b: u64 = q * duration_secs;
        b * 1000
    }

    /// Bucket start for a trade stamped `timestamp` under resolution `r`.
    pub fn _align_timestamp(r: Resolution, timestamp: u64) -> (aligned: u64)
        ensures
            aligned == spec_align(r.spec_minutes() * 60, timestamp as int),
            aligned <= timestamp,
    {
        let secs: u64 = r.minutes() * 60;
        Self::align_to(secs, timestamp)
    }

    /// A candle seeded from `t` alone, bucketed under resolution `r`.
    pub fn create(t: &Trade, r: &Resolution) -> (c: Candle)
        ensures
            c == spec_seed(*t, (r.spec_minutes() * 60) as u64),
    {
        let duration: u64 = r.minutes() * 60;
        Candle {
            duration,
            start_timestamp: Self::align_to(duration, t.timestamp),
            open: t.price,
            high: t.price,
            low: t.price,
            close: t.price,
            cost: t.amount,
            volume: 0,
        }
    }

    /// Absorb `t` if it falls below the candle's upper edge. Otherwise the
    /// candle is sealed — left exactly as it was — and the successor candle
    /// of the same width, seeded from `t` alone, is handed back.
    pub fn update(&mut self, t: &Trade) -> (r: Result<(), Candle>)
        requires
            old(self).duration > 0,
            spec_in_window(*old(self), t.timestamp) ==> old(self).cost + t.amount <= u64::MAX,
        ensures
            spec_in_window(*old(self), t.timestamp) ==> r == Ok::<(), Candle>(()) && *final(self)
                == spec_absorb(*old(self), *t),
            !spec_in_window(*old(self), t.timestamp) ==> r == Err::<(), Candle>(
                spec_seed(*t, old(self).duration),
            ) && *final(self) == *old(self),
    {
        if t.timestamp >= self.duration && t.timestamp - self.duration >= self.start_timestamp {
            Err(Candle {
                duration: self.duration,
                start_timestamp: Self::align_to(self.duration, t.timestamp),
                open: t.price,
                high: t.price,
                low: t.price,
                close: t.price,
                cost: t.amount,
                volume: 0,
            })
        } else {
            if self.open == 0 {
                self.open = t.price;
            }
            if self.low == 0 || self.low > t.price {
                self.low = t.price;
            }
            if self.high < t.price {
                self.high = t.price;
            }
            self.close = t.price;
            self.cost = self.cost + t.amount;
            Ok(())
        }
    }
}

/// A candle's prices are in sound OHLC order, with a strictly positive low.
pub open spec fn spec_prices_ordered(c: Candle) -> bool {
    &&& 0 < c.low
    &&& c.low <= c.open
    &&& c.open <= c.high
    &&& c.low <= c.close
    &&& c.close <= c.high
}

/// The candle after absorbing a whole sequence of trades, in order.
pub open spec fn spec_absorb_all(c: Candle, ts: Seq<Trade>) -> Candle
    decreases ts.len(),
{
    if ts.len() == 0 {
        c
    } else {
        spec_absorb_all(spec_absorb(c, ts[0]), ts.subrange(1, ts.len() as int))
    }
}

/// Absorbing one positive-priced trade keeps a candle's prices ordered.
proof fn lemma_absorb_keeps_order(c: Candle, t: Trade)
    requires
        spec_prices_ordered(c),
        t.price > 0,
    ensures
        spec_prices_ordered(spec_absorb(c, t)),
{
}

/// Law: a candle seeded from a positive-priced trade and grown by any
/// sequence of positive-priced trades keeps `low <= open <= high` and
/// `low <= close <= high`. In particular every candle a seal freezes — it
/// was seeded and then only absorbed trades — satisfies those bounds. (A
/// zero price is left out: it collides with the open/low sentinel.)
pub proof fn lemma_sealed_candle_ordered(seed_trade: Trade, duration_secs: u64, ts: Seq<Trade>)
    requires
        seed_trade.price > 0,
        forall|i: int| 0 <= i < ts.len() ==> (#[trigger] ts[i]).price > 0,
    ensures
        ({
            let c = spec_absorb_all(spec_seed(seed_trade, duration_secs), ts);
            c.low <= c.open && c.open <= c.high && c.low <= c.close && c.close <= c.high
        }),
{
    lemma_absorb_all_keeps_order(spec_seed(seed_trade, duration_secs), ts);
}

/// Induction step for [`lemma_sealed_candle_ordered`] over the trade list.
proof fn lemma_absorb_all_keeps_order(c: Candle, ts: Seq<Trade>)
    requires
        spec_prices_ordered(c),
        forall|i: int| 0 <= i < ts.len() ==> (#[trigger] ts[i]).price > 0,
    ensures
        spec_prices_ordered(spec_absorb_all(c, ts)),
    decreases ts.len(),
{
    if ts.len() > 0 {
        lemma_absorb_keeps_order(c, ts[0]);
        lemma_absorb_all_keeps_order(spec_absorb(c, ts[0]), ts.subrange(1, ts.len() as int));
    }
}

/// One resolution's candle series, ordered by bucket start ascending; the
/// last candle is the only mutable one.
pub type TradeCandleChart = Vec<Candle>;

/// Trade history plus one candle chart per registered resolution. A chart
/// is created lazily on first registration and lives for the life of the
/// log; trades that arrive before a resolution is registered are not
/// aggregated for it.
pub struct TradeLog {
    pub trade_log: Vec<Trade>,
    pub observers: Vec<(Resolution, TradeCandleChart)>,
}

/// Overflow guard for one chart: if the trade lands in the live candle, the
/// candle's cumulative cost must have room for the trade's amount.
pub open spec fn chart_can_absorb(chart: Seq<Candle>, t: Trade) -> bool {
    chart.len() > 0 && spec_in_window(chart.last(), t.timestamp) ==> chart.last().cost + t.amount
        <= u64::MAX
}

/// One chart after one trade: an empty chart gets its first candle, seeded
/// under the chart's resolution; a trade below the live candle's upper edge
/// is absorbed in place; any other trade seals the live candle and appends
/// the successor, seeded from that trade alone.
pub open spec fn spec_chart_step(chart: Seq<Candle>, r: Resolution, t: Trade) -> Seq<Candle> {
    if chart.len() == 0 {
        seq![spec_seed(t, (r.spec_minutes() * 60) as u64)]
    } else if spec_in_window(chart.last(), t.timestamp) {
        chart.update(chart.len() - 1, spec_absorb(chart.last(), t))
    } else {
        chart.push(spec_seed(t, chart.last().duration))
    }
}

/// Chart invariant under resolution `r`: every candle has the resolution's
/// width, every start is aligned to that width, and the series is ordered
/// by start ascending.
pub open spec fn chart_wf(chart: Seq<Candle>, r: Resolution) -> bool {
    &&& forall|k: int|
        0 <= k < chart.len() ==> (#[trigger] chart[k]).duration == r.spec_minutes() * 60
    &&& forall|k: int|
        0 <= k < chart.len() ==> (#[trigger] chart[k]).start_timestamp == spec_align(
            r.spec_minutes() * 60,
            chart[k].start_timestamp as int,
        )
    &&& forall|k: int, l: int|
        0 <= k < l < chart.len() ==> chart[k].start_timestamp <= chart[l].start_timestamp
}

impl TradeLog {
    /// Each resolution is registered at most once, and every chart obeys
    /// its resolution's invariant ([`chart_wf`]).
    pub open spec fn wf(self) -> bool {
        &&& forall|i: int, j: int|
            0 <= i < j < self.observers@.len() ==> self.observers@[i].0 != self.observers@[j].0
        &&& forall|i: int|
            0 <= i < self.observers@.len() ==> chart_wf(
                (#[trigger] self.observers@[i]).1@,
                self.observers@[i].0,
            )
    }

    /// Whether a chart for `r` is registered.
    pub open spec fn spec_has_chart(self, r: Resolution) -> bool {
        exists|i: int| 0 <= i < self.observers@.len() && (#[trigger] self.observers@[i]).0 == r
    }

    /// The candle series registered for `r` (meaningful when registered).
    pub open spec fn spec_chart(self, r: Resolution) -> Seq<Candle> {
        let i = choose|i: int|
            0 <= i < self.observers@.len() && (#[trigger] self.observers@[i]).0 == r;
        self.observers@[i].1@
    }

    /// An empty log: no history, no observers.
    pub fn new() -> (log: TradeLog)
        ensures
            log.wf(),
            log.trade_log@ == Seq::<Trade>::empty(),
            log.observers@ == Seq::<(Resolution, TradeCandleChart)>::empty(),
    {
        TradeLog { trade_log: vec![], observers: Vec::new() }
    }

    /// Whether a chart for `r` is registered.
    pub fn has_chart(&self, r: Resolution) -> (b: bool)
        ensures
            b == self.spec_has_chart(r),
    {
        let mut i: usize = 0;
        while i < self.observers.len()
            invariant
                i <= self.observers@.len(),
                forall|j: int| 0 <= j < i ==> (#[trigger] self.observers@[j]).0 != r,
            decreases self.observers@.len() - i,
        {
            if self.observers[i].0 == r {
                return true;
            }
            i = i + 1;
        }
        false
    }

    /// The chart registered for `r`, if any.
    pub fn chart(&self, r: Resolution) -> (c: Option<&TradeCandleChart>)
        requires
            self.wf(),
        ensures
            c is Some <==> self.spec_has_chart(r),
            c is Some ==> c.unwrap()@ == self.spec_chart(r),
    {
        let mut i: usize = 0;
        while i < self.observers.len()
            invariant
                self.wf(),
                i <= self.observers@.len(),
                forall|j: int| 0 <= j < i ==> (#[trigger] self.observers@[j]).0 != r,
            decreases self.observers@.len() - i,
        {
            if self.observers[i].0 == r {
                proof {
                    self.lemma_chart_at(i as int, r);
                }
                return Some(&self.observers[i].1);
            }
            i = i + 1;
        }
        None
    }

    /// Under well-formedness, an observer entry for `r` is the unique one,
    /// so `spec_chart` denotes exactly its series.
    proof fn lemma_chart_at(self, i: int, r: Resolution)
        requires
            self.wf(),
            0 <= i < self.observers@.len(),
            self.observers@[i].0 == r,
        ensures
            self.spec_has_chart(r),
            self.spec_chart(r) == self.observers@[i].1@,
    {
        assert(self.spec_has_chart(r));
        let j = choose|j: int|
            0 <= j < self.observers@.len() && (#[trigger] self.observers@[j]).0 == r;
        if i != j {
            assert(self.observers@[i].0 != self.observers@[j].0);
        }
    }

    /// Register interest in `r`, creating its chart on first use, and hand
    /// the chart back. Registering an already present resolution is a no-op:
    /// the log — and so the chart — is left exactly as it was.
    pub fn trade_chart(&mut self, r: Resolution) -> (chart: &TradeCandleChart)
        requires
            old(self).wf(),
        ensures
            final(self).wf(),
            final(self).spec_has_chart(r),
            chart@ == final(self).spec_chart(r),
            final(self).trade_log == old(self).trade_log,
            old(self).spec_has_chart(r) ==> *final(self) == *old(self),
            !old(self).spec_has_chart(r) ==> ({
                let obs = final(self).observers@;
                let prev = old(self).observers@;
                &&& obs.len() == prev.len() + 1
                &&& obs.subrange(0, prev.len() as int) == prev
                &&& obs.last().0 == r
                &&& obs.last().1@ == Seq::<Candle>::empty()
            }),
    {
        let mut i: usize = 0;
        while i < self.observers.len()
            invariant
                *self == *old(self),
                old(self).wf(),
                i <= self.observers@.len(),
                forall|j: int| 0 <= j < i ==> (#[trigger] self.observers@[j]).0 != r,
            decreases self.observers@.len() - i,
        {
            if self.observers[i].0 == r {
                proof {
                    self.lemma_chart_at(i as int, r);
                }
                return &self.observers[i].1;
            }
            i = i + 1;
        }
        self.observers.push((r, Vec::new()));
        proof {
            assert(self.observers@.last().0 == r);
            self.lemma_chart_at(self.observers@.len() - 1, r);
            assert(self.observers@.subrange(0, old(self).observers@.len() as int) =~= old(
                self,
            ).observers@);
        }
        let n = self.observers.len();
        &self.observers[n - 1].1
    }

    /// Feed one trade to every registered chart: each chart either gets its
    /// first candle, absorbs the trade into its live candle in place, or
    /// seals that candle unchanged and appends the successor. Charts are
    /// otherwise untouched, and so is the trade history.
    pub fn new_trade(&mut self, t: &Trade)
        requires
            old(self).wf(),
            forall|i: int|
                0 <= i < old(self).observers@.len() ==> chart_can_absorb(
                    (#[trigger] old(self).observers@[i]).1@,
                    *t,
                ),
        ensures
            final(self).wf(),
            final(self).trade_log == old(self).trade_log,
            final(self).observers@.len() == old(self).observers@.len(),
            forall|i: int|
                0 <= i < final(self).observers@.len() ==> {
                    &&& (#[trigger] final(self).observers@[i]).0 == old(self).observers@[i].0
                    &&& final(self).observers@[i].1@ == spec_chart_step(
                        old(self).observers@[i].1@,
                        old(self).observers@[i].0,
                        *t,
                    )
                },
    {
        let mut i: usize = 0;
        while i < self.observers.len()
            invariant
                old(self).wf(),
                self.wf(),
                forall|j: int|
                    0 <= j < old(self).observers@.len() ==> chart_can_absorb(
                        (#[trigger] old(self).observers@[j]).1@,
                        *t,
                    ),
                self.observers@.len() == old(self).observers@.len(),
                self.trade_log == old(self).trade_log,
                i <= self.observers@.len(),
                forall|j: int|
                    0 <= j < i ==> (#[trigger] self.observers@[j]).0 == old(self).observers@[j].0
                        && self.observers@[j].1@ == spec_chart_step(
                        old(self).observers@[j].1@,
                        old(self).observers@[j].0,
                        *t,
                    ),
                forall|j: int|
                    i <= j < self.observers@.len() ==> (#[trigger] self.observers@[j]) == old(
                        self,
                    ).observers@[j],
            decreases self.observers@.len() - i,
        {
            let ghost obs0 = self.observers@;
            let mut pair = self.observers.remove(i);
            let ghost prev_chart = pair.1@;
            let ghost r = pair.0;
            proof {
                lemma_minutes_bounds(r);
                assert(old(self).observers@[i as int] == (r, pair.1));
            }
            let n = pair.1.len();
            if n == 0 {
                let c = Candle::create(t, &pair.0);
                pair.1.push(c);
                proof {
                    assert(pair.1@ =~= spec_chart_step(prev_chart, r, *t));
                }
            } else {
                let mut last: Candle = pair.1.pop().unwrap();
                proof {
                    assert(last == prev_chart.last());
                    assert(last.duration == r.spec_minutes() * 60);
                }
                match last.update(t) {
                    Ok(_) => {
                        pair.1.push(last);
                        proof {
                            assert(pair.1@ =~= spec_chart_step(prev_chart, r, *t));
                        }
                    },
                    Err(c) => {
                        pair.1.push(last);
                        pair.1.push(c);
                        proof {
                            assert(pair.1@.drop_last() =~= prev_chart);
                            assert(pair.1@ =~= spec_chart_step(prev_chart, r, *t));
                        }
                    },
                }
            }
            let ghost stepped = pair.1@;
            self.observers.insert(i, pair);
            proof {
                assert(self.observers@ =~= obs0.update(i as int, (r, self.observers@[i as int].1)));
                assert(self.observers@[i as int].1@ == stepped);
                lemma_chart_step_wf(prev_chart, r, *t);
                assert forall|a: int| 0 <= a < self.observers@.len() implies chart_wf(
                    (#[trigger] self.observers@[a]).1@,
                    self.observers@[a].0,
                ) by {
                    if a != i {
                        assert(self.observers@[a] == obs0[a]);
                    }
                }
            }
            i = i + 1;
        }
    }
}

/// Stepping a chart preserves its invariant: the new or absorbed candle
/// keeps the resolution's width, a seeded start is aligned (and aligning
/// is idempotent), and a successor's start is never below its
/// predecessor's, because aligning is monotone and the sealing trade lies
/// past the sealed candle's start.
proof fn lemma_chart_step_wf(chart: Seq<Candle>, r: Resolution, t: Trade)
    requires
        chart_wf(chart, r),
    ensures
        chart_wf(spec_chart_step(chart, r, t), r),
{
    lemma_minutes_bounds(r);
    let d = r.spec_minutes() * 60;
    lemma_align_bounds(d, t.timestamp as int);
    lemma_align_idempotent(d, t.timestamp as int);
    if chart.len() > 0 && !spec_in_window(chart.last(), t.timestamp) {
        let last = chart.last();
        assert(last.start_timestamp <= t.timestamp);
        lemma_align_mono(d, last.start_timestamp as int, t.timestamp as int);
        assert(spec_align(d, last.start_timestamp as int) == last.start_timestamp);
    }
}

} // verus!
