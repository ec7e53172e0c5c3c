//! Planning of historical kline fetches: the REST query of one fetch, the
//! split of a period into fetch windows, the retry decisions on an answer,
//! and the bookkeeping of first trade dates. Times are milliseconds since
//! the Unix epoch.
use vstd::hash_map::StringHashMap;
use vstd::prelude::*;

use crate::events::insert_once;
use crate::nodes::no_dups;
use crate::text::{int_decimal, i64_to_decimal, parse_i64, spec_parse_i64, str_eq, string_views, contains_string};

verus! {

/// The most klines one request fetches, one per minute.
pub const NUM_OBJECTS_TO_FETCH: i64 = 1000;

/// The earliest time a query can write: its whole seconds, in
/// milliseconds, must fit in an `i64`.
pub const MIN_MILLIS: i64 = -9223372036854775000;

/// The length of a fetch window in milliseconds.
pub const WINDOW_MILLIS: i64 = 60_000_000;

/// The most attempts a fetch makes before giving up.
pub const MAX_FETCH_ATTEMPTS: i8 = 20;

/// Division rounded toward zero, as Rust's `/` on integers.
pub open spec fn trunc_div(a: int, b: int) -> int
    recommends
        b > 0,
{
    if a >= 0 {
        a / b
    } else {
        -((-a) / b)
    }
}

/// Remainder with the sign of the dividend, as Rust's `%` on integers.
pub open spec fn trunc_rem(a: int, b: int) -> int
    recommends
        b > 0,
{
    a - trunc_div(a, b) * b
}

/// The whole minutes from `start` to `end`, rounded toward zero, as
/// chrono's `num_minutes` of their difference.
pub open spec fn spec_minutes(start: int, end: int) -> int {
    trunc_div(end - start, 60000)
}

/// The whole minutes from `start` to `end`, rounded toward zero.
pub fn minutes_between(start: i64, end: i64) -> (r: i64)
    ensures
        r == spec_minutes(start as int, end as int),
{
    let d: i128 = (end as i128) - (start as i128);
    let m: i128 = if d >= 0 {
        d / 60000
    } else {
        -((-d) / 60000)
    };
    m as i64
}

/// The query of one kline request: the pair, one-minute interval, the
/// start and end in whole seconds written as milliseconds, and the limit.
#[derive(Debug, Clone)]
pub struct HistQuery {
    pub symbol: String,
    pub interval: String,
    pub start_time: String,
    pub end_time: Option<String>,
    pub limit: String,
}

/// A time in whole seconds, written in milliseconds: the seconds are
/// rounded down, as chrono's `timestamp`.
pub open spec fn whole_second_millis(t: int) -> int {
    (t / 1000) * 1000
}

fn whole_second_millis_of(t: i64) -> (r: i64)
    requires
        t >= MIN_MILLIS,
    ensures
        r == whole_second_millis(t as int),
{
    let x: i128 = t as i128;
    let secs: i128 = if x >= 0 {
        x / 1000
    } else {
        -((-x + 999) / 1000)
    };
    proof {
        if x < 0 {
            assert(secs == (x as int) / 1000) by (nonlinear_arith)
                requires
                    x < 0,
                    secs == -((-x + 999) / 1000),
            ;
        }
        assert(secs * 1000 <= x && secs * 1000 > x - 1000) by (nonlinear_arith)
            requires
                secs == (x as int) / 1000,
        ;
    }
    (secs * 1000) as i64
}

/// The limit of a request: the minutes of the period, or 1 without an end.
pub open spec fn spec_limit(start: int, end: Option<i64>) -> int {
    match end {
        Some(e) => spec_minutes(start, e as int),
        None => 1,
    }
}

/// Builds the query that fetches the klines of `pair` from `start_at` to
/// `end_at`.
pub fn fetch_query(pair: &String, start_at: i64, end_at: Option<i64>) -> (r: HistQuery)
    requires
        start_at >= MIN_MILLIS,
        end_at matches Some(e) ==> e >= MIN_MILLIS,
    ensures
        r.symbol@ == pair@,
        r.interval@ == "1m"@,
        r.start_time@ == int_decimal(whole_second_millis(start_at as int)),
        r.end_time matches Some(e) ==> end_at matches Some(t) && e@ == int_decimal(
            whole_second_millis(t as int),
        ),
        r.end_time is None <==> end_at is None,
        r.limit@ == int_decimal(spec_limit(start_at as int, end_at)),
{
    let limit: i64 = match end_at {
        Some(end) => minutes_between(start_at, end),
        None => 1,
    };
    let end_time = match end_at {
        Some(end) => Some(i64_to_decimal(whole_second_millis_of(end))),
        None => None,
    };
    HistQuery {
        symbol: pair.clone(),
        interval: String::from_str("1m"),
        start_time: i64_to_decimal(whole_second_millis_of(start_at)),
        end_time,
        limit: i64_to_decimal(limit),
    }
}

/// What a fetch does with an answer.
#[derive(Debug, Clone, Copy, PartialEq, Eq, Structural)]
pub enum FetchStep {
    /// The answer succeeded: read its klines.
    Parse,
    /// The server asks to slow down: wait this many seconds, then retry.
    Wait(u64),
    /// Another failure: retry.
    Retry,
}

/// The seconds to wait on a throttled answer, from its `retry-after`
/// header: `None` when there is none, `Some(None)` when its value is not
/// visible ASCII (read as 0). A value that does not parse, or is not
/// positive, gives the default.
pub open spec fn spec_retry_secs(header: Option<Option<String>>, default_secs: i64) -> int {
    let v: int = match header {
        None => default_secs as int,
        Some(None) => 0,
        Some(Some(text)) => match spec_parse_i64(text@) {
            Some(n) => n as int,
            None => default_secs as int,
        },
    };
    if v <= 0 {
        default_secs as int
    } else {
        v
    }
}

/// The seconds of a wait: the retry seconds without their sign.
pub open spec fn spec_wait_secs(header: Option<Option<String>>, default_secs: i64) -> int {
    let v = spec_retry_secs(header, default_secs);
    if v < 0 {
        -v
    } else {
        v
    }
}

/// Whether an HTTP status is a success (2xx).
pub open spec fn is_success(status: u16) -> bool {
    200 <= status && status <= 299
}

/// The step after an answer with `status` and `retry_after` header.
pub fn fetch_step(status: u16, retry_after: &Option<Option<String>>, default_secs: i64) -> (r: FetchStep)
    requires
        default_secs > i64::MIN,
    ensures
        r == (if is_success(status) {
            FetchStep::Parse
        } else if status == 418 || status == 429 {
            FetchStep::Wait(spec_wait_secs(*retry_after, default_secs) as u64)
        } else {
            FetchStep::Retry
        }),
{
    if 200 <= status && status <= 299 {
        return FetchStep::Parse;
    }
    if status == 418 || status == 429 {
        let v: i64 = match retry_after {
            None => default_secs,
            Some(None) => 0,
            Some(Some(text)) => match parse_i64(text.as_str()) {
                Some(n) => n,
                None => default_secs,
            },
        };
        let secs: i64 = if v <= 0 {
            default_secs
        } else {
            v
        };
        let wait: u64 = if secs < 0 {
            (-secs) as u64
        } else {
            secs as u64
        };
        return FetchStep::Wait(wait);
    }
    FetchStep::Retry
}

/// Whether a fetch that made `attempts` attempts may make another.
pub fn may_attempt(attempts: i8) -> (r: bool)
    ensures
        r == (attempts < MAX_FETCH_ATTEMPTS),
{
    attempts < MAX_FETCH_ATTEMPTS
}

/// The parameters of one kline fetch: a symbol and a period, with the
/// totals the progress reports need.
#[derive(Debug, Clone)]
pub struct HistFetcherParam {
    pub symbol: String,
    pub num_symbols: i64,
    pub entire_data_len: i64,
    pub start_time: i64,
    pub end_time: Option<i64>,
}

/// The window a fetch param asks for, if it is short enough to fetch:
/// the minutes of its period (1 without an end) must not exceed the most
/// klines one request fetches.
pub open spec fn spec_fetchable(param: HistFetcherParam) -> bool {
    spec_limit(param.start_time as int, param.end_time) <= NUM_OBJECTS_TO_FETCH
}

impl HistFetcherParam {
    /// A copy of the param.
    pub fn clone_param(&self) -> (r: Self)
        ensures
            r.symbol@ == self.symbol@,
            r.num_symbols == self.num_symbols,
            r.entire_data_len == self.entire_data_len,
            r.start_time == self.start_time,
            r.end_time == self.end_time,
    {
        HistFetcherParam {
            symbol: self.symbol.clone(),
            num_symbols: self.num_symbols,
            entire_data_len: self.entire_data_len,
            start_time: self.start_time,
            end_time: self.end_time,
        }
    }
}

/// Whether a received fetch param is fetched; longer periods are skipped.
pub fn is_fetchable(param: &HistFetcherParam) -> (r: bool)
    ensures
        r == spec_fetchable(*param),
{
    let num_obj: i64 = match param.end_time {
        None => 1,
        Some(end) => minutes_between(param.start_time, end),
    };
    num_obj <= NUM_OBJECTS_TO_FETCH
}

/// The number of requests a period of `minutes` takes, as reported in
/// progress: a thousand minutes each, one more for a remainder.
pub open spec fn spec_entire_data_len(minutes: int) -> int {
    trunc_div(minutes, 1000) + (if trunc_rem(minutes, NUM_OBJECTS_TO_FETCH as int) > 0 {
        1int
    } else {
        0int
    })
}

/// The fetch windows of `[start, end)`: consecutive, each as long as a
/// window except perhaps the last, which ends at `end`.
pub open spec fn windows(start: int, end: int) -> Seq<(int, int)>
    decreases end - start,
{
    if start >= end {
        seq![]
    } else {
        let e = if start + WINDOW_MILLIS < end {
            start + WINDOW_MILLIS
        } else {
            end
        };
        seq![(start, e)] + windows(e, end)
    }
}

/// The params of a period of one symbol: one for each window, each with
/// the number of symbols and the number of requests of the period.
pub fn fetch_params(symbol: &String, num_symbols: i64, start_at: i64, end_at: i64) -> (r: Vec<HistFetcherParam>)
    requires
        end_at <= i64::MAX - WINDOW_MILLIS,
    ensures
        r@.len() == windows(start_at as int, end_at as int).len(),
        forall|k: int|
            0 <= k < r@.len() ==> {
                let p = #[trigger] r@[k];
                &&& p.symbol@ == symbol@
                &&& p.num_symbols == num_symbols
                &&& p.entire_data_len == spec_entire_data_len(
                    spec_minutes(start_at as int, end_at as int),
                )
                &&& p.start_time == windows(start_at as int, end_at as int)[k].0
                &&& p.end_time == Some(windows(start_at as int, end_at as int)[k].1 as i64)
            },
{
    let minutes = minutes_between(start_at, end_at);
    let rem = minutes % NUM_OBJECTS_TO_FETCH;
    let mut entire_data_len: i64 = minutes / 1000;
    if rem > 0 {
        entire_data_len = entire_data_len + 1;
    }
    proof {
        let m = minutes as int;
        if m >= 0 {
            assert(minutes / 1000 == m / 1000);
            assert(rem == m % 1000);
        }
    }
    let mut out: Vec<HistFetcherParam> = Vec::new();
    let mut sec_start: i64 = start_at;
    while sec_start < end_at
        invariant
            end_at <= i64::MAX - WINDOW_MILLIS,
            start_at <= sec_start || sec_start == start_at,
            windows(start_at as int, end_at as int) =~= out@.map_values(
                |p: HistFetcherParam| (p.start_time as int, p.end_time->0 as int),
            ) + windows(sec_start as int, end_at as int),
            forall|k: int|
                0 <= k < out@.len() ==> {
                    let p = #[trigger] out@[k];
                    &&& p.symbol@ == symbol@
                    &&& p.num_symbols == num_symbols
                    &&& p.entire_data_len == entire_data_len
                    &&& p.end_time is Some
                },
        decreases end_at - sec_start,
    {
        let mut sec_end = sec_start + WINDOW_MILLIS;
        if sec_end > end_at {
            sec_end = end_at;
        }
        let ghost before = out@;
        out.push(
            HistFetcherParam {
                symbol: symbol.clone(),
                num_symbols,
                entire_data_len,
                start_time: sec_start,
                end_time: Some(sec_end),
            },
        );
        proof {
            let f = |p: HistFetcherParam| (p.start_time as int, p.end_time->0 as int);
            let w = windows(sec_start as int, end_at as int);
            assert(w =~= seq![(sec_start as int, sec_end as int)] + windows(
                sec_end as int,
                end_at as int,
            ));
            assert(out@.map_values(f) =~= before.map_values(f).push(
                (sec_start as int, sec_end as int),
            ));
            assert(before.map_values(f) + w =~= out@.map_values(f) + windows(
                sec_end as int,
                end_at as int,
            ));
        }
        sec_start = sec_end;
    }
    proof {
        let f = |p: HistFetcherParam| (p.start_time as int, p.end_time->0 as int);
        assert(windows(sec_start as int, end_at as int) =~= Seq::<(int, int)>::empty());
        assert(windows(start_at as int, end_at as int) =~= out@.map_values(f));
        assert forall|k: int| 0 <= k < out@.len() implies (#[trigger] out@[k]).end_time == Some(
            windows(start_at as int, end_at as int)[k].1 as i64,
        ) by {
            assert(out@.map_values(f)[k] == f(out@[k]));
        }
        assert forall|k: int| 0 <= k < out@.len() implies (#[trigger] out@[k]).start_time
            == windows(start_at as int, end_at as int)[k].0 by {
            assert(out@.map_values(f)[k] == f(out@[k]));
        }
    }
    out
}

/// The request that asks for the first kline of `symbol`: from the epoch,
/// without an end.
pub fn first_trade_param(symbol: &String) -> (r: HistFetcherParam)
    ensures
        r.symbol@ == symbol@,
        r.num_symbols == 1,
        r.entire_data_len == 1,
        r.start_time == 0,
        r.end_time is None,
{
    HistFetcherParam {
        symbol: symbol.clone(),
        num_symbols: 1,
        entire_data_len: 1,
        start_time: 0,
        end_time: None,
    }
}

/// The latest (or first) trade times of a symbol.
#[derive(Debug, Clone)]
pub struct LatestTradeTime<T> {
    pub symbol: String,
    pub open_time: T,
    pub close_time: T,
}

/// Progress of a historical fetch, as published to watchers.
#[derive(Debug, Clone)]
pub struct HistChartProg {
    pub symbol: String,
    pub num_symbols: i64,
    pub cur_symbol_num: i64,
    pub num_objects: i64,
    pub cur_object_num: i64,
}

/// The progress published before first trade dates are fetched: of
/// `num_symbols` symbols, `known` have a date already.
pub fn first_trade_progress(num_symbols: i64, known: i64) -> (r: HistChartProg)
    ensures
        r.symbol@ == "Currency Trade Date Fetch"@,
        r.num_symbols == num_symbols,
        r.cur_symbol_num == 0,
        r.num_objects == num_symbols,
        r.cur_object_num == known,
{
    HistChartProg {
        symbol: String::from_str("Currency Trade Date Fetch"),
        num_symbols,
        cur_symbol_num: 0,
        num_objects: num_symbols,
        cur_object_num: known,
    }
}

/// The progress published when a batch of klines of `symbol` arrives.
pub fn batch_progress(symbol: String, num_symbols: i64, entire_data_len: i64) -> (r: HistChartProg)
    ensures
        r.symbol == symbol,
        r.num_symbols == num_symbols,
        r.cur_symbol_num == 1,
        r.num_objects == entire_data_len,
        r.cur_object_num == 1,
{
    HistChartProg { symbol, num_symbols, cur_symbol_num: 1, num_objects: entire_data_len, cur_object_num: 1 }
}

/// The symbols whose first trade date must be fetched: those without a
/// known date, in order.
pub open spec fn unknown_symbols(symbols: Seq<Seq<char>>, known: Map<Seq<char>, (i64, i64)>) -> Seq<Seq<char>>
    decreases symbols.len(),
{
    if symbols.len() == 0 {
        seq![]
    } else {
        let p = unknown_symbols(symbols.drop_last(), known);
        if known.contains_key(symbols.last()) {
            p
        } else {
            p.push(symbols.last())
        }
    }
}

/// The trade times known for each symbol: open and close time, in
/// milliseconds, kept in the order the symbols were first recorded.
pub struct TradeDates {
    dates: StringHashMap<(i64, i64)>,
    order: Vec<String>,
}

impl TradeDates {
    /// The open and close time of each symbol.
    pub closed spec fn dates(&self) -> Map<Seq<char>, (i64, i64)> {
        self.dates@
    }

    /// The symbols, in the order they were first recorded.
    pub closed spec fn symbols(&self) -> Seq<Seq<char>> {
        string_views(self.order@)
    }

    #[verifier::type_invariant]
    spec fn keys_in_order(&self) -> bool {
        &&& no_dups(string_views(self.order@))
        &&& forall|s: Seq<char>|
            #![trigger self.dates@.contains_key(s)]
            self.dates@.contains_key(s) <==> string_views(self.order@).contains(s)
    }

    /// No known date.
    pub fn new() -> (r: Self)
        ensures
            r.dates() == Map::<Seq<char>, (i64, i64)>::empty(),
            r.symbols() == Seq::<Seq<char>>::empty(),
    {
        let r = TradeDates { dates: StringHashMap::new(), order: Vec::new() };
        proof {
            assert(string_views(r.order@) =~= Seq::<Seq<char>>::empty());
        }
        r
    }

    /// The number of symbols with a date.
    pub fn len(&self) -> (r: usize)
        ensures
            r == self.symbols().len(),
    {
        self.order.len()
    }

    /// The open and close time of `symbol`, if known.
    pub fn get(&self, symbol: &str) -> (r: Option<(i64, i64)>)
        ensures
            r == (if self.dates().contains_key(symbol@) {
                Some(self.dates()[symbol@])
            } else {
                None
            }),
    {
        match self.dates.get(symbol) {
            Some(v) => Some(*v),
            None => None,
        }
    }

    /// Records the trade times of `t.symbol`, over any known ones.
    pub fn insert(&mut self, t: &LatestTradeTime<i64>)
        ensures
            final(self).dates() == old(self).dates().insert(t.symbol@, (t.open_time, t.close_time)),
            final(self).symbols() == insert_once(old(self).symbols(), t.symbol@),
    {
        proof {
            use_type_invariant(&*self);
        }
        let known = self.dates.contains_key(t.symbol.as_str());
        let ghost d0 = self.dates@;
        let ghost o0 = string_views(self.order@);
        let mut me = TradeDates::new();
        std::mem::swap(&mut me, self);
        let TradeDates { mut dates, mut order } = me;
        dates.insert(t.symbol.clone(), (t.open_time, t.close_time));
        if !known {
            order.push(t.symbol.clone());
            proof {
                assert(string_views(order@) =~= o0.push(t.symbol@));
                assert(!o0.contains(t.symbol@));
                assert forall|i: int, j: int| 0 <= i < j < string_views(order@).len() implies
                    string_views(order@)[i] != string_views(order@)[j] by {
                    if j == o0.len() {
                        assert(string_views(order@)[i] == o0[i]);
                    }
                }
                assert forall|s: Seq<char>| #![trigger dates@.contains_key(s)]
                    dates@.contains_key(s) <==> string_views(order@).contains(s) by {
                    if s == t.symbol@ {
                        assert(string_views(order@)[o0.len() as int] == s);
                    } else if string_views(order@).contains(s) {
                        let k = choose|k: int| 0 <= k < string_views(order@).len()
                            && string_views(order@)[k] == s;
                        assert(o0[k] == s);
                    } else if o0.contains(s) {
                        let k = choose|k: int| 0 <= k < o0.len() && o0[k] == s;
                        assert(string_views(order@)[k] == s);
                    }
                }
            }
        } else {
            proof {
                assert(o0.contains(t.symbol@));
            }
        }
        *self = TradeDates { dates, order };
    }

    /// The symbols of `symbols` without a known date, in order.
    pub fn symbols_to_fetch(&self, symbols: &Vec<String>) -> (r: Vec<String>)
        ensures
            string_views(r@) == unknown_symbols(string_views(symbols@), self.dates()),
    {
        let mut out: Vec<String> = Vec::new();
        let mut i: usize = 0;
        while i < symbols.len()
            invariant
                i <= symbols.len(),
                string_views(out@) =~= unknown_symbols(
                    string_views(symbols@.take(i as int)),
                    self.dates(),
                ),
            decreases symbols.len() - i,
        {
            proof {
                let t = string_views(symbols@.take(i + 1));
                assert(t.drop_last() =~= string_views(symbols@.take(i as int)));
                assert(t.last() == symbols@[i as int]@);
            }
            if !self.dates.contains_key(symbols[i].as_str()) {
                let ghost before = string_views(out@);
                out.push(symbols[i].clone());
                proof {
                    assert(string_views(out@) =~= before.push(symbols@[i as int]@));
                }
            }
            i = i + 1;
        }
        proof {
            assert(symbols@.take(i as int) =~= symbols@);
        }
        out
    }

    /// Records the first trade dates that were fetched: each one is the date
    /// of its symbol, later ones over earlier ones.
    pub fn merge_first_trades(&mut self, fetched: &Vec<LatestTradeTime<i64>>)
        ensures
            forall|s: Seq<char>|
                #![trigger final(self).dates().contains_key(s)]
                final(self).dates().contains_key(s) <==> (old(self).dates().contains_key(s)
                    || exists|k: int| 0 <= k < fetched@.len() && (#[trigger] fetched@[k]).symbol@ == s),
            forall|k: int|
                0 <= k < fetched@.len() && (forall|j: int|
                    k < j < fetched@.len() ==> (#[trigger] fetched@[j]).symbol@ != fetched@[k].symbol@)
                    ==> final(self).dates()[(#[trigger] fetched@[k]).symbol@] == (
                    fetched@[k].open_time,
                    fetched@[k].close_time,
                ),
            forall|s: Seq<char>|
                old(self).dates().contains_key(s) && (forall|k: int|
                    0 <= k < fetched@.len() ==> (#[trigger] fetched@[k]).symbol@ != s)
                    ==> final(self).dates()[s] == old(self).dates()[s],
    {
        let mut i: usize = 0;
        while i < fetched.len()
            invariant
                i <= fetched@.len(),
                forall|s: Seq<char>|
                    #![trigger self.dates().contains_key(s)]
                    self.dates().contains_key(s) <==> (old(self).dates().contains_key(s)
                        || exists|k: int| 0 <= k < i && (#[trigger] fetched@[k]).symbol@ == s),
                forall|k: int|
                    0 <= k < i && (forall|j: int|
                        k < j < i ==> (#[trigger] fetched@[j]).symbol@ != fetched@[k].symbol@)
                        ==> self.dates()[(#[trigger] fetched@[k]).symbol@] == (
                        fetched@[k].open_time,
                        fetched@[k].close_time,
                    ),
                forall|s: Seq<char>|
                    old(self).dates().contains_key(s) && (forall|k: int|
                        0 <= k < i ==> (#[trigger] fetched@[k]).symbol@ != s) ==> self.dates()[s]
                        == old(self).dates()[s],
            decreases fetched.len() - i,
        {
            let t = &fetched[i];
            self.insert(t);
            proof {
                assert(self.dates()[t.symbol@] == (fetched@[i as int].open_time, fetched@[i as int].close_time));
                assert forall|s: Seq<char>| #![trigger self.dates().contains_key(s)]
                    self.dates().contains_key(s) <==> (old(self).dates().contains_key(s)
                    || exists|k: int| 0 <= k < i + 1 && (#[trigger] fetched@[k]).symbol@ == s) by {
                    if s == t.symbol@ {
                        assert(fetched@[i as int].symbol@ == s);
                    }
                }
            }
            i = i + 1;
        }
    }

    /// The fetch requests of every known symbol, symbol after symbol: the
    /// windows from its open time to `end_at`, each with `num_symbols` and
    /// the number of requests of the symbol's period.
    pub fn fetch_plan(&self, num_symbols: i64, end_at: i64) -> (r: Vec<HistFetcherParam>)
        requires
            end_at <= i64::MAX - WINDOW_MILLIS,
        ensures
            param_views(r@) == plan_of(
                self.symbols(),
                self.dates(),
                end_at as int,
            ),
            forall|k: int|
                0 <= k < r@.len() ==> (#[trigger] r@[k]).num_symbols == num_symbols
                    && r@[k].end_time is Some,
    {
        proof {
            use_type_invariant(self);
        }
        let mut out: Vec<HistFetcherParam> = Vec::new();
        let mut i: usize = 0;
        while i < self.order.len()
            invariant
                i <= self.order@.len(),
                end_at <= i64::MAX - WINDOW_MILLIS,
                forall|s: Seq<char>|
                    #![trigger self.dates@.contains_key(s)]
                    self.dates@.contains_key(s) <==> string_views(self.order@).contains(s),
                param_views(out@) =~= plan_of(
                    self.symbols().take(i as int),
                    self.dates(),
                    end_at as int,
                ),
                forall|k: int|
                    0 <= k < out@.len() ==> (#[trigger] out@[k]).num_symbols == num_symbols
                        && out@[k].end_time is Some,
            decreases self.order.len() - i,
        {
            let symbol = &self.order[i];
            proof {
                assert(string_views(self.order@)[i as int] == symbol@);
                assert(self.dates@.contains_key(symbol@));
                let t = self.symbols().take(i + 1);
                assert(t.drop_last() =~= self.symbols().take(i as int));
                assert(t.last() == symbol@);
            }
            let open: i64 = match self.dates.get(symbol.as_str()) {
                Some(v) => v.0,
                None => {
                    proof {
                        assert(false);
                    }
                    0
                },
            };
            let ps = fetch_params(symbol, num_symbols, open, end_at);
            let ghost before = out@;
            let mut j: usize = 0;
            while j < ps.len()
                invariant
                    j <= ps@.len(),
                    param_views(out@) =~= param_views(before) + param_views(ps@.take(j as int)),
                    out@.len() == before.len() + j,
                    forall|k: int|
                        0 <= k < out@.len() ==> (#[trigger] out@[k]).num_symbols == num_symbols
                            && out@[k].end_time is Some,
                    forall|k: int|
                        0 <= k < before.len() ==> (#[trigger] before[k]).num_symbols == num_symbols
                            && before[k].end_time is Some,
                    forall|k: int|
                        0 <= k < ps@.len() ==> (#[trigger] ps@[k]).num_symbols == num_symbols
                            && ps@[k].end_time is Some,
                decreases ps.len() - j,
            {
                let ghost o = out@;
                out.push(ps[j].clone_param());
                proof {
                    assert(ps@.take(j + 1) =~= ps@.take(j as int).push(ps@[j as int]));
                    assert(param_views(out@) =~= param_views(o).push(param_view(ps@[j as int])));
                    assert(param_views(ps@.take(j + 1)) =~= param_views(ps@.take(j as int)).push(
                        param_view(ps@[j as int]),
                    ));
                }
                j = j + 1;
            }
            proof {
                assert(ps@.take(j as int) =~= ps@);
                let sp = symbol_plan(symbol@, open as int, end_at as int);
                law_windows_tile(open as int, end_at as int);
                assert(param_views(ps@) =~= sp) by {
                    assert forall|k: int| 0 <= k < sp.len() implies param_views(ps@)[k] == sp[k] by {
                        let w = windows(open as int, end_at as int)[k];
                        assert(open <= w.0 && w.1 <= end_at);
                        assert(ps@[k].end_time == Some(w.1 as i64));
                    }
                }
            }
            i = i + 1;
        }
        proof {
            assert(self.symbols().take(i as int) =~= self.symbols());
        }
        out
    }

    /// The known trade times, one for each symbol, in the order the symbols
    /// were first recorded.
    pub fn entries(&self) -> (r: Vec<LatestTradeTime<i64>>)
        ensures
            r@.len() == self.symbols().len(),
            forall|k: int|
                0 <= k < r@.len() ==> {
                    &&& (#[trigger] r@[k]).symbol@ == self.symbols()[k]
                    &&& self.dates().contains_key(self.symbols()[k])
                    &&& (r@[k].open_time, r@[k].close_time) == self.dates()[self.symbols()[k]]
                },
    {
        proof {
            use_type_invariant(self);
        }
        let mut out: Vec<LatestTradeTime<i64>> = Vec::new();
        let mut i: usize = 0;
        while i < self.order.len()
            invariant
                i <= self.order@.len(),
                out@.len() == i,
                forall|s: Seq<char>|
                    #![trigger self.dates@.contains_key(s)]
                    self.dates@.contains_key(s) <==> string_views(self.order@).contains(s),
                forall|k: int|
                    0 <= k < i ==> {
                        &&& (#[trigger] out@[k]).symbol@ == self.symbols()[k]
                        &&& self.dates().contains_key(self.symbols()[k])
                        &&& (out@[k].open_time, out@[k].close_time) == self.dates()[self.symbols()[k]]
                    },
            decreases self.order.len() - i,
        {
            let symbol = &self.order[i];
            proof {
                assert(string_views(self.order@)[i as int] == symbol@);
                assert(self.dates@.contains_key(symbol@));
            }
            match self.dates.get(symbol.as_str()) {
                Some(v) => {
                    out.push(LatestTradeTime { symbol: symbol.clone(), open_time: v.0, close_time: v.1 });
                },
                None => {
                    proof {
                        assert(false);
                    }
                },
            }
            i = i + 1;
        }
        out
    }
}

/// A fetch param as a value: symbol, window start and end, and the number
/// of requests of its symbol's period.
pub open spec fn param_view(p: HistFetcherParam) -> (Seq<char>, int, int, int) {
    (
        p.symbol@,
        p.start_time as int,
        match p.end_time {
            Some(e) => e as int,
            None => p.start_time as int,
        },
        p.entire_data_len as int,
    )
}

/// The values of a sequence of fetch params.
pub open spec fn param_views(s: Seq<HistFetcherParam>) -> Seq<(Seq<char>, int, int, int)> {
    s.map_values(|p: HistFetcherParam| param_view(p))
}

/// The windows of one symbol's period from `open` to `end`, as param values.
pub open spec fn symbol_plan(s: Seq<char>, open: int, end: int) -> Seq<(Seq<char>, int, int, int)> {
    windows(open, end).map_values(
        |w: (int, int)| (s, w.0, w.1, spec_entire_data_len(spec_minutes(open, end))),
    )
}

/// The fetch plan of `symbols`: for each in turn, the windows from its known
/// open time to `end`.
pub open spec fn plan_of(symbols: Seq<Seq<char>>, dates: Map<Seq<char>, (i64, i64)>, end: int) -> Seq<(Seq<char>, int, int, int)>
    decreases symbols.len(),
{
    if symbols.len() == 0 {
        seq![]
    } else {
        plan_of(symbols.drop_last(), dates, end) + symbol_plan(
            symbols.last(),
            dates[symbols.last()].0 as int,
            end,
        )
    }
}

/// The symbols a refresh is asked for could not be read.
#[derive(Debug, Clone)]
pub struct EmptyError {
    pub field: String,
}

/// The symbols a refresh fetches: an error for none, all symbols (`None`)
/// when the first is `all`, and the given ones otherwise.
pub fn refresh_selection(symbols: &Vec<String>) -> (r: Result<Option<Vec<String>>, EmptyError>)
    ensures
        symbols@.len() == 0 <==> r is Err,
        r matches Err(e) ==> e.field@ == "symbol"@,
        r matches Ok(sel) ==> (sel is None <==> symbols@[0]@ == "all"@),
        r matches Ok(Some(v)) ==> v@ == symbols@,
{
    if symbols.len() < 1 {
        return Err(EmptyError { field: String::from_str("symbol") });
    }
    if str_eq(symbols[0].as_str(), "all") {
        Ok(None)
    } else {
        Ok(Some(crate::text::copy_strings(symbols)))
    }
}

/// Hands batches to workers in turn: each batch goes to the next worker,
/// round and round.
pub struct RoundRobin {
    counter: usize,
    workers: usize,
}

impl RoundRobin {
    pub closed spec fn spec_counter(&self) -> usize {
        self.counter
    }

    pub closed spec fn spec_workers(&self) -> usize {
        self.workers
    }

    pub closed spec fn wf(&self) -> bool {
        self.workers > 0 && self.counter < self.workers
    }

    /// A dispenser over `workers` workers, starting with the first.
    pub fn new(workers: usize) -> (r: Self)
        requires
            workers > 0,
        ensures
            r.wf(),
            r.spec_counter() == 0,
            r.spec_workers() == workers,
    {
        RoundRobin { counter: 0, workers }
    }

    /// The worker of the next batch; the one after it comes next.
    pub fn next(&mut self) -> (r: usize)
        requires
            old(self).wf(),
        ensures
            final(self).wf(),
            r == old(self).spec_counter(),
            final(self).spec_counter() == (old(self).spec_counter() + 1) % (old(self).spec_workers() as int),
            final(self).spec_workers() == old(self).spec_workers(),
    {
        let r = self.counter;
        self.counter = (self.counter + 1) % self.workers;
        r
    }
}

/// The fetch windows of a period tile it: the first starts at its start,
/// each ends where the next starts, the last ends at its end, each is
/// non-empty and at most a window long, and all lie within the period.
pub proof fn law_windows_tile(start: int, end: int)
    ensures
        windows(start, end).len() == 0 <==> start >= end,
        start < end ==> windows(start, end)[0].0 == start,
        start < end ==> windows(start, end).last().1 == end,
        forall|k: int|
            0 <= k < windows(start, end).len() - 1 ==> (#[trigger] windows(start, end)[k]).1
                == windows(start, end)[k + 1].0,
        forall|k: int|
            0 <= k < windows(start, end).len() ==> (#[trigger] windows(start, end)[k]).0
                < windows(start, end)[k].1 <= windows(start, end)[k].0 + WINDOW_MILLIS,
        forall|k: int|
            0 <= k < windows(start, end).len() ==> start <= (#[trigger] windows(start, end)[k]).0
                && windows(start, end)[k].1 <= end,
    decreases end - start,
{
    if start < end {
        let e = if start + WINDOW_MILLIS < end {
            start + WINDOW_MILLIS
        } else {
            end
        };
        law_windows_tile(e, end);
        let w = windows(start, end);
        let rest = windows(e, end);
        assert(w == seq![(start, e)] + rest);
        assert forall|k: int| 0 <= k < w.len() - 1 implies (#[trigger] w[k]).1 == w[k + 1].0 by {
            if k > 0 {
                assert(w[k] == rest[k - 1]);
                assert(w[k + 1] == rest[k]);
            } else {
                assert(w[1] == rest[0]);
            }
        }
        assert forall|k: int| 0 <= k < w.len() implies (#[trigger] w[k]).0 < w[k].1 <= w[k].0
            + WINDOW_MILLIS by {
            if k > 0 {
                assert(w[k] == rest[k - 1]);
            }
        }
        assert forall|k: int| 0 <= k < w.len() implies start <= (#[trigger] w[k]).0 && w[k].1
            <= end by {
            if k > 0 {
                assert(w[k] == rest[k - 1]);
            }
        }
        if rest.len() > 0 {
            assert(w.last() == rest.last());
        }
    }
}

/// With a positive default, a throttled fetch always waits a positive
/// number of seconds.
pub proof fn law_wait_positive(header: Option<Option<String>>, default_secs: i64)
    requires
        default_secs > 0,
    ensures
        spec_retry_secs(header, default_secs) > 0,
        spec_wait_secs(header, default_secs) == spec_retry_secs(header, default_secs),
{
}

/// The symbols whose first trade date is fetched are exactly those asked
/// for without a known date; so once a symbol's date is recorded it is not
/// fetched again.
pub proof fn law_unknown_symbols(symbols: Seq<Seq<char>>, known: Map<Seq<char>, (i64, i64)>)
    ensures
        forall|x: Seq<char>|
            #[trigger] unknown_symbols(symbols, known).contains(x) <==> (symbols.contains(x)
                && !known.contains_key(x)),
        forall|x: Seq<char>|
            known.contains_key(x) ==> !(#[trigger] unknown_symbols(symbols, known).contains(x)),
    decreases symbols.len(),
{
    if symbols.len() > 0 {
        let d = symbols.drop_last();
        let l = symbols.last();
        law_unknown_symbols(d, known);
        let p = unknown_symbols(d, known);
        assert forall|x: Seq<char>|
            #[trigger] unknown_symbols(symbols, known).contains(x) <==> (symbols.contains(x)
                && !known.contains_key(x)) by {
            if symbols.contains(x) {
                let k = choose|k: int| 0 <= k < symbols.len() && symbols[k] == x;
                if k < d.len() {
                    assert(d[k] == x);
                }
            }
            if d.contains(x) {
                let k = choose|k: int| 0 <= k < d.len() && d[k] == x;
                assert(symbols[k] == x);
            }
            assert(symbols[symbols.len() - 1] == l);
            if !known.contains_key(l) {
                if p.push(l).contains(x) {
                    let k = choose|k: int| 0 <= k < p.push(l).len() && p.push(l)[k] == x;
                    if k < p.len() {
                        assert(p[k] == x);
                    }
                }
                if p.contains(x) {
                    let k = choose|k: int| 0 <= k < p.len() && p[k] == x;
                    assert(p.push(l)[k] == x);
                }
                assert(p.push(l)[p.len() as int] == l);
            }
        }
    }
}

} // verus!
