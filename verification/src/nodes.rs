//! Observer nodes: which node handles which symbols of which exchange, and
//! the control events that move symbols between nodes. The key-value store
//! is read and written by the caller; this module decides from what was
//! read.
use vstd::prelude::*;

use crate::text::{contains_string, lemma_take_push_contains, str_eq, string_views};

verus! {

/// The exchanges a node can observe.
#[derive(Debug, Clone, Copy, PartialEq, Eq, Structural)]
pub enum Exchanges {
    Binance,
}

/// The stored name of an exchange.
pub open spec fn exchange_name(e: Exchanges) -> Seq<char> {
    match e {
        Exchanges::Binance => "Binance"@,
    }
}

/// The exchange a stored name denotes, if any.
pub open spec fn spec_exchange_from_name(s: Seq<char>) -> Option<Exchanges> {
    if s == "Binance"@ {
        Some(Exchanges::Binance)
    } else {
        None
    }
}

impl Exchanges {
    /// The stored name of the exchange.
    pub fn as_str_name(&self) -> (r: &'static str)
        ensures
            r@ == exchange_name(*self),
    {
        match self {
            Exchanges::Binance => {
                proof {
                    reveal_strlit("Binance");
                }
                "Binance"
            },
        }
    }

    /// The exchange a stored name denotes, if any.
    pub fn from_str_name(s: &str) -> (r: Option<Exchanges>)
        ensures
            r == spec_exchange_from_name(s@),
    {
        if str_eq(s, "Binance") {
            Some(Exchanges::Binance)
        } else {
            None
        }
    }
}

/// An instruction to an observer node.
#[derive(Debug, Clone)]
pub enum TradeObserverControlEvent {
    /// Start observing a symbol of an exchange.
    SymbolAdd(Box<Exchanges>, String),
    /// Stop observing a symbol of an exchange.
    SymbolDel(Box<Exchanges>, String),
}

/// An event as a value: whether it adds, the exchange, and the symbol.
pub type EventView = (bool, Exchanges, Seq<char>);

pub open spec fn event_view(e: TradeObserverControlEvent) -> EventView {
    match e {
        TradeObserverControlEvent::SymbolAdd(x, s) => (true, *x, s@),
        TradeObserverControlEvent::SymbolDel(x, s) => (false, *x, s@),
    }
}

pub open spec fn event_views(v: Seq<TradeObserverControlEvent>) -> Seq<EventView> {
    v.map_values(|e: TradeObserverControlEvent| event_view(e))
}

/// No value occurs twice in `s`.
pub open spec fn no_dups<T>(s: Seq<T>) -> bool {
    forall|i: int, j: int| 0 <= i < j < s.len() ==> s[i] != s[j]
}

fn make_event(add: bool, exchange: Exchanges, symbol: &String) -> (r: TradeObserverControlEvent)
    ensures
        event_view(r) == (add, exchange, symbol@),
{
    if add {
        TradeObserverControlEvent::SymbolAdd(Box::new(exchange), symbol.clone())
    } else {
        TradeObserverControlEvent::SymbolDel(Box::new(exchange), symbol.clone())
    }
}

fn same_event(a: &TradeObserverControlEvent, b: &TradeObserverControlEvent) -> (r: bool)
    ensures
        r == (event_view(*a) == event_view(*b)),
{
    match (a, b) {
        (
            TradeObserverControlEvent::SymbolAdd(x, s),
            TradeObserverControlEvent::SymbolAdd(y, t),
        ) => **x == **y && *s == *t,
        (
            TradeObserverControlEvent::SymbolDel(x, s),
            TradeObserverControlEvent::SymbolDel(y, t),
        ) => **x == **y && *s == *t,
        _ => false,
    }
}

/// Adds `e` to `events` unless an equal event is there already.
fn push_unique(events: &mut Vec<TradeObserverControlEvent>, e: TradeObserverControlEvent)
    requires
        no_dups(event_views(old(events)@)),
    ensures
        no_dups(event_views(final(events)@)),
        forall|v: EventView|
            event_views(final(events)@).contains(v) <==> (event_views(old(events)@).contains(v)
                || v == event_view(e)),
{
    let ghost before = event_views(events@);
    let mut i: usize = 0;
    while i < events.len()
        invariant
            i <= events@.len(),
            before == event_views(events@),
            events@ == old(events)@,
            no_dups(before),
            forall|j: int| 0 <= j < i ==> event_view(#[trigger] events@[j]) != event_view(e),
        decreases events.len() - i,
    {
        if same_event(&events[i], &e) {
            proof {
                assert(before[i as int] == event_view(e));
                assert forall|v: EventView| before.contains(v) <==> (before.contains(v) || v
                    == event_view(e)) by {
                    if v == event_view(e) {
                        assert(before[i as int] == v);
                    }
                }
            }
            return;
        }
        i = i + 1;
    }
    events.push(e);
    proof {
        let after = event_views(events@);
        assert(after =~= before.push(event_view(e)));
        assert forall|v: EventView| after.contains(v) <==> (before.contains(v) || v == event_view(
            e,
        )) by {
            if after.contains(v) {
                let k = choose|k: int| 0 <= k < after.len() && after[k] == v;
                if k < before.len() {
                    assert(before[k] == v);
                }
            }
            if before.contains(v) {
                let k = choose|k: int| 0 <= k < before.len() && before[k] == v;
                assert(after[k] == v);
            }
            if v == event_view(e) {
                assert(after[before.len() as int] == v);
            }
        }
    }
}

/// The events that a node set needs: each symbol of `db` that no node
/// handles is added, and each symbol that a node handles but `db` does not
/// hold is removed. Each event occurs once; the order is not meaningful.
pub open spec fn is_symbol_diff(
    exchange: Exchanges,
    db: Seq<Seq<char>>,
    nodes: Seq<Seq<char>>,
    r: Seq<EventView>,
) -> bool {
    &&& no_dups(r)
    &&& forall|v: EventView|
        r.contains(v) <==> ((v.0 && v.1 == exchange && db.contains(v.2) && !nodes.contains(v.2)) || (
        !v.0 && v.1 == exchange && nodes.contains(v.2) && !db.contains(v.2)))
}

/// Takes the symbol difference between the database and the nodes.
pub struct NodeDIffTaker {}

impl NodeDIffTaker {
    pub fn new() -> (r: Self) {
        NodeDIffTaker {  }
    }

    /// The control events that bring the nodes' symbols of `exchange` in line
    /// with the trading symbols `db`: an add for each symbol of `db` that no
    /// node handles, a removal for each handled symbol that `db` lacks.
    pub fn get_symbol_diff(
        &self,
        exchange: Exchanges,
        db_symbols: &Vec<String>,
        nodes_symbols: &Vec<String>,
    ) -> (r: Vec<TradeObserverControlEvent>)
        ensures
            is_symbol_diff(
                exchange,
                string_views(db_symbols@),
                string_views(nodes_symbols@),
                event_views(r@),
            ),
    {
        let ghost db = string_views(db_symbols@);
        let ghost nodes = string_views(nodes_symbols@);
        let mut out: Vec<TradeObserverControlEvent> = Vec::new();
        let mut i: usize = 0;
        while i < db_symbols.len()
            invariant
                i <= db_symbols.len(),
                db == string_views(db_symbols@),
                nodes == string_views(nodes_symbols@),
                no_dups(event_views(out@)),
                forall|v: EventView|
                    event_views(out@).contains(v) <==> (v.0 && v.1 == exchange
                        && db.take(i as int).contains(v.2) && !nodes.contains(v.2)),
            decreases db_symbols.len() - i,
        {
            let s = &db_symbols[i];
            proof {
                assert(db.take(i + 1) =~= db.take(i as int).push(s@));
                assert forall|x: Seq<char>| db.take(i + 1).contains(x) <==> (db.take(
                    i as int,
                ).contains(x) || x == s@) by {
                    let t = db.take(i + 1);
                    if t.contains(x) {
                        let k = choose|k: int| 0 <= k < t.len() && t[k] == x;
                        if k < i {
                            assert(db.take(i as int)[k] == x);
                        }
                    }
                    if db.take(i as int).contains(x) {
                        let k = choose|k: int| 0 <= k < i && db.take(i as int)[k] == x;
                        assert(t[k] == x);
                    }
                    if x == s@ {
                        assert(t[i as int] == x);
                    }
                }
            }
            if !contains_string(nodes_symbols, s) {
                push_unique(&mut out, make_event(true, exchange, s));
            }
            i = i + 1;
        }
        proof {
            assert(db.take(i as int) =~= db);
        }
        let mut j: usize = 0;
        while j < nodes_symbols.len()
            invariant
                j <= nodes_symbols.len(),
                db == string_views(db_symbols@),
                nodes == string_views(nodes_symbols@),
                no_dups(event_views(out@)),
                forall|v: EventView|
                    event_views(out@).contains(v) <==> ((v.0 && v.1 == exchange && db.contains(v.2)
                        && !nodes.contains(v.2)) || (!v.0 && v.1 == exchange && nodes.take(
                        j as int,
                    ).contains(v.2) && !db.contains(v.2))),
            decreases nodes_symbols.len() - j,
        {
            let s = &nodes_symbols[j];
            proof {
                assert forall|x: Seq<char>| nodes.take(j + 1).contains(x) <==> (nodes.take(
                    j as int,
                ).contains(x) || x == s@) by {
                    let t = nodes.take(j + 1);
                    if t.contains(x) {
                        let k = choose|k: int| 0 <= k < t.len() && t[k] == x;
                        if k < j {
                            assert(nodes.take(j as int)[k] == x);
                        }
                    }
                    if nodes.take(j as int).contains(x) {
                        let k = choose|k: int| 0 <= k < j && nodes.take(j as int)[k] == x;
                        assert(t[k] == x);
                    }
                    if x == s@ {
                        assert(t[j as int] == x);
                    }
                }
                assert(nodes[j as int] == s@);
                assert(nodes.contains(s@));
            }
            if !contains_string(db_symbols, s) {
                push_unique(&mut out, make_event(false, exchange, s));
            }
            j = j + 1;
        }
        proof {
            assert(nodes.take(j as int) =~= nodes);
        }
        out
    }
}


/// The view of an optional string.
pub open spec fn opt_view(o: Option<String>) -> Option<Seq<char>> {
    match o {
        Some(s) => Some(s@),
        None => None,
    }
}

/// The nodes of `exchange` among indexed nodes, in order: those whose stored
/// exchange name was read and denotes `exchange`.
pub open spec fn nodes_of(entries: Seq<(Seq<char>, Option<Seq<char>>)>, exchange: Exchanges) -> Seq<Seq<char>>
    decreases entries.len(),
{
    if entries.len() == 0 {
        seq![]
    } else {
        let p = nodes_of(entries.drop_last(), exchange);
        let (k, v) = entries.last();
        match v {
            Some(name) => if spec_exchange_from_name(name) == Some(exchange) {
                p.push(k)
            } else {
                p
            },
            None => p,
        }
    }
}

pub open spec fn entry_views(v: Seq<(String, Option<String>)>) -> Seq<(Seq<char>, Option<Seq<char>>)> {
    v.map_values(|e: (String, Option<String>)| (e.0@, opt_view(e.1)))
}

/// The elements of `s`, each once, in the order of first occurrence.
pub open spec fn dedup(s: Seq<Seq<char>>) -> Seq<Seq<char>>
    decreases s.len(),
{
    if s.len() == 0 {
        s
    } else {
        let p = dedup(s.drop_last());
        if p.contains(s.last()) {
            p
        } else {
            p.push(s.last())
        }
    }
}

/// The symbols handled by a list of nodes: each node's symbols once each,
/// node after node; a node whose list could not be read adds nothing.
pub open spec fn handled(lists: Seq<Option<Seq<Seq<char>>>>) -> Seq<Seq<char>>
    decreases lists.len(),
{
    if lists.len() == 0 {
        seq![]
    } else {
        let p = handled(lists.drop_last());
        match lists.last() {
            Some(l) => p + dedup(l),
            None => p,
        }
    }
}

pub open spec fn list_views(v: Seq<Option<Vec<String>>>) -> Seq<Option<Seq<Seq<char>>>> {
    v.map_values(
        |o: Option<Vec<String>>|
            match o {
                Some(l) => Some(string_views(l@)),
                None => None,
            },
    )
}

/// The entries whose list length was read and exceeds `limit`, in order.
pub open spec fn overflowed(items: Seq<(Seq<char>, Option<usize>)>, limit: usize) -> Seq<Seq<char>>
    decreases items.len(),
{
    if items.len() == 0 {
        seq![]
    } else {
        let p = overflowed(items.drop_last(), limit);
        match items.last().1 {
            Some(n) => if n > limit {
                p.push(items.last().0)
            } else {
                p
            },
            None => p,
        }
    }
}

pub open spec fn count_views(v: Seq<(String, Option<usize>)>) -> Seq<(Seq<char>, Option<usize>)> {
    v.map_values(|e: (String, Option<usize>)| (e.0@, e.1))
}

/// Whether some list of `lists` holds `s`.
pub open spec fn in_some(lists: Seq<Seq<Seq<char>>>, s: Seq<char>) -> bool {
    exists|i: int| 0 <= i < lists.len() && (#[trigger] lists[i]).contains(s)
}

/// Finds the index of nodes, by the exchange they observe.
pub struct NodeIndexer {}

impl NodeIndexer {
    pub fn new() -> (r: Self) {
        NodeIndexer {  }
    }

    /// The key of the set that indexes node ids.
    pub fn chname(&self) -> (r: String)
        ensures
            r@ == "node_index"@,
    {
        String::from_str("node_index")
    }

    /// The nodes that observe `exchange`, given each indexed node with its
    /// stored exchange name (`None` where it could not be read). A name
    /// that denotes no exchange leaves the node out.
    pub fn get_nodes_by_exchange(
        &self,
        entries: &Vec<(String, Option<String>)>,
        exchange: Exchanges,
    ) -> (r: Vec<String>)
        ensures
            string_views(r@) == nodes_of(entry_views(entries@), exchange),
    {
        let mut out: Vec<String> = Vec::new();
        let mut i: usize = 0;
        while i < entries.len()
            invariant
                i <= entries.len(),
                string_views(out@) =~= nodes_of(entry_views(entries@.take(i as int)), exchange),
            decreases entries.len() - i,
        {
            proof {
                let t = entry_views(entries@.take(i + 1));
                assert(t.drop_last() =~= entry_views(entries@.take(i as int)));
                assert(t.last() == (entries@[i as int].0@, opt_view(entries@[i as int].1)));
            }
            let (key, stored) = &entries[i];
            match stored {
                Some(name) => {
                    match Exchanges::from_str_name(name.as_str()) {
                        Some(e) => {
                            if e == exchange {
                                out.push(key.clone());
                                proof {
                                    assert(string_views(out@) =~= string_views(
                                        out@.drop_last(),
                                    ).push(key@));
                                }
                            }
                        },
                        None => {},
                    }
                },
                None => {},
            }
            i = i + 1;
        }
        proof {
            assert(entries@.take(i as int) =~= entries@);
        }
        out
    }
}

/// Appends the strings of `v` to `out`, each once, skipping those `out`
/// got from `v` already.
fn append_dedup(out: &mut Vec<String>, v: &Vec<String>)
    ensures
        string_views(final(out)@) == string_views(old(out)@) + dedup(string_views(v@)),
{
    let ghost base = string_views(out@);
    let mut seen: Vec<String> = Vec::new();
    let mut i: usize = 0;
    while i < v.len()
        invariant
            i <= v.len(),
            string_views(seen@) =~= dedup(string_views(v@.take(i as int))),
            string_views(out@) =~= base + string_views(seen@),
        decreases v.len() - i,
    {
        proof {
            let t = string_views(v@.take(i + 1));
            assert(t.drop_last() =~= string_views(v@.take(i as int)));
            assert(t.last() == v@[i as int]@);
        }
        if !contains_string(&seen, &v[i]) {
            let ghost seen0 = string_views(seen@);
            let ghost out0 = string_views(out@);
            seen.push(v[i].clone());
            out.push(v[i].clone());
            proof {
                assert(string_views(seen@) =~= seen0.push(v@[i as int]@));
                assert(string_views(out@) =~= out0.push(v@[i as int]@));
                assert(base + seen0.push(v@[i as int]@) =~= (base + seen0).push(v@[i as int]@));
            }
        }
        i = i + 1;
    }
    proof {
        assert(v@.take(i as int) =~= v@);
    }
}

/// Finds what nodes handle.
pub struct NodeFilter {}

impl NodeFilter {
    pub fn new() -> (r: Self) {
        NodeFilter {  }
    }

    /// The symbols handled by the nodes of an exchange, given each node's
    /// symbol list (`None` where it could not be read): each node's symbols
    /// once each, node after node.
    pub fn get_handling_symbol_at_exchange(&self, lists: &Vec<Option<Vec<String>>>) -> (r: Vec<String>)
        ensures
            string_views(r@) == handled(list_views(lists@)),
    {
        let mut out: Vec<String> = Vec::new();
        let mut i: usize = 0;
        while i < lists.len()
            invariant
                i <= lists.len(),
                string_views(out@) =~= handled(list_views(lists@.take(i as int))),
            decreases lists.len() - i,
        {
            proof {
                let t = list_views(lists@.take(i + 1));
                assert(t.drop_last() =~= list_views(lists@.take(i as int)));
            }
            match &lists[i] {
                Some(v) => {
                    append_dedup(&mut out, v);
                },
                None => {},
            }
            i = i + 1;
        }
        proof {
            assert(lists@.take(i as int) =~= lists@);
        }
        out
    }

    /// The entries whose list length was read and exceeds `num_symbols`, in
    /// order, given each entry with its length (`None` where it could not be
    /// read).
    pub fn get_overflowed_nodes(&self, items: &Vec<(String, Option<usize>)>, num_symbols: usize) -> (r: Vec<String>)
        ensures
            string_views(r@) == overflowed(count_views(items@), num_symbols),
    {
        let mut out: Vec<String> = Vec::new();
        let mut i: usize = 0;
        while i < items.len()
            invariant
                i <= items.len(),
                string_views(out@) =~= overflowed(count_views(items@.take(i as int)), num_symbols),
            decreases items.len() - i,
        {
            proof {
                let t = count_views(items@.take(i + 1));
                assert(t.drop_last() =~= count_views(items@.take(i as int)));
                assert(t.last() == (items@[i as int].0@, items@[i as int].1));
            }
            match items[i].1 {
                Some(n) => {
                    if n > num_symbols {
                        out.push(items[i].0.clone());
                        proof {
                            assert(string_views(out@) =~= string_views(out@.drop_last()).push(
                                items@[i as int].0@,
                            ));
                        }
                    }
                },
                None => {},
            }
            i = i + 1;
        }
        proof {
            assert(items@.take(i as int) =~= items@);
        }
        out
    }
}

/// Decides which symbols to move so that nodes share an exchange's symbols.
pub struct ObservationBalancer {}

impl ObservationBalancer {
    pub fn new() -> (r: Self) {
        ObservationBalancer {  }
    }

    /// The number of symbols a node of the exchange should handle: the
    /// handled symbols divided by the nodes, rounded down.
    pub fn calc_num_average_symbols(&self, num_symbols: usize, num_nodes: usize) -> (r: usize)
        requires
            num_nodes > 0,
        ensures
            r == num_symbols / num_nodes,
    {
        num_symbols / num_nodes
    }

    /// The events that rebalance the overflowed nodes, given the symbols each
    /// holds past the average: for each such symbol a removal and an add.
    /// Each event occurs once; the order is not meaningful.
    pub fn get_event_to_balancing(&self, exchange: Exchanges, tails: &Vec<Vec<String>>) -> (r: Vec<TradeObserverControlEvent>)
        ensures
            no_dups(event_views(r@)),
            forall|v: EventView|
                event_views(r@).contains(v) <==> (v.1 == exchange && in_some(
                    tails@.map_values(|t: Vec<String>| string_views(t@)),
                    v.2,
                )),
    {
        let ghost ts = tails@.map_values(|t: Vec<String>| string_views(t@));
        let mut out: Vec<TradeObserverControlEvent> = Vec::new();
        let mut i: usize = 0;
        while i < tails.len()
            invariant
                i <= tails.len(),
                ts == tails@.map_values(|t: Vec<String>| string_views(t@)),
                no_dups(event_views(out@)),
                forall|v: EventView|
                    event_views(out@).contains(v) <==> (v.1 == exchange && in_some(
                        ts.take(i as int),
                        v.2,
                    )),
            decreases tails.len() - i,
        {
            let tail = &tails[i];
            let mut j: usize = 0;
            while j < tail.len()
                invariant
                    j <= tail@.len(),
                    i < tails@.len(),
                    *tail == tails@[i as int],
                    ts == tails@.map_values(|t: Vec<String>| string_views(t@)),
                    no_dups(event_views(out@)),
                    forall|v: EventView|
                        event_views(out@).contains(v) <==> (v.1 == exchange && (in_some(
                            ts.take(i as int),
                            v.2,
                        ) || string_views(tail@).take(j as int).contains(v.2))),
                decreases tail.len() - j,
            {
                let s = &tail[j];
                proof {
                    lemma_take_push_contains(string_views(tail@), j as int);
                    assert(string_views(tail@)[j as int] == s@);
                }
                let ghost out0 = event_views(out@);
                push_unique(&mut out, make_event(false, exchange, s));
                let ghost out1 = event_views(out@);
                push_unique(&mut out, make_event(true, exchange, s));
                proof {
                    let t = string_views(tail@);
                    assert forall|v: EventView| event_views(out@).contains(v) <==> (v.1 == exchange
                        && (in_some(ts.take(i as int), v.2) || t.take(j + 1).contains(v.2))) by {
                        assert(t.take(j + 1).contains(v.2) <==> (t.take(j as int).contains(v.2)
                            || v.2 == s@));
                        assert(v == (v.0, v.1, v.2));
                        assert(event_views(out@).contains(v) <==> (out1.contains(v) || v == (
                        true, exchange, s@)));
                        assert(out1.contains(v) <==> (out0.contains(v) || v == (
                        false, exchange, s@)));
                        assert(out0.contains(v) <==> (v.1 == exchange && (in_some(
                            ts.take(i as int),
                            v.2,
                        ) || t.take(j as int).contains(v.2))));
                    }
                }
                j = j + 1;
            }
            proof {
                let t = string_views(tail@);
                assert(t.take(j as int) =~= t);
                assert(ts[i as int] == t);
                assert forall|x: Seq<char>| in_some(ts.take(i + 1), x) <==> (in_some(
                    ts.take(i as int),
                    x,
                ) || t.contains(x)) by {
                    if in_some(ts.take(i + 1), x) {
                        let k = choose|k: int|
                            0 <= k < ts.take(i + 1).len() && (#[trigger] ts.take(i + 1)[k]).contains(
                                x,
                            );
                        if k < i {
                            assert(ts.take(i as int)[k] == ts.take(i + 1)[k]);
                        }
                    }
                    if in_some(ts.take(i as int), x) {
                        let k = choose|k: int|
                            0 <= k < ts.take(i as int).len() && (#[trigger] ts.take(
                                i as int,
                            )[k]).contains(x);
                        assert(ts.take(i + 1)[k] == ts.take(i as int)[k]);
                    }
                    if t.contains(x) {
                        assert(ts.take(i + 1)[i as int] == t);
                    }
                }
            }
            i = i + 1;
        }
        proof {
            assert(ts.take(i as int) =~= ts);
        }
        out
    }
}

/// The events of `a` and of `b`, each once: the union of two event sets.
pub fn merge_events(a: &Vec<TradeObserverControlEvent>, b: &Vec<TradeObserverControlEvent>) -> (r: Vec<TradeObserverControlEvent>)
    ensures
        no_dups(event_views(r@)),
        forall|v: EventView|
            event_views(r@).contains(v) <==> (event_views(a@).contains(v) || event_views(
                b@,
            ).contains(v)),
{
    let mut out: Vec<TradeObserverControlEvent> = Vec::new();
    let mut i: usize = 0;
    while i < a.len()
        invariant
            i <= a.len(),
            no_dups(event_views(out@)),
            forall|v: EventView|
                event_views(out@).contains(v) <==> event_views(a@).take(i as int).contains(v),
        decreases a.len() - i,
    {
        proof {
            lemma_take_push_contains(event_views(a@), i as int);
        }
        push_unique(&mut out, a[i].clone_event());
        i = i + 1;
    }
    proof {
        assert(event_views(a@).take(i as int) =~= event_views(a@));
    }
    let mut j: usize = 0;
    while j < b.len()
        invariant
            j <= b.len(),
            no_dups(event_views(out@)),
            forall|v: EventView|
                event_views(out@).contains(v) <==> (event_views(a@).contains(v) || event_views(
                    b@,
                ).take(j as int).contains(v)),
        decreases b.len() - j,
    {
        proof {
            lemma_take_push_contains(event_views(b@), j as int);
        }
        push_unique(&mut out, b[j].clone_event());
        j = j + 1;
    }
    proof {
        assert(event_views(b@).take(j as int) =~= event_views(b@));
    }
    out
}

impl TradeObserverControlEvent {
    /// A copy of the event.
    pub fn clone_event(&self) -> (r: Self)
        ensures
            event_view(r) == event_view(*self),
    {
        match self {
            TradeObserverControlEvent::SymbolAdd(x, s) => TradeObserverControlEvent::SymbolAdd(
                Box::new(**x),
                s.clone(),
            ),
            TradeObserverControlEvent::SymbolDel(x, s) => TradeObserverControlEvent::SymbolDel(
                Box::new(**x),
                s.clone(),
            ),
        }
    }
}

/// What registering a node id does after trying to index it.
#[derive(Debug, Clone, Copy, PartialEq, Eq, Structural)]
pub enum RegisterStep {
    /// The id was new: it is the node's id.
    Registered,
    /// The id was taken: generate another and try again.
    Regenerate,
    /// Indexing failed: wait a second and try the same id again.
    RetryLater,
}

/// Manages the ids of observer nodes.
pub struct NodeIDManager {}

/// The length of a generated node id.
pub const NODE_ID_TXT_SIZE: usize = 64;

/// How long a node's exchange entry lives without being refreshed, in seconds.
pub const NODE_EXCHANGE_TTL_SECS: u64 = 30;

/// The seconds to wait before indexing again after a failure.
pub const REGISTER_RETRY_SECS: u64 = 1;

impl NodeIDManager {
    pub fn new() -> (r: Self) {
        NodeIDManager {  }
    }

    /// The step that follows indexing a node id: `indexed` is the number of
    /// ids the index gained, or `None` where indexing failed.
    pub fn register_step(&self, indexed: Option<usize>) -> (r: RegisterStep)
        ensures
            r == (match indexed {
                Some(n) => if n > 0 {
                    RegisterStep::Registered
                } else {
                    RegisterStep::Regenerate
                },
                None => RegisterStep::RetryLater,
            }),
    {
        match indexed {
            Some(n) => if n > 0 {
                RegisterStep::Registered
            } else {
                RegisterStep::Regenerate
            },
            None => RegisterStep::RetryLater,
        }
    }

    /// The exchange of a node being unregistered, read from its stored name;
    /// `None` where the name denotes no exchange, which fails unregistering.
    pub fn unregist_exchange(&self, stored: &str) -> (r: Option<Exchanges>)
        ensures
            r == spec_exchange_from_name(stored@),
    {
        Exchanges::from_str_name(stored)
    }
}

/// Applying a symbol diff to the nodes' symbols gives the database's: a
/// symbol is in the database exactly when a node handles it and it is not
/// removed, or it is added; nothing is both added and removed.
pub proof fn law_diff_applies(
    exchange: Exchanges,
    db: Seq<Seq<char>>,
    nodes: Seq<Seq<char>>,
    r: Seq<EventView>,
)
    requires
        is_symbol_diff(exchange, db, nodes, r),
    ensures
        forall|x: Seq<char>|
            #[trigger] db.contains(x) <==> ((nodes.contains(x) && !r.contains((false, exchange, x)))
                || r.contains((true, exchange, x))),
        forall|x: Seq<char>| !(r.contains((true, exchange, x)) && #[trigger] r.contains((false, exchange, x))),
{
}

/// Balancing moves symbols: for every symbol it removes from a node it also
/// adds it, so that another node takes it over.
pub proof fn law_balancing_pairs(exchange: Exchanges, tails: Seq<Seq<Seq<char>>>, r: Seq<EventView>)
    requires
        forall|v: EventView| r.contains(v) <==> (v.1 == exchange && in_some(tails, v.2)),
    ensures
        forall|x: Seq<char>|
            #[trigger] r.contains((false, exchange, x)) <==> r.contains((true, exchange, x)),
{
}

/// The stored name of an exchange reads back as that exchange.
pub proof fn law_exchange_name_round_trip(e: Exchanges)
    ensures
        spec_exchange_from_name(exchange_name(e)) == Some(e),
{
}

} // verus!
