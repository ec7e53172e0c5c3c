//! The book ticker handler's cursor: which socket and which request id the
//! next subscription takes, and under which cursor each symbol was
//! subscribed. A socket takes at most `MAX_NUM_PARAMS` requests; then the
//! handler opens another one.
use vstd::hash_map::StringHashMap;
use vstd::prelude::*;

use crate::text::{nat_decimal, string_views, u64_to_decimal};
use crate::ticker::{
    book_ticker_param, book_ticker_params, ticker_param, ticker_params, SubscribeRequest,
    SubscribeRequestInner,
};

verus! {

/// The number of requests a socket takes before a new one is opened.
pub const MAX_NUM_PARAMS: u64 = 5;

/// A socket and a request id on it.
#[derive(Debug, Clone, Copy, PartialEq, Eq, Structural)]
pub struct Cursor {
    pub socket: usize,
    pub param: u64,
}

/// Whether the next registration must open a new socket, given how many
/// sockets the event loop holds.
pub open spec fn spec_needs_new_socket(sockets: nat, cur: Cursor) -> bool {
    sockets == 0 || sockets < cur.socket || cur.param >= MAX_NUM_PARAMS
}

/// The groups of stream names to unsubscribe, one for each cursor.
pub type ParamGroups = Seq<(Cursor, Seq<Seq<char>>)>;

/// The position of the group of cursor `c`, or `groups.len()` if none.
pub open spec fn group_index(groups: ParamGroups, c: Cursor) -> int
    decreases groups.len(),
{
    if groups.len() == 0 {
        0
    } else if groups.last().0 == c {
        groups.len() - 1
    } else {
        let i = group_index(groups.drop_last(), c);
        if i == groups.len() - 1 {
            groups.len() as int
        } else {
            i
        }
    }
}

/// Adds the stream of `s` to the group of cursor `c`, opening the group if
/// there is none yet.
pub open spec fn add_to_group(groups: ParamGroups, c: Cursor, s: Seq<char>) -> ParamGroups {
    let i = group_index(groups, c);
    if i < groups.len() {
        groups.update(i, (c, groups[i].1.push(ticker_param(s))))
    } else {
        groups.push((c, seq![ticker_param(s)]))
    }
}

/// Unsubscribing `symbols` one after another from `index`: the index left,
/// and the stream names grouped by the cursor each symbol was subscribed
/// under, groups in the order their cursors first occur. A symbol that is
/// not in the index, or occurs a second time, adds nothing.
pub open spec fn unsubscribe_plan(index: Map<Seq<char>, Cursor>, symbols: Seq<Seq<char>>) -> (
    Map<Seq<char>, Cursor>,
    ParamGroups,
)
    decreases symbols.len(),
{
    if symbols.len() == 0 {
        (index, seq![])
    } else {
        let (m, groups) = unsubscribe_plan(index, symbols.drop_last());
        let s = symbols.last();
        if m.contains_key(s) {
            (m.remove(s), add_to_group(groups, m[s], s))
        } else {
            (m, groups)
        }
    }
}

/// The cursors of the groups are distinct.
pub open spec fn distinct_cursors(groups: ParamGroups) -> bool {
    forall|i: int, j: int| 0 <= i < j < groups.len() ==> groups[i].0 != groups[j].0
}

proof fn lemma_group_index(groups: ParamGroups, c: Cursor)
    requires
        distinct_cursors(groups),
    ensures
        0 <= group_index(groups, c) <= groups.len(),
        group_index(groups, c) < groups.len() ==> groups[group_index(groups, c)].0 == c,
        group_index(groups, c) == groups.len() ==> forall|j: int|
            0 <= j < groups.len() ==> groups[j].0 != c,
    decreases groups.len(),
{
    if groups.len() > 0 {
        let d = groups.drop_last();
        assert(distinct_cursors(d)) by {
            assert forall|i: int, j: int| 0 <= i < j < d.len() implies d[i].0 != d[j].0 by {
                assert(d[i] == groups[i] && d[j] == groups[j]);
            }
        }
        lemma_group_index(d, c);
        if groups.last().0 != c {
            let i = group_index(d, c);
            if i < d.len() {
                assert(groups[i] == d[i]);
            } else {
                assert forall|j: int| 0 <= j < groups.len() implies groups[j].0 != c by {
                    if j < d.len() {
                        assert(groups[j] == d[j]);
                    }
                }
            }
        }
    }
}

proof fn lemma_add_to_group_distinct(groups: ParamGroups, c: Cursor, s: Seq<char>)
    requires
        distinct_cursors(groups),
    ensures
        distinct_cursors(add_to_group(groups, c, s)),
{
    lemma_group_index(groups, c);
}

/// The handler's state: the cursor of the next subscription and the cursor
/// of each subscribed symbol.
pub struct BookTickerHandler {
    symbol_index: StringHashMap<Cursor>,
    cur: Cursor,
}

impl BookTickerHandler {
    /// The cursor of each subscribed symbol.
    pub closed spec fn index(&self) -> Map<Seq<char>, Cursor> {
        self.symbol_index@
    }

    /// The cursor of the next subscription.
    pub closed spec fn cursor_spec(&self) -> Cursor {
        self.cur
    }

    /// A handler with no symbol and the cursor at socket 0, request 0.
    pub fn new() -> (r: Self)
        ensures
            r.index() == Map::<Seq<char>, Cursor>::empty(),
            r.cursor_spec() == (Cursor { socket: 0, param: 0 }),
    {
        BookTickerHandler { symbol_index: StringHashMap::new(), cur: Cursor { socket: 0, param: 0 } }
    }

    /// The cursor of the next subscription.
    pub fn cursor(&self) -> (r: Cursor)
        ensures
            r == self.cursor_spec(),
    {
        self.cur
    }

    /// Whether registering with `sockets` open sockets must open a new one.
    pub fn needs_new_socket(&self, sockets: usize) -> (r: bool)
        ensures
            r == spec_needs_new_socket(sockets as nat, self.cursor_spec()),
    {
        sockets == 0 || sockets < self.cur.socket || self.cur.param >= MAX_NUM_PARAMS
    }

    /// Records that a new socket was opened while `sockets` were open: it is
    /// known by that number, and its first request id is 0.
    pub fn socket_opened(&mut self, sockets: usize)
        ensures
            final(self).cursor_spec() == (Cursor { socket: sockets, param: 0 }),
            final(self).index() == old(self).index(),
    {
        self.cur = Cursor { socket: sockets, param: 0 };
    }

    /// The request that subscribes `symbols` at the current cursor.
    pub fn subscribe_request(&self, symbols: &Vec<String>) -> (r: SubscribeRequest)
        ensures
            r matches SubscribeRequest::Subscribe(inner) && inner.id@ == nat_decimal(
                self.cursor_spec().param as nat,
            ) && string_views(inner.params@) == ticker_params(string_views(symbols@)),
    {
        SubscribeRequest::Subscribe(
            SubscribeRequestInner {
                id: u64_to_decimal(self.cur.param),
                params: book_ticker_params(symbols),
            },
        )
    }

    /// Records that `symbols` were subscribed at the current cursor; the next
    /// request id on the socket is one more.
    pub fn record_subscription(&mut self, symbols: &Vec<String>)
        requires
            old(self).cursor_spec().param < u64::MAX,
        ensures
            final(self).index() == old(self).index().union_prefer_right(
                Map::new(
                    |k: Seq<char>| string_views(symbols@).contains(k),
                    |k: Seq<char>| old(self).cursor_spec(),
                ),
            ),
            final(self).cursor_spec() == (Cursor {
                socket: old(self).cursor_spec().socket,
                param: (old(self).cursor_spec().param + 1) as u64,
            }),
    {
        let ghost start = self.symbol_index@;
        let c = self.cur;
        let mut i: usize = 0;
        while i < symbols.len()
            invariant
                i <= symbols.len(),
                self.cur == c,
                self.symbol_index@ =~= start.union_prefer_right(
                    Map::new(
                        |k: Seq<char>| string_views(symbols@.take(i as int)).contains(k),
                        |k: Seq<char>| c,
                    ),
                ),
            decreases symbols.len() - i,
        {
            self.symbol_index.insert(symbols[i].clone(), c);
            proof {
                let before = string_views(symbols@.take(i as int));
                let after = string_views(symbols@.take(i + 1));
                assert(after =~= before.push(symbols@[i as int]@));
                assert forall|k: Seq<char>| after.contains(k) <==> (before.contains(k) || k
                    == symbols@[i as int]@) by {
                    if after.contains(k) {
                        let j = choose|j: int| 0 <= j < after.len() && after[j] == k;
                        if j < before.len() {
                            assert(before[j] == k);
                        }
                    }
                    if before.contains(k) {
                        let j = choose|j: int| 0 <= j < before.len() && before[j] == k;
                        assert(after[j] == k);
                    }
                    if k == symbols@[i as int]@ {
                        assert(after[i as int] == k);
                    }
                }
            }
            i = i + 1;
        }
        proof {
            assert(symbols@.take(symbols.len() as int) =~= symbols@);
        }
        self.cur = Cursor { socket: c.socket, param: c.param + 1 };
    }

    /// The position of the group of cursor `c` in `groups`, if there is one.
    fn find_group(groups: &Vec<(Cursor, Vec<String>)>, c: Cursor) -> (r: Option<usize>)
        requires
            distinct_cursors(group_views(groups@)),
        ensures
            r matches Some(i) ==> i == group_index(group_views(groups@), c) && i < groups@.len(),
            r is None ==> group_index(group_views(groups@), c) == groups@.len(),
    {
        let mut i: usize = 0;
        while i < groups.len()
            invariant
                i <= groups@.len(),
                distinct_cursors(group_views(groups@)),
                forall|j: int| 0 <= j < i ==> (#[trigger] groups@[j]).0 != c,
            decreases groups.len() - i,
        {
            if groups[i].0 == c {
                proof {
                    let g = group_views(groups@);
                    lemma_group_index(g, c);
                    let gi = group_index(g, c);
                    assert(g[i as int].0 == c);
                    if gi < g.len() {
                        assert(g[gi].0 == groups@[gi].0);
                    }
                }
                return Some(i);
            }
            i = i + 1;
        }
        proof {
            let g = group_views(groups@);
            lemma_group_index(g, c);
            let gi = group_index(g, c);
            if gi < g.len() {
                assert(g[gi].0 == groups@[gi].0);
            }
        }
        None
    }

    /// The requests that unsubscribe `symbols`, one for each cursor they were
    /// subscribed under, and removes them from the index.
    pub fn unsubscribe_requests(&mut self, symbols: &Vec<String>) -> (r: Vec<(Cursor, SubscribeRequest)>)
        ensures
            ({
                let (m, groups) = unsubscribe_plan(old(self).index(), string_views(symbols@));
                &&& final(self).index() == m
                &&& r@.len() == groups.len()
                &&& forall|k: int|
                    0 <= k < r@.len() ==> {
                        &&& (#[trigger] r@[k]).0 == groups[k].0
                        &&& r@[k].1 matches SubscribeRequest::Unsubscribe(inner)
                        &&& inner.id@ == nat_decimal(groups[k].0.param as nat)
                        &&& string_views(inner.params@) == groups[k].1
                    }
            }),
            final(self).cursor_spec() == old(self).cursor_spec(),
    {
        let ghost start = self.symbol_index@;
        let mut groups: Vec<(Cursor, Vec<String>)> = Vec::new();
        let mut i: usize = 0;
        while i < symbols.len()
            invariant
                i <= symbols.len(),
                self.cur == old(self).cur,
                start == old(self).index(),
                ({
                    let (m, g) = unsubscribe_plan(start, string_views(symbols@.take(i as int)));
                    &&& self.symbol_index@ == m
                    &&& group_views(groups@) == g
                }),
                distinct_cursors(group_views(groups@)),
            decreases symbols.len() - i,
        {
            let ghost prev = string_views(symbols@.take(i as int));
            let ghost cur = string_views(symbols@.take(i + 1));
            proof {
                assert(cur.drop_last() =~= prev);
                assert(cur.last() == symbols@[i as int]@);
            }
            let s = &symbols[i];
            let found = match self.symbol_index.get(s.as_str()) {
                Some(c) => Some(*c),
                None => None,
            };
            self.symbol_index.remove(s.as_str());
            match found {
                Some(c) => {
                    let ghost before = group_views(groups@);
                    let param = book_ticker_param(s.as_str());
                    proof {
                        lemma_add_to_group_distinct(before, c, s@);
                        lemma_group_index(before, c);
                    }
                    match Self::find_group(&groups, c) {
                        Some(j) => {
                            let (gc, mut names) = groups.remove(j);
                            proof {
                                assert(before[j as int].0 == gc);
                                assert(before[j as int].1 == string_views(names@));
                            }
                            names.push(param);
                            groups.insert(j, (gc, names));
                            proof {
                                assert(string_views(names@) =~= before[j as int].1.push(
                                    ticker_param(s@),
                                ));
                                assert(group_views(groups@) =~= before.update(
                                    j as int,
                                    (c, before[j as int].1.push(ticker_param(s@))),
                                ));
                            }
                        },
                        None => {
                            let mut names: Vec<String> = Vec::new();
                            names.push(param);
                            groups.push((c, names));
                            proof {
                                assert(string_views(names@) =~= seq![ticker_param(s@)]);
                                assert(group_views(groups@) =~= before.push(
                                    (c, seq![ticker_param(s@)]),
                                ));
                            }
                        },
                    }
                },
                None => {},
            }
            i = i + 1;
        }
        proof {
            assert(symbols@.take(symbols.len() as int) =~= symbols@);
        }
        let mut out: Vec<(Cursor, SubscribeRequest)> = Vec::new();
        let ghost plan = group_views(groups@);
        let mut k: usize = 0;
        while k < groups.len()
            invariant
                k <= groups@.len(),
                plan == group_views(groups@),
                out@.len() == k,
                forall|q: int|
                    0 <= q < k ==> {
                        &&& (#[trigger] out@[q]).0 == plan[q].0
                        &&& out@[q].1 matches SubscribeRequest::Unsubscribe(inner)
                        &&& inner.id@ == nat_decimal(plan[q].0.param as nat)
                        &&& string_views(inner.params@) == plan[q].1
                    },
            decreases groups.len() - k,
        {
            let c = groups[k].0;
            let inner = SubscribeRequestInner {
                id: u64_to_decimal(c.param),
                params: crate::text::copy_strings(&groups[k].1),
            };
            out.push((c, SubscribeRequest::Unsubscribe(inner)));
            k = k + 1;
        }
        out
    }
}

/// The views of groups of stream names.
pub open spec fn group_views(groups: Seq<(Cursor, Vec<String>)>) -> ParamGroups {
    groups.map_values(|g: (Cursor, Vec<String>)| (g.0, string_views(g.1@)))
}

/// Unsubscribing takes exactly the given symbols out of the index: a
/// symbol stays indexed, under the same cursor, exactly when it is not one
/// of them.
pub proof fn law_unsubscribe_unindexes(index: Map<Seq<char>, Cursor>, symbols: Seq<Seq<char>>)
    ensures
        forall|s: Seq<char>|
            #![trigger unsubscribe_plan(index, symbols).0.contains_key(s)]
            unsubscribe_plan(index, symbols).0.contains_key(s) <==> (index.contains_key(s)
                && !symbols.contains(s)),
        forall|s: Seq<char>|
            #![trigger unsubscribe_plan(index, symbols).0[s]]
            unsubscribe_plan(index, symbols).0.contains_key(s) ==> unsubscribe_plan(
                index,
                symbols,
            ).0[s] == index[s],
    decreases symbols.len(),
{
    if symbols.len() > 0 {
        let d = symbols.drop_last();
        law_unsubscribe_unindexes(index, d);
        let last = symbols.last();
        let (m, g) = unsubscribe_plan(index, d);
        let p = unsubscribe_plan(index, symbols);
        assert(p == (if m.contains_key(last) {
            (m.remove(last), add_to_group(g, m[last], last))
        } else {
            (m, g)
        }));
        assert forall|s: Seq<char>| symbols.contains(s) <==> (d.contains(s) || s == last) by {
            if symbols.contains(s) {
                let k = choose|k: int| 0 <= k < symbols.len() && symbols[k] == s;
                if k < d.len() {
                    assert(d[k] == s);
                }
            }
            if d.contains(s) {
                let k = choose|k: int| 0 <= k < d.len() && d[k] == s;
                assert(symbols[k] == s);
            }
            if s == last {
                assert(symbols[symbols.len() - 1] == s);
            }
        }
        assert forall|s: Seq<char>| #![trigger p.0.contains_key(s)] p.0.contains_key(s) <==> (
        index.contains_key(s) && !symbols.contains(s)) by {
            assert(m.contains_key(s) <==> (index.contains_key(s) && !d.contains(s)));
        }
        assert forall|s: Seq<char>| #![trigger p.0[s]] p.0.contains_key(s) implies p.0[s]
            == index[s] by {
            assert(m.contains_key(s) <==> (index.contains_key(s) && !d.contains(s)));
            assert(m.contains_key(s) ==> m[s] == index[s]);
        }
    }
}

/// Some symbol of `symbols` is indexed under `c` and has the stream `p`.
pub open spec fn stream_origin(
    index: Map<Seq<char>, Cursor>,
    symbols: Seq<Seq<char>>,
    c: Cursor,
    p: Seq<char>,
) -> bool {
    exists|s: Seq<char>|
        #![trigger symbols.contains(s)]
        symbols.contains(s) && index.contains_key(s) && index[s] == c && p == ticker_param(s)
}

/// Every stream in the group of a cursor belongs to one of `symbols` that
/// `index` holds under that cursor.
pub open spec fn streams_from_index(
    index: Map<Seq<char>, Cursor>,
    symbols: Seq<Seq<char>>,
    groups: ParamGroups,
) -> bool {
    forall|k: int, q: int|
        #![trigger groups[k].1[q]]
        0 <= k < groups.len() && 0 <= q < groups[k].1.len() ==> stream_origin(
            index,
            symbols,
            groups[k].0,
            groups[k].1[q],
        )
}

/// The groups of an unsubscription name distinct cursors, and every stream
/// in the group of a cursor belongs to one of the symbols that was indexed
/// under that cursor.
pub proof fn law_unsubscribe_groups(index: Map<Seq<char>, Cursor>, symbols: Seq<Seq<char>>)
    ensures
        distinct_cursors(unsubscribe_plan(index, symbols).1),
        streams_from_index(index, symbols, unsubscribe_plan(index, symbols).1),
    decreases symbols.len(),
{
    if symbols.len() > 0 {
        let d = symbols.drop_last();
        law_unsubscribe_groups(index, d);
        law_unsubscribe_unindexes(index, d);
        let (m, groups) = unsubscribe_plan(index, d);
        let last = symbols.last();
        let r = unsubscribe_plan(index, symbols).1;
        assert forall|s: Seq<char>| d.contains(s) implies symbols.contains(s) by {
            let k = choose|k: int| 0 <= k < d.len() && d[k] == s;
            assert(symbols[k] == s);
        }
        assert(symbols.contains(last)) by {
            assert(symbols[symbols.len() - 1] == last);
        }
        assert(unsubscribe_plan(index, symbols).1 == (if m.contains_key(last) {
            add_to_group(groups, m[last], last)
        } else {
            groups
        }));
        if m.contains_key(last) {
            lemma_add_to_group_distinct(groups, m[last], last);
            lemma_group_index(groups, m[last]);
        }
        assert forall|k: int, q: int|
            #![trigger r[k].1[q]]
            0 <= k < r.len() && 0 <= q < r[k].1.len() implies stream_origin(
            index,
            symbols,
            r[k].0,
            r[k].1[q],
        ) by {
            if m.contains_key(last) {
                let c = m[last];
                let gi = group_index(groups, c);
                if k < groups.len() && (k != gi || q < groups[k].1.len()) {
                    assert(r[k].0 == groups[k].0);
                    assert(r[k].1[q] == groups[k].1[q]);
                    assert(unsubscribe_plan(index, d).1[k].1[q] == groups[k].1[q]);
                    assert(stream_origin(index, d, groups[k].0, groups[k].1[q]));
                    let s = choose|s: Seq<char>|
                        #![trigger d.contains(s)]
                        d.contains(s) && index.contains_key(s) && index[s] == groups[k].0
                            && groups[k].1[q] == ticker_param(s);
                    assert(symbols.contains(s));
                } else {
                    assert(r[k].0 == c);
                    assert(r[k].1[q] == ticker_param(last));
                    assert(index.contains_key(last) && index[last] == c);
                    assert(symbols.contains(last));
                }
            } else {
                assert(r[k] == groups[k]);
                assert(unsubscribe_plan(index, d).1[k].1[q] == groups[k].1[q]);
                assert(stream_origin(index, d, groups[k].0, groups[k].1[q]));
                let s = choose|s: Seq<char>|
                    #![trigger d.contains(s)]
                    d.contains(s) && index.contains_key(s) && index[s] == groups[k].0
                        && groups[k].1[q] == ticker_param(s);
                assert(symbols.contains(s));
            }
        }
        assert(r == unsubscribe_plan(index, symbols).1);
        assert(streams_from_index(index, symbols, r));
    } else {
        assert(unsubscribe_plan(index, symbols).1 =~= Seq::<(Cursor, Seq<Seq<char>>)>::empty());
    }
}

/// Some group of `groups` is the group of cursor `c` and holds the stream
/// name `p`.
pub open spec fn requested_under(groups: ParamGroups, c: Cursor, p: Seq<char>) -> bool {
    exists|k: int| 0 <= k < groups.len() && groups[k].0 == c && (#[trigger] groups[k].1).contains(p)
}

proof fn lemma_add_to_group_keeps(groups: ParamGroups, c: Cursor, s: Seq<char>)
    requires
        distinct_cursors(groups),
    ensures
        requested_under(add_to_group(groups, c, s), c, ticker_param(s)),
        forall|d: Cursor, p: Seq<char>|
            #[trigger] requested_under(groups, d, p) ==> requested_under(add_to_group(groups, c, s), d, p),
{
    lemma_group_index(groups, c);
    let i = group_index(groups, c);
    let after = add_to_group(groups, c, s);
    if i < groups.len() {
        assert(after[i].1 == groups[i].1.push(ticker_param(s)));
        assert(after[i].1[groups[i].1.len() as int] == ticker_param(s));
        assert(after[i].1.contains(ticker_param(s)));
    } else {
        assert(after[groups.len() as int].1 == seq![ticker_param(s)]);
        assert(after[groups.len() as int].1[0] == ticker_param(s));
        assert(after[groups.len() as int].1.contains(ticker_param(s)));
    }
    assert forall|d: Cursor, p: Seq<char>| #[trigger] requested_under(groups, d, p) implies requested_under(
        after,
        d,
        p,
    ) by {
        let k = choose|k: int| 0 <= k < groups.len() && groups[k].0 == d && (#[trigger] groups[k].1).contains(p);
        let q = choose|q: int| 0 <= q < groups[k].1.len() && groups[k].1[q] == p;
        if k == i {
            assert(after[k].1[q] == p);
            assert(after[k].1.contains(p));
        } else {
            assert(after[k] == groups[k]);
        }
    }
}

/// Unsubscribing misses no symbol: every symbol of the list that the index
/// holds has its stream in the request of the cursor it was subscribed
/// under.
pub proof fn law_unsubscribe_complete(index: Map<Seq<char>, Cursor>, symbols: Seq<Seq<char>>)
    ensures
        forall|s: Seq<char>|
            #[trigger] symbols.contains(s) && index.contains_key(s) ==> requested_under(
                unsubscribe_plan(index, symbols).1,
                index[s],
                ticker_param(s),
            ),
    decreases symbols.len(),
{
    if symbols.len() > 0 {
        let d = symbols.drop_last();
        let last = symbols.last();
        law_unsubscribe_complete(index, d);
        law_unsubscribe_unindexes(index, d);
        law_unsubscribe_groups(index, d);
        let (m, groups) = unsubscribe_plan(index, d);
        let r = unsubscribe_plan(index, symbols).1;
        assert(r == (if m.contains_key(last) {
            add_to_group(groups, m[last], last)
        } else {
            groups
        }));
        if m.contains_key(last) {
            lemma_add_to_group_keeps(groups, m[last], last);
        }
        assert forall|s: Seq<char>| #[trigger] symbols.contains(s) && index.contains_key(s) implies requested_under(
            r,
            index[s],
            ticker_param(s),
        ) by {
            let k = choose|k: int| 0 <= k < symbols.len() && symbols[k] == s;
            if k < d.len() {
                assert(d[k] == s);
                assert(d.contains(s));
                assert(requested_under(groups, index[s], ticker_param(s)));
            } else if d.contains(s) {
                assert(requested_under(groups, index[s], ticker_param(s)));
            } else {
                assert(s == last);
                assert(m.contains_key(last));
            }
        }
    }
}

/// Each stream name stands in one place only, over all groups.
pub open spec fn names_once(groups: ParamGroups) -> bool {
    forall|k1: int, q1: int, k2: int, q2: int|
        #![trigger groups[k1].1[q1], groups[k2].1[q2]]
        0 <= k1 < groups.len() && 0 <= q1 < groups[k1].1.len() && 0 <= k2 < groups.len() && 0 <= q2
            < groups[k2].1.len() && groups[k1].1[q1] == groups[k2].1[q2] ==> k1 == k2 && q1 == q2
}

proof fn lemma_ticker_param_injective(a: Seq<char>, b: Seq<char>)
    requires
        ticker_param(a) == ticker_param(b),
    ensures
        a == b,
{
    assert(ticker_param(a).len() == a.len() + "@bookTicker"@.len());
    assert(ticker_param(b).len() == b.len() + "@bookTicker"@.len());
    assert(a.len() == b.len());
    assert forall|i: int| 0 <= i < a.len() implies a[i] == b[i] by {
        assert(ticker_param(a)[i] == a[i]);
        assert(ticker_param(b)[i] == b[i]);
    }
    assert(a =~= b);
}

proof fn lemma_add_to_group_once(groups: ParamGroups, c: Cursor, s: Seq<char>)
    requires
        distinct_cursors(groups),
        names_once(groups),
        forall|k: int, q: int|
            0 <= k < groups.len() && 0 <= q < groups[k].1.len() ==> #[trigger] groups[k].1[q]
                != ticker_param(s),
    ensures
        names_once(add_to_group(groups, c, s)),
{
    lemma_group_index(groups, c);
    let i = group_index(groups, c);
    let after = add_to_group(groups, c, s);
    // a place of `after` is a place of `groups`, or the new place of the stream
    assert forall|k: int, q: int| 0 <= k < after.len() && 0 <= q < after[k].1.len() implies (k
        < groups.len() && q < groups[k].1.len() && #[trigger] after[k].1[q] == groups[k].1[q]) || (
    after[k].1[q] == ticker_param(s) && k == (if i < groups.len() {
        i
    } else {
        groups.len() as int
    }) && q == after[k].1.len() - 1) by {
        if k != i && k < groups.len() {
            assert(after[k] == groups[k]);
        }
    }
    assert forall|k1: int, q1: int, k2: int, q2: int|
        #![trigger after[k1].1[q1], after[k2].1[q2]]
        0 <= k1 < after.len() && 0 <= q1 < after[k1].1.len() && 0 <= k2 < after.len() && 0 <= q2
            < after[k2].1.len() && after[k1].1[q1] == after[k2].1[q2] implies k1 == k2 && q1 == q2 by {
        let old1 = k1 < groups.len() && q1 < groups[k1].1.len() && after[k1].1[q1] == groups[k1].1[q1];
        let old2 = k2 < groups.len() && q2 < groups[k2].1.len() && after[k2].1[q2] == groups[k2].1[q2];
        if old1 && old2 {
            assert(groups[k1].1[q1] == groups[k2].1[q2]);
        } else if old1 {
            assert(groups[k1].1[q1] != ticker_param(s));
        } else if old2 {
            assert(groups[k2].1[q2] != ticker_param(s));
        }
    }
}

/// Unsubscribing names each stream once: no stream appears twice, within a
/// request or across requests.
pub proof fn law_unsubscribe_names_once(index: Map<Seq<char>, Cursor>, symbols: Seq<Seq<char>>)
    ensures
        names_once(unsubscribe_plan(index, symbols).1),
    decreases symbols.len(),
{
    if symbols.len() > 0 {
        let d = symbols.drop_last();
        let last = symbols.last();
        law_unsubscribe_names_once(index, d);
        law_unsubscribe_unindexes(index, d);
        law_unsubscribe_groups(index, d);
        let (m, groups) = unsubscribe_plan(index, d);
        assert(unsubscribe_plan(index, symbols).1 == (if m.contains_key(last) {
            add_to_group(groups, m[last], last)
        } else {
            groups
        }));
        if m.contains_key(last) {
            assert(!d.contains(last));
            assert forall|k: int, q: int|
                0 <= k < groups.len() && 0 <= q < groups[k].1.len() implies #[trigger] groups[k].1[q]
                    != ticker_param(last) by {
                assert(stream_origin(index, d, groups[k].0, groups[k].1[q]));
                let o = choose|o: Seq<char>|
                    #![trigger d.contains(o)]
                    d.contains(o) && index.contains_key(o) && index[o] == groups[k].0
                        && groups[k].1[q] == ticker_param(o);
                if groups[k].1[q] == ticker_param(last) {
                    lemma_ticker_param_injective(o, last);
                }
            }
            lemma_add_to_group_once(groups, m[last], last);
        }
    }
}

} // verus!
