//! The trade observer's sessions: the symbols it follows, spread over at
//! most `NUM_SESSION` stream sessions. A new symbol opens a session while
//! there are fewer than `NUM_SESSION`; after that it joins the session that
//! holds the fewest symbols (the first such one).
use vstd::prelude::*;

use crate::orders::{spec_to_lowercase, to_lowercase};
use crate::stream::{SubscribeRequest, SubscribeRequestInner};
use crate::text::{str_eq, string_views};
use crate::ticker::ticker_param;

verus! {

/// The number of sessions the observer opens.
pub const NUM_SESSION: usize = 10;

/// The symbols of each session.
pub type Sessions = Seq<Seq<Seq<char>>>;

/// The first session with the fewest symbols.
pub open spec fn first_min(sessions: Sessions) -> int
    decreases sessions.len(),
{
    if sessions.len() <= 1 {
        0
    } else {
        let p = first_min(sessions.drop_last());
        if sessions.last().len() < sessions[p].len() {
            sessions.len() - 1
        } else {
            p
        }
    }
}

/// Adding a symbol: the sessions after it and the session it joined.
pub open spec fn spec_add_symbol(sessions: Sessions, s: Seq<char>) -> (Sessions, int) {
    if sessions.len() < NUM_SESSION {
        (sessions.push(seq![s]), sessions.len() as int)
    } else {
        let i = first_min(sessions);
        (sessions.update(i, sessions[i].push(s)), i)
    }
}

/// `(i, p)` is where `s` is first found: the first session holding it, and
/// its first position there.
pub open spec fn is_first_position(sessions: Sessions, s: Seq<char>, i: int, p: int) -> bool {
    &&& 0 <= i < sessions.len()
    &&& 0 <= p < sessions[i].len()
    &&& sessions[i][p] == s
    &&& forall|j: int| 0 <= j < i ==> !(#[trigger] sessions[j]).contains(s)
    &&& forall|q: int| 0 <= q < p ==> (#[trigger] sessions[i][q]) != s
}

/// Whether some session holds `s`.
pub open spec fn sessions_hold(sessions: Sessions, s: Seq<char>) -> bool {
    exists|i: int| 0 <= i < sessions.len() && (#[trigger] sessions[i]).contains(s)
}

/// The stream request parameter of a symbol: lowercased, with the book
/// ticker suffix.
pub open spec fn session_param(s: Seq<char>) -> Seq<char> {
    ticker_param(spec_to_lowercase(s))
}

/// Groups of stream names by session.
pub type SessionGroups = Seq<(usize, Seq<Seq<char>>)>;

/// The position of the group of session `k`, or `groups.len()` if none.
pub open spec fn session_group_index(groups: SessionGroups, k: usize) -> int
    decreases groups.len(),
{
    if groups.len() == 0 {
        0
    } else if groups.last().0 == k {
        groups.len() - 1
    } else {
        let i = session_group_index(groups.drop_last(), k);
        if i == groups.len() - 1 {
            groups.len() as int
        } else {
            i
        }
    }
}

/// Adds the stream of `s` to the group of session `k`, opening it if needed.
pub open spec fn add_to_session_group(groups: SessionGroups, k: usize, s: Seq<char>) -> SessionGroups {
    let i = session_group_index(groups, k);
    if i < groups.len() {
        groups.update(i, (k, groups[i].1.push(session_param(s))))
    } else {
        groups.push((k, seq![session_param(s)]))
    }
}

/// The session keys of the groups are distinct.
pub open spec fn distinct_keys(groups: SessionGroups) -> bool {
    forall|i: int, j: int| 0 <= i < j < groups.len() ==> groups[i].0 != groups[j].0
}

/// Subscribing `symbols` one after another: the sessions after it, and the
/// stream names grouped by the session each symbol joined, groups in the
/// order their sessions first occur.
pub open spec fn subscribe_plan(sessions: Sessions, symbols: Seq<Seq<char>>) -> (Sessions, SessionGroups)
    decreases symbols.len(),
{
    if symbols.len() == 0 {
        (sessions, seq![])
    } else {
        let (ss, groups) = subscribe_plan(sessions, symbols.drop_last());
        let (ss2, k) = spec_add_symbol(ss, symbols.last());
        (ss2, add_to_session_group(groups, k as usize, symbols.last()))
    }
}

/// Unsubscribing `symbols` one after another: each symbol found leaves its
/// first session and its stream joins the group of that session.
pub open spec fn unsubscribe_plan(sessions: Sessions, symbols: Seq<Seq<char>>) -> (Sessions, SessionGroups)
    decreases symbols.len(),
{
    if symbols.len() == 0 {
        (sessions, seq![])
    } else {
        let (ss, groups) = unsubscribe_plan(sessions, symbols.drop_last());
        let s = symbols.last();
        if sessions_hold(ss, s) {
            let (i, p) = choose|i: int, p: int| is_first_position(ss, s, i, p);
            (ss.update(i, ss[i].remove(p)), add_to_session_group(groups, i as usize, s))
        } else {
            (ss, groups)
        }
    }
}

/// The requests of stream-name groups, in order, with the session as id.
pub open spec fn is_session_request(r: SubscribeRequest, k: usize, names: Seq<Seq<char>>, subscribe: bool) -> bool {
    let inner = match r {
        SubscribeRequest::Subscribe(i) => i,
        SubscribeRequest::Unsubscribe(i) => i,
    };
    &&& (r is Subscribe) == subscribe
    &&& inner.id == k as u64
    &&& string_views(inner.params@) == names
}

proof fn lemma_first_min(sessions: Sessions)
    requires
        sessions.len() >= 1,
    ensures
        0 <= first_min(sessions) < sessions.len(),
        forall|j: int|
            0 <= j < sessions.len() ==> sessions[first_min(sessions)].len() <= (
            #[trigger] sessions[j]).len(),
        forall|j: int|
            0 <= j < first_min(sessions) ==> (#[trigger] sessions[j]).len() > sessions[first_min(
                sessions,
            )].len(),
    decreases sessions.len(),
{
    if sessions.len() > 1 {
        let d = sessions.drop_last();
        lemma_first_min(d);
        let p = first_min(d);
        assert(sessions[p] == d[p]);
        assert forall|j: int| 0 <= j < d.len() implies sessions[j] == d[j] by {}
    }
}

proof fn lemma_session_group_index(groups: SessionGroups, k: usize)
    requires
        distinct_keys(groups),
    ensures
        0 <= session_group_index(groups, k) <= groups.len(),
        session_group_index(groups, k) < groups.len() ==> groups[session_group_index(groups, k)].0
            == k,
        session_group_index(groups, k) == groups.len() ==> forall|j: int|
            0 <= j < groups.len() ==> groups[j].0 != k,
    decreases groups.len(),
{
    if groups.len() > 0 {
        let d = groups.drop_last();
        assert(distinct_keys(d)) by {
            assert forall|i: int, j: int| 0 <= i < j < d.len() implies d[i].0 != d[j].0 by {
                assert(d[i] == groups[i] && d[j] == groups[j]);
            }
        }
        lemma_session_group_index(d, k);
        if groups.last().0 != k {
            let i = session_group_index(d, k);
            if i < d.len() {
                assert(groups[i] == d[i]);
            } else {
                assert forall|j: int| 0 <= j < groups.len() implies groups[j].0 != k by {
                    if j < d.len() {
                        assert(groups[j] == d[j]);
                    }
                }
            }
        }
    }
}

/// The views of session groups.
pub open spec fn session_group_views(groups: Seq<(usize, Vec<String>)>) -> SessionGroups {
    groups.map_values(|g: (usize, Vec<String>)| (g.0, string_views(g.1@)))
}

/// The trade observer's sessions.
pub struct TradeObserver {
    symbols: Vec<Vec<String>>,
}

impl TradeObserver {
    /// The symbols of each session.
    pub closed spec fn sessions(&self) -> Sessions {
        self.symbols@.map_values(|v: Vec<String>| string_views(v@))
    }

    /// An observer with no session.
    pub fn new() -> (r: Self)
        ensures
            r.sessions() == Seq::<Seq<Seq<char>>>::empty(),
    {
        let r = TradeObserver { symbols: Vec::new() };
        proof {
            assert(r.sessions() =~= Seq::<Seq<Seq<char>>>::empty());
        }
        r
    }

    /// The number of sessions.
    pub fn num_sessions(&self) -> (r: usize)
        ensures
            r == self.sessions().len(),
    {
        self.symbols.len()
    }

    /// Adds `symbol` to a session and returns which one.
    pub fn add_symbol(&mut self, symbol: &String) -> (r: usize)
        ensures
            (final(self).sessions(), r as int) == spec_add_symbol(old(self).sessions(), symbol@),
    {
        let ghost before = self.sessions();
        if self.symbols.len() < NUM_SESSION {
            let mut v: Vec<String> = Vec::new();
            v.push(symbol.clone());
            self.symbols.push(v);
            proof {
                assert(string_views(v@) =~= seq![symbol@]);
                assert(self.sessions() =~= before.push(seq![symbol@]));
            }
            return self.symbols.len() - 1;
        }
        proof {
            lemma_first_min(before);
        }
        let mut best: usize = 0;
        let mut i: usize = 1;
        while i < self.symbols.len()
            invariant
                1 <= i <= self.symbols@.len(),
                self.symbols@.len() >= NUM_SESSION,
                before == self.sessions(),
                best == first_min(before.take(i as int)),
                best < i,
            decreases self.symbols.len() - i,
        {
            proof {
                let t = before.take(i + 1);
                assert(t.drop_last() =~= before.take(i as int));
                assert(t.last() == before[i as int]);
                assert(t[best as int] == before[best as int]);
                assert(before[i as int].len() == self.symbols@[i as int]@.len());
                assert(before[best as int].len() == self.symbols@[best as int]@.len());
            }
            if self.symbols[i].len() < self.symbols[best].len() {
                best = i;
            }
            i = i + 1;
        }
        proof {
            assert(before.take(i as int) =~= before);
        }
        let ghost oldv = self.symbols@[best as int];
        let mut v = self.symbols.remove(best);
        v.push(symbol.clone());
        proof {
            assert(string_views(v@) =~= string_views(oldv@).push(symbol@));
            assert(before[best as int] == string_views(oldv@));
        }
        self.symbols.insert(best, v);
        proof {
            assert(self.sessions() =~= before.update(
                best as int,
                before[best as int].push(symbol@),
            ));
        }
        best
    }

    /// Where `symbol` is first found: its session and position there.
    pub fn get_symbol_index(&self, symbol: &String) -> (r: Option<(usize, usize)>)
        ensures
            r matches Some((i, p)) ==> is_first_position(self.sessions(), symbol@, i as int, p as int),
            r is None ==> !sessions_hold(self.sessions(), symbol@),
    {
        let mut i: usize = 0;
        while i < self.symbols.len()
            invariant
                i <= self.symbols@.len(),
                forall|j: int| 0 <= j < i ==> !(#[trigger] self.sessions()[j]).contains(symbol@),
            decreases self.symbols.len() - i,
        {
            let session = &self.symbols[i];
            let mut p: usize = 0;
            while p < session.len()
                invariant
                    p <= session@.len(),
                    i < self.symbols@.len(),
                    *session == self.symbols@[i as int],
                    forall|j: int| 0 <= j < i ==> !(#[trigger] self.sessions()[j]).contains(symbol@),
                    forall|q: int| 0 <= q < p ==> (#[trigger] session@[q])@ != symbol@,
                decreases session.len() - p,
            {
                if session[p] == *symbol {
                    proof {
                        assert(self.sessions()[i as int] == string_views(session@));
                        assert forall|q: int| 0 <= q < p implies (
                        #[trigger] self.sessions()[i as int][q]) != symbol@ by {
                            assert(self.sessions()[i as int][q] == session@[q]@);
                        }
                    }
                    return Some((i, p));
                }
                p = p + 1;
            }
            proof {
                assert(self.sessions()[i as int] == string_views(session@));
                if self.sessions()[i as int].contains(symbol@) {
                    let q = choose|q: int|
                        0 <= q < self.sessions()[i as int].len() && self.sessions()[i as int][q]
                            == symbol@;
                    assert(session@[q]@ == symbol@);
                }
            }
            i = i + 1;
        }
        None
    }

    /// Whether a symbol announced as added is to be subscribed: it trades
    /// and no session holds it yet.
    pub fn accept_added_symbol(&self, symbol: &String, status: &str) -> (r: bool)
        ensures
            r == (status@ == "TRADING"@ && !sessions_hold(self.sessions(), symbol@)),
    {
        if !str_eq(status, "TRADING") {
            return false;
        }
        match self.get_symbol_index(symbol) {
            Some((i, p)) => {
                proof {
                    assert(self.sessions()[i as int][p as int] == symbol@);
                    assert(self.sessions()[i as int].contains(symbol@));
                }
                false
            },
            None => true,
        }
    }
}


proof fn lemma_first_position_unique(sessions: Sessions, s: Seq<char>, i: int, p: int)
    requires
        is_first_position(sessions, s, i, p),
    ensures
        sessions_hold(sessions, s),
        (choose|a: int, b: int| is_first_position(sessions, s, a, b)) == (i, p),
{
    assert(sessions[i].contains(s));
    let (a, b) = choose|a: int, b: int| is_first_position(sessions, s, a, b);
    assert(is_first_position(sessions, s, a, b));
    if a < i {
        assert(sessions[a].contains(s));
    }
    if i < a {
        assert(sessions[i].contains(s));
    }
    if a == i {
        if b < p {
            assert(sessions[i][b] == s);
        }
        if p < b {
            assert(sessions[a][p] == s);
        }
    }
}

/// The position of the group of session `k` in `groups`, if there is one.
fn find_session_group(groups: &Vec<(usize, Vec<String>)>, k: usize) -> (r: Option<usize>)
    requires
        distinct_keys(session_group_views(groups@)),
    ensures
        r matches Some(i) ==> i == session_group_index(session_group_views(groups@), k) && i
            < groups@.len(),
        r is None ==> session_group_index(session_group_views(groups@), k) == groups@.len(),
{
    let mut i: usize = 0;
    while i < groups.len()
        invariant
            i <= groups@.len(),
            distinct_keys(session_group_views(groups@)),
            forall|j: int| 0 <= j < i ==> (#[trigger] groups@[j]).0 != k,
        decreases groups.len() - i,
    {
        if groups[i].0 == k {
            proof {
                let g = session_group_views(groups@);
                lemma_session_group_index(g, k);
                let gi = session_group_index(g, k);
                assert(g[i as int].0 == k);
                if gi < g.len() {
                    assert(g[gi].0 == groups@[gi].0);
                }
            }
            return Some(i);
        }
        i = i + 1;
    }
    proof {
        let g = session_group_views(groups@);
        lemma_session_group_index(g, k);
        let gi = session_group_index(g, k);
        if gi < g.len() {
            assert(g[gi].0 == groups@[gi].0);
        }
    }
    None
}

/// Adds the stream name `param` of a symbol to the group of session `k`.
fn add_param(groups: &mut Vec<(usize, Vec<String>)>, k: usize, param: String, Ghost(s): Ghost<Seq<char>>)
    requires
        distinct_keys(session_group_views(old(groups)@)),
        param@ == session_param(s),
    ensures
        distinct_keys(session_group_views(final(groups)@)),
        session_group_views(final(groups)@) == add_to_session_group(
            session_group_views(old(groups)@),
            k,
            s,
        ),
{
    let ghost before = session_group_views(groups@);
    proof {
        lemma_session_group_index(before, k);
    }
    match find_session_group(groups, k) {
        Some(j) => {
            let (gk, mut names) = groups.remove(j);
            proof {
                assert(before[j as int].0 == gk);
                assert(before[j as int].1 == string_views(names@));
            }
            names.push(param);
            proof {
                assert(string_views(names@) =~= before[j as int].1.push(session_param(s)));
            }
            groups.insert(j, (gk, names));
            proof {
                assert(session_group_views(groups@) =~= before.update(
                    j as int,
                    (k, before[j as int].1.push(session_param(s))),
                ));
            }
        },
        None => {
            let mut names: Vec<String> = Vec::new();
            names.push(param);
            groups.push((k, names));
            proof {
                assert(string_views(names@) =~= seq![session_param(s)]);
                assert(session_group_views(groups@) =~= before.push((k, seq![session_param(s)])));
            }
        },
    }
}

/// The stream name of a symbol in a session request.
fn make_session_param(symbol: &String) -> (r: String)
    ensures
        r@ == session_param(symbol@),
{
    let lower = to_lowercase(symbol.as_str());
    crate::ticker::book_ticker_param(lower.as_str())
}

/// Builds one request for each group, with the session as id.
fn session_requests(groups: &Vec<(usize, Vec<String>)>, subscribe: bool) -> (r: Vec<SubscribeRequest>)
    ensures
        r@.len() == groups@.len(),
        forall|k: int|
            0 <= k < r@.len() ==> is_session_request(
                #[trigger] r@[k],
                session_group_views(groups@)[k].0,
                session_group_views(groups@)[k].1,
                subscribe,
            ),
{
    let mut out: Vec<SubscribeRequest> = Vec::new();
    let mut k: usize = 0;
    while k < groups.len()
        invariant
            k <= groups@.len(),
            out@.len() == k,
            forall|q: int|
                0 <= q < k ==> is_session_request(
                    #[trigger] out@[q],
                    session_group_views(groups@)[q].0,
                    session_group_views(groups@)[q].1,
                    subscribe,
                ),
        decreases groups.len() - k,
    {
        let inner = SubscribeRequestInner {
            id: groups[k].0 as u64,
            params: crate::text::copy_strings(&groups[k].1),
        };
        let req = if subscribe {
            SubscribeRequest::Subscribe(inner)
        } else {
            SubscribeRequest::Unsubscribe(inner)
        };
        out.push(req);
        k = k + 1;
    }
    out
}

impl TradeObserver {
    /// Adds each of `symbols` to a session, in order, and gives the requests
    /// that subscribe them: one for each session that took symbols, with the
    /// session as id and the lowercased stream names.
    pub fn subscribe(&mut self, symbols: &Vec<String>) -> (r: Vec<SubscribeRequest>)
        ensures
            ({
                let (ss, groups) = subscribe_plan(old(self).sessions(), string_views(symbols@));
                &&& final(self).sessions() == ss
                &&& r@.len() == groups.len()
                &&& forall|k: int|
                    0 <= k < r@.len() ==> is_session_request(
                        #[trigger] r@[k],
                        groups[k].0,
                        groups[k].1,
                        true,
                    )
            }),
    {
        let ghost start = self.sessions();
        let mut groups: Vec<(usize, Vec<String>)> = Vec::new();
        let mut i: usize = 0;
        while i < symbols.len()
            invariant
                i <= symbols.len(),
                start == old(self).sessions(),
                ({
                    let (ss, g) = subscribe_plan(start, string_views(symbols@.take(i as int)));
                    &&& self.sessions() == ss
                    &&& session_group_views(groups@) == g
                }),
                distinct_keys(session_group_views(groups@)),
            decreases symbols.len() - i,
        {
            proof {
                let prev = string_views(symbols@.take(i as int));
                let cur = string_views(symbols@.take(i + 1));
                assert(cur.drop_last() =~= prev);
                assert(cur.last() == symbols@[i as int]@);
            }
            let k = self.add_symbol(&symbols[i]);
            let param = make_session_param(&symbols[i]);
            add_param(&mut groups, k, param, Ghost(symbols@[i as int]@));
            i = i + 1;
        }
        proof {
            assert(symbols@.take(symbols.len() as int) =~= symbols@);
        }
        session_requests(&groups, true)
    }

    /// Takes each of `symbols` out of the first session holding it, in
    /// order, and gives the requests that unsubscribe them: one for each
    /// session that lost symbols. Symbols no session holds are passed over.
    pub fn unsubscribe(&mut self, symbols: &Vec<String>) -> (r: Vec<SubscribeRequest>)
        ensures
            ({
                let (ss, groups) = unsubscribe_plan(old(self).sessions(), string_views(symbols@));
                &&& final(self).sessions() == ss
                &&& r@.len() == groups.len()
                &&& forall|k: int|
                    0 <= k < r@.len() ==> is_session_request(
                        #[trigger] r@[k],
                        groups[k].0,
                        groups[k].1,
                        false,
                    )
            }),
    {
        let ghost start = self.sessions();
        let mut groups: Vec<(usize, Vec<String>)> = Vec::new();
        let mut i: usize = 0;
        while i < symbols.len()
            invariant
                i <= symbols.len(),
                start == old(self).sessions(),
                ({
                    let (ss, g) = unsubscribe_plan(start, string_views(symbols@.take(i as int)));
                    &&& self.sessions() == ss
                    &&& session_group_views(groups@) == g
                }),
                distinct_keys(session_group_views(groups@)),
            decreases symbols.len() - i,
        {
            proof {
                let prev = string_views(symbols@.take(i as int));
                let cur = string_views(symbols@.take(i + 1));
                assert(cur.drop_last() =~= prev);
                assert(cur.last() == symbols@[i as int]@);
            }
            let ghost before = self.sessions();
            match self.get_symbol_index(&symbols[i]) {
                Some((id, pos)) => {
                    proof {
                        lemma_first_position_unique(before, symbols@[i as int]@, id as int, pos as int);
                    }
                    let param = make_session_param(&symbols[i]);
                    add_param(&mut groups, id, param, Ghost(symbols@[i as int]@));
                    let ghost oldv = self.symbols@[id as int];
                    let mut v = self.symbols.remove(id);
                    v.remove(pos);
                    proof {
                        assert(string_views(v@) =~= string_views(oldv@).remove(pos as int));
                    }
                    self.symbols.insert(id, v);
                    proof {
                        assert(self.sessions() =~= before.update(
                            id as int,
                            before[id as int].remove(pos as int),
                        ));
                    }
                },
                None => {},
            }
            i = i + 1;
        }
        proof {
            assert(symbols@.take(symbols.len() as int) =~= symbols@);
        }
        session_requests(&groups, false)
    }
}

/// Adding a symbol opens a session only while there are fewer than
/// `NUM_SESSION`; after that it joins a session holding the fewest symbols;
/// either way the symbol is then held, and every symbol held before stays
/// held.
pub proof fn law_add_symbol(sessions: Sessions, s: Seq<char>)
    ensures
        ({
            let (after, i) = spec_add_symbol(sessions, s);
            &&& after.len() == (if sessions.len() < NUM_SESSION {
                (sessions.len() + 1) as int
            } else {
                sessions.len() as int
            })
            &&& 0 <= i < after.len()
            &&& after[i].contains(s)
            &&& sessions_hold(after, s)
            &&& (sessions.len() >= NUM_SESSION ==> forall|j: int|
                0 <= j < sessions.len() ==> sessions[i].len() <= (#[trigger] sessions[j]).len())
            &&& forall|x: Seq<char>| #[trigger] sessions_hold(sessions, x) ==> sessions_hold(after, x)
        }),
{
    let (after, i) = spec_add_symbol(sessions, s);
    if sessions.len() >= NUM_SESSION {
        lemma_first_min(sessions);
        assert(after[i] == sessions[i].push(s));
        assert(after[i][after[i].len() - 1] == s);
    } else {
        assert(after[i] == seq![s]);
        assert(after[i][0] == s);
    }
    assert(after[i].contains(s));
    assert forall|x: Seq<char>| #[trigger] sessions_hold(sessions, x) implies sessions_hold(after, x) by {
        let j = choose|j: int| 0 <= j < sessions.len() && (#[trigger] sessions[j]).contains(x);
        let p = choose|p: int| 0 <= p < sessions[j].len() && sessions[j][p] == x;
        if sessions.len() >= NUM_SESSION && j == i {
            assert(after[j] == sessions[j].push(s));
            assert(after[j][p] == x);
        } else {
            assert(after[j] == sessions[j]);
        }
        assert(after[j].contains(x));
    }
}

/// Subscribing never makes more than `NUM_SESSION` sessions, and afterwards
/// every subscribed symbol, and every symbol held before, is held.
pub proof fn law_subscribe_holds(sessions: Sessions, symbols: Seq<Seq<char>>)
    requires
        sessions.len() <= NUM_SESSION,
    ensures
        subscribe_plan(sessions, symbols).0.len() <= NUM_SESSION,
        forall|x: Seq<char>| #[trigger] symbols.contains(x) ==> sessions_hold(subscribe_plan(sessions, symbols).0, x),
        forall|x: Seq<char>| #[trigger] sessions_hold(sessions, x) ==> sessions_hold(subscribe_plan(sessions, symbols).0, x),
    decreases symbols.len(),
{
    if symbols.len() > 0 {
        let d = symbols.drop_last();
        law_subscribe_holds(sessions, d);
        let (ss, g) = subscribe_plan(sessions, d);
        let last = symbols.last();
        law_add_symbol(ss, last);
        let after = subscribe_plan(sessions, symbols).0;
        assert(after == spec_add_symbol(ss, last).0);
        assert forall|x: Seq<char>| #[trigger] symbols.contains(x) implies sessions_hold(after, x) by {
            let k = choose|k: int| 0 <= k < symbols.len() && symbols[k] == x;
            if k < d.len() {
                assert(d[k] == x);
                assert(d.contains(x));
                assert(sessions_hold(ss, x));
            }
        }
    }
}

/// No symbol is held twice: equal symbols stand at the same place.
pub open spec fn held_once(sessions: Sessions) -> bool {
    forall|i: int, p: int, j: int, q: int|
        #![trigger sessions[i][p], sessions[j][q]]
        0 <= i < sessions.len() && 0 <= p < sessions[i].len() && 0 <= j < sessions.len() && 0 <= q
            < sessions[j].len() && sessions[i][p] == sessions[j][q] ==> i == j && p == q
}

proof fn lemma_remove_first(ss: Sessions, s: Seq<char>, i: int, p: int)
    requires
        held_once(ss),
        is_first_position(ss, s, i, p),
    ensures
        held_once(ss.update(i, ss[i].remove(p))),
        forall|x: Seq<char>|
            #[trigger] sessions_hold(ss.update(i, ss[i].remove(p)), x) <==> (sessions_hold(ss, x)
                && x != s),
{
    let ss2 = ss.update(i, ss[i].remove(p));
    // where a place of `ss2` stood in `ss`
    assert forall|j: int, q: int| 0 <= j < ss2.len() && 0 <= q < ss2[j].len() implies (
    #[trigger] ss2[j][q]) == ss[j][if j == i && q >= p {
        q + 1
    } else {
        q
    }] by {}
    assert forall|j: int, q: int, k: int, r: int|
        #![trigger ss2[j][q], ss2[k][r]]
        0 <= j < ss2.len() && 0 <= q < ss2[j].len() && 0 <= k < ss2.len() && 0 <= r < ss2[k].len()
            && ss2[j][q] == ss2[k][r] implies j == k && q == r by {
        let q0 = if j == i && q >= p {
            q + 1
        } else {
            q
        };
        let r0 = if k == i && r >= p {
            r + 1
        } else {
            r
        };
        assert(ss2[j][q] == ss[j][q0]);
        assert(ss2[k][r] == ss[k][r0]);
        assert(ss[j][q0] == ss[k][r0]);
    }
    assert forall|x: Seq<char>| #[trigger] sessions_hold(ss2, x) <==> (sessions_hold(ss, x) && x
        != s) by {
        if sessions_hold(ss2, x) {
            let j = choose|j: int| 0 <= j < ss2.len() && (#[trigger] ss2[j]).contains(x);
            let q = choose|q: int| 0 <= q < ss2[j].len() && ss2[j][q] == x;
            let q0 = if j == i && q >= p {
                q + 1
            } else {
                q
            };
            assert(ss2[j][q] == ss[j][q0]);
            assert(ss[j].contains(x));
            if x == s {
                assert(ss[i][p] == ss[j][q0]);
            }
        }
        if sessions_hold(ss, x) && x != s {
            let j = choose|j: int| 0 <= j < ss.len() && (#[trigger] ss[j]).contains(x);
            let q = choose|q: int| 0 <= q < ss[j].len() && ss[j][q] == x;
            if j == i {
                assert(q != p);
                let q2 = if q > p {
                    q - 1
                } else {
                    q
                };
                assert(ss2[j][q2] == x);
            } else {
                assert(ss2[j][q] == x);
            }
            assert(ss2[j].contains(x));
        }
    }
}

/// While no symbol is held twice, unsubscribing takes exactly the given
/// symbols out: afterwards a symbol is held exactly when it was held before
/// and is not one of them, and still no symbol is held twice.
pub proof fn law_unsubscribe_removes(sessions: Sessions, symbols: Seq<Seq<char>>)
    requires
        held_once(sessions),
    ensures
        held_once(unsubscribe_plan(sessions, symbols).0),
        forall|x: Seq<char>|
            #[trigger] sessions_hold(unsubscribe_plan(sessions, symbols).0, x) <==> (sessions_hold(
                sessions,
                x,
            ) && !symbols.contains(x)),
    decreases symbols.len(),
{
    if symbols.len() > 0 {
        let d = symbols.drop_last();
        let last = symbols.last();
        law_unsubscribe_removes(sessions, d);
        let (ss, g) = unsubscribe_plan(sessions, d);
        assert forall|x: Seq<char>| symbols.contains(x) <==> (d.contains(x) || x == last) by {
            if symbols.contains(x) {
                let k = choose|k: int| 0 <= k < symbols.len() && symbols[k] == x;
                if k < d.len() {
                    assert(d[k] == x);
                }
            }
            if d.contains(x) {
                let k = choose|k: int| 0 <= k < d.len() && d[k] == x;
                assert(symbols[k] == x);
            }
            assert(symbols[symbols.len() - 1] == last);
        }
        if sessions_hold(ss, last) {
            let (i, p) = choose|i: int, p: int| is_first_position(ss, last, i, p);
            lemma_first_exists(ss, last);
            lemma_remove_first(ss, last, i, p);
        }
    }
}

proof fn lemma_first_exists(ss: Sessions, s: Seq<char>)
    requires
        sessions_hold(ss, s),
    ensures
        exists|i: int, p: int| is_first_position(ss, s, i, p),
{
    let has = ss.map_values(|v: Seq<Seq<char>>| v.contains(s));
    let j = choose|j: int| 0 <= j < ss.len() && (#[trigger] ss[j]).contains(s);
    assert(has[j]);
    has.index_of_first_ensures(true);
    let i = has.index_of_first(true).unwrap();
    assert(ss[i].contains(s));
    ss[i].index_of_first_ensures(s);
    let p = ss[i].index_of_first(s).unwrap();
    assert forall|k: int| 0 <= k < i implies !(#[trigger] ss[k]).contains(s) by {
        assert(has[k] != true);
    }
    assert(is_first_position(ss, s, i, p));
}

proof fn lemma_add_once(ss: Sessions, s: Seq<char>)
    requires
        held_once(ss),
        !sessions_hold(ss, s),
    ensures
        held_once(spec_add_symbol(ss, s).0),
        forall|x: Seq<char>|
            #[trigger] sessions_hold(spec_add_symbol(ss, s).0, x) <==> (sessions_hold(ss, x) || x
                == s),
{
    let (after, k) = spec_add_symbol(ss, s);
    if ss.len() >= NUM_SESSION {
        lemma_first_min(ss);
    }
    assert(0 <= k < after.len());
    assert(after[k] == ss[k].push(s) || (k == ss.len() && after[k] == seq![s]));
    // every place of `after` is a place of `ss`, or the new place of `s`
    assert forall|j: int, q: int| 0 <= j < after.len() && 0 <= q < after[j].len() implies (
    #[trigger] after[j][q] == s && j == k && q == after[k].len() - 1) || (j < ss.len() && q
        < ss[j].len() && after[j][q] == ss[j][q]) by {
        if j != k {
            assert(after[j] == ss[j]);
        }
    }
    assert forall|j: int, q: int, m: int, r: int|
        #![trigger after[j][q], after[m][r]]
        0 <= j < after.len() && 0 <= q < after[j].len() && 0 <= m < after.len() && 0 <= r
            < after[m].len() && after[j][q] == after[m][r] implies j == m && q == r by {
        let new_jq = after[j][q] == s && j == k && q == after[k].len() - 1;
        let new_mr = after[m][r] == s && m == k && r == after[k].len() - 1;
        if !new_jq && !new_mr {
            assert(ss[j][q] == ss[m][r]);
        } else if new_jq && !new_mr {
            assert(ss[m].contains(s));
        } else if !new_jq && new_mr {
            assert(ss[j].contains(s));
        }
    }
    assert forall|x: Seq<char>| #[trigger] sessions_hold(after, x) <==> (sessions_hold(ss, x) || x
        == s) by {
        if sessions_hold(after, x) {
            let j = choose|j: int| 0 <= j < after.len() && (#[trigger] after[j]).contains(x);
            let q = choose|q: int| 0 <= q < after[j].len() && after[j][q] == x;
            if !(x == s) {
                assert(ss[j][q] == x);
                assert(ss[j].contains(x));
            }
        }
        if x == s {
            assert(after[k][after[k].len() - 1] == s);
            assert(after[k].contains(s));
        } else if sessions_hold(ss, x) {
            let j = choose|j: int| 0 <= j < ss.len() && (#[trigger] ss[j]).contains(x);
            let q = choose|q: int| 0 <= q < ss[j].len() && ss[j][q] == x;
            if j == k {
                assert(after[j][q] == x);
            } else {
                assert(after[j] == ss[j]);
            }
            assert(after[j].contains(x));
        }
    }
}

/// Subscribing symbols that no session holds, each once, keeps every symbol
/// held at most once; afterwards a symbol is held exactly when it was held
/// before or was subscribed.
pub proof fn law_subscribe_keeps_once(sessions: Sessions, symbols: Seq<Seq<char>>)
    requires
        held_once(sessions),
        crate::nodes::no_dups(symbols),
        forall|x: Seq<char>| #[trigger] symbols.contains(x) ==> !sessions_hold(sessions, x),
    ensures
        held_once(subscribe_plan(sessions, symbols).0),
        forall|x: Seq<char>|
            #[trigger] sessions_hold(subscribe_plan(sessions, symbols).0, x) <==> (sessions_hold(
                sessions,
                x,
            ) || symbols.contains(x)),
    decreases symbols.len(),
{
    if symbols.len() > 0 {
        let d = symbols.drop_last();
        let last = symbols.last();
        assert forall|x: Seq<char>| symbols.contains(x) <==> (d.contains(x) || x == last) by {
            if symbols.contains(x) {
                let k = choose|k: int| 0 <= k < symbols.len() && symbols[k] == x;
                if k < d.len() {
                    assert(d[k] == x);
                }
            }
            if d.contains(x) {
                let k = choose|k: int| 0 <= k < d.len() && d[k] == x;
                assert(symbols[k] == x);
            }
            assert(symbols[symbols.len() - 1] == last);
        }
        assert(crate::nodes::no_dups(d)) by {
            assert forall|a: int, b: int| 0 <= a < b < d.len() implies d[a] != d[b] by {
                assert(d[a] == symbols[a] && d[b] == symbols[b]);
            }
        }
        law_subscribe_keeps_once(sessions, d);
        let (ss, g) = subscribe_plan(sessions, d);
        if d.contains(last) {
            let k = choose|k: int| 0 <= k < d.len() && d[k] == last;
            assert(symbols[k] == symbols[symbols.len() - 1]);
        }
        lemma_add_once(ss, last);
    }
}

/// Some request group is the group of a session of `sessions` that holds
/// `s`, and it carries the stream name of `s`.
pub open spec fn requested_where_held(groups: SessionGroups, sessions: Sessions, s: Seq<char>) -> bool {
    exists|g: int|
        0 <= g < groups.len() && groups[g].0 < sessions.len() && (#[trigger] groups[g].1).contains(
            session_param(s),
        ) && sessions[groups[g].0 as int].contains(s)
}

proof fn lemma_add_session_group_keeps(groups: SessionGroups, k: usize, s: Seq<char>)
    requires
        distinct_keys(groups),
    ensures
        distinct_keys(add_to_session_group(groups, k, s)),
        groups.len() <= add_to_session_group(groups, k, s).len(),
        forall|g: int|
            0 <= g < groups.len() ==> (#[trigger] add_to_session_group(groups, k, s)[g]).0
                == groups[g].0,
        forall|g: int, x: Seq<char>|
            0 <= g < groups.len() && #[trigger] groups[g].1.contains(x) ==> add_to_session_group(
                groups,
                k,
                s,
            )[g].1.contains(x),
        exists|g: int|
            0 <= g < add_to_session_group(groups, k, s).len() && add_to_session_group(groups, k, s)[g].0
                == k && (#[trigger] add_to_session_group(groups, k, s)[g].1).contains(session_param(s)),
{
    lemma_session_group_index(groups, k);
    let i = session_group_index(groups, k);
    let after = add_to_session_group(groups, k, s);
    if i < groups.len() {
        assert(after[i].1 == groups[i].1.push(session_param(s)));
        assert(after[i].1[groups[i].1.len() as int] == session_param(s));
        assert(after[i].1.contains(session_param(s)));
        assert forall|a: int, b: int| 0 <= a < b < after.len() implies after[a].0 != after[b].0 by {
            assert(after[a].0 == groups[a].0 && after[b].0 == groups[b].0);
        }
    } else {
        assert(after[groups.len() as int].1 == seq![session_param(s)]);
        assert(after[groups.len() as int].1[0] == session_param(s));
        assert(after[groups.len() as int].1.contains(session_param(s)));
        assert forall|a: int, b: int| 0 <= a < b < after.len() implies after[a].0 != after[b].0 by {
            if b < groups.len() {
                assert(after[a] == groups[a] && after[b] == groups[b]);
            } else {
                assert(after[a] == groups[a]);
            }
        }
    }
    assert forall|g: int, x: Seq<char>|
        0 <= g < groups.len() && #[trigger] groups[g].1.contains(x) implies after[g].1.contains(x) by {
        let q = choose|q: int| 0 <= q < groups[g].1.len() && groups[g].1[q] == x;
        if g == i {
            assert(after[g].1[q] == x);
        } else {
            assert(after[g] == groups[g]);
        }
    }
}

/// Subscribing requests every symbol: each subscribed symbol's lowercased
/// stream is in the request group of a session that holds it afterwards,
/// and no two groups name the same session.
pub proof fn law_subscribe_requests_all(sessions: Sessions, symbols: Seq<Seq<char>>)
    requires
        sessions.len() < usize::MAX,
    ensures
        distinct_keys(subscribe_plan(sessions, symbols).1),
        forall|s: Seq<char>|
            #[trigger] symbols.contains(s) ==> requested_where_held(
                subscribe_plan(sessions, symbols).1,
                subscribe_plan(sessions, symbols).0,
                s,
            ),
        sessions.len() <= subscribe_plan(sessions, symbols).0.len() <= (if sessions.len()
            > NUM_SESSION {
            sessions.len() as int
        } else {
            NUM_SESSION as int
        }),
    decreases symbols.len(),
{
    if symbols.len() > 0 {
        let d = symbols.drop_last();
        let last = symbols.last();
        law_subscribe_requests_all(sessions, d);
        let (ss, g) = subscribe_plan(sessions, d);
        let (ss2, k) = spec_add_symbol(ss, last);
        law_add_symbol(ss, last);
        if ss.len() >= NUM_SESSION {
            lemma_first_min(ss);
        }
        let g2 = add_to_session_group(g, k as usize, last);
        assert(subscribe_plan(sessions, symbols) == (ss2, g2));
        lemma_add_session_group_keeps(g, k as usize, last);
        // every session keeps what it held
        assert forall|j: int, x: Seq<char>|
            0 <= j < ss.len() && #[trigger] ss[j].contains(x) implies ss2[j].contains(x) by {
            let q = choose|q: int| 0 <= q < ss[j].len() && ss[j][q] == x;
            if ss.len() < NUM_SESSION {
                assert(ss2[j] == ss[j]);
            } else if j == k {
                assert(ss2[j] == ss[j].push(last));
                assert(ss2[j][q] == x);
            } else {
                assert(ss2[j] == ss[j]);
            }
        }
        assert forall|s: Seq<char>| #[trigger] symbols.contains(s) implies requested_where_held(g2, ss2, s) by {
            let n = choose|n: int| 0 <= n < symbols.len() && symbols[n] == s;
            if n < d.len() {
                assert(d[n] == s);
                assert(d.contains(s));
                assert(requested_where_held(g, ss, s));
                let h = choose|h: int|
                    0 <= h < g.len() && g[h].0 < ss.len() && (#[trigger] g[h].1).contains(
                        session_param(s),
                    ) && ss[g[h].0 as int].contains(s);
                assert(g2[h].0 == g[h].0);
                assert(g2[h].1.contains(session_param(s)));
                assert(ss2[g2[h].0 as int].contains(s));
            } else {
                assert(s == last);
                let h = choose|h: int|
                    0 <= h < g2.len() && g2[h].0 == k as usize && (#[trigger] g2[h].1).contains(
                        session_param(last),
                    );
                assert(ss2[k].contains(last));
                assert(g2[h].1.contains(session_param(s)));
            }
        }
    }
}

/// Unsubscribing keeps the sessions in number, only takes symbols out, and
/// takes out none that was not asked for; and every asked-for symbol that
/// a session held has its stream in the request group of a session that
/// held it.
pub proof fn law_unsubscribe_requests_all(sessions: Sessions, symbols: Seq<Seq<char>>)
    requires
        sessions.len() <= usize::MAX,
    ensures
        unsubscribe_plan(sessions, symbols).0.len() == sessions.len(),
        distinct_keys(unsubscribe_plan(sessions, symbols).1),
        forall|i: int, x: Seq<char>|
            0 <= i < sessions.len() && #[trigger] unsubscribe_plan(sessions, symbols).0[i].contains(x)
                ==> sessions[i].contains(x),
        forall|i: int, x: Seq<char>|
            0 <= i < sessions.len() && #[trigger] sessions[i].contains(x) && !symbols.contains(x)
                ==> unsubscribe_plan(sessions, symbols).0[i].contains(x),
        forall|s: Seq<char>|
            #[trigger] symbols.contains(s) && sessions_hold(sessions, s) ==> requested_where_held(
                unsubscribe_plan(sessions, symbols).1,
                sessions,
                s,
            ),
    decreases symbols.len(),
{
    if symbols.len() > 0 {
        let d = symbols.drop_last();
        let last = symbols.last();
        law_unsubscribe_requests_all(sessions, d);
        let (ss, g) = unsubscribe_plan(sessions, d);
        assert forall|x: Seq<char>| symbols.contains(x) <==> (d.contains(x) || x == last) by {
            if symbols.contains(x) {
                let n = choose|n: int| 0 <= n < symbols.len() && symbols[n] == x;
                if n < d.len() {
                    assert(d[n] == x);
                }
            }
            if d.contains(x) {
                let n = choose|n: int| 0 <= n < d.len() && d[n] == x;
                assert(symbols[n] == x);
            }
            assert(symbols[symbols.len() - 1] == last);
        }
        if sessions_hold(ss, last) {
            lemma_first_exists(ss, last);
            let (i, p) = choose|i: int, p: int| is_first_position(ss, last, i, p);
            let ss2 = ss.update(i, ss[i].remove(p));
            let g2 = add_to_session_group(g, i as usize, last);
            assert(unsubscribe_plan(sessions, symbols) == (ss2, g2));
            lemma_add_session_group_keeps(g, i as usize, last);
            assert forall|j: int, x: Seq<char>|
                0 <= j < sessions.len() && #[trigger] ss2[j].contains(x) implies sessions[j].contains(x) by {
                let q = choose|q: int| 0 <= q < ss2[j].len() && ss2[j][q] == x;
                if j == i {
                    if q < p {
                        assert(ss[j][q] == x);
                    } else {
                        assert(ss[j][q + 1] == x);
                    }
                } else {
                    assert(ss2[j] == ss[j]);
                }
                assert(ss[j].contains(x));
            }
            assert forall|j: int, x: Seq<char>|
                0 <= j < sessions.len() && #[trigger] sessions[j].contains(x) && !symbols.contains(x)
                    implies ss2[j].contains(x) by {
                assert(ss[j].contains(x));
                let q = choose|q: int| 0 <= q < ss[j].len() && ss[j][q] == x;
                if j == i {
                    assert(q != p);
                    if q < p {
                        assert(ss2[j][q] == x);
                    } else {
                        assert(ss2[j][q - 1] == x);
                    }
                } else {
                    assert(ss2[j] == ss[j]);
                }
            }
            assert(ss[i].contains(last)) by {
                assert(ss[i][p] == last);
            }
            assert(sessions[i].contains(last));
            assert forall|s: Seq<char>| #[trigger] symbols.contains(s) && sessions_hold(sessions, s)
                implies requested_where_held(g2, sessions, s) by {
                if d.contains(s) {
                    assert(requested_where_held(g, sessions, s));
                    let h = choose|h: int|
                        0 <= h < g.len() && g[h].0 < sessions.len() && (#[trigger] g[h].1).contains(
                            session_param(s),
                        ) && sessions[g[h].0 as int].contains(s);
                    assert(g2[h].0 == g[h].0);
                    assert(g2[h].1.contains(session_param(s)));
                } else {
                    assert(s == last);
                    let h = choose|h: int|
                        0 <= h < g2.len() && g2[h].0 == i as usize && (#[trigger] g2[h].1).contains(
                            session_param(last),
                        );
                    assert(g2[h].1.contains(session_param(s)));
                }
            }
        } else {
            assert(unsubscribe_plan(sessions, symbols) == (ss, g));
            assert forall|s: Seq<char>| #[trigger] symbols.contains(s) && sessions_hold(sessions, s)
                implies requested_where_held(g, sessions, s) by {
                if !d.contains(s) {
                    assert(s == last);
                    let j = choose|j: int| 0 <= j < sessions.len() && (#[trigger] sessions[j]).contains(s);
                    assert(ss[j].contains(s));
                    assert(sessions_hold(ss, s));
                }
            }
        }
    }
}

} // verus!
