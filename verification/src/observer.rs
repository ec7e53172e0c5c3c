//! The book ticker observer's sockets: it subscribes symbols that no socket
//! holds yet, ten at a time, on the newest socket while that socket has room
//! (under 100 symbols and under 10 groups), and on a new socket otherwise.
use vstd::prelude::*;

use crate::book::{book_has, total_len, Groups, SubscriptionBook};
use crate::nodes::no_dups;
use crate::text::{contains_string, lemma_take_push_contains, nat_decimal, string_views};
use crate::ticker::{ticker_params, SubscribeRequest};

verus! {

/// The most symbols a socket takes before a new one is opened.
pub const MAX_SYMBOLS_PER_SOCKET: usize = 100;

/// The most groups a socket takes before a new one is opened.
pub const MAX_GROUPS_PER_SOCKET: usize = 10;

/// The number of symbols subscribed with one request.
pub const CHUNK_SIZE: usize = 10;

/// Whether some socket holds `s`.
pub open spec fn held(books: Seq<Groups>, s: Seq<char>) -> bool {
    exists|i: int| 0 <= i < books.len() && book_has(#[trigger] books[i], s)
}

/// The symbols of `symbols` that no socket holds, each once, in the order
/// of their first occurrence.
pub open spec fn fresh_symbols(books: Seq<Groups>, symbols: Seq<Seq<char>>) -> Seq<Seq<char>>
    decreases symbols.len(),
{
    if symbols.len() == 0 {
        seq![]
    } else {
        let p = fresh_symbols(books, symbols.drop_last());
        if held(books, symbols.last()) || p.contains(symbols.last()) {
            p
        } else {
            p.push(symbols.last())
        }
    }
}

/// The socket that takes the next chunk: the newest one while it has room.
pub open spec fn spec_target(books: Seq<Groups>) -> Option<usize> {
    if books.len() > 0 && total_len(books.last()) < MAX_SYMBOLS_PER_SOCKET
        && books.last().len() < MAX_GROUPS_PER_SOCKET {
        Some((books.len() - 1) as usize)
    } else {
        None
    }
}

/// The `k`-th chunk of `s` in pieces of `size`.
pub open spec fn chunk_at<T>(s: Seq<T>, k: int, size: int) -> Seq<T> {
    s.subrange(
        k * size,
        if (k + 1) * size < s.len() {
            (k + 1) * size
        } else {
            s.len() as int
        },
    )
}

/// The books after a chunk of `symbols` is subscribed on `target`: as the
/// next group of that socket, or as the first group of a new socket.
pub open spec fn committed(books: Seq<Groups>, ids: Seq<u64>, target: Option<usize>, symbols: Seq<Seq<char>>) -> Seq<Groups> {
    match target {
        Some(i) => books.update(i as int, books[i as int].push((ids[i as int], symbols))),
        None => books.push(seq![(0u64, symbols)]),
    }
}

/// The observer: one subscription book for each socket, in the order the
/// sockets were opened.
pub struct TradeObserver {
    sockets: Vec<SubscriptionBook>,
}

impl TradeObserver {
    /// The books of the sockets, as groups.
    pub closed spec fn books(&self) -> Seq<Groups> {
        self.sockets@.map_values(|b: SubscriptionBook| b.groups())
    }

    /// The next request id of each socket.
    pub closed spec fn next_ids(&self) -> Seq<u64> {
        self.sockets@.map_values(|b: SubscriptionBook| b.next_id())
    }

    pub closed spec fn wf(&self) -> bool {
        forall|i: int| 0 <= i < self.sockets@.len() ==> (#[trigger] self.sockets@[i]).wf()
    }

    /// An observer with no socket yet.
    pub fn new() -> (r: Self)
        ensures
            r.wf(),
            r.books() == Seq::<Groups>::empty(),
    {
        let r = TradeObserver { sockets: Vec::new() };
        proof {
            assert(r.books() =~= Seq::<Groups>::empty());
        }
        r
    }

    /// The number of open sockets.
    pub fn num_sockets(&self) -> (r: usize)
        ensures
            r == self.books().len(),
    {
        self.sockets.len()
    }

    /// The socket that takes the next chunk, if the newest socket has room.
    pub fn get_socket(&self) -> (r: Option<usize>)
        requires
            self.wf(),
        ensures
            r == spec_target(self.books()),
    {
        let n = self.sockets.len();
        let index = if n < 1 {
            0
        } else {
            n - 1
        };
        if index < n {
            let socket = &self.sockets[index];
            proof {
                assert(self.books()[index as int] == socket.groups());
                assert(self.sockets@[index as int].wf());
            }
            if socket.len() < MAX_SYMBOLS_PER_SOCKET && socket.len_socket() < MAX_GROUPS_PER_SOCKET {
                return Some(index);
            }
        }
        None
    }

    /// Whether some socket holds `symbol`.
    pub fn holds(&self, symbol: &str) -> (r: bool)
        ensures
            r == held(self.books(), symbol@),
    {
        let mut i: usize = 0;
        while i < self.sockets.len()
            invariant
                i <= self.sockets@.len(),
                forall|j: int| 0 <= j < i ==> !book_has(#[trigger] self.books()[j], symbol@),
            decreases self.sockets.len() - i,
        {
            proof {
                assert(self.books()[i as int] == self.sockets@[i as int].groups());
            }
            if self.sockets[i].has_symbol(symbol) {
                return true;
            }
            i = i + 1;
        }
        false
    }

    /// The symbols to subscribe: those of `symbols` that no socket holds,
    /// each once, in the order of their first occurrence.
    pub fn fresh(&self, symbols: &Vec<String>) -> (r: Vec<String>)
        ensures
            string_views(r@) == fresh_symbols(self.books(), string_views(symbols@)),
    {
        let mut out: Vec<String> = Vec::new();
        let mut i: usize = 0;
        while i < symbols.len()
            invariant
                i <= symbols.len(),
                string_views(out@) =~= fresh_symbols(
                    self.books(),
                    string_views(symbols@.take(i as int)),
                ),
            decreases symbols.len() - i,
        {
            let ghost prev = string_views(symbols@.take(i as int));
            let ghost cur = string_views(symbols@.take(i + 1));
            proof {
                assert(cur.drop_last() =~= prev);
                assert(cur.last() == symbols@[i as int]@);
            }
            let s = &symbols[i];
            if !self.holds(s.as_str()) && !contains_string(&out, s) {
                out.push(s.clone());
                proof {
                    assert(string_views(out@) =~= string_views(out@.drop_last()).push(s@));
                }
            }
            i = i + 1;
        }
        proof {
            assert(symbols@.take(symbols.len() as int) =~= symbols@);
        }
        out
    }

    /// The request that the chunk `symbols` is subscribed with, and the socket
    /// it goes to: `Some(i)` for an open socket, `None` for a new one, whose
    /// first request id is 0.
    pub fn plan_chunk(&self, symbols: &Vec<String>) -> (r: (Option<usize>, SubscribeRequest))
        requires
            self.wf(),
        ensures
            r.0 == spec_target(self.books()),
            r.1 matches SubscribeRequest::Subscribe(inner) && inner.id@ == nat_decimal(
                (match r.0 {
                    Some(i) => self.next_ids()[i as int],
                    None => 0u64,
                }) as nat,
            ) && string_views(inner.params@) == ticker_params(string_views(symbols@)),
    {
        let target = self.get_socket();
        match target {
            Some(i) => {
                proof {
                    assert(self.next_ids()[i as int] == self.sockets@[i as int].next_id());
                }
                (target, self.sockets[i].subscribe_request(symbols))
            },
            None => (target, SubscriptionBook::new().subscribe_request(symbols)),
        }
    }

    /// Records that the chunk `symbols` was subscribed on `target`: on that
    /// open socket, or on a new socket opened after the others.
    pub fn commit_chunk(&mut self, target: Option<usize>, symbols: &Vec<String>)
        requires
            old(self).wf(),
            target == spec_target(old(self).books()),
            target matches Some(i) ==> old(self).next_ids()[i as int] < u64::MAX
                && total_len(old(self).books()[i as int]) + symbols@.len() <= usize::MAX,
        ensures
            final(self).wf(),
            final(self).books() == committed(
                old(self).books(),
                old(self).next_ids(),
                target,
                string_views(symbols@),
            ),
            target matches Some(i) ==> {
                &&& final(self).books() == old(self).books().update(
                    i as int,
                    old(self).books()[i as int].push(
                        (old(self).next_ids()[i as int], string_views(symbols@)),
                    ),
                )
                &&& final(self).next_ids() == old(self).next_ids().update(
                    i as int,
                    (old(self).next_ids()[i as int] + 1) as u64,
                )
            },
            target is None ==> {
                &&& final(self).books() == old(self).books().push(
                    seq![(0u64, string_views(symbols@))],
                )
                &&& final(self).next_ids() == old(self).next_ids().push(1u64)
            },
    {
        let ghost books = self.books();
        let ghost ids = self.next_ids();
        match target {
            Some(i) => {
                let mut book = self.sockets.remove(i);
                proof {
                    assert(book.groups() == books[i as int]);
                    assert(book.next_id() == ids[i as int]);
                    assert(old(self).sockets@[i as int].wf());
                }
                book.record_subscription(symbols);
                self.sockets.insert(i, book);
                proof {
                    assert(self.books() =~= books.update(i as int, books[i as int].push(
                        (ids[i as int], string_views(symbols@)),
                    )));
                    assert(self.next_ids() =~= ids.update(i as int, (ids[i as int] + 1) as u64));
                    assert forall|j: int| 0 <= j < self.sockets@.len() implies (
                    #[trigger] self.sockets@[j]).wf() by {
                        if j != i {
                            assert(self.sockets@[j] == old(self).sockets@[j]);
                        }
                    }
                }
            },
            None => {
                let mut book = SubscriptionBook::new();
                let n = symbols.len();
                proof {
                    assert(total_len(book.groups()) == 0);
                    assert(symbols@.len() == n);
                }
                book.record_subscription(symbols);
                self.sockets.push(book);
                proof {
                    assert(book.groups() =~= seq![(0u64, string_views(symbols@))]);
                    assert(self.books() =~= books.push(seq![(0u64, string_views(symbols@))]));
                    assert(self.next_ids() =~= ids.push(1u64));
                    assert forall|j: int| 0 <= j < self.sockets@.len() implies (
                    #[trigger] self.sockets@[j]).wf() by {
                        if j < books.len() {
                            assert(self.sockets@[j] == old(self).sockets@[j]);
                        }
                    }
                }
            },
        }
    }
}

/// Splits `symbols` into chunks of ten, in order; the last may be shorter.
pub fn chunk_symbols(symbols: &Vec<String>) -> (r: Vec<Vec<String>>)
    ensures
        r@.len() == (symbols@.len() + CHUNK_SIZE - 1) / (CHUNK_SIZE as int),
        forall|k: int|
            0 <= k < r@.len() ==> (#[trigger] r@[k])@ == chunk_at(symbols@, k, CHUNK_SIZE as int),
{
    let n = symbols.len();
    let mut out: Vec<Vec<String>> = Vec::new();
    let mut start: usize = 0;
    while start < n
        invariant
            n == symbols@.len(),
            start <= n,
            start < n ==> start == 10 * out@.len(),
            start == n ==> out@.len() == (n + 9) / 10,
            forall|k: int|
                0 <= k < out@.len() ==> (#[trigger] out@[k])@ == chunk_at(symbols@, k, 10),
        decreases n - start,
    {
        let end = if n - start > CHUNK_SIZE {
            start + CHUNK_SIZE
        } else {
            n
        };
        let mut chunk: Vec<String> = Vec::new();
        let mut j: usize = start;
        while j < end
            invariant
                start <= j <= end <= n,
                n == symbols@.len(),
                chunk@ == symbols@.subrange(start as int, j as int),
            decreases end - j,
        {
            chunk.push(symbols[j].clone());
            proof {
                assert(symbols@.subrange(start as int, j + 1) =~= symbols@.subrange(
                    start as int,
                    j as int,
                ).push(symbols@[j as int]));
            }
            j = j + 1;
        }
        proof {
            assert(chunk@ == chunk_at(symbols@, out@.len() as int, 10));
        }
        out.push(chunk);
        start = end;
    }
    out
}

/// The symbols picked for subscription are exactly those asked for that no
/// socket holds, each once.
pub proof fn law_fresh_symbols(books: Seq<Groups>, symbols: Seq<Seq<char>>)
    ensures
        no_dups(fresh_symbols(books, symbols)),
        forall|x: Seq<char>|
            #[trigger] fresh_symbols(books, symbols).contains(x) <==> (symbols.contains(x) && !held(
                books,
                x,
            )),
    decreases symbols.len(),
{
    if symbols.len() > 0 {
        let d = symbols.drop_last();
        law_fresh_symbols(books, d);
        let p = fresh_symbols(books, d);
        let last = symbols.last();
        let r = fresh_symbols(books, symbols);
        lemma_take_push_contains(symbols, symbols.len() - 1);
        assert(symbols.take(symbols.len() - 1) =~= d);
        assert(symbols.take(symbols.len() as int) =~= symbols);
        if !(held(books, last) || p.contains(last)) {
            assert(r == p.push(last));
            assert forall|x: Seq<char>| r.contains(x) <==> (p.contains(x) || x == last) by {
                if r.contains(x) {
                    let k = choose|k: int| 0 <= k < r.len() && r[k] == x;
                    if k < p.len() {
                        assert(p[k] == x);
                    }
                }
                if p.contains(x) {
                    let k = choose|k: int| 0 <= k < p.len() && p[k] == x;
                    assert(r[k] == x);
                }
                if x == last {
                    assert(r[p.len() as int] == x);
                }
            }
            assert forall|a: int, b: int| 0 <= a < b < r.len() implies r[a] != r[b] by {
                if b == p.len() {
                    assert(r[a] == p[a]);
                    assert(p.contains(p[a]));
                }
            }
        }
    }
}

/// Committing a chunk makes its symbols held and keeps every symbol held
/// before: afterwards a symbol is held exactly when it was held before or
/// is in the chunk.
pub proof fn law_commit_holds(
    books: Seq<Groups>,
    ids: Seq<u64>,
    target: Option<usize>,
    symbols: Seq<Seq<char>>,
)
    requires
        target matches Some(i) ==> i < books.len(),
    ensures
        forall|x: Seq<char>|
            #[trigger] held(committed(books, ids, target, symbols), x) <==> (held(books, x)
                || symbols.contains(x)),
{
    let after = committed(books, ids, target, symbols);
    assert forall|x: Seq<char>| #[trigger] held(after, x) <==> (held(books, x) || symbols.contains(
        x,
    )) by {
        match target {
            Some(i) => {
                let id = ids[i as int];
                crate::book::law_subscribe_membership(books[i as int], id, symbols, x);
                if held(after, x) {
                    let j = choose|j: int| 0 <= j < after.len() && book_has(#[trigger] after[j], x);
                    if j != i {
                        assert(after[j] == books[j]);
                    }
                }
                if held(books, x) {
                    let j = choose|j: int| 0 <= j < books.len() && book_has(#[trigger] books[j], x);
                    if j != i {
                        assert(after[j] == books[j]);
                    }
                    assert(book_has(after[j], x));
                }
                if symbols.contains(x) {
                    assert(book_has(after[i as int], x));
                }
            },
            None => {
                let g: Groups = seq![(0u64, symbols)];
                crate::book::law_subscribe_membership(Seq::<(u64, Seq<Seq<char>>)>::empty(), 0, symbols, x);
                assert(Seq::<(u64, Seq<Seq<char>>)>::empty().push((0u64, symbols)) =~= g);
                if held(after, x) {
                    let j = choose|j: int| 0 <= j < after.len() && book_has(#[trigger] after[j], x);
                    if j < books.len() {
                        assert(after[j] == books[j]);
                    }
                }
                if held(books, x) {
                    let j = choose|j: int| 0 <= j < books.len() && book_has(#[trigger] books[j], x);
                    assert(after[j] == books[j]);
                    assert(book_has(after[j], x));
                }
                if symbols.contains(x) {
                    assert(after[books.len() as int] == g);
                    assert(book_has(after[books.len() as int], x));
                }
            },
        }
    }
}

/// The socket that takes the next chunk is always the newest one: it takes
/// it exactly when it holds fewer than 100 symbols in fewer than 10 groups,
/// whatever the earlier sockets hold; with no socket, a new one is opened.
/// So a socket just opened with a chunk of fewer than 100 symbols takes the
/// next chunk too.
pub proof fn law_target_is_newest(books: Seq<Groups>, other: Seq<Groups>, newest: Groups, symbols: Seq<Seq<char>>)
    requires
        books.len() < usize::MAX,
    ensures
        spec_target(Seq::<Groups>::empty()) is None,
        spec_target(books.push(newest)) == (if total_len(newest) < MAX_SYMBOLS_PER_SOCKET
            && newest.len() < MAX_GROUPS_PER_SOCKET {
            Some(books.len() as usize)
        } else {
            None::<usize>
        }),
        (spec_target(books.push(newest)) is Some) == (spec_target(other.push(newest)) is Some),
        symbols.len() < MAX_SYMBOLS_PER_SOCKET ==> spec_target(
            committed(books, Seq::empty(), None, symbols),
        ) == Some(books.len() as usize),
{
    let g: Groups = seq![(0u64, symbols)];
    crate::book::law_subscribe_membership(Seq::<(u64, Seq<Seq<char>>)>::empty(), 0, symbols, Seq::empty());
    assert(Seq::<(u64, Seq<Seq<char>>)>::empty().push((0u64, symbols)) =~= g);
    assert(books.push(newest).last() == newest);
    assert(committed(books, Seq::empty(), None, symbols).last() == g);
}

} // verus!
