//! The subscription book of one book ticker socket: which symbols were
//! subscribed under which request id. A socket subscribes symbols in
//! groups; each group gets the next request id, and unsubscribing a symbol
//! names the id of the group that holds it.
use vstd::prelude::*;

use crate::text::{contains_string, copy_strings, nat_decimal, string_views, u64_to_decimal};
use crate::ticker::{
    book_ticker_param, book_ticker_params, ticker_param, ticker_params, SubscribeRequest,
    SubscribeRequestInner,
};

verus! {

/// The groups of a book: request id and the symbols subscribed with it.
pub type Groups = Seq<(u64, Seq<Seq<char>>)>;

/// Whether some group of the book holds `s`.
pub open spec fn book_has(groups: Groups, s: Seq<char>) -> bool {
    exists|i: int| 0 <= i < groups.len() && (#[trigger] groups[i]).1.contains(s)
}

/// The number of symbols over all groups.
pub open spec fn total_len(groups: Groups) -> nat
    decreases groups.len(),
{
    if groups.len() == 0 {
        0
    } else {
        total_len(groups.drop_last()) + groups.last().1.len()
    }
}

/// The symbols of `g` that are not in `removed`, in order.
pub open spec fn without(g: Seq<Seq<char>>, removed: Seq<Seq<char>>) -> Seq<Seq<char>>
    decreases g.len(),
{
    if g.len() == 0 {
        g
    } else {
        let p = without(g.drop_last(), removed);
        if removed.contains(g.last()) {
            p
        } else {
            p.push(g.last())
        }
    }
}

/// The groups after unsubscribing `removed`: each group loses those
/// symbols, and groups left empty are dropped.
pub open spec fn groups_without(groups: Groups, removed: Seq<Seq<char>>) -> Groups
    decreases groups.len(),
{
    if groups.len() == 0 {
        groups
    } else {
        let p = groups_without(groups.drop_last(), removed);
        let g = without(groups.last().1, removed);
        if g.len() > 0 {
            p.push((groups.last().0, g))
        } else {
            p
        }
    }
}

/// `i` is the first group that holds `s`.
pub open spec fn is_first_with(groups: Groups, s: Seq<char>, i: int) -> bool {
    &&& 0 <= i < groups.len()
    &&& groups[i].1.contains(s)
    &&& forall|j: int| 0 <= j < i ==> !(#[trigger] groups[j]).1.contains(s)
}

/// The id of the first group that holds `s`.
pub open spec fn first_id_with(groups: Groups, s: Seq<char>) -> u64 {
    groups[choose|i: int| is_first_with(groups, s, i)].0
}

/// The unsubscriptions owed for `symbols`, in order: one for each symbol
/// that the book holds, with the id of the first group holding it.
pub open spec fn unsubscriptions(groups: Groups, symbols: Seq<Seq<char>>) -> Seq<(u64, Seq<char>)>
    decreases symbols.len(),
{
    if symbols.len() == 0 {
        seq![]
    } else {
        let p = unsubscriptions(groups, symbols.drop_last());
        if book_has(groups, symbols.last()) {
            p.push((first_id_with(groups, symbols.last()), symbols.last()))
        } else {
            p
        }
    }
}

/// The request that unsubscribes one symbol subscribed under `id`.
pub open spec fn is_unsubscription(r: SubscribeRequest, id: u64, s: Seq<char>) -> bool {
    r matches SubscribeRequest::Unsubscribe(inner) && inner.id@ == nat_decimal(id as nat)
        && string_views(inner.params@) == seq![ticker_param(s)]
}

/// Ids increase along the groups and stay below the next id.
pub open spec fn ids_ordered(groups: Groups, next_id: u64) -> bool {
    &&& forall|i: int, j: int| 0 <= i < j < groups.len() ==> groups[i].0 < groups[j].0
    &&& forall|i: int| 0 <= i < groups.len() ==> (#[trigger] groups[i]).0 < next_id
}

/// One group of subscribed symbols.
#[derive(Debug, Clone)]
pub struct SymbolGroup {
    pub id: u64,
    pub symbols: Vec<String>,
}

/// The subscription book of a socket.
#[derive(Debug)]
pub struct SubscriptionBook {
    param_id: u64,
    groups: Vec<SymbolGroup>,
}

proof fn lemma_total_len_prefix(groups: Groups, i: int)
    requires
        0 <= i <= groups.len(),
    ensures
        total_len(groups.take(i)) <= total_len(groups),
    decreases groups.len() - i,
{
    if i < groups.len() {
        lemma_total_len_prefix(groups, i + 1);
        assert(groups.take(i + 1).drop_last() =~= groups.take(i));
    } else {
        assert(groups.take(i) =~= groups);
    }
}

proof fn lemma_without_contains(g: Seq<Seq<char>>, removed: Seq<Seq<char>>, s: Seq<char>)
    ensures
        without(g, removed).contains(s) <==> (g.contains(s) && !removed.contains(s)),
    decreases g.len(),
{
    if g.len() > 0 {
        lemma_without_contains(g.drop_last(), removed, s);
        if g.contains(s) && !removed.contains(s) {
            let k = choose|k: int| 0 <= k < g.len() && g[k] == s;
            if k < g.len() - 1 {
                assert(g.drop_last()[k] == s);
            }
        }
        if g.drop_last().contains(s) {
            let k = choose|k: int| 0 <= k < g.drop_last().len() && g.drop_last()[k] == s;
            assert(g[k] == s);
        }
        let p = without(g.drop_last(), removed);
        if !removed.contains(g.last()) {
            if p.push(g.last()).contains(s) {
                let k = choose|k: int| 0 <= k < p.push(g.last()).len() && p.push(g.last())[k] == s;
                if k < p.len() {
                    assert(p[k] == s);
                }
            }
            if p.contains(s) {
                let k = choose|k: int| 0 <= k < p.len() && p[k] == s;
                assert(p.push(g.last())[k] == s);
            }
            assert(p.push(g.last())[p.len() as int] == g.last());
        }
        assert(g[g.len() - 1] == g.last());
    }
}

/// A symbol is in the groups after unsubscribing `removed` exactly when it
/// was in them before and is not one of `removed`.
pub proof fn law_unsubscribe_membership(groups: Groups, removed: Seq<Seq<char>>, s: Seq<char>)
    ensures
        book_has(groups_without(groups, removed), s) <==> (book_has(groups, s)
            && !removed.contains(s)),
    decreases groups.len(),
{
    if groups.len() > 0 {
        let d = groups.drop_last();
        law_unsubscribe_membership(d, removed, s);
        let p = groups_without(d, removed);
        let last = groups.last();
        let g = without(last.1, removed);
        lemma_without_contains(last.1, removed, s);
        let r = groups_without(groups, removed);
        if book_has(groups, s) && !removed.contains(s) {
            let i = choose|i: int| 0 <= i < groups.len() && (#[trigger] groups[i]).1.contains(s);
            if i < groups.len() - 1 {
                assert(d[i] == groups[i]);
                assert(book_has(d, s));
                let k = choose|k: int| 0 <= k < p.len() && (#[trigger] p[k]).1.contains(s);
                if g.len() > 0 {
                    assert(r[k] == p[k]);
                }
                assert(book_has(r, s));
            } else {
                assert(g.contains(s));
                assert(r[p.len() as int] == (last.0, g));
                assert(book_has(r, s));
            }
        }
        if book_has(r, s) {
            let k = choose|k: int| 0 <= k < r.len() && (#[trigger] r[k]).1.contains(s);
            if g.len() > 0 && k == p.len() {
                assert(groups[groups.len() - 1] == last);
                assert(book_has(groups, s));
            } else {
                assert(r[k] == p[k]);
                assert(book_has(p, s));
                let i = choose|i: int| 0 <= i < d.len() && (#[trigger] d[i]).1.contains(s);
                assert(groups[i] == d[i]);
            }
        }
    }
}

proof fn lemma_groups_without_ids(groups: Groups, removed: Seq<Seq<char>>, next_id: u64)
    requires
        ids_ordered(groups, next_id),
    ensures
        ids_ordered(groups_without(groups, removed), next_id),
        forall|k: int|
            0 <= k < groups_without(groups, removed).len() ==> exists|i: int|
                0 <= i < groups.len() && (#[trigger] groups_without(groups, removed)[k]).0
                    == groups[i].0,
    decreases groups.len(),
{
    if groups.len() > 0 {
        let d = groups.drop_last();
        assert(ids_ordered(d, next_id)) by {
            assert forall|i: int| 0 <= i < d.len() implies (#[trigger] d[i]).0 < next_id by {
                assert(d[i] == groups[i]);
            }
        }
        lemma_groups_without_ids(d, removed, next_id);
        let p = groups_without(d, removed);
        let r = groups_without(groups, removed);
        assert forall|k: int| 0 <= k < p.len() implies (#[trigger] p[k]).0 < groups.last().0 by {
            let i = choose|i: int| 0 <= i < d.len() && p[k].0 == d[i].0;
            assert(d[i] == groups[i]);
        }
        assert forall|k: int| 0 <= k < r.len() implies exists|i: int|
            0 <= i < groups.len() && (#[trigger] r[k]).0 == groups[i].0 by {
            if k < p.len() {
                assert(r[k] == p[k]);
                let i = choose|i: int| 0 <= i < d.len() && p[k].0 == d[i].0;
                assert(d[i] == groups[i]);
            } else {
                assert(r[k].0 == groups[groups.len() - 1].0);
            }
        }
        assert forall|a: int, b: int| 0 <= a < b < r.len() implies r[a].0 < r[b].0 by {
            if b < p.len() {
                assert(r[a] == p[a] && r[b] == p[b]);
            } else {
                assert(r[a] == p[a]);
            }
        }
        assert forall|a: int| 0 <= a < r.len() implies (#[trigger] r[a]).0 < next_id by {
            if a < p.len() {
                assert(r[a] == p[a]);
            } else {
                assert(groups[groups.len() - 1].0 < next_id);
            }
        }
    }
}

proof fn lemma_first_unique(groups: Groups, s: Seq<char>, i: int)
    requires
        is_first_with(groups, s, i),
    ensures
        first_id_with(groups, s) == groups[i].0,
{
    let c = choose|c: int| is_first_with(groups, s, c);
    assert(is_first_with(groups, s, c));
    if c < i {
        assert(!groups[c].1.contains(s));
    }
    if i < c {
        assert(!groups[i].1.contains(s));
    }
}

impl SubscriptionBook {
    /// The id that the next group will get.
    pub closed spec fn next_id(&self) -> u64 {
        self.param_id
    }

    /// The groups, in the order they were subscribed.
    pub closed spec fn groups(&self) -> Groups {
        self.groups@.map_values(|g: SymbolGroup| (g.id, string_views(g.symbols@)))
    }

    /// The book is well formed: ids increase and stay below the next id,
    /// and the symbols can be counted in a `usize`.
    pub closed spec fn wf(&self) -> bool {
        &&& ids_ordered(self.groups(), self.param_id)
        &&& total_len(self.groups()) <= usize::MAX
    }

    /// An empty book whose first group will get id 0.
    pub fn new() -> (r: Self)
        ensures
            r.wf(),
            r.groups() == Seq::<(u64, Seq<Seq<char>>)>::empty(),
            r.next_id() == 0,
    {
        let r = SubscriptionBook { param_id: 0, groups: Vec::new() };
        proof {
            assert(r.groups() =~= Seq::<(u64, Seq<Seq<char>>)>::empty());
        }
        r
    }

    /// Whether some group holds `symbol`.
    pub fn has_symbol(&self, symbol: &str) -> (r: bool)
        ensures
            r == book_has(self.groups(), symbol@),
    {
        let target = String::from_str(symbol);
        let mut i: usize = 0;
        while i < self.groups.len()
            invariant
                i <= self.groups@.len(),
                target@ == symbol@,
                forall|j: int| 0 <= j < i ==> !(#[trigger] self.groups())[j].1.contains(symbol@),
            decreases self.groups.len() - i,
        {
            if contains_string(&self.groups[i].symbols, &target) {
                proof {
                    assert(self.groups()[i as int].1 == string_views(self.groups@[i as int].symbols@));
                }
                return true;
            }
            proof {
                assert(self.groups()[i as int].1 == string_views(self.groups@[i as int].symbols@));
            }
            i = i + 1;
        }
        false
    }

    /// The number of subscribed symbols, over all groups.
    pub fn len(&self) -> (r: usize)
        requires
            self.wf(),
        ensures
            r == total_len(self.groups()),
    {
        let mut acc: usize = 0;
        let mut i: usize = 0;
        proof {
            lemma_total_len_prefix(self.groups(), 0);
        }
        while i < self.groups.len()
            invariant
                i <= self.groups@.len(),
                self.wf(),
                acc == total_len(self.groups().take(i as int)),
            decreases self.groups.len() - i,
        {
            proof {
                lemma_total_len_prefix(self.groups(), i + 1);
                assert(self.groups().take(i + 1).drop_last() =~= self.groups().take(i as int));
                assert(self.groups()[i as int].1.len() == self.groups@[i as int].symbols@.len());
            }
            acc = acc + self.groups[i].symbols.len();
            i = i + 1;
        }
        proof {
            assert(self.groups().take(i as int) =~= self.groups());
        }
        acc
    }

    /// The number of groups.
    pub fn len_socket(&self) -> (r: usize)
        ensures
            r == self.groups().len(),
    {
        self.groups.len()
    }

    /// The request that subscribes `symbols` as the next group.
    pub fn subscribe_request(&self, symbols: &Vec<String>) -> (r: SubscribeRequest)
        ensures
            r matches SubscribeRequest::Subscribe(inner) && inner.id@ == nat_decimal(
                self.next_id() as nat,
            ) && string_views(inner.params@) == ticker_params(string_views(symbols@)),
    {
        let inner = SubscribeRequestInner {
            id: u64_to_decimal(self.param_id),
            params: book_ticker_params(symbols),
        };
        SubscribeRequest::Subscribe(inner)
    }

    /// Records that `symbols` were subscribed as the next group.
    pub fn record_subscription(&mut self, symbols: &Vec<String>)
        requires
            old(self).wf(),
            old(self).next_id() < u64::MAX,
            total_len(old(self).groups()) + symbols@.len() <= usize::MAX,
        ensures
            final(self).wf(),
            final(self).groups() == old(self).groups().push(
                (old(self).next_id(), string_views(symbols@)),
            ),
            final(self).next_id() == old(self).next_id() + 1,
    {
        let ghost before = self.groups();
        self.groups.push(SymbolGroup { id: self.param_id, symbols: copy_strings(symbols) });
        self.param_id = self.param_id + 1;
        proof {
            assert(self.groups() =~= before.push((old(self).param_id, string_views(symbols@))));
            assert(self.groups().drop_last() =~= before);
        }
    }

    /// The id of the first group that holds `symbol`, when one does.
    fn first_id(&self, symbol: &String) -> (r: Option<u64>)
        ensures
            r matches Some(id) ==> book_has(self.groups(), symbol@) && id == first_id_with(
                self.groups(),
                symbol@,
            ),
            r is None ==> !book_has(self.groups(), symbol@),
    {
        let mut i: usize = 0;
        while i < self.groups.len()
            invariant
                i <= self.groups@.len(),
                forall|j: int| 0 <= j < i ==> !(#[trigger] self.groups())[j].1.contains(symbol@),
            decreases self.groups.len() - i,
        {
            proof {
                assert(self.groups()[i as int].1 == string_views(self.groups@[i as int].symbols@));
            }
            if contains_string(&self.groups[i].symbols, symbol) {
                proof {
                    assert(is_first_with(self.groups(), symbol@, i as int));
                    lemma_first_unique(self.groups(), symbol@, i as int);
                }
                return Some(self.groups[i].id);
            }
            i = i + 1;
        }
        None
    }

    /// The requests that unsubscribe `symbols`: one for each symbol the book
    /// holds, in order, under the id of the first group holding it.
    pub fn unsubscribe_requests(&self, symbols: &Vec<String>) -> (r: Vec<SubscribeRequest>)
        ensures
            r@.len() == unsubscriptions(self.groups(), string_views(symbols@)).len(),
            forall|k: int|
                0 <= k < r@.len() ==> is_unsubscription(
                    #[trigger] r@[k],
                    unsubscriptions(self.groups(), string_views(symbols@))[k].0,
                    unsubscriptions(self.groups(), string_views(symbols@))[k].1,
                ),
    {
        let ghost groups = self.groups();
        let mut out: Vec<SubscribeRequest> = Vec::new();
        let mut i: usize = 0;
        while i < symbols.len()
            invariant
                i <= symbols.len(),
                groups == self.groups(),
                out@.len() == unsubscriptions(groups, string_views(symbols@.take(i as int))).len(),
                forall|k: int|
                    0 <= k < out@.len() ==> is_unsubscription(
                        #[trigger] out@[k],
                        unsubscriptions(groups, string_views(symbols@.take(i as int)))[k].0,
                        unsubscriptions(groups, string_views(symbols@.take(i as int)))[k].1,
                    ),
            decreases symbols.len() - i,
        {
            let ghost prev = string_views(symbols@.take(i as int));
            let ghost cur = string_views(symbols@.take(i + 1));
            proof {
                assert(cur.drop_last() =~= prev);
                assert(cur.last() == symbols@[i as int]@);
            }
            match self.first_id(&symbols[i]) {
                Some(id) => {
                    let mut params: Vec<String> = Vec::new();
                    params.push(book_ticker_param(symbols[i].as_str()));
                    let req = SubscribeRequest::Unsubscribe(
                        SubscribeRequestInner { id: u64_to_decimal(id), params },
                    );
                    proof {
                        assert(string_views(params@) =~= seq![ticker_param(symbols@[i as int]@)]);
                    }
                    out.push(req);
                    proof {
                        assert(unsubscriptions(groups, cur) == unsubscriptions(groups, prev).push(
                            (id, symbols@[i as int]@),
                        ));
                        assert forall|k: int| 0 <= k < out@.len() implies is_unsubscription(
                            #[trigger] out@[k],
                            unsubscriptions(groups, cur)[k].0,
                            unsubscriptions(groups, cur)[k].1,
                        ) by {
                        }
                    }
                },
                None => {
                    proof {
                        assert(unsubscriptions(groups, cur) == unsubscriptions(groups, prev));
                    }
                },
            }
            i = i + 1;
        }
        proof {
            assert(symbols@.take(symbols.len() as int) =~= symbols@);
        }
        out
    }

    /// Records that `symbols` were unsubscribed: every group loses them and
    /// groups left empty are dropped.
    pub fn record_unsubscription(&mut self, symbols: &Vec<String>)
        requires
            old(self).wf(),
        ensures
            final(self).wf(),
            final(self).groups() == groups_without(old(self).groups(), string_views(symbols@)),
            final(self).next_id() == old(self).next_id(),
    {
        let ghost before = self.groups();
        let ghost removed = string_views(symbols@);
        let mut kept: Vec<SymbolGroup> = Vec::new();
        let mut i: usize = 0;
        while i < self.groups.len()
            invariant
                i <= self.groups@.len(),
                before == self.groups(),
                removed == string_views(symbols@),
                kept@.map_values(|g: SymbolGroup| (g.id, string_views(g.symbols@)))
                    =~= groups_without(before.take(i as int), removed),
            decreases self.groups.len() - i,
        {
            let g = &self.groups[i];
            let mut left: Vec<String> = Vec::new();
            let mut j: usize = 0;
            while j < g.symbols.len()
                invariant
                    j <= g.symbols@.len(),
                    removed == string_views(symbols@),
                    string_views(left@) =~= without(string_views(g.symbols@.take(j as int)), removed),
                decreases g.symbols.len() - j,
            {
                let present = contains_string(symbols, &g.symbols[j]);
                proof {
                    let t = string_views(g.symbols@.take(j + 1));
                    assert(t.drop_last() =~= string_views(g.symbols@.take(j as int)));
                    assert(t.last() == g.symbols@[j as int]@);
                }
                if !present {
                    left.push(g.symbols[j].clone());
                }
                j = j + 1;
            }
            proof {
                assert(g.symbols@.take(j as int) =~= g.symbols@);
                let t = before.take(i + 1);
                assert(t.drop_last() =~= before.take(i as int));
                assert(t.last() == (g.id, string_views(g.symbols@)));
            }
            if left.len() > 0 {
                kept.push(SymbolGroup { id: g.id, symbols: left });
            }
            i = i + 1;
        }
        proof {
            assert(before.take(i as int) =~= before);
            lemma_groups_without_ids(before, removed, self.param_id);
        }
        self.groups = kept;
        proof {
            lemma_total_len_without(before, removed);
        }
    }
}

proof fn lemma_total_len_without(groups: Groups, removed: Seq<Seq<char>>)
    ensures
        total_len(groups_without(groups, removed)) <= total_len(groups),
    decreases groups.len(),
{
    if groups.len() > 0 {
        lemma_total_len_without(groups.drop_last(), removed);
        lemma_without_len(groups.last().1, removed);
        let p = groups_without(groups.drop_last(), removed);
        let g = without(groups.last().1, removed);
        if g.len() > 0 {
            assert(p.push((groups.last().0, g)).drop_last() =~= p);
        }
    }
}

proof fn lemma_without_len(g: Seq<Seq<char>>, removed: Seq<Seq<char>>)
    ensures
        without(g, removed).len() <= g.len(),
    decreases g.len(),
{
    if g.len() > 0 {
        lemma_without_len(g.drop_last(), removed);
    }
}

/// Subscribing a group adds its symbols and keeps the others: a symbol is
/// in the book afterwards exactly when it was before or is in the group,
/// and the book counts the group's symbols more.
pub proof fn law_subscribe_membership(groups: Groups, id: u64, symbols: Seq<Seq<char>>, s: Seq<char>)
    ensures
        book_has(groups.push((id, symbols)), s) <==> (book_has(groups, s) || symbols.contains(s)),
        total_len(groups.push((id, symbols))) == total_len(groups) + symbols.len(),
{
    let g = groups.push((id, symbols));
    assert(g.drop_last() =~= groups);
    if book_has(groups, s) {
        let i = choose|i: int| 0 <= i < groups.len() && (#[trigger] groups[i]).1.contains(s);
        assert(g[i] == groups[i]);
    }
    if symbols.contains(s) {
        assert(g[groups.len() as int].1 == symbols);
    }
    if book_has(g, s) {
        let i = choose|i: int| 0 <= i < g.len() && (#[trigger] g[i]).1.contains(s);
        if i < groups.len() {
            assert(g[i] == groups[i]);
        }
    }
}

} // verus!
