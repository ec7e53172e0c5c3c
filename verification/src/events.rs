//! The symbol events the trade observer gathers between two ticks: the
//! symbols announced as added and those announced as removed, each kept
//! once, handed out together on the next tick.
use vstd::prelude::*;

use crate::nodes::no_dups;
use crate::text::{contains_string, string_views};

verus! {

/// A sequence with `s` added at its end, unless it already holds it.
pub open spec fn insert_once(v: Seq<Seq<char>>, s: Seq<char>) -> Seq<Seq<char>> {
    if v.contains(s) {
        v
    } else {
        v.push(s)
    }
}

/// The symbols gathered since the last tick.
pub struct SymbolEventBuffer {
    add: Vec<String>,
    del: Vec<String>,
}

impl SymbolEventBuffer {
    /// The symbols announced as added, in the order first announced.
    pub closed spec fn added(&self) -> Seq<Seq<char>> {
        string_views(self.add@)
    }

    /// The symbols announced as removed, in the order first announced.
    pub closed spec fn removed(&self) -> Seq<Seq<char>> {
        string_views(self.del@)
    }

    #[verifier::type_invariant]
    spec fn each_once(&self) -> bool {
        &&& no_dups(string_views(self.add@))
        &&& no_dups(string_views(self.del@))
    }

    /// A buffer with no symbol.
    pub fn new() -> (r: Self)
        ensures
            r.added() == Seq::<Seq<char>>::empty(),
            r.removed() == Seq::<Seq<char>>::empty(),
    {
        let r = SymbolEventBuffer { add: Vec::new(), del: Vec::new() };
        proof {
            assert(string_views(r.add@) =~= Seq::<Seq<char>>::empty());
            assert(string_views(r.del@) =~= Seq::<Seq<char>>::empty());
        }
        r
    }

    /// Notes that `symbol` was announced as added.
    pub fn note_added(&mut self, symbol: String)
        ensures
            final(self).added() == insert_once(old(self).added(), symbol@),
            final(self).removed() == old(self).removed(),
            no_dups(final(self).added()),
    {
        proof {
            use_type_invariant(&*self);
        }
        if !contains_string(&self.add, &symbol) {
            let ghost before = self.add@;
            let mut add = Vec::new();
            std::mem::swap(&mut add, &mut self.add);
            add.push(symbol);
            proof {
                assert(string_views(add@) =~= string_views(before).push(add@.last()@));
                lemma_push_absent(string_views(before), add@.last()@);
            }
            self.add = add;
        }
    }

    /// Notes that `symbol` was announced as removed.
    pub fn note_removed(&mut self, symbol: String)
        ensures
            final(self).removed() == insert_once(old(self).removed(), symbol@),
            final(self).added() == old(self).added(),
            no_dups(final(self).removed()),
    {
        proof {
            use_type_invariant(&*self);
        }
        if !contains_string(&self.del, &symbol) {
            let ghost before = self.del@;
            let mut del = Vec::new();
            std::mem::swap(&mut del, &mut self.del);
            del.push(symbol);
            proof {
                assert(string_views(del@) =~= string_views(before).push(del@.last()@));
                lemma_push_absent(string_views(before), del@.last()@);
            }
            self.del = del;
        }
    }

    /// Hands out the symbols to subscribe and to unsubscribe, and empties
    /// the buffer.
    pub fn flush(&mut self) -> (r: (Vec<String>, Vec<String>))
        ensures
            string_views(r.0@) == old(self).added(),
            string_views(r.1@) == old(self).removed(),
            no_dups(string_views(r.0@)),
            no_dups(string_views(r.1@)),
            final(self).added() == Seq::<Seq<char>>::empty(),
            final(self).removed() == Seq::<Seq<char>>::empty(),
    {
        proof {
            use_type_invariant(&*self);
        }
        let mut add = Vec::new();
        let mut del = Vec::new();
        std::mem::swap(&mut add, &mut self.add);
        std::mem::swap(&mut del, &mut self.del);
        proof {
            assert(string_views(self.add@) =~= Seq::<Seq<char>>::empty());
            assert(string_views(self.del@) =~= Seq::<Seq<char>>::empty());
        }
        (add, del)
    }
}

proof fn lemma_push_absent(v: Seq<Seq<char>>, s: Seq<char>)
    requires
        no_dups(v),
        !v.contains(s),
    ensures
        no_dups(v.push(s)),
{
    let w = v.push(s);
    assert forall|i: int, j: int| 0 <= i < j < w.len() implies w[i] != w[j] by {
        if j == v.len() {
            assert(v[i] == w[i]);
        }
    }
}

/// Noting a symbol puts it among what the next tick hands out, keeps what
/// was already there, keeps each symbol once, and noting it again changes
/// nothing.
pub proof fn law_announced_once(added: Seq<Seq<char>>, s: Seq<char>)
    requires
        no_dups(added),
    ensures
        insert_once(added, s).contains(s),
        no_dups(insert_once(added, s)),
        forall|x: Seq<char>| #[trigger] added.contains(x) ==> insert_once(added, s).contains(x),
        insert_once(insert_once(added, s), s) == insert_once(added, s),
{
    if !added.contains(s) {
        lemma_push_absent(added, s);
        assert(added.push(s)[added.len() as int] == s);
        assert forall|x: Seq<char>| #[trigger] added.contains(x) implies added.push(s).contains(x) by {
            let k = choose|k: int| 0 <= k < added.len() && added[k] == x;
            assert(added.push(s)[k] == x);
        }
    }
}

} // verus!
