//! Changes of the exchange's symbol list between two fetches.
use vstd::prelude::*;

use crate::nodes::no_dups;
use crate::text::{contains_string, lemma_take_push_contains, string_views};

verus! {

/// The symbols that appeared and the symbols that disappeared.
#[derive(Debug, Clone)]
pub struct SymbolUpdateEvent {
    pub to_add: Vec<String>,
    pub to_remove: Vec<String>,
}

/// The strings of `a` that `b` lacks, each once, in the order of first
/// occurrence in `a`.
fn difference(a: &Vec<String>, b: &Vec<String>) -> (r: Vec<String>)
    ensures
        no_dups(string_views(r@)),
        forall|x: Seq<char>|
            string_views(r@).contains(x) <==> (string_views(a@).contains(x) && !string_views(
                b@,
            ).contains(x)),
{
    let ghost av = string_views(a@);
    let ghost bv = string_views(b@);
    let mut out: Vec<String> = Vec::new();
    let mut i: usize = 0;
    while i < a.len()
        invariant
            i <= a.len(),
            av == string_views(a@),
            bv == string_views(b@),
            no_dups(string_views(out@)),
            forall|x: Seq<char>|
                #[trigger] string_views(out@).contains(x) <==> (av.take(i as int).contains(x)
                    && !bv.contains(x)),
        decreases a.len() - i,
    {
        let s = &a[i];
        proof {
            assert(av[i as int] == s@);
            lemma_take_push_contains(av, i as int);
        }
        let in_b = contains_string(b, s);
        let in_out = contains_string(&out, s);
        let ghost before = string_views(out@);
        if !in_b && !in_out {
            out.push(s.clone());
            proof {
                let after = string_views(out@);
                assert(after =~= before.push(s@));
                assert forall|x: Seq<char>| after.contains(x) <==> (before.contains(x) || x
                    == s@) by {
                    if after.contains(x) {
                        let k = choose|k: int| 0 <= k < after.len() && after[k] == x;
                        if k < before.len() {
                            assert(before[k] == x);
                        }
                    }
                    if before.contains(x) {
                        let k = choose|k: int| 0 <= k < before.len() && before[k] == x;
                        assert(after[k] == x);
                    }
                    if x == s@ {
                        assert(after[before.len() as int] == x);
                    }
                }
                assert forall|p: int, q: int| 0 <= p < q < after.len() implies after[p]
                    != after[q] by {
                    if q == after.len() - 1 {
                        assert(before[p] == after[p]);
                    }
                }
            }
        }
        proof {
            assert forall|x: Seq<char>| string_views(out@).contains(x) <==> (av.take(i + 1).contains(
                x,
            ) && !bv.contains(x)) by {
                assert(av.take(i + 1).contains(x) <==> (av.take(i as int).contains(x) || x == s@));
                assert(before.contains(x) <==> (av.take(i as int).contains(x) && !bv.contains(x)));
                if in_b || in_out {
                    assert(string_views(out@) == before);
                } else {
                    assert(string_views(out@).contains(x) <==> (before.contains(x) || x == s@));
                }
            }
        }
        i = i + 1;
    }
    proof {
        assert(av.take(i as int) =~= av);
    }
    out
}

impl SymbolUpdateEvent {
    /// The change from the symbol list `old` to `new`: the symbols of `new`
    /// that `old` lacks are added, those of `old` that `new` lacks are
    /// removed. Each symbol occurs once; the order is not meaningful.
    pub fn new(new: Vec<String>, old: Vec<String>) -> (r: Self)
        ensures
            no_dups(string_views(r.to_add@)),
            no_dups(string_views(r.to_remove@)),
            forall|x: Seq<char>|
                string_views(r.to_add@).contains(x) <==> (string_views(new@).contains(x)
                    && !string_views(old@).contains(x)),
            forall|x: Seq<char>|
                string_views(r.to_remove@).contains(x) <==> (string_views(old@).contains(x)
                    && !string_views(new@).contains(x)),
    {
        let to_add = difference(&new, &old);
        let to_remove = difference(&old, &new);
        SymbolUpdateEvent { to_add, to_remove }
    }
}

/// Applying a symbol update to the old list gives the new one: a symbol is
/// in the new list exactly when it was in the old list and is not removed,
/// or is added; and no symbol is both added and removed.
pub proof fn law_update_applies(
    new: Seq<Seq<char>>,
    old: Seq<Seq<char>>,
    to_add: Seq<Seq<char>>,
    to_remove: Seq<Seq<char>>,
)
    requires
        forall|x: Seq<char>| to_add.contains(x) <==> (new.contains(x) && !old.contains(x)),
        forall|x: Seq<char>| to_remove.contains(x) <==> (old.contains(x) && !new.contains(x)),
    ensures
        forall|x: Seq<char>|
            new.contains(x) <==> ((old.contains(x) && !to_remove.contains(x)) || to_add.contains(x)),
        forall|x: Seq<char>| !(to_add.contains(x) && to_remove.contains(x)),
{
}

} // verus!
