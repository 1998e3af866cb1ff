use vstd::prelude::*;
use std::collections::HashMap;
use vstd::std_specs::iter::IteratorSpec;

verus! {

broadcast use vstd::std_specs::hash::group_hash_axioms;

/// The keys of a map, each once.
fn keys_of<V>(h: &HashMap<usize, V>) -> (r: Vec<usize>)
    ensures
        r@.to_set() == h@.dom(),
        r@.no_duplicates(),
{
    let mut r: Vec<usize> = Vec::new();
    let ghost all = vstd::std_specs::hash::spec_keys_iter(h).remaining().unref();
    for k in it: h.keys()
        invariant
            it.seq().unref() == all,
            r@ == all.take(it.index() as int),
    {
        r.push(*k);
        assert(r@ =~= all.take(it.index() as int + 1));
    }
    assert(r@ =~= all);
    r
}

/// Key `k` is among the first `i` keys.
pub open spec fn taken(keys: Seq<usize>, i: int, k: usize) -> bool {
    exists|j: int| 0 <= j < i && keys[j] == k
}

/// The merge of `h2` into `h1`: the keys of both; a key of one map only
/// keeps its value; for a key of both, `conflict` combines the value of
/// `h1` with that of `h2`.
pub fn hashmap_merge<V, F: Fn(V, V) -> V>(h1: HashMap<usize, V>, h2: HashMap<usize, V>, conflict: F) -> (r: HashMap<usize, V>)
    requires
        forall|a: V, b: V| #[trigger] conflict.requires((a, b)),
    ensures
        r@.dom() == h1@.dom().union(h2@.dom()),
        forall|k: usize| #[trigger] r@.contains_key(k) ==> {
            if h1@.contains_key(k) && h2@.contains_key(k) {
                conflict.ensures((h1@[k], h2@[k]), r@[k])
            } else if h1@.contains_key(k) {
                r@[k] == h1@[k]
            } else {
                r@[k] == h2@[k]
            }
        },
{
    let keys = keys_of(&h2);
    let ghost a0 = h1@;
    let ghost b0 = h2@;
    let mut a = h1;
    let mut b = h2;
    let n = keys.len();
    let mut i: usize = 0;
    while i < n
        invariant
            n == keys@.len(),
            i <= n,
            keys@.to_set() == b0.dom(),
            keys@.no_duplicates(),
            forall|a1: V, b1: V| #[trigger] conflict.requires((a1, b1)),
            forall|k: usize| #[trigger] b@.contains_key(k) <==> b0.contains_key(k) && !taken(keys@, i as int, k),
            forall|k: usize| #[trigger] b@.contains_key(k) ==> b@[k] == b0[k],
            forall|k: usize| #[trigger] a@.contains_key(k) <==> a0.contains_key(k) || taken(keys@, i as int, k),
            forall|k: usize| #[trigger] a@.contains_key(k) ==> {
                if a0.contains_key(k) && taken(keys@, i as int, k) {
                    conflict.ensures((a0[k], b0[k]), a@[k])
                } else if a0.contains_key(k) {
                    a@[k] == a0[k]
                } else {
                    a@[k] == b0[k]
                }
            },
        decreases n - i,
    {
        let k = keys[i];
        proof {
            assert(keys@.to_set().contains(k));
            assert(!taken(keys@, i as int, k)) by {
                if taken(keys@, i as int, k) {
                    let j = choose|j: int| 0 <= j < i && keys@[j] == k;
                    assert(keys@[j] == keys@[i as int]);
                }
            }
        }
        let ghost a_before = a@;
        let ghost b_before = b@;
        let v = b.remove(&k).unwrap();
        match a.remove(&k) {
            Some(old) => {
                let c = conflict(old, v);
                a.insert(k, c);
            },
            None => {
                a.insert(k, v);
            },
        }
        proof {
            assert forall|k2: usize| taken(keys@, i + 1, k2) <==> taken(keys@, i as int, k2) || k2 == k by {
                if taken(keys@, i + 1, k2) {
                    let j = choose|j: int| 0 <= j < i + 1 && keys@[j] == k2;
                    if j < i {
                        assert(taken(keys@, i as int, k2));
                    }
                }
                if taken(keys@, i as int, k2) {
                    let j = choose|j: int| 0 <= j < i && keys@[j] == k2;
                    assert(0 <= j < i + 1 && keys@[j] == k2);
                }
                if k2 == k {
                    assert(keys@[i as int] == k2);
                }
            }
        }
        i = i + 1;
    }
    proof {
        assert forall|k: usize| taken(keys@, n as int, k) <==> b0.contains_key(k) by {
            if taken(keys@, n as int, k) {
                let j = choose|j: int| 0 <= j < n && keys@[j] == k;
                assert(keys@.to_set().contains(keys@[j]));
            }
            if b0.contains_key(k) {
                assert(keys@.to_set().contains(k));
                let j = choose|j: int| 0 <= j < keys@.len() && keys@[j] == k;
                assert(taken(keys@, n as int, k));
            }
        }
        assert(a@.dom() =~= a0.union_prefer_right(b0).dom());
    }
    a
}

}
