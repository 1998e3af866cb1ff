use vstd::prelude::*;
use crate::indexed::IndexSet;
use crate::mir::{is_deref, relation_of, Place, PlaceRelation, ProjElem};

verus! {

/// `edges` holds the constraint `a -> b`.
pub open spec fn has_edge(edges: Seq<(usize, usize)>, a: int, b: int) -> bool {
    exists|k: int| 0 <= k < edges.len() && (#[trigger] edges[k]).0 == a && edges[k].1 == b
}

/// `p` is a path in the constraint graph.
pub open spec fn is_path(edges: Seq<(usize, usize)>, p: Seq<int>) -> bool {
    &&& p.len() >= 1
    &&& forall|i: int| 0 <= i < p.len() - 1 ==> has_edge(edges, #[trigger] p[i], p[i + 1])
}

/// Region `a` reaches region `b` through the constraints (every region reaches itself).
pub open spec fn reaches(edges: Seq<(usize, usize)>, a: int, b: int) -> bool {
    exists|p: Seq<int>| #[trigger] is_path(edges, p) && p[0] == a && p.last() == b
}

proof fn lemma_path_prepend(edges: Seq<(usize, usize)>, x: int, p: Seq<int>)
    requires
        is_path(edges, p),
        has_edge(edges, x, p[0]),
    ensures
        is_path(edges, seq![x] + p),
        (seq![x] + p)[0] == x,
        (seq![x] + p).last() == p.last(),
{
    let q = seq![x] + p;
    assert forall|i: int| 0 <= i < q.len() - 1 implies has_edge(edges, #[trigger] q[i], q[i + 1]) by {
        if i > 0 {
            assert(q[i] == p[i - 1] && q[i + 1] == p[i]);
        }
    }
}

/// If `s` holds `t` and every predecessor of a member, then it holds every
/// region on a path ending at `t`.
proof fn lemma_closed_contains_path(edges: Seq<(usize, usize)>, s: Set<int>, p: Seq<int>, t: int, i: int)
    requires
        is_path(edges, p),
        p.last() == t,
        s.contains(t),
        forall|x: int, y: int| #![trigger has_edge(edges, x, y)] s.contains(y) && has_edge(edges, x, y) ==> s.contains(x),
        0 <= i < p.len(),
    ensures
        s.contains(p[i]),
    decreases p.len() - i,
{
    if i < p.len() - 1 {
        lemma_closed_contains_path(edges, s, p, t, i + 1);
        assert(has_edge(edges, p[i], p[i + 1]));
    }
}

/// The regions that reach `target` through `edges`, over the regions `0..num`.
pub fn reaching(num: usize, edges: &Vec<(usize, usize)>, target: usize) -> (s: IndexSet)
    requires
        target < num,
        forall|k: int| 0 <= k < edges@.len() ==> (#[trigger] edges@[k]).0 < num && edges@[k].1 < num,
    ensures
        s.size() == num,
        forall|a: int| s@.contains(a) <==> 0 <= a < num && reaches(edges@, a, target as int),
{
    let mut s = IndexSet::new(num);
    s.insert(target);
    proof {
        let p = seq![target as int];
        assert(is_path(edges@, p));
    }
    loop
        invariant
            target < num,
            s.size() == num,
            s@.contains(target as int),
            forall|k: int| 0 <= k < edges@.len() ==> (#[trigger] edges@[k]).0 < num && edges@[k].1 < num,
            forall|a: int| s@.contains(a) ==> 0 <= a < num && reaches(edges@, a, target as int),
        decreases num - s@.len(),
    {
        proof { s.lemma_bounded(); }
        let ghost before = s@;
        let mut changed = false;
        let mut k: usize = 0;
        while k < edges.len()
            invariant
                k <= edges@.len(),
                s.size() == num,
                before.subset_of(s@),
                forall|k2: int| 0 <= k2 < edges@.len() ==> (#[trigger] edges@[k2]).0 < num && edges@[k2].1 < num,
                forall|a: int| s@.contains(a) ==> 0 <= a < num && reaches(edges@, a, target as int),
                changed == !(s@ =~= before),
                !changed ==> forall|k2: int| 0 <= k2 < k && before.contains((#[trigger] edges@[k2]).1 as int) ==> before.contains(edges@[k2].0 as int),
            decreases edges@.len() - k,
        {
            let (x, y) = edges[k];
            if s.contains(y) && !s.contains(x) {
                proof {
                    let p = choose|p: Seq<int>| #[trigger] is_path(edges@, p) && p[0] == y && p.last() == target;
                    assert(has_edge(edges@, x as int, y as int)) by {
                        assert(edges@[k as int].0 == x && edges@[k as int].1 == y);
                    }
                    lemma_path_prepend(edges@, x as int, p);
                }
                s.insert(x);
                changed = true;
            }
            k = k + 1;
        }
        if !changed {
            proof {
                assert forall|a: int| 0 <= a < num && reaches(edges@, a, target as int) implies s@.contains(a) by {
                    let p = choose|p: Seq<int>| #[trigger] is_path(edges@, p) && p[0] == a && p.last() == target;
                    assert forall|x: int, y: int| #![trigger has_edge(edges@, x, y)] s@.contains(y) && has_edge(edges@, x, y) implies s@.contains(x) by {
                        let k2 = choose|k2: int| 0 <= k2 < edges@.len() && (#[trigger] edges@[k2]).0 == x && edges@[k2].1 == y;
                    }
                    lemma_closed_contains_path(edges@, s@, p, target as int, 0);
                }
            }
            return s;
        }
        proof {
            s.lemma_bounded();
            before.lemma_subset_not_in_lt(s@, choose|a: int| s@.contains(a) && !before.contains(a));
            assert(s@.subset_of(Set::new(|a: int| 0 <= a < num)));
            vstd::set_lib::lemma_int_range(0, num as int);
            assert(Set::new(|a: int| 0 <= a < num) =~= vstd::set_lib::set_int_range(0, num as int));
            vstd::set_lib::lemma_len_subset(s@, vstd::set_lib::set_int_range(0, num as int));
        }
    }
}

/// The contents of a sequence of index sets.
pub open spec fn set_views(v: Seq<IndexSet>) -> Seq<Set<int>> {
    v.map_values(|s: IndexSet| s@)
}

/// All sets in `v` range over a domain of `size` indices.
pub open spec fn uniform(v: Seq<IndexSet>, size: nat) -> bool {
    forall|r: int| 0 <= r < v.len() ==> (#[trigger] v[r]).size() == size
}

/// `c` is a chain of regions, each listing the next among its alias regions.
pub open spec fn is_chain(alias: Seq<Set<int>>, c: Seq<int>) -> bool {
    &&& c.len() >= 1
    &&& forall|i: int| 0 <= i < c.len() ==> 0 <= #[trigger] c[i] < alias.len()
    &&& forall|i: int| 0 <= i < c.len() - 1 ==> alias[#[trigger] c[i]].contains(c[i + 1])
}

/// Place `p` reaches the loans of region `r`: some chain of alias regions
/// from `r` ends at a region whose initial loans hold `p`.
pub open spec fn derived(init: Seq<Set<int>>, alias: Seq<Set<int>>, r: int, p: int) -> bool {
    exists|c: Seq<int>| #[trigger] is_chain(alias, c) && c[0] == r && init[c.last()].contains(p)
}

/// The sum of the sizes of the first `k` sets.
pub open spec fn total_len(v: Seq<Set<int>>, k: int) -> nat
    decreases k,
{
    if k <= 0 { 0 } else { total_len(v, k - 1) + v[k - 1].len() }
}

proof fn lemma_total_bounded(v: Seq<Set<int>>, k: int, m: nat)
    requires
        0 <= k <= v.len(),
        forall|r: int| 0 <= r < v.len() ==> (#[trigger] v[r]).finite() && v[r].len() <= m,
    ensures
        total_len(v, k) <= k * m,
    decreases k,
{
    if k > 0 {
        lemma_total_bounded(v, k - 1, m);
        assert(total_len(v, k - 1) + m <= k * m) by (nonlinear_arith)
            requires total_len(v, k - 1) <= (k - 1) * m;
    }
}

proof fn lemma_total_grows(a: Seq<Set<int>>, b: Seq<Set<int>>, k: int)
    requires
        0 <= k <= a.len(),
        a.len() == b.len(),
        forall|r: int| 0 <= r < a.len() ==> (#[trigger] a[r]).subset_of(b[r]) && b[r].finite(),
    ensures
        total_len(a, k) <= total_len(b, k),
        (exists|r: int| 0 <= r < k && a[r] != b[r]) ==> total_len(a, k) < total_len(b, k),
    decreases k,
{
    if k > 0 {
        lemma_total_grows(a, b, k - 1);
        vstd::set_lib::lemma_len_subset(a[k - 1], b[k - 1]);
        if a[k - 1] != b[k - 1] {
            if !(exists|x: int| #[trigger] b[k - 1].contains(x) && !a[k - 1].contains(x)) {
                assert(a[k - 1] =~= b[k - 1]);
            }
            let x = choose|x: int| #[trigger] b[k - 1].contains(x) && !a[k - 1].contains(x);
            a[k - 1].lemma_subset_not_in_lt(b[k - 1], x);
        }
    }
}

proof fn lemma_chain_prepend(alias: Seq<Set<int>>, r: int, c: Seq<int>)
    requires
        is_chain(alias, c),
        0 <= r < alias.len(),
        alias[r].contains(c[0]),
    ensures
        is_chain(alias, seq![r] + c),
        (seq![r] + c)[0] == r,
        (seq![r] + c).last() == c.last(),
{
    let d = seq![r] + c;
    assert forall|i: int| 0 <= i < d.len() implies 0 <= #[trigger] d[i] < alias.len() by {
        if i > 0 {
            assert(d[i] == c[i - 1]);
        }
    }
    assert forall|i: int| 0 <= i < d.len() - 1 implies alias[#[trigger] d[i]].contains(d[i + 1]) by {
        if i > 0 {
            assert(d[i] == c[i - 1] && d[i + 1] == c[i]);
        }
    }
}

proof fn lemma_closed_contains_derived(init: Seq<Set<int>>, alias: Seq<Set<int>>, loans: Seq<Set<int>>, c: Seq<int>, p: int, i: int)
    requires
        is_chain(alias, c),
        init.len() == alias.len(),
        loans.len() == alias.len(),
        init[c.last()].contains(p),
        forall|r: int| 0 <= r < alias.len() ==> (#[trigger] init[r]).subset_of(loans[r]),
        forall|r: int, r2: int| #![trigger alias[r].contains(r2)] 0 <= r < alias.len() && alias[r].contains(r2) ==> loans[r2].subset_of(loans[r]),
        0 <= i < c.len(),
    ensures
        loans[c[i]].contains(p),
    decreases c.len() - i,
{
    if i < c.len() - 1 {
        lemma_closed_contains_derived(init, alias, loans, c, p, i + 1);
        assert(alias[c[i]].contains(c[i + 1]));
    } else {
        assert(init[c[i]].subset_of(loans[c[i]]));
    }
}

fn copy_sets(v: &Vec<IndexSet>) -> (r: Vec<IndexSet>)
    ensures
        set_views(r@) == set_views(v@),
        forall|k: int| 0 <= k < v@.len() ==> (#[trigger] r@[k]).size() == v@[k].size(),
        r@.len() == v@.len(),
{
    let mut r: Vec<IndexSet> = Vec::new();
    let mut k: usize = 0;
    while k < v.len()
        invariant
            k <= v@.len(),
            r@.len() == k,
            forall|j: int| 0 <= j < k ==> (#[trigger] r@[j])@ == v@[j]@ && r@[j].size() == v@[j].size(),
        decreases v@.len() - k,
    {
        r.push(v[k].to_owned());
        k = k + 1;
    }
    assert(set_views(r@) =~= set_views(v@));
    r
}

/// Propagates loans along alias regions until nothing changes: afterwards
/// region `r` holds exactly the places reachable from `r` through chains of
/// alias regions (`alias_regions[r]` lists the regions whose loans flow
/// into `r`).
pub fn propagate_loans(loans: &mut Vec<IndexSet>, alias_regions: &Vec<IndexSet>, num_places: usize)
    requires
        old(loans)@.len() == alias_regions@.len(),
        uniform(old(loans)@, num_places as nat),
        uniform(alias_regions@, alias_regions@.len() as nat),
    ensures
        final(loans)@.len() == old(loans)@.len(),
        uniform(final(loans)@, num_places as nat),
        forall|r: int, p: int| #![trigger final(loans)@[r]@.contains(p)] 0 <= r < final(loans)@.len() ==> (final(loans)@[r]@.contains(p)
            <==> derived(set_views(old(loans)@), set_views(alias_regions@), r, p)),
{
    let n = loans.len();
    let ghost init = set_views(loans@);
    let ghost alias = set_views(alias_regions@);
    proof {
        assert forall|r: int, p: int| #![trigger loans@[r]@.contains(p)] 0 <= r < n && loans@[r]@.contains(p) implies derived(init, alias, r, p) by {
            let c = seq![r];
            assert(is_chain(alias, c));
        }
    }
    loop
        invariant
            n == loans@.len(),
            n == alias_regions@.len(),
            init.len() == n,
            alias == set_views(alias_regions@),
            init == set_views(old(loans)@),
            uniform(loans@, num_places as nat),
            uniform(alias_regions@, n as nat),
            forall|r: int| 0 <= r < n ==> init[r].subset_of((#[trigger] loans@[r])@),
            forall|r: int, p: int| #![trigger loans@[r]@.contains(p)] 0 <= r < n && loans@[r]@.contains(p) ==> derived(init, alias, r, p),
        decreases n * num_places - total_len(set_views(loans@), n as int),
    {
        proof {
            assert forall|r: int| 0 <= r < n implies (#[trigger] set_views(loans@)[r]).finite() && set_views(loans@)[r].len() <= num_places by {
                loans@[r].lemma_bounded();
                assert(loans@[r]@.subset_of(vstd::set_lib::set_int_range(0, num_places as int)));
                vstd::set_lib::lemma_int_range(0, num_places as int);
                vstd::set_lib::lemma_len_subset(loans@[r]@, vstd::set_lib::set_int_range(0, num_places as int));
            }
            lemma_total_bounded(set_views(loans@), n as int, num_places as nat);
        }
        let prev = copy_sets(loans);
        let ghost prevv = set_views(prev@);
        proof {
            assert forall|r2: int| 0 <= r2 < n implies (#[trigger] prev@[r2])@ == loans@[r2]@ by {
                assert(set_views(prev@)[r2] == set_views(loans@)[r2]);
            }
        }
        let mut changed = false;
        let mut r: usize = 0;
        while r < n
            invariant
                r <= n,
                n == loans@.len(),
                n == alias_regions@.len(),
                n == prev@.len(),
                init.len() == n,
                alias == set_views(alias_regions@),
                prevv == set_views(prev@),
                uniform(loans@, num_places as nat),
                uniform(prev@, num_places as nat),
                uniform(alias_regions@, n as nat),
                forall|r2: int| 0 <= r2 < n ==> prevv[r2].subset_of((#[trigger] loans@[r2])@),
                forall|r2: int| r <= r2 < n ==> prevv[r2] == (#[trigger] loans@[r2])@,
                forall|r2: int| 0 <= r2 < n ==> init[r2].subset_of((#[trigger] loans@[r2])@),
                forall|r2: int, p: int| #![trigger prev@[r2]@.contains(p)] 0 <= r2 < n && prev@[r2]@.contains(p) ==> derived(init, alias, r2, p),
                forall|r2: int, p: int| #![trigger loans@[r2]@.contains(p)] 0 <= r2 < n && loans@[r2]@.contains(p) ==> derived(init, alias, r2, p),
                changed == exists|r2: int| 0 <= r2 < r && prevv[r2] != (#[trigger] loans@[r2])@,
                !changed ==> forall|r2: int, r3: int| #![trigger alias[r2].contains(r3)] 0 <= r2 < r && alias[r2].contains(r3) ==> prevv[r3].subset_of(prevv[r2]),
            decreases n - r,
        {
            let mut alias_places = IndexSet::new(num_places);
            let regions = alias_regions[r].indices();
            proof { alias_regions@[r as int].lemma_bounded(); }
            let mut k: usize = 0;
            while k < regions.len()
                invariant
                    k <= regions@.len(),
                    r < n,
                    n == prev@.len(),
                    alias == set_views(alias_regions@),
                    prevv == set_views(prev@),
                    uniform(prev@, num_places as nat),
                    alias_places.size() == num_places,
                    forall|j: int| 0 <= j < regions@.len() ==> alias_regions@[r as int]@.contains(#[trigger] regions@[j] as int),
                    forall|j: int| 0 <= j < regions@.len() ==> #[trigger] regions@[j] < n,
                    forall|x: int| alias_places@.contains(x) <==> exists|j: int| 0 <= j < k && #[trigger] prevv[regions@[j] as int].contains(x),
                decreases regions@.len() - k,
            {
                alias_places.union(&prev[regions[k]]);
                assert forall|x: int| alias_places@.contains(x) <==> exists|j: int| 0 <= j < k + 1 && #[trigger] prevv[regions@[j] as int].contains(x) by {
                    if prevv[regions@[k as int] as int].contains(x) {
                        assert(0 <= k < k + 1);
                    }
                }
                k = k + 1;
            }
            let ghost cur = loans@[r as int]@;
            let ghost lbefore = loans@;
            let ghost changed_before = changed;
            let mut row = loans[r].to_owned();
            let grew = row.union(&alias_places);
            loans.set(r, row);
            changed = changed || grew;
            proof {
                assert forall|r2: int| 0 <= r2 < n && r2 != r implies (#[trigger] loans@[r2]) == lbefore[r2] by {}
                assert forall|p: int| #![trigger loans@[r as int]@.contains(p)] loans@[r as int]@.contains(p) implies derived(init, alias, r as int, p) by {
                    if !cur.contains(p) {
                        let j = choose|j: int| 0 <= j < regions@.len() && #[trigger] prevv[regions@[j] as int].contains(p);
                        let r3 = regions@[j] as int;
                        assert(prev@[r3]@.contains(p));
                        let c = choose|c: Seq<int>| #[trigger] is_chain(alias, c) && c[0] == r3 && init[c.last()].contains(p);
                        lemma_chain_prepend(alias, r as int, c);
                    }
                }
                if grew {
                    assert(prevv[r as int] != loans@[r as int]@) by {
                        let x = choose|x: int| #[trigger] alias_places@.contains(x) && !cur.contains(x);
                        assert(loans@[r as int]@.contains(x));
                    }
                } else {
                    assert(alias_places@.subset_of(cur));
                    assert(loans@[r as int]@ =~= cur);
                }
                if changed_before {
                    let r2 = choose|r2: int| 0 <= r2 < r && prevv[r2] != (#[trigger] lbefore[r2])@;
                    assert(loans@[r2] == lbefore[r2]);
                }
                if exists|r2: int| 0 <= r2 < r + 1 && prevv[r2] != (#[trigger] loans@[r2])@ {
                    let r2 = choose|r2: int| 0 <= r2 < r + 1 && prevv[r2] != (#[trigger] loans@[r2])@;
                    if r2 < r {
                        assert(loans@[r2] == lbefore[r2]);
                        assert(changed_before);
                    }
                }
                assert(changed == exists|r2: int| 0 <= r2 < r + 1 && prevv[r2] != (#[trigger] loans@[r2])@);
                if !changed {
                    assert forall|r2: int, r3: int| #![trigger alias[r2].contains(r3)] 0 <= r2 < r + 1 && alias[r2].contains(r3) implies prevv[r3].subset_of(prevv[r2]) by {
                        if r2 == r {
                            assert(alias_regions@[r as int]@.contains(r3));
                            let j = choose|j: int| 0 <= j < regions@.len() && regions@[j] == r3;
                            assert forall|x: int| prevv[r3].contains(x) implies prevv[r2].contains(x) by {
                                assert(prevv[regions@[j] as int].contains(x));
                            }
                        }
                    }
                }
            }
            r = r + 1;
        }
        if !changed {
            proof {
                assert forall|r2: int| 0 <= r2 < n implies prevv[r2] == (#[trigger] loans@[r2])@ by {}
                assert forall|r2: int, p: int| #![trigger loans@[r2]@.contains(p)] 0 <= r2 < n && derived(init, alias, r2, p) implies loans@[r2]@.contains(p) by {
                    let c = choose|c: Seq<int>| #[trigger] is_chain(alias, c) && c[0] == r2 && init[c.last()].contains(p);
                    assert forall|a: int, b: int| #![trigger alias[a].contains(b)] 0 <= a < alias.len() && alias[a].contains(b) implies prevv[b].subset_of(prevv[a]) by {}
                    assert forall|a: int| 0 <= a < alias.len() implies (#[trigger] init[a]).subset_of(prevv[a]) by {
                        assert(init[a].subset_of(loans@[a]@));
                    }
                    lemma_closed_contains_derived(init, alias, prevv, c, p, 0);
                }
            }
            return;
        }
        proof {
            assert forall|r2: int| 0 <= r2 < n implies (#[trigger] prevv[r2]).subset_of(set_views(loans@)[r2]) && set_views(loans@)[r2].finite() by {
                loans@[r2].lemma_bounded();
            }
            let r2 = choose|r2: int| 0 <= r2 < n && prevv[r2] != (#[trigger] loans@[r2])@;
            assert(prevv[r2] != set_views(loans@)[r2]);
            lemma_total_grows(prevv, set_views(loans@), n as int);
            assert forall|r3: int| 0 <= r3 < n implies (#[trigger] set_views(loans@)[r3]).finite() && set_views(loans@)[r3].len() <= num_places by {
                loans@[r3].lemma_bounded();
                assert(loans@[r3]@.subset_of(vstd::set_lib::set_int_range(0, num_places as int)));
                vstd::set_lib::lemma_int_range(0, num_places as int);
                vstd::set_lib::lemma_len_subset(loans@[r3]@, vstd::set_lib::set_int_range(0, num_places as int));
            }
            lemma_total_bounded(set_views(loans@), n as int, num_places as nat);
        }
    }
}

/// The number of dereferences in a projection.
pub open spec fn deref_count(p: Seq<ProjElem>) -> nat
    decreases p.len(),
{
    if p.len() == 0 {
        0
    } else {
        deref_count(p.drop_last()) + if is_deref(p.last()) { 1nat } else { 0nat }
    }
}

fn count_derefs(place: &Place) -> (n: usize)
    ensures
        n == deref_count(place.projection@),
{
    let mut n: usize = 0;
    let mut i: usize = 0;
    while i < place.projection.len()
        invariant
            i <= place.projection@.len(),
            n == deref_count(place.projection@.take(i as int)),
            n <= i,
        decreases place.projection@.len() - i,
    {
        assert(place.projection@.take(i + 1).drop_last() =~= place.projection@.take(i as int));
        if let ProjElem::Deref = place.projection[i] {
            n = n + 1;
        }
        i = i + 1;
    }
    assert(place.projection@.take(place.projection@.len() as int) =~= place.projection@);
    n
}

/// The places that may be touched through a given place.
pub struct Conflicts {
    /// Domain places contained in one of the place's aliases.
    pub subs: IndexSet,
    /// Domain places containing one of the place's aliases.
    pub supers: IndexSet,
    /// Every alias goes through a different number of dereferences, so at
    /// each level of indirection only one pointer is involved.
    pub single_pointee: bool,
}

/// `v` lists the elements of `s` in increasing order.
pub open spec fn lists_in_order(v: Seq<usize>, s: Set<int>) -> bool {
    &&& forall|k: int| 0 <= k < v.len() ==> s.contains(#[trigger] v[k] as int)
    &&& forall|i: int| s.contains(i) ==> exists|k: int| 0 <= k < v.len() && v[k] == i
    &&& forall|k1: int, k2: int| 0 <= k1 < k2 < v.len() ==> v[k1] < v[k2]
}

impl Conflicts {
    /// The indices of the places contained in an alias, in increasing
    /// order, then those of the places containing one, in increasing order.
    pub fn iter(&self) -> (v: Vec<usize>)
        ensures
            exists|n: int| 0 <= n <= v@.len() && lists_in_order(#[trigger] v@.take(n), self.subs@)
                && lists_in_order(v@.skip(n), self.supers@),
    {
        let mut v = self.subs.indices();
        let ghost a = v@;
        let mut b = self.supers.indices();
        let ghost bs = b@;
        v.append(&mut b);
        assert(v@.take(a.len() as int) =~= a);
        assert(v@.skip(a.len() as int) =~= bs);
        v
    }
}

/// Domain place `j` stands in relation `rel` to one of `aliases`.
pub open spec fn related_to_some(places: Seq<Place>, aliases: Seq<Place>, j: int, rel: PlaceRelation) -> bool {
    exists|k: int| 0 <= k < aliases.len() && relation_of(places[j]@, (#[trigger] aliases[k])@) == rel
}

/// No two aliases go through the same number of dereferences.
pub open spec fn distinct_deref_counts(aliases: Seq<Place>) -> bool {
    forall|k1: int, k2: int| 0 <= k1 < k2 < aliases.len() ==> deref_count((#[trigger] aliases[k1]).projection@) != deref_count((#[trigger] aliases[k2]).projection@)
}

/// The conflicts of a place with the given aliases, over the place domain `places`.
pub fn conflicts_of(places: &Vec<Place>, aliases: &Vec<Place>) -> (c: Conflicts)
    ensures
        c.subs.size() == places@.len(),
        c.supers.size() == places@.len(),
        forall|j: int| c.subs@.contains(j) <==> 0 <= j < places@.len() && related_to_some(places@, aliases@, j, PlaceRelation::Sub),
        forall|j: int| c.supers@.contains(j) <==> 0 <= j < places@.len() && related_to_some(places@, aliases@, j, PlaceRelation::Super),
        c.single_pointee == distinct_deref_counts(aliases@),
{
    let mut single_pointee = true;
    let mut k1: usize = 0;
    while k1 < aliases.len()
        invariant
            k1 <= aliases@.len(),
            single_pointee == forall|a: int, b: int| 0 <= a < b < aliases@.len() && a < k1 ==>
                deref_count((#[trigger] aliases@[a]).projection@) != deref_count((#[trigger] aliases@[b]).projection@),
        decreases aliases@.len() - k1,
    {
        let d1 = count_derefs(&aliases[k1]);
        let mut k2 = k1 + 1;
        while k2 < aliases.len()
            invariant
                k1 < k2 <= aliases@.len(),
                d1 == deref_count(aliases@[k1 as int].projection@),
                single_pointee == ((forall|a: int, b: int| 0 <= a < b < aliases@.len() && a < k1 ==>
                    deref_count((#[trigger] aliases@[a]).projection@) != deref_count((#[trigger] aliases@[b]).projection@))
                    && forall|b: int| k1 < b < k2 ==> d1 != deref_count((#[trigger] aliases@[b]).projection@)),
            decreases aliases@.len() - k2,
        {
            let d2 = count_derefs(&aliases[k2]);
            if d1 == d2 {
                single_pointee = false;
            }
            k2 = k2 + 1;
        }
        k1 = k1 + 1;
    }
    let n = places.len();
    let mut subs = IndexSet::new(n);
    let mut supers = IndexSet::new(n);
    let mut j: usize = 0;
    while j < n
        invariant
            j <= n,
            n == places@.len(),
            subs.size() == n,
            supers.size() == n,
            forall|j2: int| subs@.contains(j2) <==> 0 <= j2 < j && related_to_some(places@, aliases@, j2, PlaceRelation::Sub),
            forall|j2: int| supers@.contains(j2) <==> 0 <= j2 < j && related_to_some(places@, aliases@, j2, PlaceRelation::Super),
        decreases n - j,
    {
        let mut k: usize = 0;
        while k < aliases.len()
            invariant
                j < n,
                n == places@.len(),
                k <= aliases@.len(),
                subs.size() == n,
                supers.size() == n,
                forall|j2: int| subs@.contains(j2) <==> (0 <= j2 < j && related_to_some(places@, aliases@, j2, PlaceRelation::Sub))
                    || (j2 == j && exists|k2: int| 0 <= k2 < k && relation_of(places@[j as int]@, (#[trigger] aliases@[k2])@) == PlaceRelation::Sub),
                forall|j2: int| supers@.contains(j2) <==> (0 <= j2 < j && related_to_some(places@, aliases@, j2, PlaceRelation::Super))
                    || (j2 == j && exists|k2: int| 0 <= k2 < k && relation_of(places@[j as int]@, (#[trigger] aliases@[k2])@) == PlaceRelation::Super),
            decreases aliases@.len() - k,
        {
            let relation = PlaceRelation::of(&places[j], &aliases[k]);
            match relation {
                PlaceRelation::Sub => { subs.insert(j); },
                PlaceRelation::Super => { supers.insert(j); },
                PlaceRelation::Disjoint => {},
            }
            assert(relation_of(places@[j as int]@, aliases@[k as int]@) == relation);
            k = k + 1;
        }
        j = j + 1;
    }
    Conflicts { subs, supers, single_pointee }
}

/// The conflicts of every place in the domain, given each place's aliases.
pub fn compute_conflicts(places: &Vec<Place>, all_aliases: &Vec<Vec<Place>>) -> (cs: Vec<Conflicts>)
    requires
        all_aliases@.len() == places@.len(),
    ensures
        cs@.len() == places@.len(),
        forall|i: int| 0 <= i < cs@.len() ==> {
            let c = #[trigger] cs@[i];
            &&& c.subs.size() == places@.len()
            &&& c.supers.size() == places@.len()
            &&& forall|j: int| c.subs@.contains(j) <==> 0 <= j < places@.len() && related_to_some(places@, all_aliases@[i]@, j, PlaceRelation::Sub)
            &&& forall|j: int| c.supers@.contains(j) <==> 0 <= j < places@.len() && related_to_some(places@, all_aliases@[i]@, j, PlaceRelation::Super)
            &&& c.single_pointee == distinct_deref_counts(all_aliases@[i]@)
        },
{
    let mut cs: Vec<Conflicts> = Vec::new();
    let mut i: usize = 0;
    while i < places.len()
        invariant
            i <= places@.len(),
            all_aliases@.len() == places@.len(),
            cs@.len() == i,
            forall|i2: int| 0 <= i2 < i ==> {
                let c = #[trigger] cs@[i2];
                &&& c.subs.size() == places@.len()
                &&& c.supers.size() == places@.len()
                &&& forall|j: int| c.subs@.contains(j) <==> 0 <= j < places@.len() && related_to_some(places@, all_aliases@[i2]@, j, PlaceRelation::Sub)
                &&& forall|j: int| c.supers@.contains(j) <==> 0 <= j < places@.len() && related_to_some(places@, all_aliases@[i2]@, j, PlaceRelation::Super)
                &&& c.single_pointee == distinct_deref_counts(all_aliases@[i2]@)
            },
        decreases places@.len() - i,
    {
        cs.push(conflicts_of(places, &all_aliases[i]));
        i = i + 1;
    }
    cs
}

} // verus!
