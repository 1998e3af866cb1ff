use vstd::prelude::*;
use crate::body::{Rvalue, Statement, StatementKind, TerminatorKind, collect_rvalue_places, lemma_rvalue_reads_its_places, occurs_in_rvalue, place_views, rvalue_places};
use crate::flow::{FlowAnalysis, FlowDomain, Rows, domain_index, index_of, lemma_lookup_bounds, normal, rows_of, summary_in};
use crate::mir::{Location, Mutability, Operand, Place, ProjElem, operand_place, operand_to_place};
use crate::ty::{RegionEntry, Ty, interior_pointers, place_ty, place_ty_spec, pointer_views, pointers_of};

verus! {

/// The domain indices of those places of `ps` that belong to the domain, in order.
pub open spec fn present_indices(domain: Seq<Place>, ps: Seq<(usize, Seq<ProjElem>)>) -> Seq<usize>
    decreases ps.len(),
{
    if ps.len() == 0 {
        Seq::empty()
    } else {
        let rest = present_indices(domain, ps.drop_last());
        match index_of(domain, ps.last()) {
            Some(i) => rest.push(i as usize),
            None => rest,
        }
    }
}

pub proof fn lemma_present_indices_bounded(domain: Seq<Place>, ps: Seq<(usize, Seq<ProjElem>)>)
    ensures
        forall|k: int| 0 <= k < present_indices(domain, ps).len() ==> #[trigger] present_indices(domain, ps)[k] < domain.len(),
    decreases ps.len(),
{
    if ps.len() > 0 {
        lemma_present_indices_bounded(domain, ps.drop_last());
        lemma_lookup_bounds(domain, normal(ps.last()));
        let rest = present_indices(domain, ps.drop_last());
        assert forall|k: int| 0 <= k < present_indices(domain, ps).len() implies #[trigger] present_indices(domain, ps)[k] < domain.len() by {
            if k < rest.len() {
                assert(present_indices(domain, ps)[k] == rest[k]);
            }
        }
    }
}

/// A place of `ps` that the domain holds contributes its index.
pub proof fn lemma_present_indices_contains(domain: Seq<Place>, ps: Seq<(usize, Seq<ProjElem>)>, p: (usize, Seq<ProjElem>), j: int)
    requires
        ps.contains(p),
        index_of(domain, p) == Some(j),
    ensures
        present_indices(domain, ps).contains(j as usize),
    decreases ps.len(),
{
    let init = ps.drop_last();
    let rest = present_indices(domain, init);
    if ps.last() == p {
        assert(present_indices(domain, ps) == rest.push(j as usize));
        assert(present_indices(domain, ps)[rest.len() as int] == j as usize);
    } else {
        let k = choose|k: int| 0 <= k < ps.len() && ps[k] == p;
        assert(k < init.len());
        assert(init[k] == p);
        lemma_present_indices_contains(domain, init, p, j);
        let n = choose|n: int| 0 <= n < rest.len() && rest[n] == j as usize;
        match index_of(domain, ps.last()) {
            Some(i) => { assert(present_indices(domain, ps)[n] == rest[n]); },
            None => {},
        }
    }
}

/// Every index listed is that of a place of `ps`.
pub proof fn lemma_present_indices_member(domain: Seq<Place>, ps: Seq<(usize, Seq<ProjElem>)>, x: usize)
    requires
        present_indices(domain, ps).contains(x),
        domain.len() <= usize::MAX,
    ensures
        exists|k: int| 0 <= k < ps.len() && index_of(domain, #[trigger] ps[k]) == Some(x as int),
    decreases ps.len(),
{
    let init = ps.drop_last();
    let rest = present_indices(domain, init);
    let all = present_indices(domain, ps);
    let n = choose|n: int| 0 <= n < all.len() && all[n] == x;
    match index_of(domain, ps.last()) {
        Some(i) => {
            lemma_lookup_bounds(domain, normal(ps.last()));
            if n < rest.len() {
                assert(rest[n] == x);
                lemma_present_indices_member(domain, init, x);
                let k = choose|k: int| 0 <= k < init.len() && index_of(domain, #[trigger] init[k]) == Some(x as int);
                assert(ps[k] == init[k]);
            } else {
                assert(all == rest.push(i as usize));
                assert(all[n] == i as usize);
                assert(0 <= i);
                assert(ps[ps.len() - 1] == ps.last());
                assert(index_of(domain, ps[ps.len() - 1]) == Some(x as int));
            }
        },
        None => {
            assert(all == rest);
            lemma_present_indices_member(domain, init, x);
            let k = choose|k: int| 0 <= k < init.len() && index_of(domain, #[trigger] init[k]) == Some(x as int);
            assert(ps[k] == init[k]);
        },
    }
}

/// The domain indices of the places that belong to the domain, in order.
pub fn indices_in(domain: &Vec<Place>, places: &Vec<Place>) -> (v: Vec<usize>)
    ensures
        v@ == present_indices(domain@, place_views(places@)),
        forall|k: int| 0 <= k < v@.len() ==> #[trigger] v@[k] < domain@.len(),
{
    let mut v: Vec<usize> = Vec::new();
    let mut i: usize = 0;
    while i < places.len()
        invariant
            i <= places@.len(),
            v@ == present_indices(domain@, place_views(places@.take(i as int))),
        decreases places@.len() - i,
    {
        assert(place_views(places@.take(i + 1)).drop_last() =~= place_views(places@.take(i as int)));
        assert(place_views(places@.take(i + 1)).last() == places@[i as int]@);
        match domain_index(domain, &places[i]) {
            Some(j) => v.push(j),
            None => {},
        }
        i = i + 1;
    }
    assert(places@.take(places@.len() as int) =~= places@);
    proof { lemma_present_indices_bounded(domain@, place_views(places@)); }
    v
}

/// The dereferences `*p` of the pointers `p` listed in `es` (all of them,
/// or only those that may be written through), rooted at `local`.
pub open spec fn derefs_of(local: usize, es: Seq<RegionEntry>, only_mut: bool) -> Seq<(usize, Seq<ProjElem>)>
    decreases es.len(),
{
    if es.len() == 0 {
        Seq::empty()
    } else {
        let rest = derefs_of(local, es.drop_last(), only_mut);
        let e = es.last();
        if !only_mut || e.2 == Mutability::Mut {
            rest.push((local, e.1.push(ProjElem::Deref)))
        } else {
            rest
        }
    }
}

/// The dereferences of the pointers inside the value at `place` (of every
/// pointer, or of the mutable ones only), in the order of `interior_pointers`.
pub fn pointer_derefs(decls: &Vec<Ty>, place: &Place, only_mut: bool) -> (v: Vec<Place>)
    ensures
        place_views(v@) == derefs_of(place.local, pointers_of(decls@, place@), only_mut),
{
    let ptrs = interior_pointers(decls, place);
    let mut v: Vec<Place> = Vec::new();
    let mut k: usize = 0;
    while k < ptrs.len()
        invariant
            k <= ptrs@.len(),
            forall|j: int| 0 <= j < ptrs@.len() ==> (#[trigger] ptrs@[j]).1.local == place.local,
            place_views(v@) == derefs_of(place.local, pointer_views(ptrs@.take(k as int)), only_mut),
        decreases ptrs@.len() - k,
    {
        let ghost before = v@;
        assert(pointer_views(ptrs@.take(k + 1)).drop_last() =~= pointer_views(ptrs@.take(k as int)));
        let ghost e = pointer_views(ptrs@.take(k + 1)).last();
        assert(e == (ptrs@[k as int].0, ptrs@[k as int].1.projection@, ptrs@[k as int].2));
        let writable = match ptrs[k].2 {
            Mutability::Mut => true,
            Mutability::Not => false,
        };
        assert(writable == (e.2 == Mutability::Mut));
        if !only_mut || writable {
            let d = ptrs[k].1.deref();
            v.push(d);
            assert(place_views(v@) =~= place_views(before).push(d@));
        }
        k = k + 1;
    }
    assert(ptrs@.take(ptrs@.len() as int) =~= ptrs@);
    v
}

/// The places a call reads: for each argument that is a place, the
/// dereferences of all pointers inside it, then the argument itself.
pub open spec fn call_input_places(decls: Seq<Ty>, args: Seq<Operand>) -> Seq<(usize, Seq<ProjElem>)>
    decreases args.len(),
{
    if args.len() == 0 {
        Seq::empty()
    } else {
        let rest = call_input_places(decls, args.drop_last());
        match operand_place(args.last()) {
            Some(a) => rest + derefs_of(a.0, pointers_of(decls, a), false).push(a),
            None => rest,
        }
    }
}

/// The places a call may write through: the dereferences of the mutable
/// pointers inside each argument that is a place.
pub open spec fn call_mut_places(decls: Seq<Ty>, args: Seq<Operand>) -> Seq<(usize, Seq<ProjElem>)>
    decreases args.len(),
{
    if args.len() == 0 {
        Seq::empty()
    } else {
        let rest = call_mut_places(decls, args.drop_last());
        match operand_place(args.last()) {
            Some(a) => rest + derefs_of(a.0, pointers_of(decls, a), true),
            None => rest,
        }
    }
}

proof fn lemma_concat_contains<A>(x: Seq<A>, y: Seq<A>, q: A)
    ensures
        (x + y).contains(q) <==> x.contains(q) || y.contains(q),
{
    let s = x + y;
    if s.contains(q) {
        let j = choose|j: int| 0 <= j < s.len() && s[j] == q;
        if j < x.len() {
            assert(x[j] == q);
        } else {
            assert(y[j - x.len()] == q);
        }
    }
    if x.contains(q) {
        let j = choose|j: int| 0 <= j < x.len() && x[j] == q;
        assert(s[j] == q);
    }
    if y.contains(q) {
        let j = choose|j: int| 0 <= j < y.len() && y[j] == q;
        assert(s[j + x.len()] == q);
    }
}

proof fn lemma_push_contains<A>(x: Seq<A>, e: A, q: A)
    ensures
        x.push(e).contains(q) <==> x.contains(q) || q == e,
{
    let s = x.push(e);
    if s.contains(q) {
        let j = choose|j: int| 0 <= j < s.len() && s[j] == q;
        if j < x.len() {
            assert(x[j] == q);
        }
    }
    if x.contains(q) {
        let j = choose|j: int| 0 <= j < x.len() && x[j] == q;
        assert(s[j] == q);
    }
    if q == e {
        assert(s[x.len() as int] == q);
    }
}

/// The dereferences listed by `derefs_of(local, es, true)` are exactly those
/// of the pointers of `es` that may be written through.
proof fn lemma_mut_derefs(local: usize, es: Seq<RegionEntry>, q: (usize, Seq<ProjElem>))
    ensures
        derefs_of(local, es, true).contains(q) <==> exists|k: int| 0 <= k < es.len() && (#[trigger] es[k]).2 == Mutability::Mut
            && q == (local, es[k].1.push(ProjElem::Deref)),
    decreases es.len(),
{
    if es.len() > 0 {
        let init = es.drop_last();
        let e = es.last();
        let rest = derefs_of(local, init, true);
        lemma_mut_derefs(local, init, q);
        lemma_push_contains(rest, (local, e.1.push(ProjElem::Deref)), q);
        if derefs_of(local, es, true).contains(q) {
            if rest.contains(q) {
                let k = choose|k: int| 0 <= k < init.len() && (#[trigger] init[k]).2 == Mutability::Mut
                    && q == (local, init[k].1.push(ProjElem::Deref));
                assert(es[k] == init[k]);
            } else {
                assert(es[es.len() - 1] == e);
            }
        }
        if exists|k: int| 0 <= k < es.len() && (#[trigger] es[k]).2 == Mutability::Mut && q == (local, es[k].1.push(ProjElem::Deref)) {
            let k = choose|k: int| 0 <= k < es.len() && (#[trigger] es[k]).2 == Mutability::Mut && q == (local, es[k].1.push(ProjElem::Deref));
            if k < init.len() {
                assert(init[k] == es[k]);
            } else {
                assert(es[k] == e);
            }
        }
    }
}

/// The dereferences listed by `derefs_of(local, es, false)` are exactly
/// those of the pointers of `es`, whatever their mutability.
proof fn lemma_all_derefs(local: usize, es: Seq<RegionEntry>, q: (usize, Seq<ProjElem>))
    ensures
        derefs_of(local, es, false).contains(q) <==> exists|k: int| 0 <= k < es.len() && q == (local, (#[trigger] es[k]).1.push(ProjElem::Deref)),
    decreases es.len(),
{
    if es.len() > 0 {
        let init = es.drop_last();
        let e = es.last();
        let rest = derefs_of(local, init, false);
        lemma_all_derefs(local, init, q);
        lemma_push_contains(rest, (local, e.1.push(ProjElem::Deref)), q);
        if derefs_of(local, es, false).contains(q) {
            if rest.contains(q) {
                let k = choose|k: int| 0 <= k < init.len() && q == (local, (#[trigger] init[k]).1.push(ProjElem::Deref));
                assert(es[k] == init[k]);
            } else {
                assert(es[es.len() - 1] == e);
            }
        }
        if exists|k: int| 0 <= k < es.len() && q == (local, (#[trigger] es[k]).1.push(ProjElem::Deref)) {
            let k = choose|k: int| 0 <= k < es.len() && q == (local, (#[trigger] es[k]).1.push(ProjElem::Deref));
            if k < init.len() {
                assert(init[k] == es[k]);
            } else {
                assert(es[k] == e);
            }
        }
    }
}

/// Argument `i` of a call is a place, and its pointer `k` (see
/// `pointers_of`), of either mutability, has the dereference `q`.
pub open spec fn pointer_deref(decls: Seq<Ty>, args: Seq<Operand>, i: int, k: int, q: (usize, Seq<ProjElem>)) -> bool {
    &&& 0 <= i < args.len()
    &&& operand_place(args[i]) matches Some(a)
    &&& 0 <= k < pointers_of(decls, a).len()
    &&& q == (a.0, pointers_of(decls, a)[k].1.push(ProjElem::Deref))
}

/// A call reads exactly its arguments that are places and the dereferences
/// of every pointer inside them, shared or mutable.
pub proof fn lemma_call_reads_arguments_and_pointees(decls: Seq<Ty>, args: Seq<Operand>, q: (usize, Seq<ProjElem>))
    ensures
        call_input_places(decls, args).contains(q) <==> (exists|i: int| 0 <= i < args.len() && operand_place(#[trigger] args[i]) == Some(q))
            || (exists|i: int, k: int| #[trigger] pointer_deref(decls, args, i, k, q)),
    decreases args.len(),
{
    if args.len() > 0 {
        let init = args.drop_last();
        let n = args.len() - 1;
        lemma_call_reads_arguments_and_pointees(decls, init, q);
        let rest = call_input_places(decls, init);
        assert forall|i: int, k: int| 0 <= i < init.len() implies
            pointer_deref(decls, init, i, k, q) == #[trigger] pointer_deref(decls, args, i, k, q) by {
            assert(init[i] == args[i]);
        }
        assert forall|i: int| 0 <= i < init.len() implies #[trigger] init[i] == args[i] by {}
        assert(args[n] == args.last());
        match operand_place(args.last()) {
            Some(a) => {
                let es = pointers_of(decls, a);
                let ds = derefs_of(a.0, es, false);
                assert(call_input_places(decls, args) == rest + ds.push(a));
                lemma_concat_contains(rest, ds.push(a), q);
                lemma_push_contains(ds, a, q);
                lemma_all_derefs(a.0, es, q);
                if call_input_places(decls, args).contains(q) {
                    if rest.contains(q) {
                        if exists|i: int| 0 <= i < init.len() && operand_place(#[trigger] init[i]) == Some(q) {
                            let i = choose|i: int| 0 <= i < init.len() && operand_place(#[trigger] init[i]) == Some(q);
                            assert(operand_place(args[i]) == Some(q));
                        } else {
                            let (i, k) = choose|i: int, k: int| #[trigger] pointer_deref(decls, init, i, k, q);
                            assert(pointer_deref(decls, args, i, k, q));
                        }
                    } else if q == a {
                        assert(operand_place(args[n]) == Some(q));
                    } else {
                        let k = choose|k: int| 0 <= k < es.len() && q == (a.0, (#[trigger] es[k]).1.push(ProjElem::Deref));
                        assert(pointer_deref(decls, args, n, k, q));
                    }
                }
                if exists|i: int| 0 <= i < args.len() && operand_place(#[trigger] args[i]) == Some(q) {
                    let i = choose|i: int| 0 <= i < args.len() && operand_place(#[trigger] args[i]) == Some(q);
                    if i < n {
                        assert(operand_place(init[i]) == Some(q));
                    }
                }
                if exists|i: int, k: int| #[trigger] pointer_deref(decls, args, i, k, q) {
                    let (i, k) = choose|i: int, k: int| #[trigger] pointer_deref(decls, args, i, k, q);
                    if i < n {
                        assert(pointer_deref(decls, init, i, k, q));
                    } else {
                        assert(q == (a.0, es[k].1.push(ProjElem::Deref)));
                    }
                }
            },
            None => {
                assert(call_input_places(decls, args) == rest);
                if rest.contains(q) {
                    if exists|i: int| 0 <= i < init.len() && operand_place(#[trigger] init[i]) == Some(q) {
                        let i = choose|i: int| 0 <= i < init.len() && operand_place(#[trigger] init[i]) == Some(q);
                        assert(operand_place(args[i]) == Some(q));
                    } else {
                        let (i, k) = choose|i: int, k: int| #[trigger] pointer_deref(decls, init, i, k, q);
                        assert(pointer_deref(decls, args, i, k, q));
                    }
                }
                if exists|i: int| 0 <= i < args.len() && operand_place(#[trigger] args[i]) == Some(q) {
                    let i = choose|i: int| 0 <= i < args.len() && operand_place(#[trigger] args[i]) == Some(q);
                    if i < n {
                        assert(operand_place(init[i]) == Some(q));
                    }
                }
                if exists|i: int, k: int| #[trigger] pointer_deref(decls, args, i, k, q) {
                    let (i, k) = choose|i: int, k: int| #[trigger] pointer_deref(decls, args, i, k, q);
                    if i < n {
                        assert(pointer_deref(decls, init, i, k, q));
                    }
                }
            },
        }
    } else {
        assert(!call_input_places(decls, args).contains(q));
    }
}

/// Argument `i` of a call is a place, and its pointer `k` (see
/// `pointers_of`) is of mutability `Mut` and has the dereference `q`.
pub open spec fn mut_pointer_deref(decls: Seq<Ty>, args: Seq<Operand>, i: int, k: int, q: (usize, Seq<ProjElem>)) -> bool {
    &&& 0 <= i < args.len()
    &&& operand_place(args[i]) matches Some(a)
    &&& 0 <= k < pointers_of(decls, a).len()
    &&& pointers_of(decls, a)[k].2 == Mutability::Mut
    &&& q == (a.0, pointers_of(decls, a)[k].1.push(ProjElem::Deref))
}

/// A call may write through exactly the mutable pointers inside its
/// arguments: a place it may write is the dereference of a pointer of
/// mutability `Mut` inside some argument, and every such dereference may
/// be written. A place reached only through shared references is not
/// among them.
pub proof fn lemma_call_writes_only_through_mut_pointers(decls: Seq<Ty>, args: Seq<Operand>, q: (usize, Seq<ProjElem>))
    ensures
        call_mut_places(decls, args).contains(q) <==> exists|i: int, k: int| #[trigger] mut_pointer_deref(decls, args, i, k, q),
    decreases args.len(),
{
    if args.len() > 0 {
        let init = args.drop_last();
        let n = args.len() - 1;
        lemma_call_writes_only_through_mut_pointers(decls, init, q);
        let rest = call_mut_places(decls, init);
        assert forall|i: int, k: int| 0 <= i < init.len() implies
            mut_pointer_deref(decls, init, i, k, q) == #[trigger] mut_pointer_deref(decls, args, i, k, q) by {
            assert(init[i] == args[i]);
        }
        match operand_place(args.last()) {
            Some(a) => {
                let es = pointers_of(decls, a);
                lemma_concat_contains(rest, derefs_of(a.0, es, true), q);
                lemma_mut_derefs(a.0, es, q);
                if call_mut_places(decls, args).contains(q) {
                    if rest.contains(q) {
                        let (i, k) = choose|i: int, k: int| #[trigger] mut_pointer_deref(decls, init, i, k, q);
                        assert(mut_pointer_deref(decls, args, i, k, q));
                    } else {
                        let k = choose|k: int| 0 <= k < es.len() && (#[trigger] es[k]).2 == Mutability::Mut
                            && q == (a.0, es[k].1.push(ProjElem::Deref));
                        assert(args[n] == args.last());
                        assert(mut_pointer_deref(decls, args, n, k, q));
                    }
                }
                if exists|i: int, k: int| #[trigger] mut_pointer_deref(decls, args, i, k, q) {
                    let (i, k) = choose|i: int, k: int| #[trigger] mut_pointer_deref(decls, args, i, k, q);
                    if i < n {
                        assert(mut_pointer_deref(decls, init, i, k, q));
                    } else {
                        assert(args[i] == args.last());
                        assert(es[k].2 == Mutability::Mut);
                    }
                }
            },
            None => {
                assert(call_mut_places(decls, args) == rest);
                if rest.contains(q) {
                    let (i, k) = choose|i: int, k: int| #[trigger] mut_pointer_deref(decls, init, i, k, q);
                    assert(mut_pointer_deref(decls, args, i, k, q));
                }
                if exists|i: int, k: int| #[trigger] mut_pointer_deref(decls, args, i, k, q) {
                    let (i, k) = choose|i: int, k: int| #[trigger] mut_pointer_deref(decls, args, i, k, q);
                    if i < n {
                        assert(mut_pointer_deref(decls, init, i, k, q));
                    } else {
                        assert(args[i] == args.last());
                    }
                }
            },
        }
    } else {
        assert(!call_mut_places(decls, args).contains(q));
    }
}

/// The places a call reads and the places it may write through.
pub fn call_places(decls: &Vec<Ty>, args: &Vec<Operand>) -> (r: (Vec<Place>, Vec<Place>))
    ensures
        place_views(r.0@) == call_input_places(decls@, args@),
        place_views(r.1@) == call_mut_places(decls@, args@),
{
    let mut inputs: Vec<Place> = Vec::new();
    let mut muts: Vec<Place> = Vec::new();
    let mut i: usize = 0;
    while i < args.len()
        invariant
            i <= args@.len(),
            place_views(inputs@) == call_input_places(decls@, args@.take(i as int)),
            place_views(muts@) == call_mut_places(decls@, args@.take(i as int)),
        decreases args@.len() - i,
    {
        assert(args@.take(i + 1).drop_last() =~= args@.take(i as int));
        assert(args@.take(i + 1).last() == args@[i as int]);
        match operand_to_place(&args[i]) {
            Some(a) => {
                let ghost bi = inputs@;
                let ghost bm = muts@;
                let mut all = pointer_derefs(decls, &a, false);
                let mut writable = pointer_derefs(decls, &a, true);
                let ghost all0 = all@;
                let ghost writable0 = writable@;
                inputs.append(&mut all);
                let a2 = a.copy();
                inputs.push(a2);
                muts.append(&mut writable);
                assert(place_views(inputs@) =~= place_views(bi) + place_views(all0).push(a@));
                assert(place_views(muts@) =~= place_views(bm) + place_views(writable0));
            },
            None => {},
        }
        i = i + 1;
    }
    assert(args@.take(args@.len() as int) =~= args@);
    (inputs, muts)
}

/// The type of `place` is the unit type `()`.
pub open spec fn is_unit_spec(decls: Seq<Ty>, place: (usize, Seq<ProjElem>)) -> bool {
    place_ty_spec(decls, place) matches Some(Ty::Tuple(fields)) && fields@.len() == 0
}

/// Whether the type of `place` is the unit type `()`.
pub fn is_unit(decls: &Vec<Ty>, place: &Place) -> (b: bool)
    ensures
        b == is_unit_spec(decls@, place@),
{
    match place_ty(decls, place) {
        Some(Ty::Tuple(fields)) => fields.len() == 0,
        _ => false,
    }
}

/// One write of the transfer function: the written place, the places read,
/// the location, whether the write is definite, and whether it reaches the
/// aliases of the place only (rather than all its conflicts).
pub type Step = (int, Seq<usize>, Location, bool, bool);

/// The writes through mutable pointers of a call, each reading `inputs`.
pub open spec fn mut_steps(ms: Seq<usize>, inputs: Seq<usize>, location: Location) -> Seq<Step> {
    ms.map_values(|m: usize| (m as int, inputs, location, false, false))
}

/// The writes of a call summary, at `location`, each reaching the aliases
/// of its place only.
pub open spec fn summary_steps(s: Seq<(usize, Vec<usize>, bool)>, location: Location) -> Seq<Step> {
    s.map_values(|e: (usize, Vec<usize>, bool)| (e.0 as int, e.1@, location, e.2, true))
}

impl FlowAnalysis {
    /// The types of the locals of the body.
    pub open spec fn decls(&self) -> Seq<Ty> {
        self.body.local_tys@
    }

    /// A location of the body (a statement, or the terminator of its block).
    pub open spec fn valid_location(&self, l: Location) -> bool {
        &&& l.block < self.body.basic_blocks@.len()
        &&& l.statement_index <= self.body.basic_blocks@[l.block as int].statements@.len()
    }

    /// The rows after performing `steps` in order.
    pub open spec fn run_steps(&self, v: Rows, steps: Seq<Step>) -> Rows
        decreases steps.len(),
    {
        if steps.len() == 0 {
            v
        } else {
            let s = steps.last();
            self.mutate(self.run_steps(v, steps.drop_last()), s.0, s.1, s.2, s.3, s.4)
        }
    }

    /// The write of `place = rvalue`: a definite write of the place reading
    /// the places of the rvalue (nothing when the place is not tracked).
    pub open spec fn assign_steps(&self, place: Place, rvalue: Rvalue, location: Location) -> Seq<Step> {
        match index_of(self.place_domain@, place@) {
            Some(m) => seq![(m, present_indices(self.place_domain@, rvalue_places(rvalue)), location, true, false)],
            None => Seq::empty(),
        }
    }

    /// The writes of a statement.
    pub open spec fn statement_steps(&self, stmt: Statement, location: Location) -> Seq<Step> {
        match stmt.kind {
            StatementKind::Assign(place, rvalue) => self.assign_steps(place, rvalue, location),
            _ => Seq::empty(),
        }
    }

    /// The writes of a call: the destination, definitely, reading every
    /// input of the call (nothing when it has the unit type); then each
    /// mutable pointer inside an argument, possibly, reading every input.
    pub open spec fn call_steps(&self, args: Seq<Operand>, destination: Option<(Place, usize)>, location: Location) -> Seq<Step> {
        let dom = self.place_domain@;
        let inputs = present_indices(dom, call_input_places(self.decls(), args));
        let dst: Seq<Step> = match destination {
            Some((d, _)) => match index_of(dom, d@) {
                Some(m) => seq![(m, if is_unit_spec(self.decls(), d@) { Seq::<usize>::empty() } else { inputs }, location, true, false)],
                None => Seq::empty(),
            },
            None => Seq::empty(),
        };
        dst + mut_steps(present_indices(dom, call_mut_places(self.decls(), args)), inputs, location)
    }

    /// The writes of a terminator: those of a call (its summary when the
    /// call was analysed in the callee), or the definite write of the
    /// replaced place by a drop-and-replace.
    pub open spec fn terminator_steps(&self, kind: TerminatorKind, location: Location) -> Seq<Step> {
        match kind {
            TerminatorKind::Call { args, destination, .. } => match self.call_summaries@[location.block as int] {
                Some(s) => summary_steps(s@, location),
                None => self.call_steps(args@, destination, location),
            },
            TerminatorKind::DropAndReplace { place, value, .. } => match operand_place(value) {
                Some(src) => match index_of(self.place_domain@, place@) {
                    Some(m) => seq![(m, present_indices(self.place_domain@, seq![src]), location, true, false)],
                    None => Seq::empty(),
                },
                None => Seq::empty(),
            },
            _ => Seq::empty(),
        }
    }

    /// The writes of the first `k` statements of block `b`.
    pub open spec fn statements_steps(&self, b: int, k: int) -> Seq<Step>
        decreases k,
    {
        if k <= 0 {
            Seq::empty()
        } else {
            self.statements_steps(b, k - 1) + self.statement_steps(
                self.body.basic_blocks@[b].statements@[k - 1],
                Location { block: b as usize, statement_index: (k - 1) as usize },
            )
        }
    }

    /// The writes of block `b`: its statements, then its terminator.
    pub open spec fn block_steps(&self, b: int) -> Seq<Step> {
        let n = self.body.basic_blocks@[b].statements@.len();
        self.statements_steps(b, n as int) + self.terminator_steps(
            self.body.basic_blocks@[b].terminator.kind,
            Location { block: b as usize, statement_index: n as usize },
        )
    }

    /// An assignment `place = rvalue` reads every place that occurs in the
    /// rvalue: the write of `place` lists each tracked such place among its
    /// inputs, and afterwards every row the write reaches holds that place's
    /// dependencies, whatever the rows were before.
    pub proof fn lemma_assign_reads_rvalue(&self, v: Rows, stmt: Statement, place: Place, rvalue: Rvalue, location: Location,
        r: (usize, Seq<ProjElem>), m: int, j: int)
        requires
            stmt.kind == StatementKind::Assign(place, rvalue),
            occurs_in_rvalue(rvalue, r),
            index_of(self.place_domain@, place@) == Some(m),
            index_of(self.place_domain@, r) == Some(j),
        ensures
            self.statement_steps(stmt, location).len() == 1,
            self.statement_steps(stmt, location)[0].0 == m,
            self.statement_steps(stmt, location)[0].1.contains(j as usize),
            self.statement_steps(stmt, location)[0].3,
            forall|t: int, d: int| self.targets(m, false).contains(t) && self.aliases.deps.row(j).contains(d)
                ==> #[trigger] self.run_steps(v, self.statement_steps(stmt, location)).1(t).contains(d),
    {
        let dom = self.place_domain@;
        assert(dom.len() == self.place_domain.len());
        lemma_rvalue_reads_its_places(rvalue, r);
        lemma_lookup_bounds(dom, normal(r));
        lemma_present_indices_contains(dom, rvalue_places(rvalue), r, j);
        let steps = self.statement_steps(stmt, location);
        let reads = present_indices(dom, rvalue_places(rvalue));
        assert(steps == seq![(m, reads, location, true, false)]);
        assert(steps.drop_last() =~= Seq::<Step>::empty());
        let n = choose|n: int| 0 <= n < reads.len() && reads[n] == j as usize;
        assert(reads[n] as int == j);
        assert(self.read_places(m, reads, location.block as int).contains(j));
        assert forall|t: int, d: int| self.targets(m, false).contains(t) && self.aliases.deps.row(j).contains(d)
            implies #[trigger] self.run_steps(v, steps).1(t).contains(d) by {
            let cleared = self.cleared(m, true);
            assert(self.input_places(v.1, cleared, m, reads, location.block as int).contains(d));
        }
    }

    /// A call that was not analysed in the callee writes its destination
    /// definitely, and otherwise only through the pointers of mutability
    /// `Mut` inside its arguments: each of its other writes is a possible
    /// write of the dereference of such a pointer, and each such dereference
    /// that is tracked is written. A place reached only through shared
    /// references is not written by the call.
    pub proof fn lemma_call_writes(&self, kind: TerminatorKind, args: Vec<Operand>, destination: Option<(Place, usize)>,
        cleanup: Option<usize>, location: Location)
        requires
            kind == (TerminatorKind::Call { args, destination, cleanup }),
            self.call_summaries@[location.block as int] is None,
        ensures
            forall|n: int| 0 <= n < self.terminator_steps(kind, location).len() && (#[trigger] self.terminator_steps(kind, location)[n]).3
                ==> (destination matches Some((d, _)) && index_of(self.place_domain@, d@) == Some(self.terminator_steps(kind, location)[n].0)),
            forall|n: int| 0 <= n < self.terminator_steps(kind, location).len() && !(#[trigger] self.terminator_steps(kind, location)[n]).3
                ==> exists|q: (usize, Seq<ProjElem>), i: int, k: int| #[trigger] mut_pointer_deref(self.decls(), args@, i, k, q)
                    && index_of(self.place_domain@, q) == Some(self.terminator_steps(kind, location)[n].0),
            forall|q: (usize, Seq<ProjElem>), i: int, k: int| #[trigger] mut_pointer_deref(self.decls(), args@, i, k, q)
                && index_of(self.place_domain@, q) is Some
                ==> exists|n: int| 0 <= n < self.terminator_steps(kind, location).len()
                    && (#[trigger] self.terminator_steps(kind, location)[n]).0 == index_of(self.place_domain@, q)->0
                    && !self.terminator_steps(kind, location)[n].3,
    {
        let dom = self.place_domain@;
        assert(dom.len() == self.place_domain.len());
        let steps = self.terminator_steps(kind, location);
        let inputs = present_indices(dom, call_input_places(self.decls(), args@));
        let writes = call_mut_places(self.decls(), args@);
        let pi = present_indices(dom, writes);
        let ms = mut_steps(pi, inputs, location);
        assert(steps == self.call_steps(args@, destination, location));
        let dst: Seq<Step> = match destination {
            Some((d, _)) => match index_of(dom, d@) {
                Some(m) => seq![(m, if is_unit_spec(self.decls(), d@) { Seq::<usize>::empty() } else { inputs }, location, true, false)],
                None => Seq::empty(),
            },
            None => Seq::empty(),
        };
        assert(steps == dst + ms);
        assert forall|n: int| 0 <= n < steps.len() && (#[trigger] steps[n]).3
            implies (destination matches Some((d, _)) && index_of(dom, d@) == Some(steps[n].0)) by {
            if n >= dst.len() {
                assert(steps[n] == ms[n - dst.len()]);
            }
        }
        assert forall|n: int| 0 <= n < steps.len() && !(#[trigger] steps[n]).3
            implies exists|q: (usize, Seq<ProjElem>), i: int, k: int| #[trigger] mut_pointer_deref(self.decls(), args@, i, k, q)
                && index_of(dom, q) == Some(steps[n].0) by {
            assert(n >= dst.len());
            let n2 = n - dst.len();
            assert(steps[n] == ms[n2]);
            assert(pi.contains(pi[n2]));
            lemma_present_indices_member(dom, writes, pi[n2]);
            let k0 = choose|k0: int| 0 <= k0 < writes.len() && index_of(dom, #[trigger] writes[k0]) == Some(pi[n2] as int);
            let q = writes[k0];
            assert(writes.contains(q));
            lemma_call_writes_only_through_mut_pointers(self.decls(), args@, q);
            let (i, k) = choose|i: int, k: int| #[trigger] mut_pointer_deref(self.decls(), args@, i, k, q);
            assert(mut_pointer_deref(self.decls(), args@, i, k, q) && index_of(dom, q) == Some(steps[n].0));
        }
        assert forall|q: (usize, Seq<ProjElem>), i: int, k: int| #[trigger] mut_pointer_deref(self.decls(), args@, i, k, q)
            && index_of(dom, q) is Some
            implies exists|n: int| 0 <= n < steps.len() && (#[trigger] steps[n]).0 == index_of(dom, q)->0 && !steps[n].3 by {
            let j = index_of(dom, q)->0;
            lemma_call_writes_only_through_mut_pointers(self.decls(), args@, q);
            lemma_lookup_bounds(dom, normal(q));
            lemma_present_indices_contains(dom, writes, q, j);
            let n2 = choose|n2: int| 0 <= n2 < pi.len() && pi[n2] == j as usize;
            let n = n2 + dst.len();
            assert(steps[n] == ms[n2]);
            assert(ms[n2].0 == pi[n2] as int);
            assert(steps[n].0 == j);
        }
    }

    /// A row that no write of `steps` reaches or empties keeps its value:
    /// together with `lemma_call_writes`, the rows of a place that a call
    /// reaches only through shared references are unchanged by the call.
    pub proof fn lemma_run_steps_untouched(&self, v: Rows, steps: Seq<Step>, t: int)
        requires
            forall|n: int| 0 <= n < steps.len() ==> !self.targets((#[trigger] steps[n]).0, steps[n].4).contains(t)
                && !self.cleared(steps[n].0, steps[n].3).contains(t),
        ensures
            self.run_steps(v, steps).0(t) == v.0(t),
            self.run_steps(v, steps).1(t) == v.1(t),
        decreases steps.len(),
    {
        if steps.len() > 0 {
            let init = steps.drop_last();
            assert forall|n: int| 0 <= n < init.len() implies !self.targets((#[trigger] init[n]).0, init[n].4).contains(t)
                && !self.cleared(init[n].0, init[n].3).contains(t) by {
                assert(init[n] == steps[n]);
            }
            self.lemma_run_steps_untouched(v, init, t);
            assert(steps.last() == steps[steps.len() - 1]);
        }
    }

    /// Running two lists of writes in turn runs their concatenation.
    pub proof fn lemma_run_steps_append(&self, v: Rows, a: Seq<Step>, b: Seq<Step>)
        ensures
            self.run_steps(v, a + b) == self.run_steps(self.run_steps(v, a), b),
        decreases b.len(),
    {
        if b.len() == 0 {
            assert(a + b =~= a);
        } else {
            assert((a + b).drop_last() =~= a + b.drop_last());
            assert((a + b).last() == b.last());
            self.lemma_run_steps_append(v, a, b.drop_last());
        }
    }

    proof fn lemma_run_one(&self, v: Rows, s: Step)
        ensures
            self.run_steps(v, seq![s]) == self.mutate(v, s.0, s.1, s.2, s.3, s.4),
    {
        assert(seq![s].drop_last() =~= Seq::<Step>::empty());
        assert(self.run_steps(v, Seq::<Step>::empty()) == v);
        assert(seq![s].last() == s);
    }

    /// The effect of `place = rvalue` at `location`.
    pub fn visit_assign(&self, state: &mut FlowDomain, place: &Place, rvalue: &Rvalue, location: Location)
        requires
            self.wf(),
            old(state).wf(self.np(), self.nl()),
            self.valid_location(location),
        ensures
            final(state).wf(self.np(), self.nl()),
            rows_of(*final(state)) == self.run_steps(rows_of(*old(state)), self.assign_steps(*place, *rvalue, location)),
    {
        let read = collect_rvalue_places(rvalue);
        let inputs = indices_in(&self.place_domain, &read);
        match domain_index(&self.place_domain, place) {
            Some(m) => {
                self.apply_mutation(state, m, &inputs, location, true, false);
                proof { self.lemma_run_one(rows_of(*old(state)), (m as int, inputs@, location, true, false)); }
            },
            None => {},
        }
    }

    /// The effect of a statement at `location`.
    pub fn visit_statement(&self, state: &mut FlowDomain, stmt: &Statement, location: Location)
        requires
            self.wf(),
            old(state).wf(self.np(), self.nl()),
            self.valid_location(location),
        ensures
            final(state).wf(self.np(), self.nl()),
            rows_of(*final(state)) == self.run_steps(rows_of(*old(state)), self.statement_steps(*stmt, location)),
    {
        match &stmt.kind {
            StatementKind::Assign(place, rvalue) => self.visit_assign(state, place, rvalue, location),
            _ => {},
        }
    }

    /// The effect of a terminator at `location`.
    pub fn visit_terminator(&self, state: &mut FlowDomain, kind: &TerminatorKind, location: Location)
        requires
            self.wf(),
            old(state).wf(self.np(), self.nl()),
            self.valid_location(location),
        ensures
            final(state).wf(self.np(), self.nl()),
            rows_of(*final(state)) == self.run_steps(rows_of(*old(state)), self.terminator_steps(*kind, location)),
    {
        match kind {
            TerminatorKind::Call { args, destination, .. } => {
                if let Some(summary) = &self.call_summaries[location.block] {
                    let mut k: usize = 0;
                    while k < summary.len()
                        invariant
                            self.wf(),
                            self.valid_location(location),
                            self.call_summaries@[location.block as int] == Some(*summary),
                            state.wf(self.np(), self.nl()),
                            k <= summary@.len(),
                            rows_of(*state) == self.run_steps(rows_of(*old(state)), summary_steps(summary@.take(k as int), location)),
                        decreases summary@.len() - k,
                    {
                        let ghost before = rows_of(*state);
                        assert(summary_in(summary@, self.np()));
                        let (m, inputs, definitely) = &summary[k];
                        assert((summary@[k as int]).0 < self.np());
                        assert forall|j: int| 0 <= j < inputs@.len() implies #[trigger] inputs@[j] < self.np() by {
                            assert(summary@[k as int].1@[j] < self.np());
                        }
                        self.apply_mutation(state, *m, inputs, location, *definitely, true);
                        proof {
                            let s0 = summary_steps(summary@.take(k as int), location);
                            let step: Step = (*m as int, inputs@, location, *definitely, true);
                            assert(summary_steps(summary@.take(k + 1), location) =~= s0 + seq![step]);
                            self.lemma_run_steps_append(rows_of(*old(state)), s0, seq![step]);
                            self.lemma_run_one(before, step);
                        }
                        k = k + 1;
                    }
                    assert(summary@.take(summary@.len() as int) =~= summary@);
                    return;
                }
                let ghost dom = self.place_domain@;
                let (input_places, mut_places) = call_places(&self.body.local_tys, args);
                let inputs = indices_in(&self.place_domain, &input_places);
                let ghost dst_steps: Seq<Step> = match destination {
                    Some((d, _)) => match index_of(dom, d@) {
                        Some(m) => seq![(m, if is_unit_spec(self.decls(), d@) { Seq::<usize>::empty() } else { inputs@ }, location, true, false)],
                        None => Seq::empty(),
                    },
                    None => Seq::empty(),
                };
                match destination {
                    Some((dst, _)) => {
                        match domain_index(&self.place_domain, dst) {
                            Some(m) => {
                                if is_unit(&self.body.local_tys, dst) {
                                    let empty: Vec<usize> = Vec::new();
                                    self.apply_mutation(state, m, &empty, location, true, false);
                                    proof {
                                        assert(empty@ =~= Seq::<usize>::empty());
                                        self.lemma_run_one(rows_of(*old(state)), (m as int, Seq::<usize>::empty(), location, true, false));
                                    }
                                } else {
                                    self.apply_mutation(state, m, &inputs, location, true, false);
                                    proof { self.lemma_run_one(rows_of(*old(state)), (m as int, inputs@, location, true, false)); }
                                }
                            },
                            None => {},
                        }
                    },
                    None => {},
                }
                assert(rows_of(*state) == self.run_steps(rows_of(*old(state)), dst_steps));
                let muts = indices_in(&self.place_domain, &mut_places);
                let mut k: usize = 0;
                while k < muts.len()
                    invariant
                        self.wf(),
                        self.valid_location(location),
                        state.wf(self.np(), self.nl()),
                        k <= muts@.len(),
                        forall|j: int| 0 <= j < muts@.len() ==> #[trigger] muts@[j] < self.np(),
                        forall|j: int| 0 <= j < inputs@.len() ==> #[trigger] inputs@[j] < self.np(),
                        rows_of(*state) == self.run_steps(rows_of(*old(state)), dst_steps + mut_steps(muts@.take(k as int), inputs@, location)),
                    decreases muts@.len() - k,
                {
                    let ghost before = rows_of(*state);
                    self.apply_mutation(state, muts[k], &inputs, location, false, false);
                    proof {
                        let s0 = dst_steps + mut_steps(muts@.take(k as int), inputs@, location);
                        let step: Step = (muts@[k as int] as int, inputs@, location, false, false);
                        assert(dst_steps + mut_steps(muts@.take(k + 1), inputs@, location) =~= s0 + seq![step]);
                        self.lemma_run_steps_append(rows_of(*old(state)), s0, seq![step]);
                        self.lemma_run_one(before, step);
                    }
                    k = k + 1;
                }
                assert(muts@.take(muts@.len() as int) =~= muts@);
            },
            TerminatorKind::DropAndReplace { place, value, .. } => {
                match operand_to_place(value) {
                    Some(src) => {
                        match domain_index(&self.place_domain, place) {
                            Some(m) => {
                                let mut read: Vec<Place> = Vec::new();
                                read.push(src);
                                assert(place_views(read@) =~= seq![operand_place(*value)->Some_0]);
                                let inputs = indices_in(&self.place_domain, &read);
                                self.apply_mutation(state, m, &inputs, location, true, false);
                                proof { self.lemma_run_one(rows_of(*old(state)), (m as int, inputs@, location, true, false)); }
                            },
                            None => {},
                        }
                    },
                    None => {},
                }
            },
            _ => {},
        }
    }

    /// The effect of block `b` on the state at its entry: each statement in
    /// order, then the terminator.
    pub fn apply_block(&self, state: &mut FlowDomain, b: usize)
        requires
            self.wf(),
            old(state).wf(self.np(), self.nl()),
            b < self.body.basic_blocks@.len(),
        ensures
            final(state).wf(self.np(), self.nl()),
            rows_of(*final(state)) == self.run_steps(rows_of(*old(state)), self.block_steps(b as int)),
    {
        let n = self.body.basic_blocks[b].statements.len();
        let mut i: usize = 0;
        while i < n
            invariant
                self.wf(),
                b < self.body.basic_blocks@.len(),
                n == self.body.basic_blocks@[b as int].statements@.len(),
                i <= n,
                state.wf(self.np(), self.nl()),
                rows_of(*state) == self.run_steps(rows_of(*old(state)), self.statements_steps(b as int, i as int)),
            decreases n - i,
        {
            let ghost before = rows_of(*state);
            let location = Location { block: b, statement_index: i };
            self.visit_statement(state, &self.body.basic_blocks[b].statements[i], location);
            proof {
                self.lemma_run_steps_append(rows_of(*old(state)), self.statements_steps(b as int, i as int),
                    self.statement_steps(self.body.basic_blocks@[b as int].statements@[i as int], location));
            }
            i = i + 1;
        }
        let ghost before = rows_of(*state);
        let location = Location { block: b, statement_index: n };
        self.visit_terminator(state, &self.body.basic_blocks[b].terminator.kind, location);
        proof {
            self.lemma_run_steps_append(rows_of(*old(state)), self.statements_steps(b as int, n as int),
                self.terminator_steps(self.body.basic_blocks@[b as int].terminator.kind, location));
        }
    }
}

} // verus!
