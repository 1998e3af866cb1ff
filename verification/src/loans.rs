use vstd::prelude::*;
use crate::aliases::{derived, propagate_loans, reaches, reaching, set_views, uniform};
use crate::body::{Body, Rvalue, StatementKind};
use crate::indexed::IndexSet;
use crate::mir::{Mutability, Place, ProjElem};
use crate::ty::{RegionEntry, Ty, interior_pointers, place_ty, place_ty_spec, pointer_views, pointers_of, same_ty, same_type};

verus! {

/// A pointer found in the type of a local: its region, the place of the
/// reference and whether it may be written through.
pub type PointerView = (usize, (usize, Seq<ProjElem>), Mutability);

/// The pointers of local `l`, rooted at the local.
pub open spec fn rooted_pointers(l: usize, es: Seq<RegionEntry>) -> Seq<PointerView> {
    es.map_values(|e: RegionEntry| (e.0, (l, e.1), e.2))
}

/// The pointers in the types of the locals `0..n`, local by local.
pub open spec fn local_pointers(decls: Seq<Ty>, n: int) -> Seq<PointerView>
    decreases n,
{
    if n <= 0 {
        Seq::empty()
    } else {
        local_pointers(decls, n - 1) + rooted_pointers((n - 1) as usize, pointers_of(decls, ((n - 1) as usize, Seq::empty())))
    }
}

pub open spec fn pointer_list_views(v: Seq<(usize, Place, Mutability)>) -> Seq<PointerView> {
    v.map_values(|e: (usize, Place, Mutability)| (e.0, e.1@, e.2))
}

/// The pointers in the types of all locals, with their regions.
pub fn region_pointers(decls: &Vec<Ty>) -> (v: Vec<(usize, Place, Mutability)>)
    ensures
        pointer_list_views(v@) == local_pointers(decls@, decls@.len() as int),
{
    let mut v: Vec<(usize, Place, Mutability)> = Vec::new();
    let mut l: usize = 0;
    while l < decls.len()
        invariant
            l <= decls@.len(),
            pointer_list_views(v@) == local_pointers(decls@, l as int),
        decreases decls@.len() - l,
    {
        let place = Place::from_local(l);
        let ptrs = interior_pointers(decls, &place);
        let ghost start = pointer_list_views(v@);
        let mut k: usize = 0;
        while k < ptrs.len()
            invariant
                k <= ptrs@.len(),
                l < decls@.len(),
                place@ == (l, Seq::<ProjElem>::empty()),
                pointer_views(ptrs@) == pointers_of(decls@, place@),
                forall|j: int| 0 <= j < ptrs@.len() ==> (#[trigger] ptrs@[j]).1.local == l,
                pointer_list_views(v@) == start + rooted_pointers(l, pointer_views(ptrs@).take(k as int)),
            decreases ptrs@.len() - k,
        {
            let e = (ptrs[k].0, ptrs[k].1.copy(), ptrs[k].2);
            let ghost before = pointer_list_views(v@);
            v.push(e);
            proof {
                assert(pointer_views(ptrs@)[k as int] == (ptrs@[k as int].0, ptrs@[k as int].1.projection@, ptrs@[k as int].2));
                assert(rooted_pointers(l, pointer_views(ptrs@).take(k + 1)) =~= rooted_pointers(l, pointer_views(ptrs@).take(k as int)).push(
                    (ptrs@[k as int].0, (l, ptrs@[k as int].1.projection@), ptrs@[k as int].2)));
                assert(pointer_list_views(v@) =~= before.push((e.0, e.1@, e.2)));
            }
            k = k + 1;
        }
        proof {
            assert(pointer_views(ptrs@).take(ptrs@.len() as int) =~= pointer_views(ptrs@));
        }
        l = l + 1;
    }
    v
}

/// The borrows `&'region place` of the statements of blocks `0..b`, in order.
pub open spec fn borrows_before(body: Body, b: int) -> Seq<(usize, (usize, Seq<ProjElem>))>
    decreases b,
{
    if b <= 0 {
        Seq::empty()
    } else {
        borrows_before(body, b - 1) + block_borrows(body.basic_blocks@[b - 1].statements@.map_values(|s: crate::body::Statement| s.kind), 0)
    }
}

/// The borrows among the statement kinds `i..`.
pub open spec fn block_borrows(kinds: Seq<StatementKind>, i: int) -> Seq<(usize, (usize, Seq<ProjElem>))>
    decreases kinds.len() - i,
{
    if 0 <= i < kinds.len() {
        let here: Seq<(usize, (usize, Seq<ProjElem>))> = match kinds[i] {
            StatementKind::Assign(_, Rvalue::Ref { region, place, .. }) => seq![(region, place@)],
            _ => Seq::empty(),
        };
        here + block_borrows(kinds, i + 1)
    } else {
        Seq::empty()
    }
}

pub open spec fn borrow_views(v: Seq<(usize, Place)>) -> Seq<(usize, (usize, Seq<ProjElem>))> {
    v.map_values(|e: (usize, Place)| (e.0, e.1@))
}

/// The borrows of the body, with their regions, in order.
pub fn gather_borrows(body: &Body) -> (v: Vec<(usize, Place)>)
    ensures
        borrow_views(v@) == borrows_before(*body, body.basic_blocks@.len() as int),
{
    let mut v: Vec<(usize, Place)> = Vec::new();
    let mut b: usize = 0;
    while b < body.basic_blocks.len()
        invariant
            b <= body.basic_blocks@.len(),
            borrow_views(v@) == borrows_before(*body, b as int),
        decreases body.basic_blocks@.len() - b,
    {
        let stmts = &body.basic_blocks[b].statements;
        let ghost kinds = stmts@.map_values(|s: crate::body::Statement| s.kind);
        let ghost start = borrow_views(v@);
        let mut i: usize = 0;
        while i < stmts.len()
            invariant
                i <= stmts@.len(),
                kinds == stmts@.map_values(|s: crate::body::Statement| s.kind),
                start + block_borrows(kinds, 0) == borrows_before(*body, b + 1),
                b < body.basic_blocks@.len(),
                stmts == &body.basic_blocks@[b as int].statements,
                borrow_views(v@) + block_borrows(kinds, i as int) == start + block_borrows(kinds, 0),
            decreases stmts@.len() - i,
        {
            let ghost before = borrow_views(v@);
            match &stmts[i].kind {
                StatementKind::Assign(_, Rvalue::Ref { region, place, .. }) => {
                    v.push((*region, place.copy()));
                    assert(borrow_views(v@) =~= before.push((*region, place@)));
                    assert(borrow_views(v@) + block_borrows(kinds, i + 1) =~= before + block_borrows(kinds, i as int));
                },
                _ => {
                    assert(borrow_views(v@) + block_borrows(kinds, i + 1) =~= before + block_borrows(kinds, i as int));
                },
            }
            i = i + 1;
        }
        assert(borrow_views(v@) =~= borrows_before(*body, b + 1));
        b = b + 1;
    }
    v
}

/// The loans known before propagation: the dereference of every pointer in
/// the type of a local, then the place of every borrow, each with its region.
pub open spec fn loan_table(ptrs: Seq<PointerView>, borrows: Seq<(usize, (usize, Seq<ProjElem>))>) -> Seq<(usize, (usize, Seq<ProjElem>))> {
    ptrs.map_values(|p: PointerView| (p.0, (p.1.0, p.1.1.push(ProjElem::Deref)))) + borrows
}

/// The region `r` occurs in the constraints.
pub open spec fn in_constraints(cs: Seq<(usize, usize)>, r: int) -> bool {
    exists|k: int| 0 <= k < cs.len() && ((#[trigger] cs[k]).0 == r || cs[k].1 == r)
}

/// One past the largest region of the loans and the constraints (at least 1).
pub open spec fn is_region_bound(table: Seq<(usize, (usize, Seq<ProjElem>))>, cs: Seq<(usize, usize)>, m: int) -> bool {
    &&& m >= 1
    &&& forall|i: int| 0 <= i < table.len() ==> (#[trigger] table[i]).0 < m
    &&& forall|k: int| 0 <= k < cs.len() ==> (#[trigger] cs[k]).0 < m && cs[k].1 < m
    &&& m == 1 || (exists|i: int| 0 <= i < table.len() && (#[trigger] table[i]).0 == m - 1)
        || (exists|k: int| 0 <= k < cs.len() && ((#[trigger] cs[k]).0 == m - 1 || cs[k].1 == m - 1))
}

/// The constraints with the static region (region 0) outliving every other
/// region below `m`.
pub open spec fn with_static(cs: Seq<(usize, usize)>, m: int) -> Seq<(usize, usize)> {
    cs + Seq::new((m - 1) as nat, |i: int| (0usize, (i + 1) as usize))
}

/// Region `r` is the region of an entry of the loan table.
pub open spec fn is_table_region(table: Seq<(usize, (usize, Seq<ProjElem>))>, r: usize) -> bool {
    exists|i: int| 0 <= i < table.len() && (#[trigger] table[i]).0 == r
}

/// Every region of the extra constraints `xs` is the region of an entry of
/// the loan table.
pub open spec fn extra_in_table(table: Seq<(usize, (usize, Seq<ProjElem>))>, xs: Seq<(usize, usize)>) -> bool {
    forall|k: int| 0 <= k < xs.len() ==> is_table_region(table, (#[trigger] xs[k]).0) && is_table_region(table, xs[k].1)
}

/// The regions whose loans flow into region `r`: when `r` occurs in the
/// outlives constraints `cs`, every region of those constraints that reaches
/// it (itself included) along the outlives constraints, the extra
/// constraints `xs` and the static region's; otherwise none.
pub open spec fn alias_regions_of(cs: Seq<(usize, usize)>, xs: Seq<(usize, usize)>, m: int, r: int) -> Set<int> {
    if in_constraints(cs, r) {
        Set::new(|a: int| 0 <= a < m && in_constraints(cs, a) && reaches(with_static(cs + xs, m), a, r))
    } else {
        Set::empty()
    }
}

/// The loans of the table with region `r`, as table indices.
pub open spec fn initial_loans(table: Seq<(usize, (usize, Seq<ProjElem>))>, r: int) -> Set<int> {
    Set::new(|i: int| 0 <= i < table.len() && table[i].0 == r)
}

/// The loans of every region once propagated along the alias regions.
pub open spec fn loans_spec(table: Seq<(usize, (usize, Seq<ProjElem>))>, cs: Seq<(usize, usize)>, xs: Seq<(usize, usize)>, m: int, r: int, i: int) -> bool {
    derived(Seq::new(m as nat, |r2: int| initial_loans(table, r2)), Seq::new(m as nat, |r2: int| alias_regions_of(cs, xs, m, r2)), r, i)
}

/// For a loan table, the outlives constraints `cs` and extra constraints
/// `xs` between regions of the table: the region bound `m` and, for each
/// region below it, the table indices of its loans once every loan of a
/// region has been propagated to the regions it flows into.
pub fn compute_loans(table: &Vec<(usize, Place)>, cs: &Vec<(usize, usize)>, xs: &Vec<(usize, usize)>) -> (r: (usize, Vec<IndexSet>))
    requires
        extra_in_table(borrow_views(table@), xs@),
        table@.len() < usize::MAX,
        forall|i: int| 0 <= i < table@.len() ==> (#[trigger] table@[i]).0 < usize::MAX - 1,
        forall|k: int| 0 <= k < cs@.len() ==> (#[trigger] cs@[k]).0 < usize::MAX - 1 && cs@[k].1 < usize::MAX - 1,
    ensures
        is_region_bound(borrow_views(table@), cs@, r.0 as int),
        r.1@.len() == r.0,
        uniform(r.1@, table@.len() as nat),
        forall|r2: int, i: int| #![trigger r.1@[r2]@.contains(i)] 0 <= r2 < r.0 ==>
            (r.1@[r2]@.contains(i) <==> loans_spec(borrow_views(table@), cs@, xs@, r.0 as int, r2, i)),
{
    let ghost tv = borrow_views(table@);
    // the region bound
    let mut m: usize = 1;
    let mut i: usize = 0;
    while i < table.len()
        invariant
            i <= table@.len(),
            tv == borrow_views(table@),
            forall|i2: int| 0 <= i2 < table@.len() ==> (#[trigger] table@[i2]).0 < usize::MAX - 1,
            1 <= m,
            forall|j: int| 0 <= j < i ==> (#[trigger] tv[j]).0 < m,
            m == 1 || exists|j: int| 0 <= j < i && (#[trigger] tv[j]).0 == m - 1,
            m < usize::MAX,
        decreases table@.len() - i,
    {
        if table[i].0 + 1 > m {
            m = table[i].0 + 1;
        }
        assert(tv[i as int].0 == table@[i as int].0);
        i = i + 1;
    }
    let mut k: usize = 0;
    while k < cs.len()
        invariant
            k <= cs@.len(),
            tv == borrow_views(table@),
            forall|k2: int| 0 <= k2 < cs@.len() ==> (#[trigger] cs@[k2]).0 < usize::MAX - 1 && cs@[k2].1 < usize::MAX - 1,
            1 <= m,
            m < usize::MAX,
            forall|j: int| 0 <= j < tv.len() ==> (#[trigger] tv[j]).0 < m,
            forall|k2: int| 0 <= k2 < k ==> (#[trigger] cs@[k2]).0 < m && cs@[k2].1 < m,
            m == 1 || (exists|j: int| 0 <= j < tv.len() && (#[trigger] tv[j]).0 == m - 1)
                || (exists|k2: int| 0 <= k2 < k && ((#[trigger] cs@[k2]).0 == m - 1 || cs@[k2].1 == m - 1)),
        decreases cs@.len() - k,
    {
        let (a, b) = cs[k];
        if a + 1 > m {
            m = a + 1;
        }
        if b + 1 > m {
            m = b + 1;
        }
        k = k + 1;
    }
    // the constraints, with the static region outliving every region
    let mut edges: Vec<(usize, usize)> = Vec::new();
    let mut k: usize = 0;
    while k < cs.len()
        invariant
            k <= cs@.len(),
            edges@ == cs@.take(k as int),
        decreases cs@.len() - k,
    {
        edges.push(cs[k]);
        assert(edges@ =~= cs@.take(k + 1));
        k = k + 1;
    }
    let mut k: usize = 0;
    while k < xs.len()
        invariant
            k <= xs@.len(),
            edges@ == cs@ + xs@.take(k as int),
        decreases xs@.len() - k,
    {
        edges.push(xs[k]);
        assert(edges@ =~= cs@ + xs@.take(k + 1));
        k = k + 1;
    }
    assert(edges@ =~= with_static(cs@ + xs@, 1));
    let mut j: usize = 1;
    while j < m
        invariant
            1 <= j <= m,
            edges@ == with_static(cs@ + xs@, j as int),
        decreases m - j,
    {
        edges.push((0, j));
        assert(edges@ =~= with_static(cs@ + xs@, j + 1));
        j = j + 1;
    }
    // the extra constraints lie below the bound
    assert forall|k2: int| 0 <= k2 < xs@.len() implies (#[trigger] xs@[k2]).0 < m && xs@[k2].1 < m by {
        assert(is_table_region(tv, xs@[k2].0) && is_table_region(tv, xs@[k2].1));
        let i2 = choose|i2: int| 0 <= i2 < tv.len() && (#[trigger] tv[i2]).0 == xs@[k2].0;
        let j2 = choose|j2: int| 0 <= j2 < tv.len() && (#[trigger] tv[j2]).0 == xs@[k2].1;
    }
    // which regions occur in the constraints
    let mut occurs: Vec<bool> = Vec::new();
    let mut r: usize = 0;
    while r < m
        invariant
            r <= m,
            occurs@.len() == r,
            forall|r2: int| 0 <= r2 < r ==> (#[trigger] occurs@[r2]) == in_constraints(cs@, r2),
        decreases m - r,
    {
        let mut found = false;
        let mut k2: usize = 0;
        while k2 < cs.len()
            invariant
                k2 <= cs@.len(),
                found == exists|k3: int| 0 <= k3 < k2 && ((#[trigger] cs@[k3]).0 == r || cs@[k3].1 == r),
            decreases cs@.len() - k2,
        {
            if cs[k2].0 == r || cs[k2].1 == r {
                found = true;
            }
            k2 = k2 + 1;
        }
        occurs.push(found);
        r = r + 1;
    }
    // the alias regions of every region
    let mut alias_regions: Vec<IndexSet> = Vec::new();
    let mut r: usize = 0;
    while r < m
        invariant
            r <= m,
            edges@ == with_static(cs@ + xs@, m as int),
            forall|k2: int| 0 <= k2 < cs@.len() ==> (#[trigger] cs@[k2]).0 < m && cs@[k2].1 < m,
            forall|k2: int| 0 <= k2 < xs@.len() ==> (#[trigger] xs@[k2]).0 < m && xs@[k2].1 < m,
            occurs@.len() == m,
            forall|r2: int| 0 <= r2 < m ==> (#[trigger] occurs@[r2]) == in_constraints(cs@, r2),
            alias_regions@.len() == r,
            uniform(alias_regions@, m as nat),
            forall|r2: int| 0 <= r2 < r ==> (#[trigger] alias_regions@[r2])@ == alias_regions_of(cs@, xs@, m as int, r2),
        decreases m - r,
    {
        let mut s = IndexSet::new(m);
        if occurs[r] {
            assert forall|k2: int| 0 <= k2 < edges@.len() implies (#[trigger] edges@[k2]).0 < m && edges@[k2].1 < m by {
                if k2 < cs@.len() {
                    assert(edges@[k2] == cs@[k2]);
                } else if k2 < cs@.len() + xs@.len() {
                    assert(edges@[k2] == xs@[k2 - cs@.len()]);
                }
            }
            let reach = reaching(m, &edges, r);
            let mut a: usize = 0;
            while a < m
                invariant
                    a <= m,
                    s.size() == m,
                    occurs@.len() == m,
                    forall|r2: int| 0 <= r2 < m ==> (#[trigger] occurs@[r2]) == in_constraints(cs@, r2),
                    reach.size() == m,
                    forall|x: int| reach@.contains(x) <==> 0 <= x < m && reaches(edges@, x, r as int),
                    forall|x: int| s@.contains(x) <==> 0 <= x < a && in_constraints(cs@, x) && reaches(edges@, x, r as int),
                decreases m - a,
            {
                if occurs[a] && reach.contains(a) {
                    s.insert(a);
                }
                a = a + 1;
            }
        }
        assert(s@ =~= alias_regions_of(cs@, xs@, m as int, r as int));
        alias_regions.push(s);
        r = r + 1;
    }
    // the loans before propagation
    let mut loans: Vec<IndexSet> = Vec::new();
    let mut r: usize = 0;
    while r < m
        invariant
            r <= m,
            tv == borrow_views(table@),
            loans@.len() == r,
            uniform(loans@, table@.len() as nat),
            forall|r2: int| 0 <= r2 < r ==> (#[trigger] loans@[r2])@ == initial_loans(tv, r2),
        decreases m - r,
    {
        let mut s = IndexSet::new(table.len());
        let mut i: usize = 0;
        while i < table.len()
            invariant
                i <= table@.len(),
                tv == borrow_views(table@),
                s.size() == table@.len(),
                forall|x: int| s@.contains(x) <==> 0 <= x < i && tv[x].0 == r,
            decreases table@.len() - i,
        {
            if table[i].0 == r {
                s.insert(i);
            }
            i = i + 1;
        }
        assert(s@ =~= initial_loans(tv, r as int));
        loans.push(s);
        r = r + 1;
    }
    let ghost init = loans@;
    proof {
        assert(set_views(init) =~= Seq::new(m as nat, |r2: int| initial_loans(tv, r2)));
        assert(set_views(alias_regions@) =~= Seq::new(m as nat, |r2: int| alias_regions_of(cs@, xs@, m as int, r2)));
    }
    propagate_loans(&mut loans, &alias_regions, table.len());
    (m, loans)
}

/// The type a pointer points to, if known.
pub open spec fn pointee_ty(decls: Seq<Ty>, p: PointerView) -> Option<Ty> {
    place_ty_spec(decls, (p.1.0, p.1.1.push(ProjElem::Deref)))
}

/// Pointers `i` and `j` have different regions and point to values of the same type.
pub open spec fn conservative_pair(decls: Seq<Ty>, ptrs: Seq<PointerView>, i: int, j: int) -> bool {
    &&& ptrs[i].0 != ptrs[j].0
    &&& pointee_ty(decls, ptrs[i]) matches Some(a)
    &&& pointee_ty(decls, ptrs[j]) matches Some(b)
    &&& same_ty(a, b)
}

/// The constraints between pointer `i` and the pointers `0..n`.
pub open spec fn conservative_row(decls: Seq<Ty>, ptrs: Seq<PointerView>, i: int, n: int) -> Seq<(usize, usize)>
    decreases n,
{
    if n <= 0 {
        Seq::empty()
    } else {
        conservative_row(decls, ptrs, i, n - 1) + if conservative_pair(decls, ptrs, i, n - 1) {
            seq![(ptrs[i].0, ptrs[n - 1].0)]
        } else {
            Seq::empty()
        }
    }
}

/// The constraints that the conservative pointer mode adds for the
/// pointers `0..n`: every two regions of pointers to values of the same
/// type outlive each other, so that their loans are shared.
pub open spec fn conservative_constraints(decls: Seq<Ty>, ptrs: Seq<PointerView>, n: int) -> Seq<(usize, usize)>
    decreases n,
{
    if n <= 0 {
        Seq::empty()
    } else {
        conservative_constraints(decls, ptrs, n - 1) + conservative_row(decls, ptrs, n - 1, ptrs.len() as int)
    }
}

/// The constraints that the conservative pointer mode adds to a body with
/// locals of types `decls` (see `conservative_constraints`).
pub open spec fn body_conservative_constraints(decls: Seq<Ty>) -> Seq<(usize, usize)> {
    let ptrs = local_pointers(decls, decls.len() as int);
    conservative_constraints(decls, ptrs, ptrs.len() as int)
}

/// The regions of the added constraints are regions of pointers.
pub proof fn lemma_conservative_regions(decls: Seq<Ty>, ptrs: Seq<PointerView>, n: int)
    requires
        n <= ptrs.len(),
    ensures
        forall|k: int| 0 <= k < conservative_constraints(decls, ptrs, n).len() ==> {
            let c = #[trigger] conservative_constraints(decls, ptrs, n)[k];
            (exists|i: int| 0 <= i < ptrs.len() && ptrs[i].0 == c.0) && (exists|j: int| 0 <= j < ptrs.len() && ptrs[j].0 == c.1)
        },
    decreases n,
{
    if n > 0 {
        lemma_conservative_regions(decls, ptrs, n - 1);
        lemma_conservative_row_regions(decls, ptrs, n - 1, ptrs.len() as int);
        let prev = conservative_constraints(decls, ptrs, n - 1);
        let row = conservative_row(decls, ptrs, n - 1, ptrs.len() as int);
        assert forall|k: int| 0 <= k < conservative_constraints(decls, ptrs, n).len() implies {
            let c = #[trigger] conservative_constraints(decls, ptrs, n)[k];
            (exists|i: int| 0 <= i < ptrs.len() && ptrs[i].0 == c.0) && (exists|j: int| 0 <= j < ptrs.len() && ptrs[j].0 == c.1)
        } by {
            if k < prev.len() {
                assert(conservative_constraints(decls, ptrs, n)[k] == prev[k]);
            } else {
                assert(conservative_constraints(decls, ptrs, n)[k] == row[k - prev.len()]);
            }
        }
    }
}

proof fn lemma_conservative_row_regions(decls: Seq<Ty>, ptrs: Seq<PointerView>, i: int, n: int)
    requires
        0 <= i < ptrs.len(),
        n <= ptrs.len(),
    ensures
        forall|k: int| 0 <= k < conservative_row(decls, ptrs, i, n).len() ==> {
            let c = #[trigger] conservative_row(decls, ptrs, i, n)[k];
            c.0 == ptrs[i].0 && (exists|j: int| 0 <= j < ptrs.len() && ptrs[j].0 == c.1)
        },
    decreases n,
{
    if n > 0 {
        lemma_conservative_row_regions(decls, ptrs, i, n - 1);
        let prev = conservative_row(decls, ptrs, i, n - 1);
        assert forall|k: int| 0 <= k < conservative_row(decls, ptrs, i, n).len() implies {
            let c = #[trigger] conservative_row(decls, ptrs, i, n)[k];
            c.0 == ptrs[i].0 && (exists|j: int| 0 <= j < ptrs.len() && ptrs[j].0 == c.1)
        } by {
            if k < prev.len() {
                assert(conservative_row(decls, ptrs, i, n)[k] == prev[k]);
            } else {
                assert(conservative_row(decls, ptrs, i, n)[k] == (ptrs[i].0, ptrs[n - 1].0));
            }
        }
    }
}

/// The constraints that the conservative pointer mode adds (see
/// `body_conservative_constraints`).
pub fn conservative_constraints_of(decls: &Vec<Ty>) -> (v: Vec<(usize, usize)>)
    ensures
        v@ == body_conservative_constraints(decls@),
{
    let ptrs = region_pointers(decls);
    let ghost pv = pointer_list_views(ptrs@);
    let n = ptrs.len();
    let mut v: Vec<(usize, usize)> = Vec::new();
    let mut i: usize = 0;
    while i < n
        invariant
            n == ptrs@.len(),
            pv == pointer_list_views(ptrs@),
            pv == local_pointers(decls@, decls@.len() as int),
            i <= n,
            v@ == conservative_constraints(decls@, pv, i as int),
        decreases n - i,
    {
        let ghost base = v@;
        let di = ptrs[i].1.deref();
        let ti = place_ty(decls, &di);
        let mut j: usize = 0;
        while j < n
            invariant
                n == ptrs@.len(),
                pv == pointer_list_views(ptrs@),
                i < n,
                j <= n,
                di@ == (pv[i as int].1.0, pv[i as int].1.1.push(ProjElem::Deref)),
                match ti {
                    Some(t) => pointee_ty(decls@, pv[i as int]) == Some(*t),
                    None => pointee_ty(decls@, pv[i as int]) is None,
                },
                v@ == base + conservative_row(decls@, pv, i as int, j as int),
            decreases n - j,
        {
            let dj = ptrs[j].1.deref();
            assert(pv[j as int] == (ptrs@[j as int].0, ptrs@[j as int].1@, ptrs@[j as int].2));
            assert(dj@ == (pv[j as int].1.0, pv[j as int].1.1.push(ProjElem::Deref)));
            let ghost prev = v@;
            if ptrs[i].0 != ptrs[j].0 {
                match (ti, place_ty(decls, &dj)) {
                    (Some(a), Some(b)) => {
                        if same_type(a, b) {
                            v.push((ptrs[i].0, ptrs[j].0));
                        }
                    },
                    _ => {},
                }
            }
            assert(v@ =~= base + conservative_row(decls@, pv, i as int, j + 1));
            j = j + 1;
        }
        assert(v@ =~= conservative_constraints(decls@, pv, i + 1));
        i = i + 1;
    }
    v
}

} // verus!
