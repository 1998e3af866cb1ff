use vstd::prelude::*;
use crate::body::{BasicBlockData, Body, Rvalue, Statement, StatementKind, TerminatorKind, collect_rvalue_places, lemma_place_views_push, operands_places, place_views, rvalue_places};
use crate::aliases::{conflicts_of, related_to_some, set_views, uniform};
use crate::flow::{Aliases, domain_index, index_of, normal};
use crate::indexed::{IndexMatrix, IndexSet};
use crate::loans::{PointerView, extra_in_table, borrow_views, borrows_before, compute_loans, gather_borrows, is_region_bound, loan_table, loans_spec, local_pointers, pointer_list_views, region_pointers};
use crate::mir::{Operand, Place, PlaceRelation, ProjElem, has_deref, is_deref, is_last_deref, operand_place, operand_to_place, relation_of, split_deref};
use crate::transfer::{call_mut_places, call_places};
use crate::ty::{Ty, place_ty, place_ty_spec, same_ty, same_type};

verus! {

/// A place as seen by the specifications: its local and its projection.
pub type PlaceView = (usize, Seq<ProjElem>);

/// A last dereference is unique.
pub proof fn lemma_last_deref_unique(p: Seq<ProjElem>, d1: int, d2: int)
    requires
        is_last_deref(p, d1),
        is_last_deref(p, d2),
    ensures
        d1 == d2,
{
    if d1 < d2 {
        assert(!is_deref(p[d2]));
    } else if d2 < d1 {
        assert(!is_deref(p[d1]));
    }
}

/// What a loan stands for behind a dereference whose pointee has type
/// `inner`, followed by `rest`: when the loan has that very type, the loan
/// extended by `rest`; otherwise the loan itself.
pub open spec fn loan_alias(decls: Seq<Ty>, loan: PlaceView, inner: Ty, rest: Seq<ProjElem>) -> PlaceView {
    match place_ty_spec(decls, loan) {
        Some(t) => if same_ty(inner, t) { (loan.0, loan.1 + rest) } else { loan },
        None => loan,
    }
}

/// The places a place may denote: itself and, when it goes through a
/// dereference of a reference with region `r`, what each loan of `r` stands
/// for behind that dereference.
pub open spec fn alias_set(decls: Seq<Ty>, table: Seq<(usize, PlaceView)>, loans: Seq<Set<int>>, place: PlaceView) -> Set<PlaceView> {
    let base = set![place];
    if has_deref(place.1) {
        let d = choose|d: int| is_last_deref(place.1, d);
        let ptr = (place.0, place.1.take(d));
        let rest = place.1.skip(d + 1);
        match place_ty_spec(decls, ptr) {
            Some(Ty::Ref { region: Some(r), inner, .. }) => if r < loans.len() {
                base.union(Set::new(|a: PlaceView| exists|i: int| 0 <= i < table.len() && #[trigger] loans[r as int].contains(i)
                    && a == loan_alias(decls, table[i].1, *inner, rest)))
            } else {
                base
            },
            _ => base,
        }
    } else {
        base
    }
}

pub open spec fn view_set(v: Seq<Place>) -> Set<PlaceView> {
    Set::new(|p: PlaceView| exists|k: int| 0 <= k < v.len() && (#[trigger] v[k])@ == p)
}

pub proof fn lemma_view_set_push(s: Seq<Place>, x: Place)
    ensures
        view_set(s.push(x)) == view_set(s).insert(x@),
{
    let t = s.push(x);
    assert forall|p: PlaceView| #[trigger] view_set(t).contains(p) <==> view_set(s).contains(p) || p == x@ by {
        if view_set(t).contains(p) {
            let k = choose|k: int| 0 <= k < t.len() && (#[trigger] t[k])@ == p;
            if k < s.len() {
                assert(s[k]@ == p);
            }
        }
        if view_set(s).contains(p) {
            let k = choose|k: int| 0 <= k < s.len() && (#[trigger] s[k])@ == p;
            assert(t[k]@ == p);
        }
        if p == x@ {
            assert(t[s.len() as int]@ == p);
        }
    }
    assert(view_set(t) =~= view_set(s).insert(x@));
}

pub proof fn lemma_view_set_empty()
    ensures
        view_set(Seq::<Place>::empty()) == Set::<PlaceView>::empty(),
{
    assert(view_set(Seq::<Place>::empty()) =~= Set::<PlaceView>::empty());
}

/// The places `place` may denote, given the loan table and the loans of
/// every region (as table indices).
pub fn compute_aliases(decls: &Vec<Ty>, table: &Vec<(usize, Place)>, loans: &Vec<IndexSet>, place: &Place) -> (v: Vec<Place>)
    requires
        forall|r: int| 0 <= r < loans@.len() ==> (#[trigger] loans@[r]).size() == table@.len(),
    ensures
        view_set(v@) == alias_set(decls@, crate::loans::borrow_views(table@), crate::aliases::set_views(loans@), place@),
{
    let ghost tv = crate::loans::borrow_views(table@);
    let ghost lv = crate::aliases::set_views(loans@);
    let mut v: Vec<Place> = Vec::new();
    let first = place.copy();
    proof {
        lemma_view_set_empty();
        lemma_view_set_push(v@, first);
    }
    v.push(first);
    assert(view_set(v@) =~= set![place@]);
    let ghost target = alias_set(decls@, tv, lv, place@);
    match split_deref(place) {
        None => {
            assert(view_set(v@) =~= target);
            v
        },
        Some((ptr, rest)) => {
            let ghost d = choose|d: int| #[trigger] is_last_deref(place.projection@, d)
                && ptr@ == (place.local, place.projection@.take(d))
                && rest@ == place.projection@.skip(d + 1);
            proof {
                let d2 = choose|d2: int| is_last_deref(place@.1, d2);
                lemma_last_deref_unique(place@.1, d, d2);
            }
            match place_ty(decls, &ptr) {
                Some(Ty::Ref { region: Some(r), inner, .. }) => {
                    if *r < loans.len() {
                        let idx = loans[*r].indices();
                        proof { loans@[*r as int].lemma_bounded(); }
                        let mut k: usize = 0;
                        while k < idx.len()
                            invariant
                                k <= idx@.len(),
                                tv == crate::loans::borrow_views(table@),
                                *r < loans@.len(),
                                loans@[*r as int].size() == table@.len(),
                                forall|j: int| 0 <= j < idx@.len() ==> loans@[*r as int]@.contains(#[trigger] idx@[j] as int),
                                forall|c: int| loans@[*r as int]@.contains(c) ==> exists|j: int| 0 <= j < idx@.len() && idx@[j] == c,
                                forall|c: int| #[trigger] loans@[*r as int]@.contains(c) ==> 0 <= c < table@.len(),
                                forall|p: PlaceView| #[trigger] view_set(v@).contains(p) <==> p == place@
                                    || exists|j: int| 0 <= j < k && p == loan_alias(decls@, tv[idx@[j] as int].1, **inner, rest@),
                            decreases idx@.len() - k,
                        {
                            let i = idx[k];
                            let loan = &table[i].1;
                            let ghost before = view_set(v@);
                            let same = match place_ty(decls, loan) {
                                Some(t) => same_type(inner, t),
                                None => false,
                            };
                            let x = if same { loan.project(&rest) } else { loan.copy() };
                            proof {
                                lemma_view_set_push(v@, x);
                                let a = loan_alias(decls@, tv[i as int].1, **inner, rest@);
                                assert(tv[i as int].1 == loan@);
                                assert(x@ == a);
                            }
                            v.push(x);
                            proof {
                                let a = loan_alias(decls@, tv[i as int].1, **inner, rest@);
                                assert forall|p: PlaceView| #[trigger] view_set(v@).contains(p) <==> p == place@
                                    || exists|j: int| 0 <= j < k + 1 && p == loan_alias(decls@, tv[idx@[j] as int].1, **inner, rest@) by {
                                    assert(view_set(v@).contains(p) == (before.contains(p) || p == a));
                                    if p == a {
                                        assert(0 <= k < k + 1);
                                    }
                                    if exists|j: int| 0 <= j < k + 1 && p == loan_alias(decls@, tv[idx@[j] as int].1, **inner, rest@) {
                                        let j = choose|j: int| 0 <= j < k + 1 && p == loan_alias(decls@, tv[idx@[j] as int].1, **inner, rest@);
                                        if j < k {
                                            assert(before.contains(p));
                                        }
                                    }
                                }
                            }
                            k = k + 1;
                        }
                        proof {
                            assert forall|p: PlaceView| #[trigger] view_set(v@).contains(p) <==> target.contains(p) by {
                                if target.contains(p) && p != place@ {
                                    let i = choose|i: int| 0 <= i < tv.len() && #[trigger] lv[*r as int].contains(i)
                                        && p == loan_alias(decls@, tv[i].1, **inner, rest@);
                                    assert(loans@[*r as int]@.contains(i));
                                    let j = choose|j: int| 0 <= j < idx@.len() && idx@[j] == i;
                                }
                                if view_set(v@).contains(p) && p != place@ {
                                    let j = choose|j: int| 0 <= j < k && p == loan_alias(decls@, tv[idx@[j] as int].1, **inner, rest@);
                                    assert(lv[*r as int].contains(idx@[j] as int));
                                }
                            }
                            assert(view_set(v@) =~= target);
                        }
                        v
                    } else {
                        assert(view_set(v@) =~= target);
                        v
                    }
                },
                _ => {
                    assert(view_set(v@) =~= target);
                    v
                },
            }
        },
    }
}

/// The place of an operand, as a list of at most one place.
pub open spec fn opt_place(p: Option<PlaceView>) -> Seq<PlaceView> {
    match p {
        Some(q) => seq![q],
        None => Seq::empty(),
    }
}

/// The places a statement mentions: the assigned place, the places the
/// rvalue reads and, for a borrow, the dereference of the assigned place.
pub open spec fn statement_places(kind: StatementKind) -> Seq<PlaceView> {
    match kind {
        StatementKind::Assign(p, rv) => seq![p@] + rvalue_places(rv) + match rv {
            Rvalue::Ref { .. } => seq![(p.local, p.projection@.push(ProjElem::Deref))],
            _ => Seq::<PlaceView>::empty(),
        },
        StatementKind::FakeRead(p) => seq![p@],
        StatementKind::Nop | StatementKind::StorageLive(_) | StatementKind::StorageDead(_) => Seq::empty(),
    }
}

/// The places a terminator mentions: a switched-on place; the arguments,
/// destination and mutable pointers of a call; the replaced and replacing
/// places of a drop-and-replace.
pub open spec fn terminator_places(decls: Seq<Ty>, kind: TerminatorKind) -> Seq<PlaceView> {
    match kind {
        TerminatorKind::SwitchInt { discr, .. } => opt_place(operand_place(discr)),
        TerminatorKind::Call { args, destination, .. } => operands_places(args@, 0) + match destination {
            Some((d, _)) => seq![d@],
            None => Seq::<PlaceView>::empty(),
        } + call_mut_places(decls, args@),
        TerminatorKind::Assert { cond, .. } => opt_place(operand_place(cond)),
        TerminatorKind::DropAndReplace { place, value, .. } => seq![place@] + opt_place(operand_place(value)),
        _ => Seq::empty(),
    }
}

/// The places the statements `i..` mention, in order.
pub open spec fn statements_places(stmts: Seq<Statement>, i: int) -> Seq<PlaceView>
    decreases stmts.len() - i,
{
    if 0 <= i < stmts.len() {
        statement_places(stmts[i].kind) + statements_places(stmts, i + 1)
    } else {
        Seq::empty()
    }
}

/// The places the blocks `0..b` mention, in order.
pub open spec fn blocks_places(decls: Seq<Ty>, blocks: Seq<BasicBlockData>, b: int) -> Seq<PlaceView>
    decreases b,
{
    if b <= 0 {
        Seq::empty()
    } else {
        blocks_places(decls, blocks, b - 1) + statements_places(blocks[b - 1].statements@, 0)
            + terminator_places(decls, blocks[b - 1].terminator.kind)
    }
}

/// The places of a body: every local, then the places each block mentions.
pub open spec fn found_places(body: Body) -> Seq<PlaceView> {
    Seq::new(body.local_tys@.len(), |l: int| (l as usize, Seq::<ProjElem>::empty()))
        + blocks_places(body.local_tys@, body.basic_blocks@, body.basic_blocks@.len() as int)
}

fn push_all(out: &mut Vec<Place>, more: &Vec<Place>)
    ensures
        place_views(final(out)@) == place_views(old(out)@) + place_views(more@),
{
    let mut k: usize = 0;
    while k < more.len()
        invariant
            k <= more@.len(),
            place_views(out@) == place_views(old(out)@) + place_views(more@.take(k as int)),
        decreases more@.len() - k,
    {
        let x = more[k].copy();
        proof {
            lemma_place_views_push(out@, x);
            assert(more@.take(k + 1) =~= more@.take(k as int).push(more@[k as int]));
            lemma_place_views_push(more@.take(k as int), more@[k as int]);
        }
        out.push(x);
        assert(place_views(out@) =~= place_views(old(out)@) + place_views(more@.take(k + 1)));
        k = k + 1;
    }
    assert(more@.take(more@.len() as int) =~= more@);
}

fn push_operand(out: &mut Vec<Place>, op: &Operand)
    ensures
        place_views(final(out)@) == place_views(old(out)@) + opt_place(operand_place(*op)),
{
    match operand_to_place(op) {
        Some(p) => {
            proof { lemma_place_views_push(out@, p); }
            out.push(p);
            assert(place_views(out@) =~= place_views(old(out)@) + opt_place(operand_place(*op)));
        },
        None => {
            assert(place_views(out@) =~= place_views(old(out)@) + opt_place(operand_place(*op)));
        },
    }
}

fn push_operands(out: &mut Vec<Place>, ops: &Vec<Operand>)
    ensures
        place_views(final(out)@) == place_views(old(out)@) + operands_places(ops@, 0),
{
    let mut i: usize = 0;
    while i < ops.len()
        invariant
            i <= ops@.len(),
            place_views(out@) + operands_places(ops@, i as int) == place_views(old(out)@) + operands_places(ops@, 0),
        decreases ops@.len() - i,
    {
        let ghost before = place_views(out@);
        push_operand(out, &ops[i]);
        proof {
            match operand_place(ops@[i as int]) {
                Some(q) => {
                    assert(operands_places(ops@, i as int) == seq![q] + operands_places(ops@, i + 1));
                },
                None => {},
            }
            assert(place_views(out@) + operands_places(ops@, i + 1) =~= before + operands_places(ops@, i as int));
        }
        i = i + 1;
    }
    assert(place_views(out@) =~= place_views(old(out)@) + operands_places(ops@, 0));
}

/// The places of a body: every local, then the places each block mentions.
pub fn find_places(body: &Body) -> (v: Vec<Place>)
    ensures
        place_views(v@) == found_places(*body),
{
    let decls = &body.local_tys;
    let mut v: Vec<Place> = Vec::new();
    let mut l: usize = 0;
    while l < decls.len()
        invariant
            l <= decls@.len(),
            place_views(v@) == Seq::new(l as nat, |l2: int| (l2 as usize, Seq::<ProjElem>::empty())),
        decreases decls@.len() - l,
    {
        let x = Place::from_local(l);
        proof { lemma_place_views_push(v@, x); }
        v.push(x);
        assert(place_views(v@) =~= Seq::new((l + 1) as nat, |l2: int| (l2 as usize, Seq::<ProjElem>::empty())));
        l = l + 1;
    }
    let ghost locals = place_views(v@);
    let mut b: usize = 0;
    while b < body.basic_blocks.len()
        invariant
            b <= body.basic_blocks@.len(),
            decls == &body.local_tys,
            locals == Seq::new(decls@.len(), |l2: int| (l2 as usize, Seq::<ProjElem>::empty())),
            place_views(v@) == locals + blocks_places(decls@, body.basic_blocks@, b as int),
        decreases body.basic_blocks@.len() - b,
    {
        let stmts = &body.basic_blocks[b].statements;
        let ghost start = place_views(v@);
        let mut i: usize = 0;
        while i < stmts.len()
            invariant
                i <= stmts@.len(),
                b < body.basic_blocks@.len(),
                stmts == &body.basic_blocks@[b as int].statements,
                place_views(v@) + statements_places(stmts@, i as int) == start + statements_places(stmts@, 0),
            decreases stmts@.len() - i,
        {
            let ghost before = place_views(v@);
            match &stmts[i].kind {
                StatementKind::Assign(p, rv) => {
                    let x = p.copy();
                    proof { lemma_place_views_push(v@, x); }
                    v.push(x);
                    let read = collect_rvalue_places(rv);
                    push_all(&mut v, &read);
                    let ghost mid2 = place_views(v@);
                    match rv {
                        Rvalue::Ref { .. } => {
                            let y = p.deref();
                            proof { lemma_place_views_push(v@, y); }
                            v.push(y);
                            assert(place_views(v@) =~= mid2 + seq![(p.local, p.projection@.push(ProjElem::Deref))]);
                        },
                        _ => {
                            assert(place_views(v@) =~= mid2 + Seq::<PlaceView>::empty());
                        },
                    }
                    assert(place_views(v@) =~= before + statement_places(stmts@[i as int].kind));
                },
                StatementKind::FakeRead(p) => {
                    let x = p.copy();
                    proof { lemma_place_views_push(v@, x); }
                    v.push(x);
                    assert(place_views(v@) =~= before + statement_places(stmts@[i as int].kind));
                },
                StatementKind::Nop | StatementKind::StorageLive(_) | StatementKind::StorageDead(_) => {
                    assert(place_views(v@) =~= before + statement_places(stmts@[i as int].kind));
                },
            }
            assert(place_views(v@) + statements_places(stmts@, i + 1) =~= before + statements_places(stmts@, i as int));
            i = i + 1;
        }
        let ghost mid = place_views(v@);
        match &body.basic_blocks[b].terminator.kind {
            TerminatorKind::SwitchInt { discr, .. } => {
                push_operand(&mut v, discr);
            },
            TerminatorKind::Assert { cond, .. } => {
                push_operand(&mut v, cond);
            },
            TerminatorKind::Call { args, destination, .. } => {
                push_operands(&mut v, args);
                let ghost m1 = place_views(v@);
                match destination {
                    Some((d, _)) => {
                        let x = d.copy();
                        proof { lemma_place_views_push(v@, x); }
                        v.push(x);
                    },
                    None => {},
                }
                let ghost m2 = place_views(v@);
                let (_, muts) = call_places(decls, args);
                push_all(&mut v, &muts);
                assert(place_views(v@) =~= mid + operands_places(args@, 0) + (m2.skip(m1.len() as int)) + call_mut_places(decls@, args@));
            },
            TerminatorKind::DropAndReplace { place, value, .. } => {
                let x = place.copy();
                proof { lemma_place_views_push(v@, x); }
                v.push(x);
                push_operand(&mut v, value);
            },
            _ => {},
        }
        assert(place_views(v@) =~= mid + terminator_places(decls@, body.basic_blocks@[b as int].terminator.kind));
        assert(place_views(v@) =~= locals + blocks_places(decls@, body.basic_blocks@, b + 1));
        b = b + 1;
    }
    v
}

/// `q` is the pointer dereferenced at some position of `p`'s projection.
pub open spec fn is_pointer_prefix(q: PlaceView, p: PlaceView) -> bool {
    exists|d: int| 0 <= d < p.1.len() && is_deref(#[trigger] p.1[d]) && q == (p.0, p.1.take(d))
}

/// The places of the body together with their aliases.
pub open spec fn base_places(decls: Seq<Ty>, found: Seq<PlaceView>, table: Seq<(usize, PlaceView)>, loans: Seq<Set<int>>) -> Set<PlaceView> {
    Set::new(|p: PlaceView|
        (exists|i: int| 0 <= i < found.len() && found[i] == p)
        || (exists|i: int| 0 <= i < found.len() && #[trigger] alias_set(decls, table, loans, found[i]).contains(p)))
}

/// The places tracked by the analysis: the base places and every pointer
/// they dereference.
pub open spec fn tracked_places(base: Set<PlaceView>) -> Set<PlaceView> {
    base.union(Set::new(|q: PlaceView| exists|p: PlaceView| base.contains(p) && #[trigger] is_pointer_prefix(q, p)))
}

/// The normal forms of a set of places.
pub open spec fn normal_forms(s: Set<PlaceView>) -> Set<PlaceView> {
    Set::new(|q: PlaceView| exists|p: PlaceView| s.contains(p) && q == #[trigger] crate::flow::normal(p))
}

/// No place occurs twice.
pub open spec fn no_duplicates(v: Seq<Place>) -> bool {
    forall|i: int, j: int| 0 <= i < j < v.len() ==> (#[trigger] v[i])@ != (#[trigger] v[j])@
}

fn push_pointer_prefixes(out: &mut Vec<Place>, p: &Place)
    ensures
        view_set(final(out)@) == view_set(old(out)@).union(Set::new(|q: PlaceView| is_pointer_prefix(q, p@))),
{
    let mut d: usize = 0;
    while d < p.projection.len()
        invariant
            d <= p.projection@.len(),
            view_set(out@) == view_set(old(out)@).union(Set::new(|q: PlaceView|
                exists|d2: int| 0 <= d2 < d && is_deref(#[trigger] p.projection@[d2]) && q == (p.local, p.projection@.take(d2)))),
        decreases p.projection@.len() - d,
    {
        let ghost before = view_set(out@);
        if let ProjElem::Deref = p.projection[d] {
            let x = p.prefix(d);
            proof { lemma_view_set_push(out@, x); }
            out.push(x);
        }
        proof {
            assert forall|q: PlaceView| #[trigger] view_set(out@).contains(q) <==> view_set(old(out)@).contains(q) || exists|d2: int|
                0 <= d2 < d + 1 && is_deref(#[trigger] p.projection@[d2]) && q == (p.local, p.projection@.take(d2)) by {
                if exists|d2: int| 0 <= d2 < d + 1 && is_deref(#[trigger] p.projection@[d2]) && q == (p.local, p.projection@.take(d2)) {
                    let d2 = choose|d2: int| 0 <= d2 < d + 1 && is_deref(#[trigger] p.projection@[d2]) && q == (p.local, p.projection@.take(d2));
                    if d2 < d {
                        assert(before.contains(q));
                    }
                }
                if before.contains(q) && !view_set(old(out)@).contains(q) {
                    let d2 = choose|d2: int| 0 <= d2 < d && is_deref(#[trigger] p.projection@[d2]) && q == (p.local, p.projection@.take(d2));
                    assert(0 <= d2 < d + 1);
                }
            }
            assert(view_set(out@) =~= view_set(old(out)@).union(Set::new(|q: PlaceView|
                exists|d2: int| 0 <= d2 < d + 1 && is_deref(#[trigger] p.projection@[d2]) && q == (p.local, p.projection@.take(d2)))));
        }
        d = d + 1;
    }
    assert forall|q: PlaceView| #![trigger is_pointer_prefix(q, p@)] is_pointer_prefix(q, p@) <==>
        exists|d2: int| 0 <= d2 < d && is_deref(#[trigger] p.projection@[d2]) && q == (p.local, p.projection@.take(d2)) by {
        if is_pointer_prefix(q, p@) {
            let d2 = choose|d2: int| 0 <= d2 < p@.1.len() && is_deref(#[trigger] p@.1[d2]) && q == (p@.0, p@.1.take(d2));
            assert(is_deref(p.projection@[d2]));
        }
        if exists|d2: int| 0 <= d2 < d && is_deref(#[trigger] p.projection@[d2]) && q == (p.local, p.projection@.take(d2)) {
            let d2 = choose|d2: int| 0 <= d2 < d && is_deref(#[trigger] p.projection@[d2]) && q == (p.local, p.projection@.take(d2));
            assert(is_deref(p@.1[d2]));
        }
    }
    assert(Set::new(|q: PlaceView| exists|d2: int| 0 <= d2 < d && is_deref(#[trigger] p.projection@[d2]) && q == (p.local, p.projection@.take(d2)))
        =~= Set::new(|q: PlaceView| is_pointer_prefix(q, p@)));
}

fn push_places(out: &mut Vec<Place>, more: &Vec<Place>)
    ensures
        view_set(final(out)@) == view_set(old(out)@).union(view_set(more@)),
{
    let mut k: usize = 0;
    while k < more.len()
        invariant
            k <= more@.len(),
            view_set(out@) == view_set(old(out)@).union(view_set(more@.take(k as int))),
        decreases more@.len() - k,
    {
        let x = more[k].copy();
        proof {
            lemma_view_set_push(out@, x);
            assert(more@.take(k + 1) =~= more@.take(k as int).push(more@[k as int]));
            lemma_view_set_push(more@.take(k as int), more@[k as int]);
        }
        out.push(x);
        assert(view_set(out@) =~= view_set(old(out)@).union(view_set(more@.take(k + 1))));
        k = k + 1;
    }
    assert(more@.take(more@.len() as int) =~= more@);
}

/// The normal forms of the given places, each once, in order of first occurrence.
pub fn normalized_domain(all: &Vec<Place>) -> (d: Vec<Place>)
    ensures
        view_set(d@) == normal_forms(view_set(all@)),
        no_duplicates(d@),
{
    let mut d: Vec<Place> = Vec::new();
    proof { lemma_view_set_empty(); }
    let mut k: usize = 0;
    while k < all.len()
        invariant
            k <= all@.len(),
            view_set(d@) == normal_forms(view_set(all@.take(k as int))),
            no_duplicates(d@),
        decreases all@.len() - k,
    {
        let n = crate::mir::normalize(&all[k]);
        let ghost before = d@;
        proof {
            assert(all@.take(k + 1) =~= all@.take(k as int).push(all@[k as int]));
            lemma_view_set_push(all@.take(k as int), all@[k as int]);
        }
        match crate::flow::place_index(&d, &n) {
            Some(i) => {
                proof {
                    assert(d@[i as int]@ == n@);
                    assert(view_set(d@).contains(n@));
                    assert(view_set(d@) =~= view_set(before).insert(n@));
                }
            },
            None => {
                proof {
                    lemma_view_set_push(d@, n);
                    assert forall|i: int| 0 <= i < d@.len() implies d@[i]@ != n@ by {
                        crate::flow::lemma_lookup_none(d@, n@, i);
                    }
                }
                d.push(n);
            },
        }
        proof {
            assert(view_set(d@) == view_set(before).insert(n@));
            assert(n@ == crate::flow::normal(all@[k as int]@));
            assert forall|q: PlaceView| #[trigger] view_set(d@).contains(q) <==> normal_forms(view_set(all@.take(k + 1))).contains(q) by {
                if normal_forms(view_set(all@.take(k + 1))).contains(q) {
                    let p = choose|p: PlaceView| view_set(all@.take(k + 1)).contains(p) && q == #[trigger] crate::flow::normal(p);
                    if p != all@[k as int]@ {
                        assert(view_set(all@.take(k as int)).contains(p));
                        assert(normal_forms(view_set(all@.take(k as int))).contains(q));
                    } else {
                        assert(q == n@);
                    }
                }
                if view_set(d@).contains(q) {
                    if q == n@ {
                        assert(view_set(all@.take(k + 1)).contains(all@[k as int]@));
                    } else {
                        assert(view_set(before).contains(q));
                        let p = choose|p: PlaceView| view_set(all@.take(k as int)).contains(p) && q == #[trigger] crate::flow::normal(p);
                        assert(view_set(all@.take(k + 1)).contains(p));
                    }
                }
            }
            assert(view_set(d@) =~= normal_forms(view_set(all@.take(k + 1))));
        }
        k = k + 1;
    }
    assert(all@.take(all@.len() as int) =~= all@);
    d
}

/// The index of the last place of `found[..n]` whose normal form is `q`.
pub open spec fn last_found(found: Seq<PlaceView>, q: PlaceView, n: int) -> Option<int>
    decreases n,
{
    if n <= 0 {
        None
    } else if normal(found[n - 1]) == q {
        Some(n - 1)
    } else {
        last_found(found, q, n - 1)
    }
}

/// The region bound of a loan table and constraints: one past the largest
/// region (it is unique, see `lemma_region_bound_unique`).
pub open spec fn region_bound(table: Seq<(usize, PlaceView)>, cs: Seq<(usize, usize)>) -> int {
    choose|m: int| is_region_bound(table, cs, m)
}

pub proof fn lemma_region_bound_unique(table: Seq<(usize, PlaceView)>, cs: Seq<(usize, usize)>, m1: int, m2: int)
    requires
        is_region_bound(table, cs, m1),
        is_region_bound(table, cs, m2),
    ensures
        m1 == m2,
{
    if m1 < m2 {
        if exists|i: int| 0 <= i < table.len() && (#[trigger] table[i]).0 == m2 - 1 {
            let i = choose|i: int| 0 <= i < table.len() && (#[trigger] table[i]).0 == m2 - 1;
            assert(table[i].0 < m1);
        } else {
            let k = choose|k: int| 0 <= k < cs.len() && ((#[trigger] cs[k]).0 == m2 - 1 || cs[k].1 == m2 - 1);
            assert(cs[k].0 < m1 && cs[k].1 < m1);
        }
    } else if m2 < m1 {
        if exists|i: int| 0 <= i < table.len() && (#[trigger] table[i]).0 == m1 - 1 {
            let i = choose|i: int| 0 <= i < table.len() && (#[trigger] table[i]).0 == m1 - 1;
            assert(table[i].0 < m2);
        } else {
            let k = choose|k: int| 0 <= k < cs.len() && ((#[trigger] cs[k]).0 == m1 - 1 || cs[k].1 == m1 - 1);
            assert(cs[k].0 < m2 && cs[k].1 < m2);
        }
    }
}

/// The loan table of a body: the dereference of every pointer in the types
/// of its locals, then every borrow.
pub open spec fn body_loan_table(body: Body) -> Seq<(usize, PlaceView)> {
    loan_table(local_pointers(body.local_tys@, body.local_tys@.len() as int), borrows_before(body, body.basic_blocks@.len() as int))
}

/// The loans of every region of a body once propagated (as indices of the
/// loan table).
pub open spec fn body_loans(body: Body, cs: Seq<(usize, usize)>, xs: Seq<(usize, usize)>) -> Seq<Set<int>> {
    let table = body_loan_table(body);
    let m = region_bound(table, cs);
    Seq::new(m as nat, |r: int| Set::new(|i: int| loans_spec(table, cs, xs, m, r, i)))
}

/// The aliases recorded for a domain place: those of the last place of the
/// body with that normal form, or none.
pub open spec fn recorded_aliases(body: Body, cs: Seq<(usize, usize)>, xs: Seq<(usize, usize)>, q: PlaceView) -> Set<PlaceView> {
    let found = found_places(body);
    match last_found(found, q, found.len() as int) {
        Some(i) => alias_set(body.local_tys@, body_loan_table(body), body_loans(body, cs, xs), found[i]),
        None => Set::empty(),
    }
}

/// The places tracked for a body: its places, their aliases, and the
/// pointers all of these dereference.
pub open spec fn body_tracked_places(body: Body, cs: Seq<(usize, usize)>, xs: Seq<(usize, usize)>) -> Set<PlaceView> {
    tracked_places(base_places(body.local_tys@, found_places(body), body_loan_table(body), body_loans(body, cs, xs)))
}

/// The regions of the pointers and borrows of the body and of the
/// constraints, and the number of loans, fit the machine.
pub open spec fn regions_in_range(body: Body, cs: Seq<(usize, usize)>) -> bool {
    let table = body_loan_table(body);
    &&& table.len() < usize::MAX
    &&& forall|i: int| 0 <= i < table.len() ==> (#[trigger] table[i]).0 < usize::MAX - 1
    &&& forall|k: int| 0 <= k < cs.len() ==> (#[trigger] cs[k]).0 < usize::MAX - 1 && cs[k].1 < usize::MAX - 1
}

/// The rows of the alias facts for domain place `i`.
pub open spec fn alias_row(body: Body, cs: Seq<(usize, usize)>, xs: Seq<(usize, usize)>, domain: Seq<Place>, i: int) -> Set<int> {
    Set::new(|j: int| exists|a: PlaceView| #[trigger] recorded_aliases(body, cs, xs, domain[i]@).contains(a) && index_of(domain, a) == Some(j))
}

pub open spec fn related_row(body: Body, cs: Seq<(usize, usize)>, xs: Seq<(usize, usize)>, domain: Seq<Place>, i: int, rel: PlaceRelation) -> Set<int> {
    Set::new(|j: int| 0 <= j < domain.len() && exists|a: PlaceView| #[trigger] recorded_aliases(body, cs, xs, domain[i]@).contains(a)
        && relation_of(domain[j]@, a) == rel)
}

pub open spec fn deps_row(body: Body, cs: Seq<(usize, usize)>, xs: Seq<(usize, usize)>, domain: Seq<Place>, i: int) -> Set<int> {
    alias_row(body, cs, xs, domain, i).union(Set::new(|j: int| exists|q: PlaceView| #[trigger] is_pointer_prefix(q, domain[i]@) && index_of(domain, q) == Some(j)))
}

/// The loan table of a body (see `body_loan_table`).
pub fn build_loan_table(body: &Body) -> (table: Vec<(usize, Place)>)
    ensures
        borrow_views(table@) == body_loan_table(*body),
{
    let ptrs = region_pointers(&body.local_tys);
    let borrows = gather_borrows(body);
    let ghost pv = pointer_list_views(ptrs@);
    let mut table: Vec<(usize, Place)> = Vec::new();
    let mut k: usize = 0;
    while k < ptrs.len()
        invariant
            k <= ptrs@.len(),
            pv == pointer_list_views(ptrs@),
            borrow_views(table@) == pv.take(k as int).map_values(|p: PointerView| (p.0, (p.1.0, p.1.1.push(ProjElem::Deref)))),
        decreases ptrs@.len() - k,
    {
        let x = (ptrs[k].0, ptrs[k].1.deref());
        let ghost before = borrow_views(table@);
        table.push(x);
        proof {
            assert(borrow_views(table@) =~= before.push((x.0, x.1@)));
            assert(pv[k as int] == (ptrs@[k as int].0, ptrs@[k as int].1@, ptrs@[k as int].2));
            assert(pv.take(k + 1) =~= pv.take(k as int).push(pv[k as int]));
        }
        assert(borrow_views(table@) =~= pv.take(k + 1).map_values(|p: PointerView| (p.0, (p.1.0, p.1.1.push(ProjElem::Deref)))));
        k = k + 1;
    }
    assert(pv.take(ptrs@.len() as int) =~= pv);
    let ghost first = borrow_views(table@);
    let mut k: usize = 0;
    while k < borrows.len()
        invariant
            k <= borrows@.len(),
            borrow_views(table@) == first + borrow_views(borrows@).take(k as int),
        decreases borrows@.len() - k,
    {
        let x = (borrows[k].0, borrows[k].1.copy());
        let ghost before = borrow_views(table@);
        table.push(x);
        proof {
            assert(borrow_views(table@) =~= before.push((x.0, x.1@)));
            assert(borrow_views(borrows@)[k as int] == (borrows@[k as int].0, borrows@[k as int].1@));
        }
        assert(borrow_views(table@) =~= first + borrow_views(borrows@).take(k + 1));
        k = k + 1;
    }
    assert(borrow_views(borrows@).take(borrows@.len() as int) =~= borrow_views(borrows@));
    table
}

/// The places of the body, their aliases, and the pointers dereferenced by
/// any of these, as they are collected before normalisation; with the
/// aliases of each place of the body.
fn collect_tracked(body: &Body, table: &Vec<(usize, Place)>, loans: &Vec<IndexSet>) -> (r: (Vec<Place>, Vec<Vec<Place>>, Vec<Place>))
    requires
        forall|x: int| 0 <= x < loans@.len() ==> (#[trigger] loans@[x]).size() == table@.len(),
    ensures
        place_views(r.0@) == found_places(*body),
        r.1@.len() == r.0@.len(),
        forall|i: int| 0 <= i < r.1@.len() ==> view_set((#[trigger] r.1@[i])@)
            == alias_set(body.local_tys@, borrow_views(table@), set_views(loans@), found_places(*body)[i]),
        view_set(r.2@) == tracked_places(base_places(body.local_tys@, found_places(*body), borrow_views(table@), set_views(loans@))),
{
    let decls = &body.local_tys;
    let found = find_places(body);
    let ghost fv = found_places(*body);
    let ghost tv = borrow_views(table@);
    let ghost lv = set_views(loans@);
    let mut lists: Vec<Vec<Place>> = Vec::new();
    let mut base: Vec<Place> = Vec::new();
    push_places(&mut base, &found);
    proof { lemma_view_set_empty(); }
    let mut i: usize = 0;
    while i < found.len()
        invariant
            i <= found@.len(),
            place_views(found@) == fv,
            decls == &body.local_tys,
            tv == borrow_views(table@),
            lv == set_views(loans@),
            forall|x: int| 0 <= x < loans@.len() ==> (#[trigger] loans@[x]).size() == table@.len(),
            lists@.len() == i,
            forall|i2: int| 0 <= i2 < i ==> view_set((#[trigger] lists@[i2])@) == alias_set(decls@, tv, lv, fv[i2]),
            view_set(base@) == view_set(found@).union(Set::new(|p: PlaceView|
                exists|i2: int| 0 <= i2 < i && #[trigger] alias_set(decls@, tv, lv, fv[i2]).contains(p))),
        decreases found@.len() - i,
    {
        let ghost before = view_set(base@);
        let a = compute_aliases(decls, table, loans, &found[i]);
        assert(found@[i as int]@ == fv[i as int]);
        push_places(&mut base, &a);
        lists.push(a);
        proof {
            assert forall|p: PlaceView| #[trigger] view_set(base@).contains(p) <==> view_set(found@).union(Set::new(|p2: PlaceView|
                exists|i2: int| 0 <= i2 < i + 1 && #[trigger] alias_set(decls@, tv, lv, fv[i2]).contains(p2))).contains(p) by {
                if alias_set(decls@, tv, lv, fv[i as int]).contains(p) {
                    assert(0 <= i < i + 1);
                }
                if exists|i2: int| 0 <= i2 < i + 1 && #[trigger] alias_set(decls@, tv, lv, fv[i2]).contains(p) {
                    let i2 = choose|i2: int| 0 <= i2 < i + 1 && #[trigger] alias_set(decls@, tv, lv, fv[i2]).contains(p);
                    if i2 < i {
                        assert(before.contains(p));
                    }
                }
            }
            assert(view_set(base@) =~= view_set(found@).union(Set::new(|p2: PlaceView|
                exists|i2: int| 0 <= i2 < i + 1 && #[trigger] alias_set(decls@, tv, lv, fv[i2]).contains(p2))));
        }
        i = i + 1;
    }
    let ghost bset = base_places(decls@, fv, tv, lv);
    proof {
        assert forall|p: PlaceView| #[trigger] view_set(base@).contains(p) <==> bset.contains(p) by {
            if view_set(found@).contains(p) {
                let k = choose|k: int| 0 <= k < found@.len() && (#[trigger] found@[k])@ == p;
                assert(fv[k] == p);
            }
            if exists|i2: int| 0 <= i2 < found@.len() && fv[i2] == p {
                let i2 = choose|i2: int| 0 <= i2 < found@.len() && fv[i2] == p;
                assert(found@[i2]@ == p);
            }
        }
        assert(view_set(base@) =~= bset);
    }
    let mut all: Vec<Place> = Vec::new();
    push_places(&mut all, &base);
    let mut k: usize = 0;
    while k < base.len()
        invariant
            k <= base@.len(),
            view_set(base@) == bset,
            view_set(all@) == bset.union(Set::new(|q: PlaceView| exists|j: int| 0 <= j < k && #[trigger] is_pointer_prefix(q, base@[j]@))),
        decreases base@.len() - k,
    {
        let ghost before = view_set(all@);
        push_pointer_prefixes(&mut all, &base[k]);
        proof {
            assert forall|q: PlaceView| #[trigger] view_set(all@).contains(q) <==> bset.union(Set::new(|q2: PlaceView|
                exists|j: int| 0 <= j < k + 1 && #[trigger] is_pointer_prefix(q2, base@[j]@))).contains(q) by {
                if is_pointer_prefix(q, base@[k as int]@) {
                    assert(0 <= k < k + 1);
                }
                if exists|j: int| 0 <= j < k + 1 && #[trigger] is_pointer_prefix(q, base@[j]@) {
                    let j = choose|j: int| 0 <= j < k + 1 && #[trigger] is_pointer_prefix(q, base@[j]@);
                    if j < k {
                        assert(before.contains(q));
                    }
                }
            }
            assert(view_set(all@) =~= bset.union(Set::new(|q2: PlaceView|
                exists|j: int| 0 <= j < k + 1 && #[trigger] is_pointer_prefix(q2, base@[j]@))));
        }
        k = k + 1;
    }
    proof {
        assert forall|q: PlaceView| #[trigger] view_set(all@).contains(q) <==> tracked_places(bset).contains(q) by {
            if exists|j: int| 0 <= j < base@.len() && #[trigger] is_pointer_prefix(q, base@[j]@) {
                let j = choose|j: int| 0 <= j < base@.len() && #[trigger] is_pointer_prefix(q, base@[j]@);
                assert(view_set(base@).contains(base@[j]@));
            }
            if exists|p: PlaceView| bset.contains(p) && #[trigger] is_pointer_prefix(q, p) {
                let p = choose|p: PlaceView| bset.contains(p) && #[trigger] is_pointer_prefix(q, p);
                let j = choose|j: int| 0 <= j < base@.len() && (#[trigger] base@[j])@ == p;
                assert(is_pointer_prefix(q, base@[j]@));
            }
        }
        assert(view_set(all@) =~= tracked_places(bset));
    }
    (found, lists, all)
}

/// The rows of domain place `i` in the alias analysis: its aliases, the
/// domain places contained in one of them, those overlapping one of them, and
/// its aliases with the pointers it dereferences.
fn alias_row_sets(body: &Body, constraints: &Vec<(usize, usize)>, extra: &Vec<(usize, usize)>, found: &Vec<Place>, lists: &Vec<Vec<Place>>, domain: &Vec<Place>, i: usize)
    -> (r: (IndexSet, IndexSet, IndexSet, IndexSet))
    requires
        i < domain@.len(),
        place_views(found@) == found_places(*body),
        lists@.len() == found@.len(),
        forall|i2: int| 0 <= i2 < lists@.len() ==> view_set((#[trigger] lists@[i2])@)
            == alias_set(body.local_tys@, body_loan_table(*body), body_loans(*body, constraints@, extra@), found_places(*body)[i2]),
    ensures
        r.0.size() == domain@.len(),
        r.1.size() == domain@.len(),
        r.2.size() == domain@.len(),
        r.3.size() == domain@.len(),
        r.0@ == alias_row(*body, constraints@, extra@, domain@, i as int),
        r.1@ == related_row(*body, constraints@, extra@, domain@, i as int, PlaceRelation::Sub),
        r.2@ == related_row(*body, constraints@, extra@, domain@, i as int, PlaceRelation::Sub)
            .union(related_row(*body, constraints@, extra@, domain@, i as int, PlaceRelation::Super)),
        r.3@ == deps_row(*body, constraints@, extra@, domain@, i as int),
{
    let ghost cs = constraints@;
    let ghost xs = extra@;
    let ghost fv = found_places(*body);
    let np = domain.len();
    let ghost q = domain@[i as int]@;
    // the last place of the body with this normal form
    let mut which: Option<usize> = None;
    let mut f: usize = 0;
    while f < found.len()
        invariant
            f <= found@.len(),
            place_views(found@) == fv,
            i < domain@.len(),
            q == domain@[i as int]@,
            match which {
                Some(x) => last_found(fv, q, f as int) == Some(x as int) && x < f,
                None => last_found(fv, q, f as int) is None,
            },
        decreases found@.len() - f,
    {
        let nf = crate::mir::normalize(&found[f]);
        assert(found@[f as int]@ == fv[f as int]);
        if nf.same(&domain[i]) {
            which = Some(f);
        }
        f = f + 1;
    }
    let empty: Vec<Place> = Vec::new();
    proof { lemma_view_set_empty(); }
    let list: &Vec<Place> = match which {
        Some(x) => &lists[x],
        None => &empty,
    };
    let ghost rec = recorded_aliases(*body, cs, xs, q);
    assert(view_set(list@) == rec);
    // aliases
    let mut arow = IndexSet::new(np);
    let mut k: usize = 0;
    while k < list.len()
        invariant
            k <= list@.len(),
            arow.size() == np,
            np == domain@.len(),
            forall|j: int| #[trigger] arow@.contains(j) <==> exists|k2: int| 0 <= k2 < k && index_of(domain@, (#[trigger] list@[k2])@) == Some(j),
        decreases list@.len() - k,
    {
        let ghost before = arow@;
        match domain_index(&domain, &list[k]) {
            Some(j) => { arow.insert(j); },
            None => {},
        }
        assert forall|j: int| #[trigger] arow@.contains(j) <==> exists|k2: int| 0 <= k2 < k + 1 && index_of(domain@, (#[trigger] list@[k2])@) == Some(j) by {
            if index_of(domain@, list@[k as int]@) == Some(j) {
                assert(0 <= k < k + 1);
            }
            if exists|k2: int| 0 <= k2 < k + 1 && index_of(domain@, (#[trigger] list@[k2])@) == Some(j) {
                let k2 = choose|k2: int| 0 <= k2 < k + 1 && index_of(domain@, (#[trigger] list@[k2])@) == Some(j);
                if k2 < k {
                    assert(before.contains(j));
                }
            }
        }
        k = k + 1;
    }
    proof {
        assert forall|j: int| #[trigger] arow@.contains(j) <==> alias_row(*body, cs, xs, domain@, i as int).contains(j) by {
            if arow@.contains(j) {
                let k2 = choose|k2: int| 0 <= k2 < list@.len() && index_of(domain@, (#[trigger] list@[k2])@) == Some(j);
                assert(view_set(list@).contains(list@[k2]@));
            }
            if alias_row(*body, cs, xs, domain@, i as int).contains(j) {
                let a = choose|a: PlaceView| #[trigger] rec.contains(a) && index_of(domain@, a) == Some(j);
                let k2 = choose|k2: int| 0 <= k2 < list@.len() && (#[trigger] list@[k2])@ == a;
                assert(index_of(domain@, list@[k2]@) == Some(j));
            }
        }
        assert(arow@ =~= alias_row(*body, cs, xs, domain@, i as int));
    }
    // conflicts
    let c = conflicts_of(&domain, list);
    proof {
        assert forall|j: int| #[trigger] c.subs@.contains(j) <==> related_row(*body, cs, xs, domain@, i as int, PlaceRelation::Sub).contains(j) by {
            if c.subs@.contains(j) {
                let k2 = choose|k2: int| 0 <= k2 < list@.len() && relation_of(domain@[j]@, (#[trigger] list@[k2])@) == PlaceRelation::Sub;
                assert(rec.contains(list@[k2]@));
            }
            if related_row(*body, cs, xs, domain@, i as int, PlaceRelation::Sub).contains(j) {
                let a = choose|a: PlaceView| #[trigger] rec.contains(a) && relation_of(domain@[j]@, a) == PlaceRelation::Sub;
                let k2 = choose|k2: int| 0 <= k2 < list@.len() && (#[trigger] list@[k2])@ == a;
                assert(related_to_some(domain@, list@, j, PlaceRelation::Sub));
            }
        }
        assert forall|j: int| #[trigger] c.supers@.contains(j) <==> related_row(*body, cs, xs, domain@, i as int, PlaceRelation::Super).contains(j) by {
            if c.supers@.contains(j) {
                let k2 = choose|k2: int| 0 <= k2 < list@.len() && relation_of(domain@[j]@, (#[trigger] list@[k2])@) == PlaceRelation::Super;
                assert(rec.contains(list@[k2]@));
            }
            if related_row(*body, cs, xs, domain@, i as int, PlaceRelation::Super).contains(j) {
                let a = choose|a: PlaceView| #[trigger] rec.contains(a) && relation_of(domain@[j]@, a) == PlaceRelation::Super;
                let k2 = choose|k2: int| 0 <= k2 < list@.len() && (#[trigger] list@[k2])@ == a;
                assert(related_to_some(domain@, list@, j, PlaceRelation::Super));
            }
        }
        assert(c.subs@ =~= related_row(*body, cs, xs, domain@, i as int, PlaceRelation::Sub));
        assert(c.supers@ =~= related_row(*body, cs, xs, domain@, i as int, PlaceRelation::Super));
    }
    let mut crow = c.subs.to_owned();
    crow.union(&c.supers);
    // dependencies: the aliases and the pointers dereferenced on the way
    let mut drow = arow.to_owned();
    let p = &domain[i];
    let mut d: usize = 0;
    while d < p.projection.len()
        invariant
            d <= p.projection@.len(),
            drow.size() == np,
            np == domain@.len(),
            q == p@,
            forall|j: int| #[trigger] drow@.contains(j) <==> arow@.contains(j) || exists|q2: PlaceView|
                (exists|d2: int| 0 <= d2 < d && is_deref(#[trigger] p.projection@[d2]) && q2 == (p.local, p.projection@.take(d2)))
                && index_of(domain@, q2) == Some(j),
        decreases p.projection@.len() - d,
    {
        let ghost before = drow@;
        if let ProjElem::Deref = p.projection[d] {
            let ptr = p.prefix(d);
            match domain_index(&domain, &ptr) {
                Some(j) => { drow.insert(j); },
                None => {},
            }
        }
        assert forall|j: int| #[trigger] drow@.contains(j) <==> arow@.contains(j) || exists|q2: PlaceView|
            (exists|d2: int| 0 <= d2 < d + 1 && is_deref(#[trigger] p.projection@[d2]) && q2 == (p.local, p.projection@.take(d2)))
            && index_of(domain@, q2) == Some(j) by {
            let q3 = (p.local, p.projection@.take(d as int));
            if is_deref(p.projection@[d as int]) && index_of(domain@, q3) == Some(j) {
                assert(0 <= d < d + 1);
            }
            if exists|q2: PlaceView| (exists|d2: int| 0 <= d2 < d + 1 && is_deref(#[trigger] p.projection@[d2]) && q2 == (p.local, p.projection@.take(d2)))
                && index_of(domain@, q2) == Some(j) {
                let q2 = choose|q2: PlaceView| (exists|d2: int| 0 <= d2 < d + 1 && is_deref(#[trigger] p.projection@[d2]) && q2 == (p.local, p.projection@.take(d2)))
                    && index_of(domain@, q2) == Some(j);
                let d2 = choose|d2: int| 0 <= d2 < d + 1 && is_deref(#[trigger] p.projection@[d2]) && q2 == (p.local, p.projection@.take(d2));
                if d2 < d {
                    assert(before.contains(j));
                }
            }
        }
        d = d + 1;
    }
    proof {
        assert forall|j: int| #[trigger] drow@.contains(j) <==> deps_row(*body, cs, xs, domain@, i as int).contains(j) by {
            if exists|q2: PlaceView| #[trigger] is_pointer_prefix(q2, q) && index_of(domain@, q2) == Some(j) {
                let q2 = choose|q2: PlaceView| #[trigger] is_pointer_prefix(q2, q) && index_of(domain@, q2) == Some(j);
                let d2 = choose|d2: int| 0 <= d2 < q.1.len() && is_deref(#[trigger] q.1[d2]) && q2 == (q.0, q.1.take(d2));
                assert(is_deref(p.projection@[d2]));
            }
            if exists|q2: PlaceView| (exists|d2: int| 0 <= d2 < d && is_deref(#[trigger] p.projection@[d2]) && q2 == (p.local, p.projection@.take(d2)))
                && index_of(domain@, q2) == Some(j) {
                let q2 = choose|q2: PlaceView| (exists|d2: int| 0 <= d2 < d && is_deref(#[trigger] p.projection@[d2]) && q2 == (p.local, p.projection@.take(d2)))
                    && index_of(domain@, q2) == Some(j);
                let d2 = choose|d2: int| 0 <= d2 < d && is_deref(#[trigger] p.projection@[d2]) && q2 == (p.local, p.projection@.take(d2));
                assert(is_deref(q.1[d2]));
                assert(is_pointer_prefix(q2, q));
            }
        }
        assert(drow@ =~= deps_row(*body, cs, xs, domain@, i as int));
    }
    assert(crow@ =~= c.subs@.union(c.supers@));
    (arow, c.subs, crow, drow)
}

/// Filling row `i` of a matrix whose rows below `i` hold their targets and
/// whose rows from `i` on are empty, with row `i`'s target.
proof fn lemma_row_filled(m0: IndexMatrix, m1: IndexMatrix, i: int, s: Set<int>, target: spec_fn(int) -> Set<int>)
    requires
        forall|i2: int| 0 <= i2 < i ==> #[trigger] m0.row(i2) == target(i2),
        forall|i2: int| i <= i2 ==> #[trigger] m0.row(i2) == Set::<int>::empty(),
        m1.row(i) == m0.row(i).union(s),
        forall|r2: int| r2 != i ==> #[trigger] m1.row(r2) == m0.row(r2),
        s == target(i),
    ensures
        forall|i2: int| 0 <= i2 < i + 1 ==> #[trigger] m1.row(i2) == target(i2),
        forall|i2: int| i + 1 <= i2 ==> #[trigger] m1.row(i2) == Set::<int>::empty(),
{
    assert(m1.row(i) =~= target(i));
    assert forall|i2: int| 0 <= i2 < i + 1 implies #[trigger] m1.row(i2) == target(i2) by {
        if i2 < i {
            assert(m1.row(i2) == m0.row(i2));
        }
    }
    assert forall|i2: int| i + 1 <= i2 implies #[trigger] m1.row(i2) == Set::<int>::empty() by {
        assert(m1.row(i2) == m0.row(i2));
    }
}

/// The alias analysis of a body, given the outlives constraints between its
/// regions: the place domain (the normal forms of the tracked places, each
/// once) and, for each domain place, its aliases, the domain places contained
/// in one of them, those overlapping one of them, and its aliases together
/// with the pointers it dereferences.
#[verifier::spinoff_prover]
pub fn build_aliases(body: &Body, constraints: &Vec<(usize, usize)>, extra: &Vec<(usize, usize)>) -> (r: (Vec<Place>, Aliases))
    requires
        regions_in_range(*body, constraints@),
        extra_in_table(body_loan_table(*body), extra@),
    ensures
        view_set(r.0@) == normal_forms(body_tracked_places(*body, constraints@, extra@)),
        no_duplicates(r.0@),
        r.1.wf(r.0@.len()),
        forall|i: int| 0 <= i < r.0@.len() ==> {
            &&& (#[trigger] r.1.aliases.row(i)) == alias_row(*body, constraints@, extra@, r.0@, i)
            &&& r.1.subs.row(i) == related_row(*body, constraints@, extra@, r.0@, i, PlaceRelation::Sub)
            &&& r.1.conflicts.row(i) == related_row(*body, constraints@, extra@, r.0@, i, PlaceRelation::Sub)
                .union(related_row(*body, constraints@, extra@, r.0@, i, PlaceRelation::Super))
            &&& r.1.deps.row(i) == deps_row(*body, constraints@, extra@, r.0@, i)
        },
{
    let ghost cs = constraints@;
    let ghost xs = extra@;
    let table = build_loan_table(body);
    let ghost tv = borrow_views(table@);
    assert forall|i: int| 0 <= i < table@.len() implies (#[trigger] table@[i]).0 < usize::MAX - 1 by {
        assert(tv[i].0 == table@[i].0);
    }
    let (m, loans) = compute_loans(&table, constraints, extra);
    proof {
        lemma_region_bound_unique(tv, cs, m as int, region_bound(tv, cs));
        assert forall|r2: int| 0 <= r2 < m implies #[trigger] set_views(loans@)[r2] == body_loans(*body, cs, xs)[r2] by {
            assert(set_views(loans@)[r2] =~= Set::new(|i: int| loans_spec(tv, cs, xs, m as int, r2, i)));
        }
        assert(set_views(loans@) =~= body_loans(*body, cs, xs));
    }
    let (found, lists, all) = collect_tracked(body, &table, &loans);
    let ghost fv = found_places(*body);
    let domain = normalized_domain(&all);
    let np = domain.len();
    let mut aliases = IndexMatrix::new(np);
    let mut subs = IndexMatrix::new(np);
    let mut conflicts = IndexMatrix::new(np);
    let mut deps = IndexMatrix::new(np);
    let mut i: usize = 0;
    while i < np
        invariant
            i <= np,
            np == domain@.len(),
            fv == found_places(*body),
            place_views(found@) == fv,
            lists@.len() == found@.len(),
            forall|i2: int| 0 <= i2 < lists@.len() ==> view_set((#[trigger] lists@[i2])@)
                == alias_set(body.local_tys@, body_loan_table(*body), body_loans(*body, cs, xs), fv[i2]),
            cs == constraints@,
            xs == extra@,
            aliases.wf() && aliases.columns() == np,
            subs.wf() && subs.columns() == np,
            conflicts.wf() && conflicts.columns() == np,
            deps.wf() && deps.columns() == np,
            forall|i2: int| 0 <= i2 < i ==> #[trigger] aliases.row(i2) == alias_row(*body, cs, xs, domain@, i2),
            forall|i2: int| 0 <= i2 < i ==> #[trigger] subs.row(i2) == related_row(*body, cs, xs, domain@, i2, PlaceRelation::Sub),
            forall|i2: int| 0 <= i2 < i ==> #[trigger] conflicts.row(i2) == related_row(*body, cs, xs, domain@, i2, PlaceRelation::Sub)
                .union(related_row(*body, cs, xs, domain@, i2, PlaceRelation::Super)),
            forall|i2: int| 0 <= i2 < i ==> #[trigger] deps.row(i2) == deps_row(*body, cs, xs, domain@, i2),
            forall|i2: int| i <= i2 ==> #[trigger] aliases.row(i2) == Set::<int>::empty(),
            forall|i2: int| i <= i2 ==> #[trigger] subs.row(i2) == Set::<int>::empty(),
            forall|i2: int| i <= i2 ==> #[trigger] conflicts.row(i2) == Set::<int>::empty(),
            forall|i2: int| i <= i2 ==> #[trigger] deps.row(i2) == Set::<int>::empty(),
        decreases np - i,
    {
        let (arow, csubs, crow, drow) = alias_row_sets(body, constraints, extra, &found, &lists, &domain, i);
        let ghost a0 = aliases;
        let ghost s0 = subs;
        let ghost c0 = conflicts;
        let ghost d0 = deps;
        aliases.union_into_row(i, &arow);
        subs.union_into_row(i, &csubs);
        conflicts.union_into_row(i, &crow);
        deps.union_into_row(i, &drow);
        proof {
            lemma_row_filled(a0, aliases, i as int, arow@, |j: int| alias_row(*body, cs, xs, domain@, j));
            lemma_row_filled(s0, subs, i as int, csubs@, |j: int| related_row(*body, cs, xs, domain@, j, PlaceRelation::Sub));
            lemma_row_filled(c0, conflicts, i as int, crow@, |j: int| related_row(*body, cs, xs, domain@, j, PlaceRelation::Sub)
                .union(related_row(*body, cs, xs, domain@, j, PlaceRelation::Super)));
            lemma_row_filled(d0, deps, i as int, drow@, |j: int| deps_row(*body, cs, xs, domain@, j));
        }
        i = i + 1;
    }
    (domain, Aliases { aliases, subs, deps, conflicts })
}

} // verus!
