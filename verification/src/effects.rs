use vstd::prelude::*;
use crate::body::{Body, Span, StatementKind};
use crate::flow::{FlowAnalysis, domain_index, index_of};
use crate::dependencies::Direction;
use crate::transfer::{is_unit, is_unit_spec};
use crate::indexed::IndexSet;
use crate::mir::{Location, Mutability, Place, ProjElem};
use crate::fixpoint::{FlowResults, reachable};
use crate::ty::{AdtKind, GenericArg, Ty, interior_pointers, place_ty, place_ty_spec, pointers_of};
use crate::config::{FileName, Range, SourceFile, range_views};
use crate::slicing::{find_narrowest_span, narrowest_span};
use crate::spans::{HirSpanner, location_span, location_to_spans};
use intervaltree::IntervalTree;
use vstd::string::{StringExecFns, StringSliceAdditionalSpecFns};
use vstd::utf8::{decode_utf8, encode_utf8, is_char_boundary, valid_utf8};

verus! {

pub type PathView = Seq<ProjElem>;

/// The paths, relative to `path`, of the places met when visiting a value
/// of type `ty` at `path`: the value itself, then what its box, fields,
/// variants, elements, pointee or captures hold. Tuple fields are entered
/// structurally: a field's own place counts only through its components.
pub open spec fn places_of(ty: Ty, path: PathView) -> Set<PathView>
    decreases ty, 2int,
{
    set![path].union(inner_places(ty, path))
}

/// The places strictly inside a value of type `ty` at `path` (see `places_of`).
pub open spec fn inner_places(ty: Ty, path: PathView) -> Set<PathView>
    decreases ty, 1int,
{
    match ty {
        Ty::Boxed(inner) => places_of(*inner, path.push(ProjElem::Deref)),
        Ty::Tuple(fields) => tuple_places(fields@, 0, path),
        Ty::Adt { kind, variants, .. } => match kind {
            AdtKind::Struct => if variants@.len() > 0 { field_places(variants@[0]@, 0, path) } else { Set::empty() },
            AdtKind::Union => Set::empty(),
            AdtKind::Enum => variant_places(variants@, 0, path),
        },
        Ty::Array(elem) => places_of(*elem, path.push(ProjElem::Index(0))),
        Ty::Ref { inner, .. } => places_of(*inner, path.push(ProjElem::Deref)),
        Ty::Closure { upvars, .. } => places_of(*upvars, path),
        _ => Set::empty(),
    }
}

/// The places of the struct fields `i..`, each at `Field(j)`.
pub open spec fn field_places(fields: Seq<Ty>, i: int, path: PathView) -> Set<PathView>
    decreases fields, fields.len() - i,
{
    if 0 <= i < fields.len() {
        places_of(fields[i], path.push(ProjElem::Field(i as usize))).union(field_places(fields, i + 1, path))
    } else {
        Set::empty()
    }
}

/// The places of the variants `v..`, each field at `Downcast(v)`, `Field(j)`.
pub open spec fn variant_places(variants: Seq<Vec<Ty>>, v: int, path: PathView) -> Set<PathView>
    decreases variants, variants.len() - v,
{
    if 0 <= v < variants.len() {
        field_places(variants[v]@, 0, path.push(ProjElem::Downcast(v as usize))).union(variant_places(variants, v + 1, path))
    } else {
        Set::empty()
    }
}

/// The places of the tuple fields `i..`, each entered structurally at `Field(j)`.
pub open spec fn tuple_places(fields: Seq<Ty>, i: int, path: PathView) -> Set<PathView>
    decreases fields, fields.len() - i,
{
    if 0 <= i < fields.len() {
        component_places(fields[i], path.push(ProjElem::Field(i as usize))).union(tuple_places(fields, i + 1, path))
    } else {
        Set::empty()
    }
}

/// The places met when entering `ty` structurally at `path`: its direct
/// component types are visited at the same path.
pub open spec fn component_places(ty: Ty, path: PathView) -> Set<PathView>
    decreases ty, 0int,
{
    match ty {
        Ty::Boxed(inner) => places_of(*inner, path),
        Ty::Tuple(fields) => list_places(fields@, 0, path),
        Ty::Adt { args, .. } => arg_places(args@, 0, path),
        Ty::Array(elem) => places_of(*elem, path),
        Ty::Ref { inner, .. } => places_of(*inner, path),
        Ty::Closure { upvars, .. } => places_of(*upvars, path),
        _ => Set::empty(),
    }
}

/// The places of the types `i..`, all visited at `path`.
pub open spec fn list_places(tys: Seq<Ty>, i: int, path: PathView) -> Set<PathView>
    decreases tys, tys.len() - i,
{
    if 0 <= i < tys.len() {
        places_of(tys[i], path).union(list_places(tys, i + 1, path))
    } else {
        Set::empty()
    }
}

/// The places of the type arguments among the generic arguments `i..`.
pub open spec fn arg_places(args: Seq<GenericArg>, i: int, path: PathView) -> Set<PathView>
    decreases args, args.len() - i,
{
    if 0 <= i < args.len() {
        let here = match args[i] {
            GenericArg::Type(t) => places_of(t, path),
            GenericArg::Lifetime(_) => Set::empty(),
        };
        here.union(arg_places(args, i + 1, path))
    } else {
        Set::empty()
    }
}

/// The set of paths in a list of paths.
pub open spec fn path_set(v: Seq<Vec<ProjElem>>) -> Set<PathView> {
    Set::new(|p: PathView| exists|k: int| 0 <= k < v.len() && (#[trigger] v[k])@ == p)
}

fn push_path(path: &Vec<ProjElem>, e: ProjElem) -> (r: Vec<ProjElem>)
    ensures
        r@ == path@.push(e),
{
    let mut r = path.clone();
    assert(r@ =~= path@);
    r.push(e);
    r
}

proof fn lemma_path_set_push(v: Seq<Vec<ProjElem>>, p: Vec<ProjElem>)
    ensures
        path_set(v.push(p)) == path_set(v).insert(p@),
{
    assert forall|q: PathView| path_set(v.push(p)).contains(q) <==> path_set(v).insert(p@).contains(q) by {
        if path_set(v.push(p)).contains(q) {
            let k = choose|k: int| 0 <= k < v.push(p).len() && (#[trigger] v.push(p)[k])@ == q;
            if k < v.len() {
                assert(v[k] == v.push(p)[k]);
            }
        }
        if path_set(v).contains(q) {
            let k = choose|k: int| 0 <= k < v.len() && (#[trigger] v[k])@ == q;
            assert(v.push(p)[k] == v[k]);
        }
        if q == p@ {
            assert(v.push(p)[v.len() as int] == p);
        }
    }
    assert(path_set(v.push(p)) =~= path_set(v).insert(p@));
}

/// Adds the places met when visiting `ty` at `path` (see `places_of`).
fn collect_places(ty: &Ty, path: &Vec<ProjElem>, out: &mut Vec<Vec<ProjElem>>)
    ensures
        path_set(final(out)@) == path_set(old(out)@).union(places_of(*ty, path@)),
    decreases *ty, 1int,
{
    let ghost start = path_set(out@);
    match ty {
        Ty::Boxed(inner) => {
            let p = push_path(path, ProjElem::Deref);
            collect_places(inner, &p, out);
        },
        Ty::Tuple(fields) => {
            let mut i: usize = 0;
            while i < fields.len()
                invariant
                    i <= fields@.len(),
                    *ty == Ty::Tuple(*fields),
                    path_set(out@).union(tuple_places(fields@, i as int, path@)) == start.union(tuple_places(fields@, 0, path@)),
                decreases fields@.len() - i,
            {
                let p = push_path(path, ProjElem::Field(i));
                let ghost before = path_set(out@);
                proof {
                    assert(decreases_to!(*ty => (*ty)->Tuple_0));
                    assert(decreases_to!(*fields => fields@));
                    assert(decreases_to!(fields@ => fields@[i as int]));
                }
                collect_components(&fields[i], &p, out);
                assert(path_set(out@).union(tuple_places(fields@, i + 1, path@)) =~= before.union(tuple_places(fields@, i as int, path@)));
                i = i + 1;
            }
            assert(path_set(out@) =~= start.union(tuple_places(fields@, 0, path@)));
        },
        Ty::Adt { kind, variants, args, names } => {
            match kind {
                AdtKind::Struct => {
                    if variants.len() > 0 {
                        collect_field_places(&variants[0], path, out);
                    }
                },
                AdtKind::Union => {},
                AdtKind::Enum => {
                    let mut v: usize = 0;
                    while v < variants.len()
                        invariant
                            v <= variants@.len(),
                            *ty == (Ty::Adt { kind: *kind, variants: *variants, args: *args, names: *names }),
                            path_set(out@).union(variant_places(variants@, v as int, path@)) == start.union(variant_places(variants@, 0, path@)),
                        decreases variants@.len() - v,
                    {
                        let p = push_path(path, ProjElem::Downcast(v));
                        let ghost before = path_set(out@);
                        proof {
                            assert(decreases_to!(*ty => (*ty)->variants));
                            assert(decreases_to!(*variants => variants@));
                            assert(decreases_to!(variants@ => variants@[v as int]));
                            assert(decreases_to!(variants@[v as int] => variants@[v as int]@));
                        }
                        collect_field_places(&variants[v], &p, out);
                        assert(path_set(out@).union(variant_places(variants@, v + 1, path@)) =~= before.union(variant_places(variants@, v as int, path@)));
                        v = v + 1;
                    }
                    assert(path_set(out@) =~= start.union(variant_places(variants@, 0, path@)));
                },
            }
        },
        Ty::Array(elem) => {
            let p = push_path(path, ProjElem::Index(0));
            collect_places(elem, &p, out);
        },
        Ty::Ref { inner, .. } => {
            let p = push_path(path, ProjElem::Deref);
            collect_places(inner, &p, out);
        },
        Ty::Closure { upvars, .. } => {
            collect_places(upvars, path, out);
        },
        _ => {},
    }
    assert(path_set(out@) =~= start.union(inner_places(*ty, path@)));
    let ghost mid = out@;
    let here = path.clone();
    assert(here@ =~= path@);
    out.push(here);
    proof {
        lemma_path_set_push(mid, here);
        assert(path_set(out@) =~= start.union(places_of(*ty, path@)));
    }
}

/// Adds the places of the struct fields (see `field_places`).
fn collect_field_places(fields: &Vec<Ty>, path: &Vec<ProjElem>, out: &mut Vec<Vec<ProjElem>>)
    ensures
        path_set(final(out)@) == path_set(old(out)@).union(field_places(fields@, 0, path@)),
    decreases fields@, 2int,
{
    let ghost start = path_set(out@);
    let mut i: usize = 0;
    while i < fields.len()
        invariant
            i <= fields@.len(),
            path_set(out@).union(field_places(fields@, i as int, path@)) == start.union(field_places(fields@, 0, path@)),
        decreases fields@.len() - i,
    {
        let p = push_path(path, ProjElem::Field(i));
        let ghost before = path_set(out@);
        collect_places(&fields[i], &p, out);
        assert(path_set(out@).union(field_places(fields@, i + 1, path@)) =~= before.union(field_places(fields@, i as int, path@)));
        i = i + 1;
    }
    assert(path_set(out@) =~= start.union(field_places(fields@, 0, path@)));
}

/// Adds the places met when entering `ty` structurally (see `component_places`).
fn collect_components(ty: &Ty, path: &Vec<ProjElem>, out: &mut Vec<Vec<ProjElem>>)
    ensures
        path_set(final(out)@) == path_set(old(out)@).union(component_places(*ty, path@)),
    decreases *ty, 0int,
{
    let ghost start = path_set(out@);
    match ty {
        Ty::Boxed(inner) => collect_places(inner, path, out),
        Ty::Tuple(fields) => {
            let mut i: usize = 0;
            while i < fields.len()
                invariant
                    i <= fields@.len(),
                    *ty == Ty::Tuple(*fields),
                    path_set(out@).union(list_places(fields@, i as int, path@)) == start.union(list_places(fields@, 0, path@)),
                decreases fields@.len() - i,
            {
                let ghost before = path_set(out@);
                proof {
                    assert(decreases_to!(*ty => (*ty)->Tuple_0));
                    assert(decreases_to!(*fields => fields@));
                    assert(decreases_to!(fields@ => fields@[i as int]));
                }
                collect_places(&fields[i], path, out);
                assert(path_set(out@).union(list_places(fields@, i + 1, path@)) =~= before.union(list_places(fields@, i as int, path@)));
                i = i + 1;
            }
            assert(path_set(out@) =~= start.union(list_places(fields@, 0, path@)));
        },
        Ty::Adt { kind, variants, args, names } => {
            let mut i: usize = 0;
            while i < args.len()
                invariant
                    i <= args@.len(),
                    *ty == (Ty::Adt { kind: *kind, variants: *variants, args: *args, names: *names }),
                    path_set(out@).union(arg_places(args@, i as int, path@)) == start.union(arg_places(args@, 0, path@)),
                decreases args@.len() - i,
            {
                let ghost before = path_set(out@);
                match &args[i] {
                    GenericArg::Type(t) => {
                        proof {
                            assert(decreases_to!(*ty => (*ty)->args));
                            assert(decreases_to!(*args => args@));
                            assert(decreases_to!(args@ => args@[i as int]));
                        }
                        collect_places(t, path, out);
                    },
                    GenericArg::Lifetime(_) => {},
                }
                assert(path_set(out@).union(arg_places(args@, i + 1, path@)) =~= before.union(arg_places(args@, i as int, path@)));
                i = i + 1;
            }
            assert(path_set(out@) =~= start.union(arg_places(args@, 0, path@)));
        },
        Ty::Array(elem) => collect_places(elem, path, out),
        Ty::Ref { inner, .. } => collect_places(inner, path, out),
        Ty::Closure { upvars, .. } => collect_places(upvars, path, out),
        _ => {
            assert(path_set(out@) =~= start.union(component_places(*ty, path@)));
        },
    }
}

/// The paths inside the values that argument `a` mutably points to: for
/// each mutable reference in the argument's type (its last occurrence per
/// region), every place inside the referenced value.
pub open spec fn arg_mut_paths(decls: Seq<Ty>, a: usize) -> Set<PathView> {
    let ptrs = pointers_of(decls, (a, Seq::empty()));
    Set::new(|p: PathView| exists|k: int, t: Ty| #![trigger ptrs[k], places_of(t, ptrs[k].1.push(ProjElem::Deref))]
        0 <= k < ptrs.len()
        && ptrs[k].2 == Mutability::Mut
        && place_ty_spec(decls, (a, ptrs[k].1.push(ProjElem::Deref))) == Some(t)
        && places_of(t, ptrs[k].1.push(ProjElem::Deref)).contains(p))
}

/// The places an argument lets the function write (see `arg_mut_paths`).
pub open spec fn mut_arg_places(body: Body) -> Set<(usize, PathView)> {
    Set::new(|q: (usize, PathView)| 1 <= q.0 <= body.arg_count && arg_mut_paths(body.local_tys@, q.0).contains(q.1))
}

/// The domain indices of the places an argument lets the function write.
pub open spec fn mut_arg_indices(domain: Seq<Place>, body: Body) -> Set<int> {
    Set::new(|i: int| exists|q: (usize, PathView)| #[trigger] mut_arg_places(body).contains(q) && index_of(domain, q) == Some(i))
}

/// The paths of `arg_mut_paths` for argument `local`.
fn collect_arg_mut_paths(decls: &Vec<Ty>, local: usize) -> (out: Vec<Vec<ProjElem>>)
    ensures
        path_set(out@) == arg_mut_paths(decls@, local),
{
    let ptrs = interior_pointers(decls, &Place::from_local(local));
    let ghost pv = pointers_of(decls@, (local, Seq::empty()));
    let mut out: Vec<Vec<ProjElem>> = Vec::new();
    let mut k: usize = 0;
    while k < ptrs.len()
        invariant
            k <= ptrs@.len(),
            crate::ty::pointer_views(ptrs@) == pv,
            forall|j: int| 0 <= j < ptrs@.len() ==> (#[trigger] ptrs@[j]).1.local == local,
            path_set(out@) == Set::new(|p: PathView| exists|j: int, t: Ty| #![trigger pv[j], places_of(t, pv[j].1.push(ProjElem::Deref))]
                0 <= j < k
                && pv[j].2 == Mutability::Mut
                && place_ty_spec(decls@, (local, pv[j].1.push(ProjElem::Deref))) == Some(t)
                && places_of(t, pv[j].1.push(ProjElem::Deref)).contains(p)),
        decreases ptrs@.len() - k,
    {
        let ghost before = path_set(out@);
        assert(pv[k as int] == (ptrs@[k as int].0, ptrs@[k as int].1.projection@, ptrs@[k as int].2));
        let ghost dpath = pv[k as int].1.push(ProjElem::Deref);
        if ptrs[k].2 == Mutability::Mut {
            let d = ptrs[k].1.deref();
            assert(d@ == (local, dpath));
            match place_ty(decls, &d) {
                Some(t) => {
                    collect_places(t, &d.projection, &mut out);
                    assert(path_set(out@) == before.union(places_of(*t, dpath)));
                },
                None => {
                    assert(place_ty_spec(decls@, (local, dpath)) is None);
                },
            }
        }
        proof {
            let next = Set::new(|p: PathView| exists|j: int, t: Ty| #![trigger pv[j], places_of(t, pv[j].1.push(ProjElem::Deref))]
                0 <= j < k + 1
                && pv[j].2 == Mutability::Mut
                && place_ty_spec(decls@, (local, pv[j].1.push(ProjElem::Deref))) == Some(t)
                && places_of(t, pv[j].1.push(ProjElem::Deref)).contains(p));
            assert forall|p: PathView| path_set(out@).contains(p) <==> next.contains(p) by {
                if next.contains(p) {
                    let (j, t) = choose|j: int, t: Ty| #![trigger pv[j], places_of(t, pv[j].1.push(ProjElem::Deref))]
                        0 <= j < k + 1
                        && pv[j].2 == Mutability::Mut
                        && place_ty_spec(decls@, (local, pv[j].1.push(ProjElem::Deref))) == Some(t)
                        && places_of(t, pv[j].1.push(ProjElem::Deref)).contains(p);
                    if j < k {
                        assert(before.contains(p));
                    }
                }
            }
            assert(path_set(out@) =~= next);
        }
        k = k + 1;
    }
    assert(path_set(out@) =~= arg_mut_paths(decls@, local));
    out
}

/// The domain indices of the places of argument `local` at the given paths.
pub open spec fn path_indices(domain: Seq<Place>, local: usize, paths: Set<PathView>) -> Set<int> {
    Set::new(|i: int| exists|p: PathView| #[trigger] paths.contains(p) && index_of(domain, (local, p)) == Some(i))
}

impl FlowAnalysis {
    /// The domain indices of the places an argument lets the function write
    /// (see `mut_arg_places`); places outside the domain are left out.
    pub fn mut_args(&self) -> (s: IndexSet)
        ensures
            s.size() == self.np(),
            s@ == mut_arg_indices(self.place_domain@, self.body),
    {
        let domain = &self.place_domain;
        let mut s = IndexSet::new(domain.len());
        let mut a: usize = 0;
        while a < self.body.arg_count
            invariant
                a <= self.body.arg_count,
                s.size() == domain@.len(),
                domain == &self.place_domain,
                s@ == Set::new(|i: int| exists|q: (usize, PathView)| #[trigger] mut_arg_places(self.body).contains(q) && q.0 <= a && index_of(domain@, q) == Some(i)),
            decreases self.body.arg_count - a,
        {
            let local = a + 1;
            let paths = collect_arg_mut_paths(&self.body.local_tys, local);
            let ghost before = s@;
            let mut j: usize = 0;
            while j < paths.len()
                invariant
                    j <= paths@.len(),
                    s.size() == domain@.len(),
                    s@ == before.union(path_indices(domain@, local, path_set(paths@.take(j as int)))),
                decreases paths@.len() - j,
            {
                let q = Place { local, projection: paths[j].clone() };
                assert(q@ == (local, paths@[j as int]@));
                let ghost prev = s@;
                match domain_index(domain, &q) {
                    Some(i) => { s.insert(i); },
                    None => {},
                }
                proof {
                    assert(paths@.take(j + 1) =~= paths@.take(j as int).push(paths@[j as int]));
                    lemma_path_set_push(paths@.take(j as int), paths@[j as int]);
                    let old_set = path_set(paths@.take(j as int));
                    let new_set = path_set(paths@.take(j + 1));
                    assert(new_set == old_set.insert(paths@[j as int]@));
                    assert forall|i: int| s@.contains(i) <==> before.union(path_indices(domain@, local, new_set)).contains(i) by {
                        if path_indices(domain@, local, new_set).contains(i) {
                            let p = choose|p: PathView| #[trigger] new_set.contains(p) && index_of(domain@, (local, p)) == Some(i);
                            if p != paths@[j as int]@ {
                                assert(path_indices(domain@, local, old_set).contains(i));
                            }
                        }
                        if path_indices(domain@, local, old_set).contains(i) {
                            let p = choose|p: PathView| #[trigger] old_set.contains(p) && index_of(domain@, (local, p)) == Some(i);
                            assert(new_set.contains(p));
                        }
                        if index_of(domain@, q@) == Some(i) {
                            assert(new_set.contains(paths@[j as int]@));
                        }
                    }
                    assert(s@ =~= before.union(path_indices(domain@, local, new_set)));
                }
                j = j + 1;
            }
            proof {
                assert(paths@.take(paths@.len() as int) =~= paths@);
                let next = Set::new(|i: int| exists|q: (usize, PathView)| #[trigger] mut_arg_places(self.body).contains(q) && q.0 <= local && index_of(domain@, q) == Some(i));
                assert forall|i: int| s@.contains(i) <==> next.contains(i) by {
                    if next.contains(i) {
                        let q = choose|q: (usize, PathView)| #[trigger] mut_arg_places(self.body).contains(q) && q.0 <= local && index_of(domain@, q) == Some(i);
                        if q.0 == local {
                            assert(path_set(paths@).contains(q.1));
                            assert(path_indices(domain@, local, path_set(paths@)).contains(i));
                        } else {
                            assert(before.contains(i));
                        }
                    }
                    if path_indices(domain@, local, path_set(paths@)).contains(i) {
                        let p = choose|p: PathView| #[trigger] path_set(paths@).contains(p) && index_of(domain@, (local, p)) == Some(i);
                        assert(mut_arg_places(self.body).contains((local, p)));
                    }
                }
                assert(s@ =~= next);
            }
            a = a + 1;
        }
        assert(s@ =~= mut_arg_indices(self.place_domain@, self.body));
        s
    }
}

/// What a write affects outside the function: the argument place (by
/// domain index) that it may reach, or the return value.
#[derive(Clone, Copy, Debug, PartialEq, Eq, Structural)]
pub enum EffectKind {
    MutArg(usize),
    Return,
}

/// The least element of a set, if it has one.
pub open spec fn least(s: Set<int>) -> Option<int> {
    if exists|i: int| #[trigger] s.contains(i) && forall|j: int| #[trigger] s.contains(j) ==> i <= j {
        Some(choose|i: int| #[trigger] s.contains(i) && forall|j: int| #[trigger] s.contains(j) ==> i <= j)
    } else {
        None
    }
}

/// The effect of the statement `k` of block `b`: an assignment to the
/// return place (with the place written), or an assignment that may reach a
/// place an argument lets the function write (with the first such place of
/// the domain).
pub open spec fn statement_effect(a: FlowAnalysis, mut_args: Set<int>, b: int, k: int) -> Option<(EffectKind, (usize, PathView))> {
    match a.body.basic_blocks@[b].statements@[k].kind {
        StatementKind::Assign(mutated, _) => if mutated.local == 0 {
            Some((EffectKind::Return, mutated@))
        } else {
            match index_of(a.place_domain@, mutated@) {
                Some(m) => match least(a.aliases.aliases.row(m).intersect(mut_args)) {
                    Some(i) => Some((EffectKind::MutArg(i as usize), a.place_domain@[i]@)),
                    None => None,
                },
                None => None,
            }
        },
        _ => None,
    }
}

/// The effects of the statements `0..k` of block `b`, with their locations.
pub open spec fn block_effects(a: FlowAnalysis, mut_args: Set<int>, b: int, k: int) -> Seq<(EffectKind, (usize, PathView), Location)>
    decreases k,
{
    if k <= 0 {
        Seq::empty()
    } else {
        block_effects(a, mut_args, b, k - 1) + match statement_effect(a, mut_args, b, k - 1) {
            Some(e) => seq![(e.0, e.1, Location { block: b as usize, statement_index: (k - 1) as usize })],
            None => Seq::empty(),
        }
    }
}

/// The effects of the reachable blocks among `0..n`, block after block.
pub open spec fn found_effects(a: FlowAnalysis, mut_args: Set<int>, n: int) -> Seq<(EffectKind, (usize, PathView), Location)>
    decreases n,
{
    if n <= 0 {
        Seq::empty()
    } else {
        found_effects(a, mut_args, n - 1) + if reachable(a.body, n - 1) {
            block_effects(a, mut_args, n - 1, a.body.basic_blocks@[n - 1].statements@.len() as int)
        } else {
            Seq::empty()
        }
    }
}

/// The view of a list of effects.
pub open spec fn effect_views(v: Seq<(EffectKind, Place, Location)>) -> Seq<(EffectKind, (usize, PathView), Location)> {
    v.map_values(|e: (EffectKind, Place, Location)| (e.0, e.1@, e.2))
}

impl FlowAnalysis {
    /// The least index of the row `m` of the alias matrix that is also in `set`.
    fn first_alias_in(&self, m: usize, set: &IndexSet) -> (r: Option<usize>)
        requires
            self.aliases.wf(self.np()),
            set.size() == self.np(),
        ensures
            match r {
                Some(i) => least(self.aliases.aliases.row(m as int).intersect(set@)) == Some(i as int),
                None => least(self.aliases.aliases.row(m as int).intersect(set@)) is None,
            },
    {
        let ghost s = self.aliases.aliases.row(m as int).intersect(set@);
        proof { self.aliases.aliases.lemma_row_bounded(m as int); }
        let np = self.place_domain.len();
        let mut i: usize = 0;
        while i < np
            invariant
                self.aliases.wf(self.np()),
                set.size() == self.np(),
                np == self.np(),
                i <= np,
                s == self.aliases.aliases.row(m as int).intersect(set@),
                forall|j: int| #[trigger] s.contains(j) ==> 0 <= j,
                forall|j: int| 0 <= j < i ==> !s.contains(j),
            decreases np - i,
        {
            if self.aliases.aliases.contains(m, i) && set.contains(i) {
                assert(s.contains(i as int) && forall|j: int| #[trigger] s.contains(j) ==> i <= j) by {
                    assert forall|j: int| #[trigger] s.contains(j) implies i <= j by {
                        if j < i { assert(!s.contains(j)); }
                    }
                }
                let ghost c = choose|c: int| #[trigger] s.contains(c) && forall|j: int| #[trigger] s.contains(j) ==> c <= j;
                assert(s.contains(c));
                assert(c <= i && i <= c);
                return Some(i);
            }
            i = i + 1;
        }
        proof {
            set.lemma_bounded();
            assert forall|j: int| !s.contains(j) by {
                if s.contains(j) {
                    assert(set@.contains(j));
                    assert(0 <= j < np);
                }
            }
        }
        None
    }
}

impl FlowResults {
    /// The effects of the reachable statements, in order of blocks and of
    /// statements (see `found_effects`); `mut_args` gives the places an
    /// argument lets the function write.
    pub fn find_effects(&self, mut_args: &IndexSet) -> (v: Vec<(EffectKind, Place, Location)>)
        requires
            self.wf(),
            mut_args.size() == self.analysis.np(),
        ensures
            effect_views(v@) == found_effects(self.analysis, mut_args@, self.analysis.body.basic_blocks@.len() as int),
    {
        let a = &self.analysis;
        let reach = a.reachable_blocks();
        let nb = a.body.basic_blocks.len();
        let mut v: Vec<(EffectKind, Place, Location)> = Vec::new();
        let mut b: usize = 0;
        while b < nb
            invariant
                self.wf(),
                a == &self.analysis,
                mut_args.size() == a.np(),
                nb == a.body.basic_blocks@.len(),
                reach.size() == nb,
                forall|c: int| #[trigger] reach@.contains(c) <==> 0 <= c < nb && reachable(a.body, c),
                b <= nb,
                effect_views(v@) == found_effects(*a, mut_args@, b as int),
            decreases nb - b,
        {
            if reach.contains(b) {
                let stmts = &a.body.basic_blocks[b].statements;
                let mut k: usize = 0;
                let ghost start = effect_views(v@);
                while k < stmts.len()
                    invariant
                        self.wf(),
                        a == &self.analysis,
                        mut_args.size() == a.np(),
                        b < nb,
                        nb == a.body.basic_blocks@.len(),
                        stmts == &a.body.basic_blocks@[b as int].statements,
                        k <= stmts@.len(),
                        effect_views(v@) == start + block_effects(*a, mut_args@, b as int, k as int),
                    decreases stmts@.len() - k,
                {
                    let ghost before = v@;
                    let ghost e = statement_effect(*a, mut_args@, b as int, k as int);
                    let loc = Location { block: b, statement_index: k };
                    match &stmts[k].kind {
                        StatementKind::Assign(mutated, _) => {
                            if mutated.local == 0 {
                                v.push((EffectKind::Return, mutated.copy(), loc));
                                assert(effect_views(v@) =~= effect_views(before).push((EffectKind::Return, mutated@, loc)));
                            } else {
                                match domain_index(&a.place_domain, mutated) {
                                    Some(m) => {
                                        match a.first_alias_in(m, mut_args) {
                                            Some(i) => {
                                                proof {
                                                    let l = least(a.aliases.aliases.row(m as int).intersect(mut_args@));
                                                    let c = choose|c: int| #[trigger] a.aliases.aliases.row(m as int).intersect(mut_args@).contains(c)
                                                        && forall|j: int| #[trigger] a.aliases.aliases.row(m as int).intersect(mut_args@).contains(j) ==> c <= j;
                                                    assert(l == Some(c));
                                                    a.aliases.aliases.lemma_row_bounded(m as int);
                                                    assert(a.aliases.aliases.row(m as int).contains(c));
                                                }
                                                v.push((EffectKind::MutArg(i), a.place_domain[i].copy(), loc));
                                                assert(e == Some((EffectKind::MutArg(i), a.place_domain@[i as int]@)));
                                                assert(effect_views(v@) =~= effect_views(before).push((EffectKind::MutArg(i), a.place_domain@[i as int]@, loc)));
                                            },
                                            None => {},
                                        }
                                    },
                                    None => {},
                                }
                            }
                        },
                        _ => {},
                    }
                    assert(effect_views(v@) =~= start + block_effects(*a, mut_args@, b as int, k + 1));
                    k = k + 1;
                }
            }
            assert(effect_views(v@) =~= found_effects(*a, mut_args@, b + 1));
            b = b + 1;
        }
        v
    }
}

pub type RangeView = (usize, usize, Seq<char>);

/// The range reported for the statement or terminator at `l`: the narrowest
/// HIR span enclosing it, as a range of `file`; none when no span encloses
/// it, or the span does not lie in the file on the local disk.
pub open spec fn location_range(body: Body, spanner: HirSpanner, file: SourceFile, l: Location) -> Option<RangeView> {
    match narrowest_span(spanner.enclosing(location_span(body, l))) {
        Some(s) => match file.name {
            FileName::Real(name) => if file.start_pos <= s.lo && file.start_pos <= s.hi {
                Some(((s.lo - file.start_pos) as usize, (s.hi - file.start_pos) as usize, name@))
            } else {
                None
            },
            FileName::Other(_) => None,
        },
        None => None,
    }
}

/// The range reported for the statement or terminator at `l` (see `location_range`).
pub fn find_location_range(body: &Body, spanner: &HirSpanner, file: &SourceFile, l: Location) -> (r: Option<Range>)
    requires
        spanner.wf(),
        l.block < body.basic_blocks@.len(),
    ensures
        match r {
            Some(range) => location_range(*body, *spanner, *file, l) == Some(range@),
            None => location_range(*body, *spanner, *file, l) is None,
        },
{
    let spans = location_to_spans(l, body, spanner);
    proof { spanner.lemma_enclosing_wf(location_span(*body, l)); }
    match find_narrowest_span(&spans) {
        Some(s) => {
            if file.start_pos <= s.lo && file.start_pos <= s.hi {
                match Range::from_span(s, file) {
                    Ok(range) => Some(range),
                    Err(_) => None,
                }
            } else {
                None
            }
        },
        None => None,
    }
}

#[verifier::external_type_specification]
#[verifier::external_body]
#[verifier::reject_recursive_types(K)]
#[verifier::reject_recursive_types(V)]
pub struct ExIntervalTree<K, V>(IntervalTree<K, V>);

/// The intervals, as `(start, end)` pairs, that an interval tree holds.
pub uninterp spec fn tree_intervals(t: IntervalTree<usize, ()>) -> Set<(usize, usize)>;

/// `IntervalTree::from_iter`: a tree holding the intervals `start..end` of
/// the pairs, each with the value `()`.
#[verifier::external_body]
fn build_interval_tree(intervals: Vec<(usize, usize)>) -> (t: IntervalTree<usize, ()>)
    ensures
        tree_intervals(t) == intervals@.to_set(),
{
    intervals.into_iter().map(|(start, end)| (start..end, ())).collect()
}

/// `IntervalTree::query(start..end)` yields nothing: no interval of the tree
/// starts before `end` and ends after `start`.
#[verifier::external_body]
fn overlaps_none(t: &IntervalTree<usize, ()>, start: usize, end: usize) -> (none: bool)
    ensures
        none == forall|e: (usize, usize)| #[trigger] tree_intervals(*t).contains(e) ==> !(e.0 < end && start < e.1),
{
    t.query(start..end).next().is_none()
}

/// Two ranges share a position.
pub open spec fn overlaps(a: RangeView, b: RangeView) -> bool {
    a.0 < b.1 && b.0 < a.1
}

/// Range `r` overlaps a range of a slice other than slice `i`.
pub open spec fn overlaps_other(slices: Seq<Seq<RangeView>>, i: int, r: RangeView) -> bool {
    exists|j: int, k: int| 0 <= j < slices.len() && j != i && 0 <= k < slices[j].len() && overlaps(#[trigger] slices[j][k], r)
}

/// The first `n` ranges of slice `i` that overlap no range of another slice, in order.
pub open spec fn unique_prefix(slices: Seq<Seq<RangeView>>, i: int, n: int) -> Seq<RangeView>
    decreases n,
{
    if n <= 0 {
        Seq::empty()
    } else {
        let rest = unique_prefix(slices, i, n - 1);
        if overlaps_other(slices, i, slices[i][n - 1]) { rest } else { rest.push(slices[i][n - 1]) }
    }
}

/// The ranges that an effect's slice alone holds belong to its slice, and
/// no range of another effect's slice overlaps them.
pub proof fn lemma_unique_ranges(slices: Seq<Seq<RangeView>>, i: int)
    requires
        0 <= i < slices.len(),
    ensures
        forall|k: int| 0 <= k < unique_ranges(slices, i).len() ==> {
            let r = #[trigger] unique_ranges(slices, i)[k];
            &&& slices[i].contains(r)
            &&& forall|j: int, x: int| 0 <= j < slices.len() && j != i && 0 <= x < slices[j].len() ==> !overlaps(slices[j][x], r)
        },
{
    lemma_unique_prefix(slices, i, slices[i].len() as int);
}

proof fn lemma_unique_prefix(slices: Seq<Seq<RangeView>>, i: int, n: int)
    requires
        0 <= i < slices.len(),
        n <= slices[i].len(),
    ensures
        forall|k: int| 0 <= k < unique_prefix(slices, i, n).len() ==> {
            let r = #[trigger] unique_prefix(slices, i, n)[k];
            &&& slices[i].contains(r)
            &&& forall|j: int, x: int| 0 <= j < slices.len() && j != i && 0 <= x < slices[j].len() ==> !overlaps(slices[j][x], r)
        },
    decreases n,
{
    if n > 0 {
        lemma_unique_prefix(slices, i, n - 1);
        let rest = unique_prefix(slices, i, n - 1);
        let r = slices[i][n - 1];
        if !overlaps_other(slices, i, r) {
            assert forall|k: int| 0 <= k < unique_prefix(slices, i, n).len() implies {
                let q = #[trigger] unique_prefix(slices, i, n)[k];
                &&& slices[i].contains(q)
                &&& forall|j: int, x: int| 0 <= j < slices.len() && j != i && 0 <= x < slices[j].len() ==> !overlaps(slices[j][x], q)
            } by {
                if k < rest.len() {
                    assert(unique_prefix(slices, i, n)[k] == rest[k]);
                } else {
                    assert(unique_prefix(slices, i, n)[k] == r);
                    assert(slices[i][n - 1] == r);
                    assert forall|j: int, x: int| 0 <= j < slices.len() && j != i && 0 <= x < slices[j].len() implies !overlaps(slices[j][x], r) by {
                        if overlaps(slices[j][x], r) {
                            assert(overlaps_other(slices, i, r));
                        }
                    }
                }
            }
        }
    }
}

/// The ranges of slice `i` that overlap no range of another slice, in order.
pub open spec fn unique_ranges(slices: Seq<Seq<RangeView>>, i: int) -> Seq<RangeView> {
    unique_prefix(slices, i, slices[i].len() as int)
}

/// The views of a list of range lists.
pub open spec fn slice_views(v: Seq<Vec<Range>>) -> Seq<Seq<RangeView>> {
    v.map_values(|l: Vec<Range>| range_views(l@))
}

/// The positions of the ranges of every slice but slice `i`.
fn other_intervals(slices: &Vec<Vec<Range>>, i: usize) -> (v: Vec<(usize, usize)>)
    ensures
        forall|e: (usize, usize)| v@.contains(e) <==> exists|j: int, k: int| 0 <= j < slices@.len() && j != i
            && 0 <= k < slices@[j]@.len() && e.0 == (#[trigger] slices@[j]@[k]).start && e.1 == slices@[j]@[k].end,
{
    let mut v: Vec<(usize, usize)> = Vec::new();
    let mut j: usize = 0;
    while j < slices.len()
        invariant
            j <= slices@.len(),
            forall|e: (usize, usize)| v@.contains(e) <==> exists|j2: int, k: int| 0 <= j2 < j && j2 != i
                && 0 <= k < slices@[j2]@.len() && e.0 == (#[trigger] slices@[j2]@[k]).start && e.1 == slices@[j2]@[k].end,
        decreases slices@.len() - j,
    {
        if j != i {
            let list = &slices[j];
            let mut k: usize = 0;
            while k < list.len()
                invariant
                    j < slices@.len(),
                    j != i,
                    list == &slices@[j as int],
                    k <= list@.len(),
                    forall|e: (usize, usize)| v@.contains(e) <==> (exists|j2: int, k2: int| 0 <= j2 < j && j2 != i
                        && 0 <= k2 < slices@[j2]@.len() && e.0 == (#[trigger] slices@[j2]@[k2]).start && e.1 == slices@[j2]@[k2].end)
                        || (exists|k2: int| 0 <= k2 < k && e.0 == (#[trigger] list@[k2]).start && e.1 == list@[k2].end),
                decreases list@.len() - k,
            {
                let ghost before = v@;
                v.push((list[k].start, list[k].end));
                assert forall|e: (usize, usize)| v@.contains(e) <==> (exists|j2: int, k2: int| 0 <= j2 < j && j2 != i
                        && 0 <= k2 < slices@[j2]@.len() && e.0 == (#[trigger] slices@[j2]@[k2]).start && e.1 == slices@[j2]@[k2].end)
                        || (exists|k2: int| 0 <= k2 < k + 1 && e.0 == (#[trigger] list@[k2]).start && e.1 == list@[k2].end) by {
                    if v@.contains(e) {
                        let x = choose|x: int| 0 <= x < v@.len() && v@[x] == e;
                        if x < before.len() {
                            assert(before[x] == e);
                            assert(before.contains(e));
                            if exists|k2: int| 0 <= k2 < k && e.0 == (#[trigger] list@[k2]).start && e.1 == list@[k2].end {
                                let k2 = choose|k2: int| 0 <= k2 < k && e.0 == (#[trigger] list@[k2]).start && e.1 == list@[k2].end;
                                assert(0 <= k2 < k + 1 && e.0 == list@[k2].start && e.1 == list@[k2].end);
                            }
                        } else {
                            assert(e.0 == list@[k as int].start && e.1 == list@[k as int].end);
                        }
                    }
                    if exists|k2: int| 0 <= k2 < k + 1 && e.0 == (#[trigger] list@[k2]).start && e.1 == list@[k2].end {
                        let k2 = choose|k2: int| 0 <= k2 < k + 1 && e.0 == (#[trigger] list@[k2]).start && e.1 == list@[k2].end;
                        if k2 < k {
                            assert(before.contains(e));
                            let x = choose|x: int| 0 <= x < before.len() && before[x] == e;
                            assert(v@[x] == e);
                        } else {
                            assert(v@[before.len() as int] == e);
                        }
                    }
                    if exists|j2: int, k2: int| 0 <= j2 < j && j2 != i
                        && 0 <= k2 < slices@[j2]@.len() && e.0 == (#[trigger] slices@[j2]@[k2]).start && e.1 == slices@[j2]@[k2].end {
                        assert(before.contains(e));
                        let x = choose|x: int| 0 <= x < before.len() && before[x] == e;
                        assert(v@[x] == e);
                    }
                }
                k = k + 1;
            }
            assert forall|e: (usize, usize)| v@.contains(e) <==> exists|j2: int, k2: int| 0 <= j2 < j + 1 && j2 != i
                && 0 <= k2 < slices@[j2]@.len() && e.0 == (#[trigger] slices@[j2]@[k2]).start && e.1 == slices@[j2]@[k2].end by {
                if exists|k2: int| 0 <= k2 < list@.len() && e.0 == (#[trigger] list@[k2]).start && e.1 == list@[k2].end {
                    let k2 = choose|k2: int| 0 <= k2 < list@.len() && e.0 == (#[trigger] list@[k2]).start && e.1 == list@[k2].end;
                    assert(slices@[j as int]@[k2] == list@[k2]);
                }
            }
        }
        j = j + 1;
    }
    v
}

/// For each slice, its ranges that overlap no range of another slice (see
/// `unique_ranges`): the others' ranges go into an interval tree, which is
/// asked for each range.
pub fn unique_slices(slices: &Vec<Vec<Range>>) -> (u: Vec<Vec<Range>>)
    ensures
        u@.len() == slices@.len(),
        forall|i: int| 0 <= i < u@.len() ==> range_views((#[trigger] u@[i])@) == unique_ranges(slice_views(slices@), i),
{
    let ghost sv = slice_views(slices@);
    let mut u: Vec<Vec<Range>> = Vec::new();
    let mut i: usize = 0;
    while i < slices.len()
        invariant
            i <= slices@.len(),
            sv == slice_views(slices@),
            u@.len() == i,
            forall|i2: int| 0 <= i2 < i ==> range_views((#[trigger] u@[i2])@) == unique_ranges(sv, i2),
        decreases slices@.len() - i,
    {
        let others = other_intervals(slices, i);
        let tree = build_interval_tree(others);
        let list = &slices[i];
        let mut kept: Vec<Range> = Vec::new();
        let mut k: usize = 0;
        while k < list.len()
            invariant
                i < slices@.len(),
                sv == slice_views(slices@),
                list == &slices@[i as int],
                k <= list@.len(),
                forall|e: (usize, usize)| #[trigger] tree_intervals(tree).contains(e) <==> exists|j: int, k2: int| 0 <= j < slices@.len() && j != i
                    && 0 <= k2 < slices@[j]@.len() && e.0 == (#[trigger] slices@[j]@[k2]).start && e.1 == slices@[j]@[k2].end,
                range_views(kept@) == unique_prefix(sv, i as int, k as int),
            decreases list@.len() - k,
        {
            let r = &list[k];
            let none = overlaps_none(&tree, r.start, r.end);
            proof {
                assert(sv[i as int] == range_views(list@));
                assert(sv[i as int][k as int] == r@);
                if overlaps_other(sv, i as int, r@) {
                    let (j, k2) = choose|j: int, k2: int| 0 <= j < sv.len() && j != i && 0 <= k2 < sv[j].len() && overlaps(#[trigger] sv[j][k2], r@);
                    assert(sv[j][k2] == slices@[j]@[k2]@);
                    let e = (slices@[j]@[k2].start, slices@[j]@[k2].end);
                    assert(tree_intervals(tree).contains(e));
                    assert(!none);
                }
                if !none {
                    let e = choose|e: (usize, usize)| #[trigger] tree_intervals(tree).contains(e) && !!(e.0 < r.end && r.start < e.1);
                    let (j, k2) = choose|j: int, k2: int| 0 <= j < slices@.len() && j != i
                        && 0 <= k2 < slices@[j]@.len() && e.0 == (#[trigger] slices@[j]@[k2]).start && e.1 == slices@[j]@[k2].end;
                    assert(sv[j][k2] == slices@[j]@[k2]@);
                    assert(overlaps(sv[j][k2], r@));
                }
            }
            let ghost before = kept@;
            if none {
                kept.push(r.copy());
            }
            assert(range_views(kept@) =~= unique_prefix(sv, i as int, k + 1));
            k = k + 1;
        }
        assert(sv[i as int].len() == list@.len());
        u.push(kept);
        i = i + 1;
    }
    u
}

/// The decimal digit `d`.
pub open spec fn digit(d: nat) -> char {
    if d == 0 { '0' } else if d == 1 { '1' } else if d == 2 { '2' } else if d == 3 { '3' } else if d == 4 { '4' }
    else if d == 5 { '5' } else if d == 6 { '6' } else if d == 7 { '7' } else if d == 8 { '8' } else { '9' }
}

/// The decimal notation of `n`.
pub open spec fn decimal(n: nat) -> Seq<char>
    decreases n,
{
    if n < 10 { seq![digit(n)] } else { decimal(n / 10).push(digit(n % 10)) }
}

fn digit_str(d: u64) -> (s: &'static str)
    requires
        d < 10,
    ensures
        s@ == seq![digit(d as nat)],
{
    if d == 0 { proof { reveal_strlit("0"); } "0" }
    else if d == 1 { proof { reveal_strlit("1"); } "1" }
    else if d == 2 { proof { reveal_strlit("2"); } "2" }
    else if d == 3 { proof { reveal_strlit("3"); } "3" }
    else if d == 4 { proof { reveal_strlit("4"); } "4" }
    else if d == 5 { proof { reveal_strlit("5"); } "5" }
    else if d == 6 { proof { reveal_strlit("6"); } "6" }
    else if d == 7 { proof { reveal_strlit("7"); } "7" }
    else if d == 8 { proof { reveal_strlit("8"); } "8" }
    else { proof { reveal_strlit("9"); } "9" }
}

/// Appends the decimal notation of `n`.
pub(crate) fn push_decimal(s: &mut String, n: u64)
    ensures
        final(s)@ == old(s)@ + decimal(n as nat),
    decreases n,
{
    if n >= 10 {
        push_decimal(s, n / 10);
    }
    s.append(digit_str(n % 10));
}

/// The text that names projection element `e` of a place whose prefix has
/// type `ty`: `.i` for a tuple field, `.name` for a field of a data type
/// (counted over the fields of all its variants), ` as Variant` for a
/// downcast, nothing for a dereference, `[]`, `[TODO]` and `[from..to]` for
/// indices and subslices. `None` when the element does not fit the type.
pub open spec fn elem_name(ty: Option<Ty>, e: ProjElem) -> Option<Seq<char>> {
    match e {
        ProjElem::Field(f) => match ty {
            Some(Ty::Tuple(_)) => Some(seq!['.'] + decimal(f as nat)),
            Some(Ty::Adt { names, .. }) => if f < names.fields@.len() { Some(seq!['.'] + names.fields@[f as int]@) } else { None },
            _ => None,
        },
        ProjElem::Downcast(v) => match ty {
            Some(Ty::Adt { names, .. }) => if v < names.variants@.len() { Some(seq![' ', 'a', 's', ' '] + names.variants@[v as int]@) } else { None },
            _ => None,
        },
        ProjElem::Deref => Some(Seq::empty()),
        ProjElem::Index(_) => Some(seq!['[', ']']),
        ProjElem::ConstantIndex { .. } => Some(seq!['[', 'T', 'O', 'D', 'O', ']']),
        ProjElem::Subslice { from, to, .. } => Some(seq!['['] + decimal(from as nat) + seq!['.', '.'] + decimal(to as nat) + seq![']']),
    }
}

/// The names of the first `n` projection elements of `place`, one after the
/// other (see `elem_name`); `None` when one does not fit its type.
pub open spec fn projection_name(decls: Seq<Ty>, place: (usize, PathView), n: int) -> Option<Seq<char>>
    decreases n,
{
    if n <= 0 {
        Some(Seq::empty())
    } else {
        match projection_name(decls, place, n - 1) {
            Some(s) => match elem_name(place_ty_spec(decls, (place.0, place.1.take(n - 1))), place.1[n - 1]) {
                Some(t) => Some(s + t),
                None => None,
            },
            None => None,
        }
    }
}

proof fn lemma_projection_name_none(decls: Seq<Ty>, place: (usize, PathView), k: int, n: int)
    requires
        k <= n,
        projection_name(decls, place, k) is None,
    ensures
        projection_name(decls, place, n) is None,
    decreases n - k,
{
    if k < n {
        lemma_projection_name_none(decls, place, k, n - 1);
    }
}

/// The sort key of an argument place: its local, then each field index of
/// its projection (other elements count as 0).
pub open spec fn place_order(place: (usize, PathView)) -> Seq<usize> {
    seq![place.0] + place.1.map_values(|e: ProjElem| match e { ProjElem::Field(f) => f, _ => 0usize })
}

/// The source text of `span` in a file starting at `start_pos` whose bytes
/// are `bytes`, when the span lies in the file and its bytes are valid UTF-8.
pub open spec fn snippet(bytes: Seq<u8>, start_pos: usize, span: crate::body::Span) -> Option<Seq<char>> {
    if start_pos <= span.lo <= span.hi && span.hi - start_pos <= bytes.len()
        && valid_utf8(bytes.subrange(span.lo - start_pos, span.hi - start_pos)) {
        Some(decode_utf8(bytes.subrange(span.lo - start_pos, span.hi - start_pos)))
    } else {
        None
    }
}

/// The name of argument place `place`: `self` for the first argument of a
/// method with a `self` parameter, else the source text of the local's
/// declaration; then the names of its projection elements.
pub open spec fn arg_place_name(body: Body, bytes: Seq<u8>, start_pos: usize, has_self: bool, place: (usize, PathView)) -> Option<Seq<char>> {
    let local_name = if place.0 == 1 && has_self {
        Some(seq!['s', 'e', 'l', 'f'])
    } else if place.0 < body.local_spans@.len() {
        snippet(bytes, start_pos, body.local_spans@[place.0 as int])
    } else {
        None
    };
    match local_name {
        Some(l) => match projection_name(body.local_tys@, place, place.1.len() as int) {
            Some(p) => Some(l + p),
            None => None,
        },
        None => None,
    }
}

/// The source text of `span` (see `snippet`).
fn span_snippet(source: &str, start_pos: usize, span: crate::body::Span) -> (r: Option<String>)
    ensures
        match r {
            Some(t) => snippet(source.spec_bytes(), start_pos, span) == Some(t@),
            None => snippet(source.spec_bytes(), start_pos, span) is None,
        },
{
    let bytes = source.as_bytes();
    if !(start_pos <= span.lo && span.lo <= span.hi && span.hi - start_pos <= bytes.len()) {
        return None;
    }
    let lo = span.lo - start_pos;
    let hi = span.hi - start_pos;
    let mut v: Vec<u8> = Vec::new();
    let mut i = lo;
    while i < hi
        invariant
            lo <= i <= hi,
            hi <= bytes@.len(),
            bytes@ == source.spec_bytes(),
            v@ == bytes@.subrange(lo as int, i as int),
        decreases hi - i,
    {
        v.push(bytes[i]);
        assert(v@ =~= bytes@.subrange(lo as int, i + 1));
        i = i + 1;
    }
    crate::config::string_from_utf8(v)
}

/// Appends the name of projection element `e` of a place whose prefix has
/// type `ty` (see `elem_name`); false when it does not fit the type.
fn push_elem_name(s: &mut String, ty: Option<&Ty>, e: ProjElem) -> (ok: bool)
    ensures
        match elem_name(match ty { Some(t) => Some(*t), None => None }, e) {
            Some(t) => ok && final(s)@ == old(s)@ + t,
            None => !ok,
        },
{
    match e {
        ProjElem::Field(f) => match ty {
            Some(Ty::Tuple(_)) => {
                proof { reveal_strlit("."); }
                s.append(".");
                push_decimal(s, f as u64);
                true
            },
            Some(Ty::Adt { names, .. }) => {
                if f < names.fields.len() {
                    proof { reveal_strlit("."); }
                    s.append(".");
                    s.append(names.fields[f].as_str());
                    true
                } else {
                    false
                }
            },
            _ => false,
        },
        ProjElem::Downcast(v) => match ty {
            Some(Ty::Adt { names, .. }) => {
                if v < names.variants.len() {
                    proof { reveal_strlit(" as "); }
                    s.append(" as ");
                    s.append(names.variants[v].as_str());
                    true
                } else {
                    false
                }
            },
            _ => false,
        },
        ProjElem::Deref => {
            assert(s@ =~= old(s)@ + Seq::<char>::empty());
            true
        },
        ProjElem::Index(_) => {
            proof { reveal_strlit("[]"); }
            s.append("[]");
            true
        },
        ProjElem::ConstantIndex { .. } => {
            proof { reveal_strlit("[TODO]"); }
            s.append("[TODO]");
            true
        },
        ProjElem::Subslice { from, to, .. } => {
            proof { reveal_strlit("["); reveal_strlit(".."); reveal_strlit("]"); }
            s.append("[");
            push_decimal(s, from as u64);
            s.append("..");
            push_decimal(s, to as u64);
            s.append("]");
            assert(s@ =~= old(s)@ + (seq!['['] + decimal(from as nat) + seq!['.', '.'] + decimal(to as nat) + seq![']']));
            true
        },
    }
}

/// The name of an argument place and its sort key (see `arg_place_name`
/// and `place_order`); `None` when the name cannot be formed.
pub fn arg_name(body: &Body, source: &str, start_pos: usize, has_self: bool, place: &Place) -> (r: Option<(String, Vec<usize>)>)
    ensures
        match r {
            Some((name, order)) => arg_place_name(*body, source.spec_bytes(), start_pos, has_self, place@) == Some(name@)
                && order@ == place_order(place@),
            None => arg_place_name(*body, source.spec_bytes(), start_pos, has_self, place@) is None,
        },
{
    let mut name = if place.local == 1 && has_self {
        proof { reveal_strlit("self"); }
        String::from_str("self")
    } else if place.local < body.local_spans.len() {
        match span_snippet(source, start_pos, body.local_spans[place.local]) {
            Some(t) => t,
            None => { return None; },
        }
    } else {
        return None;
    };
    let ghost local_name = name@;
    let mut order: Vec<usize> = Vec::new();
    order.push(place.local);
    let mut i: usize = 0;
    while i < place.projection.len()
        invariant
            i <= place.projection@.len(),
            projection_name(body.local_tys@, place@, i as int) == Some(name@.skip(local_name.len() as int)),
            name@.take(local_name.len() as int) == local_name,
            local_name.len() <= name@.len(),
            order@ == seq![place.local] + place.projection@.take(i as int).map_values(|e: ProjElem| match e { ProjElem::Field(f) => f, _ => 0usize }),
        decreases place.projection@.len() - i,
    {
        let prefix = place.prefix(i);
        let ty = place_ty(&body.local_tys, &prefix);
        let e = place.projection[i];
        let ghost before = name@;
        let ok = push_elem_name(&mut name, ty, e);
        if !ok {
            proof {
                assert(projection_name(body.local_tys@, place@, i + 1) is None);
                lemma_projection_name_none(body.local_tys@, place@, i + 1, place.projection@.len() as int);
            }
            return None;
        }
        assert(name@.skip(local_name.len() as int) =~= before.skip(local_name.len() as int) + name@.skip(before.len() as int));
        assert(name@.take(local_name.len() as int) =~= before.take(local_name.len() as int));
        order.push(match e { ProjElem::Field(f) => f, _ => 0usize });
        assert(place.projection@.take(i + 1) =~= place.projection@.take(i as int).push(e));
        assert(order@ =~= seq![place.local] + place.projection@.take(i + 1).map_values(|e: ProjElem| match e { ProjElem::Field(f) => f, _ => 0usize }));
        i = i + 1;
    }
    assert(place.projection@.take(place.projection@.len() as int) =~= place.projection@);
    assert(name@ =~= local_name + name@.skip(local_name.len() as int));
    Some((name, order))
}

/// An effect of a function: the range of the statement that has it, the
/// ranges of the backward slice from it, and those of its ranges that the
/// slice of no other effect overlaps.
#[derive(Debug)]
pub struct Effect {
    pub effect: Range,
    pub slice: Vec<Range>,
    pub unique: Vec<Range>,
}

pub type EffectView = (RangeView, Seq<RangeView>, Seq<RangeView>);

impl View for Effect {
    type V = EffectView;

    open spec fn view(&self) -> EffectView {
        (self.effect@, range_views(self.slice@), range_views(self.unique@))
    }
}

/// The views of a list of effects.
pub open spec fn effect_list_views(v: Seq<Effect>) -> Seq<EffectView> {
    v.map_values(|e: Effect| e@)
}

/// The first position of `s` whose effect starts after `start` (the length
/// of `s` when none does).
pub open spec fn first_starting_after(s: Seq<EffectView>, start: usize, j: int) -> int
    decreases s.len() - j,
{
    if j >= s.len() { s.len() as int } else if s[j].0.0 > start { j } else { first_starting_after(s, start, j + 1) }
}

/// The effects sorted by the start of their range, stably: each is placed
/// after every earlier one that does not start after it.
pub open spec fn sort_by_start(s: Seq<EffectView>) -> Seq<EffectView>
    decreases s.len(),
{
    if s.len() == 0 {
        s
    } else {
        let sorted = sort_by_start(s.drop_last());
        sorted.insert(first_starting_after(sorted, s.last().0.0, 0), s.last())
    }
}

proof fn lemma_first_starting_after_bounds(s: Seq<EffectView>, start: usize, j: int)
    requires
        0 <= j <= s.len(),
    ensures
        j <= first_starting_after(s, start, j) <= s.len(),
    decreases s.len() - j,
{
    if j < s.len() && s[j].0.0 <= start {
        lemma_first_starting_after_bounds(s, start, j + 1);
    }
}

/// The effects sorted by the start of their range, stably (see `sort_by_start`).
pub fn sort_effects_by_start(v: Vec<Effect>) -> (r: Vec<Effect>)
    ensures
        effect_list_views(r@) == sort_by_start(effect_list_views(v@)),
{
    let ghost all = effect_list_views(v@);
    let mut rest = v;
    let mut out: Vec<Effect> = Vec::new();
    let ghost mut n: int = 0;
    while rest.len() > 0
        invariant
            0 <= n <= all.len(),
            effect_list_views(rest@) == all.skip(n),
            effect_list_views(out@) == sort_by_start(all.take(n)),
        decreases rest@.len(),
    {
        let ghost before_rest = rest@;
        assert(effect_list_views(before_rest).len() == before_rest.len());
        let e = rest.remove(0);
        proof {
            assert(effect_list_views(before_rest)[0] == e@);
            assert(all.skip(n)[0] == all[n]);
            assert(e@ == all[n]);
            assert forall|i: int| 0 <= i < rest@.len() implies #[trigger] effect_list_views(rest@)[i] == all.skip(n + 1)[i] by {
                assert(rest@[i] == before_rest[i + 1]);
                assert(effect_list_views(before_rest)[i + 1] == all.skip(n)[i + 1]);
            }
            assert(effect_list_views(rest@) =~= all.skip(n + 1));
            assert(all.take(n + 1).drop_last() =~= all.take(n));
            assert(all.take(n + 1).last() == all[n]);
        }
        let ghost sorted = effect_list_views(out@);
        let mut j: usize = 0;
        while j < out.len() && out[j].effect.start <= e.effect.start
            invariant
                j <= out@.len(),
                sorted == effect_list_views(out@),
                first_starting_after(sorted, e.effect.start, 0) == first_starting_after(sorted, e.effect.start, j as int),
            decreases out@.len() - j,
        {
            assert(sorted[j as int] == out@[j as int]@);
            j = j + 1;
        }
        proof {
            if j < out@.len() {
                assert(sorted[j as int] == out@[j as int]@);
            }
        }
        out.insert(j, e);
        proof {
            assert(effect_list_views(out@) =~= sorted.insert(j as int, e@));
            n = n + 1;
        }
    }
    proof {
        assert(all.skip(n).len() == 0);
        assert(all.take(n) =~= all);
    }
    out
}

/// Whether `a` comes before `b` in lexicographic order (a proper prefix
/// comes first).
pub open spec fn lex_lt(a: Seq<usize>, b: Seq<usize>) -> bool
    decreases a.len(),
{
    if a.len() == 0 {
        b.len() > 0
    } else if b.len() == 0 {
        false
    } else if a[0] != b[0] {
        a[0] < b[0]
    } else {
        lex_lt(a.drop_first(), b.drop_first())
    }
}

/// Whether `a` comes before `b` in lexicographic order.
fn lex_less(a: &Vec<usize>, b: &Vec<usize>) -> (r: bool)
    ensures
        r == lex_lt(a@, b@),
{
    let mut i: usize = 0;
    assert(a@.skip(0) =~= a@);
    assert(b@.skip(0) =~= b@);
    while i < a.len() && i < b.len() && a[i] == b[i]
        invariant
            i <= a@.len(),
            i <= b@.len(),
            lex_lt(a@, b@) == lex_lt(a@.skip(i as int), b@.skip(i as int)),
        decreases a@.len() - i,
    {
        assert(a@.skip(i as int).drop_first() =~= a@.skip(i + 1));
        assert(b@.skip(i as int).drop_first() =~= b@.skip(i + 1));
        i = i + 1;
    }
    if i == a.len() {
        i < b.len()
    } else if i == b.len() {
        false
    } else {
        assert(a@.skip(i as int)[0] == a@[i as int]);
        assert(b@.skip(i as int)[0] == b@[i as int]);
        a[i] < b[i]
    }
}

/// A group of effects: a name, a sort key and the effects.
pub type GroupView = (Seq<char>, Seq<usize>, Seq<EffectView>);

/// The position of the first group named `name`, if any.
pub open spec fn find_group(g: Seq<GroupView>, name: Seq<char>, j: int) -> Option<int>
    decreases g.len() - j,
{
    if j >= g.len() { None } else if g[j].0 == name { Some(j) } else { find_group(g, name, j + 1) }
}

proof fn lemma_find_group_bounds(g: Seq<GroupView>, name: Seq<char>, j: int)
    requires
        0 <= j,
    ensures
        find_group(g, name, j) matches Some(k) ==> j <= k < g.len() && g[k].0 == name,
    decreases g.len() - j,
{
    if j < g.len() && g[j].0 != name {
        lemma_find_group_bounds(g, name, j + 1);
    }
}

/// The first `n` named effects grouped by name, groups in order of first
/// appearance, each with the key of its last effect and its effects in order.
pub open spec fn grouped(entries: Seq<(Seq<char>, Seq<usize>, EffectView)>, n: int) -> Seq<GroupView>
    decreases n,
{
    if n <= 0 {
        Seq::empty()
    } else {
        let g = grouped(entries, n - 1);
        let e = entries[n - 1];
        match find_group(g, e.0, 0) {
            Some(j) => g.update(j, (e.0, e.1, g[j].2.push(e.2))),
            None => g.push((e.0, e.1, seq![e.2])),
        }
    }
}

/// The first position of `s` whose key comes after `key`.
pub open spec fn first_keyed_after(s: Seq<GroupView>, key: Seq<usize>, j: int) -> int
    decreases s.len() - j,
{
    if j >= s.len() { s.len() as int } else if lex_lt(key, s[j].1) { j } else { first_keyed_after(s, key, j + 1) }
}

/// The groups sorted by key, stably.
pub open spec fn sort_groups(s: Seq<GroupView>) -> Seq<GroupView>
    decreases s.len(),
{
    if s.len() == 0 {
        s
    } else {
        let sorted = sort_groups(s.drop_last());
        sorted.insert(first_keyed_after(sorted, s.last().1, 0), s.last())
    }
}

proof fn lemma_first_keyed_after_bounds(s: Seq<GroupView>, key: Seq<usize>, j: int)
    requires
        0 <= j <= s.len(),
    ensures
        j <= first_keyed_after(s, key, j) <= s.len(),
    decreases s.len() - j,
{
    if j < s.len() && !lex_lt(key, s[j].1) {
        lemma_first_keyed_after_bounds(s, key, j + 1);
    }
}

/// The effects of mutated arguments as reported: grouped by argument name
/// (see `grouped`), groups sorted by key, the effects of each sorted by start.
pub open spec fn arg_groups(entries: Seq<(Seq<char>, Seq<usize>, EffectView)>) -> Seq<(Seq<char>, Seq<EffectView>)> {
    sort_groups(grouped(entries, entries.len() as int)).map_values(|g: GroupView| (g.0, sort_by_start(g.2)))
}

/// The view of a named, keyed effect.
pub open spec fn entry_views(v: Seq<(String, Vec<usize>, Effect)>) -> Seq<(Seq<char>, Seq<usize>, EffectView)> {
    v.map_values(|e: (String, Vec<usize>, Effect)| (e.0@, e.1@, e.2@))
}

/// The view of a list of groups.
pub open spec fn group_views(v: Seq<(String, Vec<usize>, Vec<Effect>)>) -> Seq<GroupView> {
    v.map_values(|g: (String, Vec<usize>, Vec<Effect>)| (g.0@, g.1@, effect_list_views(g.2@)))
}

/// The view of the reported argument effects.
pub open spec fn arg_effect_views(v: Seq<(String, Vec<Effect>)>) -> Seq<(Seq<char>, Seq<EffectView>)> {
    v.map_values(|g: (String, Vec<Effect>)| (g.0@, effect_list_views(g.1@)))
}

/// Groups the named effects (see `arg_groups`).
pub fn group_arg_effects(entries: Vec<(String, Vec<usize>, Effect)>) -> (r: Vec<(String, Vec<Effect>)>)
    ensures
        arg_effect_views(r@) == arg_groups(entry_views(entries@)),
{
    let ghost ev = entry_views(entries@);
    let mut rest = entries;
    let mut groups: Vec<(String, Vec<usize>, Vec<Effect>)> = Vec::new();
    let ghost mut n: int = 0;
    while rest.len() > 0
        invariant
            0 <= n <= ev.len(),
            entry_views(rest@) == ev.skip(n),
            group_views(groups@) == grouped(ev, n),
        decreases rest@.len(),
    {
        let ghost before_rest = rest@;
        assert(entry_views(before_rest).len() == before_rest.len());
        let (name, key, e) = rest.remove(0);
        proof {
            assert(entry_views(before_rest)[0] == (name@, key@, e@));
            assert(ev.skip(n)[0] == ev[n]);
            assert(ev[n] == (name@, key@, e@));
            assert forall|i: int| 0 <= i < rest@.len() implies #[trigger] entry_views(rest@)[i] == ev.skip(n + 1)[i] by {
                assert(rest@[i] == before_rest[i + 1]);
                assert(entry_views(before_rest)[i + 1] == ev.skip(n)[i + 1]);
            }
            assert(entry_views(rest@) =~= ev.skip(n + 1));
        }
        let ghost g = group_views(groups@);
        let mut j: usize = 0;
        while j < groups.len() && !(groups[j].0 == name)
            invariant
                j <= groups@.len(),
                g == group_views(groups@),
                find_group(g, name@, 0) == find_group(g, name@, j as int),
            decreases groups@.len() - j,
        {
            assert(g[j as int].0 == groups@[j as int].0@);
            j = j + 1;
        }
        if j < groups.len() {
            assert(g[j as int].0 == groups@[j as int].0@);
            let (gname, _old_key, mut members) = groups.remove(j);
            let ghost old_members = effect_list_views(members@);
            assert(old_members == g[j as int].2);
            members.push(e);
            assert(effect_list_views(members@) =~= old_members.push(e@));
            groups.insert(j, (gname, key, members));
            proof {
                assert(group_views(groups@) =~= g.update(j as int, (name@, key@, g[j as int].2.push(e@))));
            }
        } else {
            let mut members: Vec<Effect> = Vec::new();
            members.push(e);
            assert(effect_list_views(members@) =~= seq![e@]);
            groups.push((name, key, members));
            proof {
                assert(group_views(groups@) =~= g.push((name@, key@, seq![e@])));
            }
        }
        proof { n = n + 1; }
    }
    proof {
        assert(ev.skip(n).len() == 0);
        assert(n == ev.len());
    }
    // Sort the groups by key, stably.
    let ghost all = group_views(groups@);
    let mut sorted: Vec<(String, Vec<usize>, Vec<Effect>)> = Vec::new();
    let ghost mut m: int = 0;
    while groups.len() > 0
        invariant
            0 <= m <= all.len(),
            group_views(groups@) == all.skip(m),
            group_views(sorted@) == sort_groups(all.take(m)),
        decreases groups@.len(),
    {
        let ghost before_groups = groups@;
        assert(group_views(before_groups).len() == before_groups.len());
        let grp = groups.remove(0);
        proof {
            assert(group_views(before_groups)[0] == (grp.0@, grp.1@, effect_list_views(grp.2@)));
            assert(all.skip(m)[0] == all[m]);
            assert forall|i: int| 0 <= i < groups@.len() implies #[trigger] group_views(groups@)[i] == all.skip(m + 1)[i] by {
                assert(groups@[i] == before_groups[i + 1]);
                assert(group_views(before_groups)[i + 1] == all.skip(m)[i + 1]);
            }
            assert(group_views(groups@) =~= all.skip(m + 1));
            assert(all.take(m + 1).drop_last() =~= all.take(m));
            assert(all.take(m + 1).last() == all[m]);
            assert(all[m] == (grp.0@, grp.1@, effect_list_views(grp.2@)));
        }
        let ghost sv = group_views(sorted@);
        let mut j: usize = 0;
        while j < sorted.len() && !lex_less(&grp.1, &sorted[j].1)
            invariant
                j <= sorted@.len(),
                sv == group_views(sorted@),
                first_keyed_after(sv, grp.1@, 0) == first_keyed_after(sv, grp.1@, j as int),
            decreases sorted@.len() - j,
        {
            assert(sv[j as int].1 == sorted@[j as int].1@);
            j = j + 1;
        }
        proof {
            if j < sorted@.len() {
                assert(sv[j as int].1 == sorted@[j as int].1@);
            }
        }
        sorted.insert(j, grp);
        proof {
            assert(group_views(sorted@) =~= sv.insert(j as int, all[m]));
            m = m + 1;
        }
    }
    proof {
        assert(all.take(m) =~= all);
    }
    // Sort the effects of each group by start.
    let ghost sg = group_views(sorted@);
    let mut out: Vec<(String, Vec<Effect>)> = Vec::new();
    let ghost mut k: int = 0;
    while sorted.len() > 0
        invariant
            0 <= k <= sg.len(),
            group_views(sorted@) == sg.skip(k),
            arg_effect_views(out@) == sg.take(k).map_values(|g: GroupView| (g.0, sort_by_start(g.2))),
        decreases sorted@.len(),
    {
        let ghost before_sorted = sorted@;
        assert(group_views(before_sorted).len() == before_sorted.len());
        let (name, _key, members) = sorted.remove(0);
        proof {
            assert(group_views(before_sorted)[0] == (name@, _key@, effect_list_views(members@)));
            assert(sg.skip(k)[0] == sg[k]);
            assert(sg[k] == (name@, _key@, effect_list_views(members@)));
            assert forall|i: int| 0 <= i < sorted@.len() implies #[trigger] group_views(sorted@)[i] == sg.skip(k + 1)[i] by {
                assert(sorted@[i] == before_sorted[i + 1]);
                assert(group_views(before_sorted)[i + 1] == sg.skip(k)[i + 1]);
            }
            assert(group_views(sorted@) =~= sg.skip(k + 1));
        }
        let members = sort_effects_by_start(members);
        let ghost prev_out = out@;
        out.push((name, members));
        proof {
            assert(sg.take(k + 1) =~= sg.take(k).push(sg[k]));
            assert(arg_effect_views(out@) =~= arg_effect_views(prev_out).push((name@, effect_list_views(members@))));
            assert(arg_effect_views(out@) =~= sg.take(k + 1).map_values(|g: GroupView| (g.0, sort_by_start(g.2))));
            k = k + 1;
        }
    }
    proof {
        assert(sg.take(k) =~= sg);
    }
    out
}

proof fn lemma_block_effects_locs(a: FlowAnalysis, m: Set<int>, b: int, k: int)
    requires
        0 <= b <= usize::MAX,
        k <= usize::MAX + 1,
    ensures
        forall|i: int| 0 <= i < block_effects(a, m, b, k).len() ==> {
            let l = (#[trigger] block_effects(a, m, b, k)[i]).2;
            l.block == b && l.statement_index < k
        },
    decreases k,
{
    if k > 0 {
        lemma_block_effects_locs(a, m, b, k - 1);
        let prev = block_effects(a, m, b, k - 1);
        let here: Seq<(EffectKind, (usize, PathView), Location)> = match statement_effect(a, m, b, k - 1) {
            Some(e) => seq![(e.0, e.1, Location { block: b as usize, statement_index: (k - 1) as usize })],
            None => Seq::empty(),
        };
        assert(block_effects(a, m, b, k) == prev + here);
        assert forall|i: int| 0 <= i < block_effects(a, m, b, k).len() implies {
            let l = (#[trigger] block_effects(a, m, b, k)[i]).2;
            l.block == b && l.statement_index < k
        } by {
            if i < prev.len() {
                assert(block_effects(a, m, b, k)[i] == prev[i]);
            } else {
                assert(block_effects(a, m, b, k)[i] == here[i - prev.len()]);
            }
        }
    }
}

proof fn lemma_found_effects_locs(a: FlowAnalysis, m: Set<int>, n: int)
    requires
        n <= a.body.basic_blocks@.len(),
        a.body.basic_blocks@.len() <= usize::MAX,
        forall|b: int| 0 <= b < a.body.basic_blocks@.len() ==> (#[trigger] a.body.basic_blocks@[b]).statements@.len() <= usize::MAX,
    ensures
        forall|i: int| 0 <= i < found_effects(a, m, n).len() ==> a.valid_location((#[trigger] found_effects(a, m, n)[i]).2),
    decreases n,
{
    if n > 0 {
        lemma_found_effects_locs(a, m, n - 1);
        let b = n - 1;
        let k = a.body.basic_blocks@[b].statements@.len() as int;
        lemma_block_effects_locs(a, m, b, k);
        let prev = found_effects(a, m, n - 1);
        let here = if reachable(a.body, b) { block_effects(a, m, b, k) } else { Seq::empty() };
        assert forall|i: int| 0 <= i < found_effects(a, m, n).len() implies a.valid_location((#[trigger] found_effects(a, m, n)[i]).2) by {
            if i < prev.len() {
                assert(found_effects(a, m, n)[i] == prev[i]);
            } else {
                assert(found_effects(a, m, n)[i] == here[i - prev.len()]);
            }
        }
    }
}

/// An effect kept for the report: its kind, the place it concerns, its
/// range and the ranges of its slice.
pub type KeptView = (EffectKind, (usize, PathView), RangeView, Seq<RangeView>);

/// The first `n` effects that have a range (see `location_range`), each
/// with its slice from `slices`.
pub open spec fn kept_effects(body: Body, spanner: HirSpanner, file: SourceFile, effs: Seq<(EffectKind, (usize, PathView), Location)>,
    slices: Seq<Seq<RangeView>>, n: int) -> Seq<KeptView>
    decreases n,
{
    if n <= 0 {
        Seq::empty()
    } else {
        let rest = kept_effects(body, spanner, file, effs, slices, n - 1);
        match location_range(body, spanner, file, effs[n - 1].2) {
            Some(r) => rest.push((effs[n - 1].0, effs[n - 1].1, r, slices[n - 1])),
            None => rest,
        }
    }
}

/// The slices of the kept effects.
pub open spec fn kept_slices(k: Seq<KeptView>) -> Seq<Seq<RangeView>> {
    k.map_values(|e: KeptView| e.3)
}

/// The reported view of kept effect `j`: its range, its slice, and the
/// ranges of its slice that no other kept effect's slice overlaps.
pub open spec fn kept_effect_view(k: Seq<KeptView>, j: int) -> EffectView {
    (k[j].2, k[j].3, unique_ranges(kept_slices(k), j))
}

/// The reported effects on the return value among the first `n` kept
/// effects; none when the function returns `()`.
pub open spec fn reported_returns(k: Seq<KeptView>, returns_unit: bool, n: int) -> Seq<EffectView>
    decreases n,
{
    if n <= 0 {
        Seq::empty()
    } else {
        let rest = reported_returns(k, returns_unit, n - 1);
        if k[n - 1].0 is Return && !returns_unit { rest.push(kept_effect_view(k, n - 1)) } else { rest }
    }
}

/// The effects on arguments among the first `n` kept effects, each with the
/// name and sort key of its argument place; `None` when a name cannot be formed.
pub open spec fn named_arg_effects(body: Body, bytes: Seq<u8>, start_pos: usize, has_self: bool, k: Seq<KeptView>, n: int)
    -> Option<Seq<(Seq<char>, Seq<usize>, EffectView)>>
    decreases n,
{
    if n <= 0 {
        Some(Seq::empty())
    } else {
        match named_arg_effects(body, bytes, start_pos, has_self, k, n - 1) {
            Some(rest) => if k[n - 1].0 is MutArg {
                match arg_place_name(body, bytes, start_pos, has_self, k[n - 1].1) {
                    Some(name) => Some(rest.push((name, place_order(k[n - 1].1), kept_effect_view(k, n - 1)))),
                    None => None,
                }
            } else {
                Some(rest)
            },
            None => None,
        }
    }
}

/// What the effects analysis reports for a function.
#[derive(Debug)]
pub struct EffectsOutput {
    /// For each mutated argument place, by name, the effects on it.
    pub args_effects: Vec<(String, Vec<Effect>)>,
    /// Ranges of the argument declarations, by argument position.
    pub arg_spans: Vec<(usize, Range)>,
    /// The effects on the return value.
    pub return_effects: Vec<Effect>,
    /// The range of the function body.
    pub body_span: Range,
    /// The path of the function.
    pub fn_name: String,
}

/// Why the effects of a function could not be reported.
#[derive(Debug, Clone, Copy, PartialEq, Eq, Structural)]
pub enum EffectsError {
    /// The body of the function does not lie in the file on the local disk.
    UnsupportedFile,
    /// A mutated argument place has no name: the source text of its local
    /// cannot be read, or a projection element does not fit its type.
    UnnamedArgument,
}

impl crate::config::FlowistryOutput for EffectsOutput {
    fn empty() -> (o: EffectsOutput)
        ensures
            o.args_effects@.len() == 0,
            o.arg_spans@.len() == 0,
            o.return_effects@.len() == 0,
            o.body_span@ == (0usize, 0usize, Seq::<char>::empty()),
            o.fn_name@ == Seq::<char>::empty(),
    {
        EffectsOutput {
            args_effects: Vec::new(),
            arg_spans: Vec::new(),
            return_effects: Vec::new(),
            body_span: Range::empty(),
            fn_name: String::new(),
        }
    }

    /// Appends the argument effects, argument ranges and return effects of
    /// `other`; the body range and the name become those of `other`.
    fn merge(&mut self, other: EffectsOutput)
        ensures
            final(self).args_effects@ == old(self).args_effects@ + other.args_effects@,
            final(self).arg_spans@ == old(self).arg_spans@ + other.arg_spans@,
            final(self).return_effects@ == old(self).return_effects@ + other.return_effects@,
            final(self).body_span == other.body_span,
            final(self).fn_name == other.fn_name,
    {
        let EffectsOutput { args_effects, arg_spans, return_effects, body_span, fn_name } = other;
        let mut a = args_effects;
        let mut s = arg_spans;
        let mut r = return_effects;
        self.args_effects.append(&mut a);
        self.arg_spans.append(&mut s);
        self.return_effects.append(&mut r);
        self.body_span = body_span;
        self.fn_name = fn_name;
    }
}

/// The targets of the slices of the effects: each effect's place at its location.
pub open spec fn effect_targets_match(targets: Seq<(Place, Location)>, effs: Seq<(EffectKind, (usize, PathView), Location)>) -> bool {
    &&& targets.len() == effs.len()
    &&& forall|i: int| 0 <= i < targets.len() ==> (#[trigger] targets[i]).0@ == effs[i].1 && targets[i].1 == effs[i].2
}

/// The ranges of a body span in `file`, when the file is on the local disk
/// and holds the span.
pub open spec fn span_range(file: SourceFile, span: Span) -> Option<RangeView> {
    match file.name {
        FileName::Real(name) => if file.start_pos <= span.lo && file.start_pos <= span.hi {
            Some(((span.lo - file.start_pos) as usize, (span.hi - file.start_pos) as usize, name@))
        } else {
            None
        },
        FileName::Other(_) => None,
    }
}

impl FlowResults {
    /// The effects of the analysed function: every reachable assignment to
    /// the return place or to a place an argument lets the function write
    /// (see `find_effects`), with the backward slice from it; effects whose
    /// statement has no range in `file` are dropped. Effects on the return
    /// value are reported unless the function returns `()`; effects on
    /// arguments are grouped by the name of the argument place (`source` is
    /// the text of `file`, `has_self` whether the function takes `self`).
    /// `body_span` and `fn_name` describe the function.
    pub fn analyze_effects(&self, spanner: &HirSpanner, file: &SourceFile, source: &str, has_self: bool, body_span: Span, fn_name: String)
        -> (r: Result<EffectsOutput, EffectsError>)
        requires
            self.wf(),
            spanner.wf(),
        ensures
            ({
                let a = self.analysis;
                let effs = found_effects(a, mut_arg_indices(a.place_domain@, a.body), a.body.basic_blocks@.len() as int);
                match r {
                    Ok(out) => exists|targets: Seq<(Place, Location)>, slices: Seq<Vec<Range>>| #![trigger effect_targets_match(targets, effs), slice_views(slices)] {
                        let k = kept_effects(a.body, *spanner, *file, effs, slice_views(slices), effs.len() as int);
                        &&& effect_targets_match(targets, effs)
                        &&& slices.len() == effs.len()
                        &&& forall|i: int| 0 <= i < slices.len() ==> self.ranges_for(targets[i], Direction::Backward, *spanner, *file, (#[trigger] slices[i])@)
                        &&& span_range(*file, body_span) == Some(out.body_span@)
                        &&& out.fn_name@ == fn_name@
                        &&& out.arg_spans@.len() == 0
                        &&& effect_list_views(out.return_effects@) == reported_returns(k, is_unit_spec(a.body.local_tys@, (0usize, Seq::empty())), k.len() as int)
                        &&& named_arg_effects(a.body, source.spec_bytes(), file.start_pos, has_self, k, k.len() as int) matches Some(entries)
                        &&& arg_effect_views(out.args_effects@) == arg_groups(entries)
                    },
                    Err(EffectsError::UnsupportedFile) => span_range(*file, body_span) is None,
                    Err(EffectsError::UnnamedArgument) => span_range(*file, body_span) is Some
                        && exists|targets: Seq<(Place, Location)>, slices: Seq<Vec<Range>>| #![trigger effect_targets_match(targets, effs), slice_views(slices)] {
                        let k = kept_effects(a.body, *spanner, *file, effs, slice_views(slices), effs.len() as int);
                        &&& effect_targets_match(targets, effs)
                        &&& slices.len() == effs.len()
                        &&& forall|i: int| 0 <= i < slices.len() ==> self.ranges_for(targets[i], Direction::Backward, *spanner, *file, (#[trigger] slices[i])@)
                        &&& named_arg_effects(a.body, source.spec_bytes(), file.start_pos, has_self, k, k.len() as int) is None
                    },
                }
            }),
    {
        let a = &self.analysis;
        let mut_args = a.mut_args();
        let effs = self.find_effects(&mut_args);
        let ghost ev = effect_views(effs@);
        let ghost nb = a.body.basic_blocks@.len() as int;
        proof {
            assert(a.body.basic_blocks@.len() == a.body.basic_blocks.len());
            assert forall|b: int| 0 <= b < a.body.basic_blocks@.len() implies (#[trigger] a.body.basic_blocks@[b]).statements@.len() <= usize::MAX by {
                assert(a.body.basic_blocks@[b].statements@.len() == a.body.basic_blocks@[b].statements.len());
            }
            lemma_found_effects_locs(*a, mut_args@, nb);
            lemma_found_effects_kinds(*a, mut_args@, nb);
        }
        // The slices, one per effect.
        let mut targets: Vec<(Place, Location)> = Vec::new();
        let mut i: usize = 0;
        while i < effs.len()
            invariant
                i <= effs@.len(),
                ev == effect_views(effs@),
                targets@.len() == i,
                forall|j: int| 0 <= j < i ==> (#[trigger] targets@[j]).0@ == ev[j].1 && targets@[j].1 == ev[j].2,
            decreases effs@.len() - i,
        {
            targets.push((effs[i].1.copy(), effs[i].2));
            i = i + 1;
        }
        assert(effect_targets_match(targets@, ev));
        proof {
            assert forall|j: int| 0 <= j < targets@.len() implies a.valid_location(#[trigger] targets@[j].1) by {
                assert(targets@[j].1 == ev[j].2);
            }
        }
        let slices = self.compute_dependency_ranges(&targets, Direction::Backward, spanner, file);
        let ghost slices_seq = slices@;
        let ghost sv = slice_views(slices@);
        assert(slices_seq.len() == ev.len());
        // The effects that have a range, with their slices.
        let mut kept_kinds: Vec<EffectKind> = Vec::new();
        let mut kept_ranges: Vec<Range> = Vec::new();
        let mut kept_slices_v: Vec<Vec<Range>> = Vec::new();
        let ghost mut kv: Seq<KeptView> = Seq::empty();
        let mut rest_slices = slices;
        let mut i: usize = 0;
        while i < effs.len()
            invariant
                i <= effs@.len(),
                ev == effect_views(effs@),
                sv.len() == ev.len(),
                spanner.wf(),
                forall|j: int| 0 <= j < ev.len() ==> a.valid_location(#[trigger] ev[j].2),
                forall|j: int| 0 <= j < ev.len() ==> {
                    let e = #[trigger] ev[j];
                    &&& (e.0 is Return ==> e.1.0 == 0)
                    &&& (e.0 matches EffectKind::MutArg(p) ==> 0 <= p < a.place_domain@.len() && e.1 == a.place_domain@[p as int]@)
                },
                slice_views(rest_slices@) == sv.skip(i as int),
                kv == kept_effects(a.body, *spanner, *file, ev, sv, i as int),
                kept_kinds@.len() == kv.len(),
                kept_ranges@.len() == kv.len(),
                kept_slices_v@.len() == kv.len(),
                forall|j: int| 0 <= j < kv.len() ==> {
                    &&& (#[trigger] kv[j]).0 == kept_kinds@[j]
                    &&& kv[j].2 == kept_ranges@[j]@
                    &&& kv[j].3 == range_views(kept_slices_v@[j]@)
                    &&& (kv[j].0 matches EffectKind::MutArg(p) ==> 0 <= p < a.place_domain@.len() && kv[j].1 == a.place_domain@[p as int]@)
                },
            decreases effs@.len() - i,
        {
            let ghost before_rest = rest_slices@;
            assert(slice_views(before_rest).len() == before_rest.len());
            let slice = rest_slices.remove(0);
            proof {
                assert(slice_views(before_rest)[0] == range_views(slice@));
                assert(sv.skip(i as int)[0] == sv[i as int]);
                assert forall|j: int| 0 <= j < rest_slices@.len() implies #[trigger] slice_views(rest_slices@)[j] == sv.skip(i + 1)[j] by {
                    assert(rest_slices@[j] == before_rest[j + 1]);
                    assert(slice_views(before_rest)[j + 1] == sv.skip(i as int)[j + 1]);
                }
                assert(slice_views(rest_slices@) =~= sv.skip(i + 1));
                assert(a.valid_location(ev[i as int].2));
            }
            let loc = effs[i].2;
            assert(ev[i as int].2 == loc);
            let ghost prev_kv = kv;
            match find_location_range(&a.body, spanner, file, loc) {
                Some(range) => {
                    let kind = effs[i].0;
                    assert(ev[i as int].0 == kind);
                    kept_kinds.push(kind);
                    kept_ranges.push(range);
                    kept_slices_v.push(slice);
                    proof {
                        kv = kv.push((ev[i as int].0, ev[i as int].1, range@, range_views(slice@)));
                        assert forall|j: int| 0 <= j < kv.len() implies {
                            &&& (#[trigger] kv[j]).0 == kept_kinds@[j]
                            &&& kv[j].2 == kept_ranges@[j]@
                            &&& kv[j].3 == range_views(kept_slices_v@[j]@)
                            &&& (kv[j].0 matches EffectKind::MutArg(p) ==> 0 <= p < a.place_domain@.len() && kv[j].1 == a.place_domain@[p as int]@)
                        } by {
                            if j < prev_kv.len() {
                                assert(kv[j] == prev_kv[j]);
                            } else {
                                let e = ev[i as int];
                                assert(e.0 matches EffectKind::MutArg(p) ==> 0 <= p < a.place_domain@.len() && e.1 == a.place_domain@[p as int]@);
                            }
                        }
                    }
                },
                None => {},
            }
            i = i + 1;
        }
        let ghost k_all = kv;
        assert(k_all == kept_effects(a.body, *spanner, *file, ev, slice_views(slices_seq), ev.len() as int));
        assert(kept_slices(k_all) =~= slice_views(kept_slices_v@));
        let uniques = unique_slices(&kept_slices_v);
        // The body range.
        let body_range = if file.start_pos <= body_span.lo && file.start_pos <= body_span.hi {
            match Range::from_span(body_span, file) {
                Ok(r) => r,
                Err(_) => { return Err(EffectsError::UnsupportedFile); },
            }
        } else {
            return Err(EffectsError::UnsupportedFile);
        };
        assert(span_range(*file, body_span) == Some(body_range@));
        // Build the reported effects.
        let returns_unit = is_unit(&a.body.local_tys, &Place::return_place());
        let mut return_effects: Vec<Effect> = Vec::new();
        let mut entries: Vec<(String, Vec<usize>, Effect)> = Vec::new();
        let mut rest_ranges = kept_ranges;
        let mut rest_kept = kept_slices_v;
        let mut rest_unique = uniques;
        let mut j: usize = 0;
        let nk = kept_kinds.len();
        while j < nk
            invariant
                nk == kept_kinds@.len(),
                nk == k_all.len(),
                j <= nk,
                rest_ranges@.len() == nk - j,
                rest_kept@.len() == nk - j,
                rest_unique@.len() == nk - j,
                forall|x: int| 0 <= x < nk - j ==> (#[trigger] rest_ranges@[x])@ == k_all[j + x].2,
                forall|x: int| 0 <= x < nk - j ==> range_views((#[trigger] rest_kept@[x])@) == k_all[j + x].3,
                forall|x: int| 0 <= x < nk - j ==> range_views((#[trigger] rest_unique@[x])@) == unique_ranges(kept_slices(k_all), j + x),
                forall|x: int| 0 <= x < k_all.len() ==> {
                    &&& (#[trigger] k_all[x]).0 == kept_kinds@[x]
                    &&& (k_all[x].0 matches EffectKind::MutArg(p) ==> 0 <= p < a.place_domain@.len() && k_all[x].1 == a.place_domain@[p as int]@)
                },
                returns_unit == is_unit_spec(a.body.local_tys@, (0usize, Seq::<ProjElem>::empty())),
                effect_list_views(return_effects@) == reported_returns(k_all, returns_unit, j as int),
                effect_targets_match(targets@, ev),
                slice_views(slices_seq) == sv,
                slices_seq.len() == ev.len(),
                k_all == kept_effects(a.body, *spanner, *file, ev, sv, ev.len() as int),
                ev == found_effects(*a, mut_args@, nb),
                mut_args@ == mut_arg_indices(a.place_domain@, a.body),
                nb == a.body.basic_blocks@.len(),
                a == &self.analysis,
                span_range(*file, body_span) == Some(body_range@),
                forall|x: int| 0 <= x < slices_seq.len() ==> self.ranges_for(targets@[x], Direction::Backward, *spanner, *file, (#[trigger] slices_seq[x])@),
                named_arg_effects(a.body, source.spec_bytes(), file.start_pos, has_self, k_all, j as int) == Some(entry_views(entries@)),
            decreases nk - j,
        {
            let ghost r0 = rest_ranges@;
            let ghost s0 = rest_kept@;
            let ghost u0 = rest_unique@;
            let range = rest_ranges.remove(0);
            let slice = rest_kept.remove(0);
            let unique = rest_unique.remove(0);
            proof {
                assert(range == r0[0]);
                assert(slice == s0[0]);
                assert(unique == u0[0]);
                assert forall|x: int| 0 <= x < nk - (j + 1) implies (#[trigger] rest_ranges@[x])@ == k_all[j + 1 + x].2 by {
                    assert(rest_ranges@[x] == r0[x + 1]);
                }
                assert forall|x: int| 0 <= x < nk - (j + 1) implies range_views((#[trigger] rest_kept@[x])@) == k_all[j + 1 + x].3 by {
                    assert(rest_kept@[x] == s0[x + 1]);
                }
                assert forall|x: int| 0 <= x < nk - (j + 1) implies range_views((#[trigger] rest_unique@[x])@) == unique_ranges(kept_slices(k_all), j + 1 + x) by {
                    assert(rest_unique@[x] == u0[x + 1]);
                }
            }
            let e = Effect { effect: range, slice, unique };
            assert(e@ == kept_effect_view(k_all, j as int));
            let kind = kept_kinds[j];
            match kind {
                EffectKind::Return => {
                    if !returns_unit {
                        let ghost prev = return_effects@;
                        return_effects.push(e);
                        assert(effect_list_views(return_effects@) =~= effect_list_views(prev).push(e@));
                    }
                },
                EffectKind::MutArg(p) => {
                    assert(k_all[j as int].0 == kind);
                    match arg_name(&a.body, source, file.start_pos, has_self, &a.place_domain[p]) {
                        Some((name, order)) => {
                            let ghost prev = entries@;
                            entries.push((name, order, e));
                            assert(entry_views(entries@) =~= entry_views(prev).push((name@, order@, e@)));
                        },
                        None => {
                            proof {
                                assert(k_all[j as int].1 == a.place_domain@[p as int]@);
                                lemma_named_none(a.body, source.spec_bytes(), file.start_pos, has_self, k_all, j + 1, k_all.len() as int);
                                assert(effect_targets_match(targets@, ev));
                                assert(slice_views(slices_seq) == sv);
                            }
                            return Err(EffectsError::UnnamedArgument);
                        },
                    }
                },
            }
            j = j + 1;
        }
        let args_effects = group_arg_effects(entries);
        let out = EffectsOutput { args_effects, arg_spans: Vec::new(), return_effects, body_span: body_range, fn_name };
        proof {
            assert(effect_targets_match(targets@, ev));
            assert(slice_views(slices_seq) == sv);
        }
        Ok(out)
    }
}

proof fn lemma_named_none(body: Body, bytes: Seq<u8>, start_pos: usize, has_self: bool, k: Seq<KeptView>, m: int, n: int)
    requires
        m <= n,
        named_arg_effects(body, bytes, start_pos, has_self, k, m) is None,
    ensures
        named_arg_effects(body, bytes, start_pos, has_self, k, n) is None,
    decreases n - m,
{
    if m < n {
        lemma_named_none(body, bytes, start_pos, has_self, k, m, n - 1);
    }
}

proof fn lemma_block_effects_kinds(a: FlowAnalysis, m: Set<int>, b: int, k: int)
    requires
        a.aliases.wf(a.np()),
        0 <= b <= usize::MAX,
        k <= usize::MAX + 1,
    ensures
        forall|i: int| 0 <= i < block_effects(a, m, b, k).len() ==> {
            let e = #[trigger] block_effects(a, m, b, k)[i];
            &&& (e.0 is Return ==> e.1.0 == 0)
            &&& (e.0 matches EffectKind::MutArg(p) ==> 0 <= p < a.place_domain@.len() && e.1 == a.place_domain@[p as int]@)
        },
    decreases k,
{
    if k > 0 {
        lemma_block_effects_kinds(a, m, b, k - 1);
        let prev = block_effects(a, m, b, k - 1);
        let here: Seq<(EffectKind, (usize, PathView), Location)> = match statement_effect(a, m, b, k - 1) {
            Some(e) => seq![(e.0, e.1, Location { block: b as usize, statement_index: (k - 1) as usize })],
            None => Seq::empty(),
        };
        match statement_effect(a, m, b, k - 1) {
            Some(e) => {
                match a.body.basic_blocks@[b].statements@[k - 1].kind {
                    StatementKind::Assign(mutated, _) => {
                        if mutated.local == 0 {
                            assert(e.1.0 == 0);
                        } else {
                            let mi = index_of(a.place_domain@, mutated@).unwrap();
                            let s = a.aliases.aliases.row(mi).intersect(m);
                            let c = choose|i: int| #[trigger] s.contains(i) && forall|j: int| #[trigger] s.contains(j) ==> i <= j;
                            a.aliases.aliases.lemma_row_bounded(mi);
                            assert(s.contains(c));
                            assert(0 <= c < a.place_domain@.len());
                            assert(a.place_domain@.len() == a.place_domain.len());
                            assert(e == (EffectKind::MutArg(c as usize), a.place_domain@[c]@));
                            assert((c as usize) as int == c);
                        }
                    },
                    _ => {},
                }
            },
            None => {},
        }
        assert(block_effects(a, m, b, k) == prev + here);
        assert forall|i: int| 0 <= i < block_effects(a, m, b, k).len() implies {
            let e = #[trigger] block_effects(a, m, b, k)[i];
            &&& (e.0 is Return ==> e.1.0 == 0)
            &&& (e.0 matches EffectKind::MutArg(p) ==> 0 <= p < a.place_domain@.len() && e.1 == a.place_domain@[p as int]@)
        } by {
            if i < prev.len() {
                assert(block_effects(a, m, b, k)[i] == prev[i]);
            } else {
                assert(block_effects(a, m, b, k)[i] == here[i - prev.len()]);
            }
        }
    }
}

proof fn lemma_found_effects_kinds(a: FlowAnalysis, m: Set<int>, n: int)
    requires
        a.aliases.wf(a.np()),
        n <= a.body.basic_blocks@.len(),
        a.body.basic_blocks@.len() <= usize::MAX,
        forall|b: int| 0 <= b < a.body.basic_blocks@.len() ==> (#[trigger] a.body.basic_blocks@[b]).statements@.len() <= usize::MAX,
    ensures
        forall|i: int| 0 <= i < found_effects(a, m, n).len() ==> {
            let e = #[trigger] found_effects(a, m, n)[i];
            &&& (e.0 is Return ==> e.1.0 == 0)
            &&& (e.0 matches EffectKind::MutArg(p) ==> 0 <= p < a.place_domain@.len() && e.1 == a.place_domain@[p as int]@)
        },
    decreases n,
{
    if n > 0 {
        lemma_found_effects_kinds(a, m, n - 1);
        let b = n - 1;
        let k = a.body.basic_blocks@[b].statements@.len() as int;
        lemma_block_effects_kinds(a, m, b, k);
        let prev = found_effects(a, m, n - 1);
        let here = if reachable(a.body, b) { block_effects(a, m, b, k) } else { Seq::empty() };
        assert forall|i: int| 0 <= i < found_effects(a, m, n).len() implies {
            let e = #[trigger] found_effects(a, m, n)[i];
            &&& (e.0 is Return ==> e.1.0 == 0)
            &&& (e.0 matches EffectKind::MutArg(p) ==> 0 <= p < a.place_domain@.len() && e.1 == a.place_domain@[p as int]@)
        } by {
            if i < prev.len() {
                assert(found_effects(a, m, n)[i] == prev[i]);
            } else {
                assert(found_effects(a, m, n)[i] == here[i - prev.len()]);
            }
        }
    }
}

/// How the function to analyse is given: by its path (without the crate),
/// or by a range inside it.
#[derive(Debug)]
pub enum FunctionIdentifier {
    Qpath(String),
    Range(Range),
}

/// Why the function to analyse could not be found.
#[derive(Debug, Clone, Copy, PartialEq, Eq, Structural)]
pub enum IdentifierError {
    /// No function has the given path.
    NoFunction,
}

/// The UTF-8 bytes of `path` after its first two bytes (its leading `::`) are `qpath`.
pub open spec fn path_is(path: Seq<char>, qpath: Seq<char>) -> bool {
    encode_utf8(path).len() >= 2 && encode_utf8(path).skip(2) == encode_utf8(qpath)
}

/// Whether `path` without its first two bytes is `qpath` (see `path_is`).
fn path_matches(path: &String, qpath: &String) -> (b: bool)
    ensures
        b == path_is(path@, qpath@),
{
    let p = path.as_str().as_bytes();
    let q = qpath.as_str().as_bytes();
    if p.len() < 2 || p.len() - 2 != q.len() {
        assert(p@.len() < 2 || p@.skip(2).len() != q@.len());
        return false;
    }
    let mut i: usize = 0;
    while i < q.len()
        invariant
            p@.len() == q@.len() + 2,
            p@.len() == p.len(),
            p@ == encode_utf8(path@),
            q@ == encode_utf8(qpath@),
            i <= q@.len(),
            forall|j: int| 0 <= j < i ==> p@[j + 2] == q@[j],
        decreases q@.len() - i,
    {
        if p[i + 2] != q[i] {
            assert(p@.skip(2)[i as int] != q@[i as int]);
            return false;
        }
        i = i + 1;
    }
    assert(p@.skip(2) =~= q@);
    true
}

/// The span of the last of the first `n` bodies whose path is `qpath` (see `path_is`).
pub open spec fn qpath_span(bodies: Seq<(String, Span)>, qpath: Seq<char>, n: int) -> Option<Span>
    decreases n,
{
    if n <= 0 {
        None
    } else if path_is(bodies[n - 1].0@, qpath) {
        Some(bodies[n - 1].1)
    } else {
        qpath_span(bodies, qpath, n - 1)
    }
}

/// The span of the function with path `qpath` among `bodies` (each body's
/// path, from the crate root with a leading `::`, and its span); the last
/// one when several match. Each path must split into characters after its
/// second byte.
pub fn qpath_to_span(bodies: &Vec<(String, Span)>, qpath: &String) -> (r: Result<Span, IdentifierError>)
    requires
        forall|k: int| 0 <= k < bodies@.len() ==> is_char_boundary(encode_utf8((#[trigger] bodies@[k]).0@), 2),
    ensures
        match r {
            Ok(span) => qpath_span(bodies@, qpath@, bodies@.len() as int) == Some(span),
            Err(e) => e == IdentifierError::NoFunction && qpath_span(bodies@, qpath@, bodies@.len() as int) is None,
        },
{
    let mut k = bodies.len();
    while k > 0
        invariant
            k <= bodies@.len(),
            qpath_span(bodies@, qpath@, bodies@.len() as int) == qpath_span(bodies@, qpath@, k as int),
        decreases k,
    {
        if path_matches(&bodies[k - 1].0, qpath) {
            return Ok(bodies[k - 1].1);
        }
        k = k - 1;
    }
    Err(IdentifierError::NoFunction)
}

impl FunctionIdentifier {
    /// The span of the function: that of the body with the path (see
    /// `qpath_to_span`), or that of the range in `file`.
    pub fn to_span(&self, bodies: &Vec<(String, Span)>, file: &SourceFile) -> (r: Result<Span, IdentifierError>)
        requires
            forall|k: int| 0 <= k < bodies@.len() ==> is_char_boundary(encode_utf8((#[trigger] bodies@[k]).0@), 2),
            self matches FunctionIdentifier::Range(range) ==> file.start_pos + range.start <= usize::MAX && file.start_pos + range.end <= usize::MAX,
        ensures
            match self {
                FunctionIdentifier::Qpath(q) => match r {
                    Ok(span) => qpath_span(bodies@, q@, bodies@.len() as int) == Some(span),
                    Err(_) => qpath_span(bodies@, q@, bodies@.len() as int) is None,
                },
                FunctionIdentifier::Range(range) => r matches Ok(span)
                    && span.lo == file.start_pos + range.start && span.hi == file.start_pos + range.end,
            },
    {
        match self {
            FunctionIdentifier::Qpath(q) => qpath_to_span(bodies, q),
            FunctionIdentifier::Range(range) => Ok(range.to_span(file)),
        }
    }
}

} // verus!
