use vstd::prelude::*;
use crate::mir::{Mutability, Place, ProjElem};

verus! {

/// The kind of an algebraic data type.
#[derive(Clone, Copy, Debug, PartialEq, Eq, Structural)]
pub enum AdtKind {
    Struct,
    Union,
    Enum,
}

/// A generic argument of an algebraic data type.
#[derive(Debug)]
pub enum GenericArg {
    Type(Ty),
    /// A lifetime: `Some(v)` is the region variable `v`, `None` is `'static`.
    Lifetime(Option<usize>),
}

/// How a closure may be called: through a shared reference, a mutable
/// reference, or once by value.
#[derive(Clone, Copy, Debug, PartialEq, Eq, Structural)]
pub enum ClosureKind {
    Fn,
    FnMut,
    FnOnce,
}

/// The names of an algebraic data type's variants, and of its fields: those
/// of all variants, one variant after the other.
#[derive(Debug)]
pub struct AdtNames {
    pub variants: Vec<String>,
    pub fields: Vec<String>,
}

/// A model of a Rust type, as far as the analysis looks into it.
#[derive(Debug)]
pub enum Ty {
    /// Integers, booleans, characters, strings and other leaf types.
    Prim,
    Tuple(Vec<Ty>),
    /// A struct (one variant), union, or enum; each variant lists its field
    /// types with the generic arguments already substituted.
    Adt { kind: AdtKind, variants: Vec<Vec<Ty>>, args: Vec<GenericArg>, names: AdtNames },
    /// An array or slice of the element type.
    Array(Box<Ty>),
    /// A reference; `region` is `Some(v)` for region variable `v`, `None` for `'static`.
    Ref { region: Option<usize>, mutability: Mutability, inner: Box<Ty> },
    /// `Box<T>`.
    Boxed(Box<Ty>),
    /// A closure: how it may be called, and the tuple of its captured variables.
    Closure { kind: ClosureKind, upvars: Box<Ty> },
    /// Raw pointers, function items and pointers, type parameters, trait
    /// objects, projections, opaque and foreign types, `!`.
    Opaque,
}

/// A region found inside a type: the region variable, the path from the
/// visited place to the reference, and whether the path permits writes.
pub type RegionEntry = (usize, Seq<ProjElem>, Mutability);

pub open spec fn mutability_under(shared: bool) -> Mutability {
    if shared { Mutability::Not } else { Mutability::Mut }
}

/// The regions met when visiting type `ty` reached through `path`, in
/// visiting order. `shared` records whether a shared reference encloses the
/// visit. Boxes, tuple and struct fields, enum variants, array elements and
/// the captures of closures are each visited in turn, as types of their own.
pub open spec fn regions_of(ty: Ty, path: Seq<ProjElem>, shared: bool) -> Seq<RegionEntry>
    decreases ty, 1int,
{
    let shared2 = shared || (ty matches Ty::Ref { mutability: Mutability::Not, .. });
    match ty {
        Ty::Boxed(inner) => regions_of(*inner, path.push(ProjElem::Deref), shared2),
        Ty::Tuple(fields) => tuple_regions(fields@, 0, path, shared2),
        Ty::Adt { kind, variants, args, .. } => match kind {
            AdtKind::Struct => if variants@.len() > 0 {
                field_regions(variants@[0]@, 0, path, shared2)
            } else {
                Seq::empty()
            },
            AdtKind::Union => Seq::empty(),
            AdtKind::Enum => variant_regions(variants@, 0, path, shared2),
        },
        Ty::Array(elem) => regions_of(*elem, path.push(ProjElem::Index(0)), shared2),
        Ty::Ref { region, mutability, inner } => {
            let here: Seq<RegionEntry> = match region {
                Some(v) => seq![(v, path, mutability_under(shared2))],
                None => Seq::empty(),
            };
            here + regions_of(*inner, path.push(ProjElem::Deref), shared2)
        },
        Ty::Closure { upvars, .. } => regions_of(*upvars, path, shared2),
        _ => Seq::empty(),
    }
}

/// Regions of the fields `i..` of a struct variant, each reached through `Field(j)`.
pub open spec fn field_regions(fields: Seq<Ty>, i: int, path: Seq<ProjElem>, shared: bool) -> Seq<RegionEntry>
    decreases fields, fields.len() - i,
{
    if 0 <= i < fields.len() {
        regions_of(fields[i], path.push(ProjElem::Field(i as usize)), shared) + field_regions(fields, i + 1, path, shared)
    } else {
        Seq::empty()
    }
}

/// Regions of the variants `v..` of an enum, each field reached through
/// `Downcast(v)` then `Field(j)`.
pub open spec fn variant_regions(variants: Seq<Vec<Ty>>, v: int, path: Seq<ProjElem>, shared: bool) -> Seq<RegionEntry>
    decreases variants, variants.len() - v,
{
    if 0 <= v < variants.len() {
        field_regions(variants[v]@, 0, path.push(ProjElem::Downcast(v as usize)), shared) + variant_regions(variants, v + 1, path, shared)
    } else {
        Seq::empty()
    }
}

/// Regions of the tuple fields `i..`, each visited as a type through `Field(j)`.
pub open spec fn tuple_regions(fields: Seq<Ty>, i: int, path: Seq<ProjElem>, shared: bool) -> Seq<RegionEntry>
    decreases fields, fields.len() - i,
{
    if 0 <= i < fields.len() {
        regions_of(fields[i], path.push(ProjElem::Field(i as usize)), shared) + tuple_regions(fields, i + 1, path, shared)
    } else {
        Seq::empty()
    }
}

/// The view of collected region entries.
pub open spec fn entry_views(v: Seq<(usize, Vec<ProjElem>, Mutability)>) -> Seq<RegionEntry> {
    v.map_values(|e: (usize, Vec<ProjElem>, Mutability)| (e.0, e.1@, e.2))
}

fn push_path(path: &Vec<ProjElem>, e: ProjElem) -> (r: Vec<ProjElem>)
    ensures
        r@ == path@.push(e),
{
    let mut r = path.clone();
    assert(r@ =~= path@);
    r.push(e);
    r
}

fn push_entry(out: &mut Vec<(usize, Vec<ProjElem>, Mutability)>, region: Option<usize>, path: &Vec<ProjElem>, shared: bool)
    ensures
        entry_views(final(out)@) == entry_views(old(out)@) + match region {
            Some(v) => seq![(v, path@, mutability_under(shared))],
            None => Seq::<RegionEntry>::empty(),
        },
{
    match region {
        Some(v) => {
            let m = if shared { Mutability::Not } else { Mutability::Mut };
            let p = path.clone();
            assert(p@ =~= path@);
            out.push((v, p, m));
            assert(entry_views(out@) =~= entry_views(old(out)@) + seq![(v, path@, mutability_under(shared))]);
        },
        None => {
            assert(entry_views(out@) =~= entry_views(old(out)@) + Seq::<RegionEntry>::empty());
        },
    }
}

/// Appends the regions met when visiting `ty` at `path` (see `regions_of`).
fn visit_ty(ty: &Ty, path: &Vec<ProjElem>, shared: bool, out: &mut Vec<(usize, Vec<ProjElem>, Mutability)>)
    ensures
        entry_views(final(out)@) == entry_views(old(out)@) + regions_of(*ty, path@, shared),
    decreases *ty, 1int,
{
    let shared2 = shared || matches!(ty, Ty::Ref { mutability: Mutability::Not, .. });
    match ty {
        Ty::Boxed(inner) => {
            let p = push_path(path, ProjElem::Deref);
            visit_ty(inner, &p, shared2, out);
        },
        Ty::Tuple(fields) => {
            let ghost start = entry_views(out@);
            let mut i: usize = 0;
            while i < fields.len()
                invariant
                    i <= fields@.len(),
                    *ty == Ty::Tuple(*fields),
                    entry_views(out@) + tuple_regions(fields@, i as int, path@, shared2) == start + tuple_regions(fields@, 0, path@, shared2),
                decreases fields@.len() - i,
            {
                let p = push_path(path, ProjElem::Field(i));
                let ghost before = entry_views(out@);
                proof {
                    assert(decreases_to!(*ty => (*ty)->Tuple_0));
                    assert(decreases_to!(*fields => fields@));
                    assert(decreases_to!(fields@ => fields@[i as int]));
                }
                visit_ty(&fields[i], &p, shared2, out);
                assert(entry_views(out@) + tuple_regions(fields@, i + 1, path@, shared2) =~= before + tuple_regions(fields@, i as int, path@, shared2));
                i = i + 1;
            }
            assert(entry_views(out@) =~= start + tuple_regions(fields@, 0, path@, shared2));
        },
        Ty::Adt { kind, variants, args, names } => {
            match kind {
                AdtKind::Struct => {
                    if variants.len() > 0 {
                        visit_fields(&variants[0], path, shared2, out);
                    } else {
                        assert(entry_views(out@) =~= entry_views(old(out)@) + Seq::<RegionEntry>::empty());
                    }
                },
                AdtKind::Union => {
                    assert(entry_views(out@) =~= entry_views(old(out)@) + Seq::<RegionEntry>::empty());
                },
                AdtKind::Enum => {
                    let ghost start = entry_views(out@);
                    let mut v: usize = 0;
                    while v < variants.len()
                        invariant
                            v <= variants@.len(),
                            *ty == (Ty::Adt { kind: *kind, variants: *variants, args: *args, names: *names }),
                            entry_views(out@) + variant_regions(variants@, v as int, path@, shared2) == start + variant_regions(variants@, 0, path@, shared2),
                        decreases variants@.len() - v,
                    {
                        let p = push_path(path, ProjElem::Downcast(v));
                        let ghost before = entry_views(out@);
                        proof {
                            assert(decreases_to!(*ty => (*ty)->variants));
                            assert(decreases_to!(*variants => variants@));
                            assert(decreases_to!(variants@ => variants@[v as int]));
                            assert(decreases_to!(variants@[v as int] => variants@[v as int]@));
                        }
                        visit_fields(&variants[v], &p, shared2, out);
                        assert(entry_views(out@) + variant_regions(variants@, v + 1, path@, shared2) =~= before + variant_regions(variants@, v as int, path@, shared2));
                        v = v + 1;
                    }
                    assert(entry_views(out@) =~= start + variant_regions(variants@, 0, path@, shared2));
                },
            }
        },
        Ty::Array(elem) => {
            let p = push_path(path, ProjElem::Index(0));
            visit_ty(elem, &p, shared2, out);
        },
        Ty::Ref { region, mutability, inner } => {
            let ghost start = entry_views(out@);
            push_entry(out, *region, path, shared2);
            let p = push_path(path, ProjElem::Deref);
            visit_ty(inner, &p, shared2, out);
            assert(entry_views(out@) =~= start + regions_of(*ty, path@, shared));
        },
        Ty::Closure { upvars, .. } => {
            visit_ty(upvars, path, shared2, out);
        },
        _ => {
            assert(entry_views(out@) =~= entry_views(old(out)@) + Seq::<RegionEntry>::empty());
        },
    }
}

/// Appends the regions of the struct variant `fields` (see `field_regions`).
fn visit_fields(fields: &Vec<Ty>, path: &Vec<ProjElem>, shared: bool, out: &mut Vec<(usize, Vec<ProjElem>, Mutability)>)
    ensures
        entry_views(final(out)@) == entry_views(old(out)@) + field_regions(fields@, 0, path@, shared),
    decreases fields@, 2int,
{
    let ghost start = entry_views(out@);
    let mut i: usize = 0;
    while i < fields.len()
        invariant
            i <= fields@.len(),
            entry_views(out@) + field_regions(fields@, i as int, path@, shared) == start + field_regions(fields@, 0, path@, shared),
        decreases fields@.len() - i,
    {
        let p = push_path(path, ProjElem::Field(i));
        let ghost before = entry_views(out@);
        visit_ty(&fields[i], &p, shared, out);
        assert(entry_views(out@) + field_regions(fields@, i + 1, path@, shared) =~= before + field_regions(fields@, i as int, path@, shared));
        i = i + 1;
    }
    assert(entry_views(out@) =~= start + field_regions(fields@, 0, path@, shared));
}

/// Two types are the same, regions included.
pub open spec fn same_ty(a: Ty, b: Ty) -> bool
    decreases a, 1int,
{
    match a {
        Ty::Prim => b is Prim,
        Ty::Tuple(x) => match b {
            Ty::Tuple(y) => x@.len() == y@.len() && same_tys(x@, y@, 0),
            _ => false,
        },
        Ty::Adt { kind, variants, args, .. } => match b {
            Ty::Adt { kind: k2, variants: v2, args: a2, .. } =>
                kind == k2 && variants@.len() == v2@.len() && same_variants(variants@, v2@, 0)
                && args@.len() == a2@.len() && same_args(args@, a2@, 0),
            _ => false,
        },
        Ty::Array(x) => match b {
            Ty::Array(y) => same_ty(*x, *y),
            _ => false,
        },
        Ty::Ref { region, mutability, inner } => match b {
            Ty::Ref { region: r2, mutability: m2, inner: i2 } => region == r2 && mutability == m2 && same_ty(*inner, *i2),
            _ => false,
        },
        Ty::Boxed(x) => match b {
            Ty::Boxed(y) => same_ty(*x, *y),
            _ => false,
        },
        Ty::Closure { kind: k1, upvars: x } => match b {
            Ty::Closure { kind: k2, upvars: y } => k1 == k2 && same_ty(*x, *y),
            _ => false,
        },
        Ty::Opaque => b is Opaque,
    }
}

/// The types `i..` of `x` are the same as those of `y`.
pub open spec fn same_tys(x: Seq<Ty>, y: Seq<Ty>, i: int) -> bool
    decreases x, x.len() - i,
{
    if 0 <= i < x.len() {
        i < y.len() && same_ty(x[i], y[i]) && same_tys(x, y, i + 1)
    } else {
        true
    }
}

/// The variants `i..` of `x` are the same as those of `y`.
pub open spec fn same_variants(x: Seq<Vec<Ty>>, y: Seq<Vec<Ty>>, i: int) -> bool
    decreases x, x.len() - i,
{
    if 0 <= i < x.len() {
        i < y.len() && x[i]@.len() == y[i]@.len() && same_tys(x[i]@, y[i]@, 0) && same_variants(x, y, i + 1)
    } else {
        true
    }
}

/// The generic arguments `i..` of `x` are the same as those of `y`.
pub open spec fn same_args(x: Seq<GenericArg>, y: Seq<GenericArg>, i: int) -> bool
    decreases x, x.len() - i,
{
    if 0 <= i < x.len() {
        &&& i < y.len()
        &&& match x[i] {
            GenericArg::Type(t) => match y[i] {
                GenericArg::Type(u) => same_ty(t, u),
                _ => false,
            },
            GenericArg::Lifetime(r) => match y[i] {
                GenericArg::Lifetime(r2) => r == r2,
                _ => false,
            },
        }
        &&& same_args(x, y, i + 1)
    } else {
        true
    }
}

/// Whether two types are the same, regions included.
pub fn same_type(a: &Ty, b: &Ty) -> (r: bool)
    ensures
        r == same_ty(*a, *b),
    decreases *a, 1int,
{
    match a {
        Ty::Prim => matches!(b, Ty::Prim),
        Ty::Tuple(x) => match b {
            Ty::Tuple(y) => {
                proof { assert(decreases_to!(*a => (*a)->Tuple_0)); }
                same_type_list(x, y)
            },
            _ => false,
        },
        Ty::Adt { kind, variants, args, .. } => match b {
            Ty::Adt { kind: k2, variants: v2, args: a2, .. } => {
                proof { assert(decreases_to!(*a => (*a)->variants)); assert(decreases_to!(*a => (*a)->args)); }
                *kind == *k2 && same_variant_list(variants, v2) && same_arg_list(args, a2)
            },
            _ => false,
        },
        Ty::Array(x) => match b {
            Ty::Array(y) => same_type(x, y),
            _ => false,
        },
        Ty::Ref { region, mutability, inner } => match b {
            Ty::Ref { region: r2, mutability: m2, inner: i2 } => {
                let same_region = match (region, r2) {
                    (Some(u), Some(v)) => *u == *v,
                    (None, None) => true,
                    _ => false,
                };
                let same_mut = match (mutability, m2) {
                    (Mutability::Mut, Mutability::Mut) => true,
                    (Mutability::Not, Mutability::Not) => true,
                    _ => false,
                };
                same_region && same_mut && same_type(inner, i2)
            },
            _ => false,
        },
        Ty::Boxed(x) => match b {
            Ty::Boxed(y) => same_type(x, y),
            _ => false,
        },
        Ty::Closure { kind: k1, upvars: x } => match b {
            Ty::Closure { kind: k2, upvars: y } => *k1 == *k2 && same_type(x, y),
            _ => false,
        },
        Ty::Opaque => matches!(b, Ty::Opaque),
    }
}

fn same_type_list(x: &Vec<Ty>, y: &Vec<Ty>) -> (r: bool)
    ensures
        r == (x@.len() == y@.len() && same_tys(x@, y@, 0)),
    decreases x@, 0int,
{
    if x.len() != y.len() {
        return false;
    }
    let mut i: usize = 0;
    while i < x.len()
        invariant
            i <= x@.len(),
            x@.len() == y@.len(),
            forall|j: int| 0 <= j < i ==> #[trigger] same_ty(x@[j], y@[j]),
        decreases x@.len() - i,
    {
        proof { assert(decreases_to!(x@ => x@[i as int])); }
        if !same_type(&x[i], &y[i]) {
            proof { lemma_same_tys_prefix(x@, y@, 0, i as int); }
            return false;
        }
        i = i + 1;
    }
    proof { lemma_same_tys_all(x@, y@, 0); }
    true
}

proof fn lemma_same_tys_prefix(x: Seq<Ty>, y: Seq<Ty>, i: int, j: int)
    requires
        0 <= i <= j < x.len(),
        !same_ty(x[j], y[j]),
    ensures
        !same_tys(x, y, i),
    decreases j - i,
{
    if i < j {
        lemma_same_tys_prefix(x, y, i + 1, j);
    }
}

proof fn lemma_same_tys_all(x: Seq<Ty>, y: Seq<Ty>, i: int)
    requires
        0 <= i,
        x.len() == y.len(),
        forall|j: int| i <= j < x.len() ==> #[trigger] same_ty(x[j], y[j]),
    ensures
        same_tys(x, y, i),
    decreases x.len() - i,
{
    if i < x.len() {
        lemma_same_tys_all(x, y, i + 1);
        assert(same_ty(x[i], y[i]));
    }
}

fn same_variant_list(x: &Vec<Vec<Ty>>, y: &Vec<Vec<Ty>>) -> (r: bool)
    ensures
        r == (x@.len() == y@.len() && same_variants(x@, y@, 0)),
    decreases x@, 0int,
{
    if x.len() != y.len() {
        return false;
    }
    let mut i: usize = 0;
    while i < x.len()
        invariant
            i <= x@.len(),
            x@.len() == y@.len(),
            forall|j: int| #![trigger x@[j]] 0 <= j < i ==> x@[j]@.len() == y@[j]@.len() && same_tys(x@[j]@, y@[j]@, 0),
        decreases x@.len() - i,
    {
        proof {
            assert(decreases_to!(x@ => x@[i as int]));
            assert(decreases_to!(x@[i as int] => x@[i as int]@));
        }
        if !same_type_list(&x[i], &y[i]) {
            proof { lemma_same_variants_prefix(x@, y@, 0, i as int); }
            return false;
        }
        i = i + 1;
    }
    proof { lemma_same_variants_all(x@, y@, 0); }
    true
}

proof fn lemma_same_variants_prefix(x: Seq<Vec<Ty>>, y: Seq<Vec<Ty>>, i: int, j: int)
    requires
        0 <= i <= j < x.len(),
        j < y.len(),
        !(x[j]@.len() == y[j]@.len() && same_tys(x[j]@, y[j]@, 0)),
    ensures
        !same_variants(x, y, i),
    decreases j - i,
{
    if i < j {
        lemma_same_variants_prefix(x, y, i + 1, j);
    }
}

proof fn lemma_same_variants_all(x: Seq<Vec<Ty>>, y: Seq<Vec<Ty>>, i: int)
    requires
        0 <= i,
        x.len() == y.len(),
        forall|j: int| #![trigger x[j]] i <= j < x.len() ==> x[j]@.len() == y[j]@.len() && same_tys(x[j]@, y[j]@, 0),
    ensures
        same_variants(x, y, i),
    decreases x.len() - i,
{
    if i < x.len() {
        lemma_same_variants_all(x, y, i + 1);
        assert(x[i]@.len() == y[i]@.len() && same_tys(x[i]@, y[i]@, 0));
    }
}

fn same_arg_list(x: &Vec<GenericArg>, y: &Vec<GenericArg>) -> (r: bool)
    ensures
        r == (x@.len() == y@.len() && same_args(x@, y@, 0)),
    decreases x@, 0int,
{
    if x.len() != y.len() {
        return false;
    }
    let mut i: usize = 0;
    while i < x.len()
        invariant
            i <= x@.len(),
            x@.len() == y@.len(),
            forall|j: int| 0 <= j < i ==> #[trigger] same_arg(x@[j], y@[j]),
        decreases x@.len() - i,
    {
        let same = match (&x[i], &y[i]) {
            (GenericArg::Type(t), GenericArg::Type(u)) => {
                proof {
                    assert(decreases_to!(x@ => x@[i as int]));
                    assert(decreases_to!(x@[i as int] => x@[i as int]->Type_0));
                }
                same_type(t, u)
            },
            (GenericArg::Lifetime(r1), GenericArg::Lifetime(r2)) => match (r1, r2) {
                (Some(u), Some(v)) => *u == *v,
                (None, None) => true,
                _ => false,
            },
            _ => false,
        };
        assert(same == same_arg(x@[i as int], y@[i as int]));
        if !same {
            proof { lemma_same_args_prefix(x@, y@, 0, i as int); }
            return false;
        }
        i = i + 1;
    }
    proof { lemma_same_args_all(x@, y@, 0); }
    true
}

proof fn lemma_same_args_all(x: Seq<GenericArg>, y: Seq<GenericArg>, i: int)
    requires
        0 <= i,
        x.len() == y.len(),
        forall|j: int| i <= j < x.len() ==> #[trigger] same_arg(x[j], y[j]),
    ensures
        same_args(x, y, i),
    decreases x.len() - i,
{
    if i < x.len() {
        lemma_same_args_all(x, y, i + 1);
        assert(same_arg(x[i], y[i]));
    }
}

/// Two generic arguments are the same.
pub open spec fn same_arg(a: GenericArg, b: GenericArg) -> bool {
    match a {
        GenericArg::Type(t) => match b {
            GenericArg::Type(u) => same_ty(t, u),
            _ => false,
        },
        GenericArg::Lifetime(r) => match b {
            GenericArg::Lifetime(r2) => r == r2,
            _ => false,
        },
    }
}

proof fn lemma_same_args_prefix(x: Seq<GenericArg>, y: Seq<GenericArg>, i: int, j: int)
    requires
        0 <= i <= j < x.len(),
        j < y.len(),
        !same_arg(x[j], y[j]),
    ensures
        !same_args(x, y, i),
    decreases j - i,
{
    if i < j {
        lemma_same_args_prefix(x, y, i + 1, j);
    }
}

/// The type reached by one projection step from `ty`, where `variant` is the
/// enum variant selected by a preceding downcast. `None` when the step does
/// not apply to the type.
pub open spec fn project_ty(ty: Ty, variant: Option<usize>, e: ProjElem) -> Option<(Ty, Option<usize>)> {
    match e {
        ProjElem::Deref => match ty {
            Ty::Ref { inner, .. } => Some((*inner, None)),
            Ty::Boxed(inner) => Some((*inner, None)),
            _ => None,
        },
        ProjElem::Field(f) => match variant {
            Some(v) => match ty {
                Ty::Adt { kind: AdtKind::Enum, variants, .. } =>
                    if v < variants@.len() && f < variants@[v as int]@.len() { Some((variants@[v as int]@[f as int], None)) } else { None },
                _ => None,
            },
            None => match ty {
                Ty::Tuple(fields) => if f < fields@.len() { Some((fields@[f as int], None)) } else { None },
                Ty::Adt { kind: AdtKind::Struct, variants, .. } =>
                    if 0 < variants@.len() && f < variants@[0]@.len() { Some((variants@[0]@[f as int], None)) } else { None },
                Ty::Adt { kind: AdtKind::Union, variants, .. } =>
                    if 0 < variants@.len() && f < variants@[0]@.len() { Some((variants@[0]@[f as int], None)) } else { None },
                Ty::Closure { upvars, .. } => match *upvars {
                    Ty::Tuple(fields) => if f < fields@.len() { Some((fields@[f as int], None)) } else { None },
                    _ => None,
                },
                _ => None,
            },
        },
        ProjElem::Index(_) => match ty {
            Ty::Array(elem) => Some((*elem, None)),
            _ => None,
        },
        ProjElem::ConstantIndex { .. } => match ty {
            Ty::Array(elem) => Some((*elem, None)),
            _ => None,
        },
        ProjElem::Subslice { .. } => match ty {
            Ty::Array(_) => Some((ty, None)),
            _ => None,
        },
        ProjElem::Downcast(v) => match ty {
            Ty::Adt { kind: AdtKind::Enum, .. } => Some((ty, Some(v))),
            _ => None,
        },
    }
}

/// The type of the value at the end of projection `proj` applied to a value of type `ty`.
pub open spec fn projection_ty(ty: Ty, variant: Option<usize>, proj: Seq<ProjElem>) -> Option<(Ty, Option<usize>)>
    decreases proj.len(),
{
    if proj.len() == 0 {
        Some((ty, variant))
    } else {
        match projection_ty(ty, variant, proj.drop_last()) {
            Some((t, v)) => project_ty(t, v, proj.last()),
            None => None,
        }
    }
}

/// The type of a place given the types of the locals.
pub open spec fn place_ty_spec(decls: Seq<Ty>, place: (usize, Seq<ProjElem>)) -> Option<Ty> {
    if place.0 < decls.len() {
        match projection_ty(decls[place.0 as int], None, place.1) {
            Some((t, _)) => Some(t),
            None => None,
        }
    } else {
        None
    }
}

fn project_step<'a>(ty: &'a Ty, variant: Option<usize>, e: ProjElem) -> (r: Option<(&'a Ty, Option<usize>)>)
    ensures
        match r {
            Some((t, v)) => project_ty(*ty, variant, e) == Some((*t, v)),
            None => project_ty(*ty, variant, e) is None,
        },
{
    match e {
        ProjElem::Deref => match ty {
            Ty::Ref { inner, .. } => Some((&**inner, None)),
            Ty::Boxed(inner) => Some((&**inner, None)),
            _ => None,
        },
        ProjElem::Field(f) => match variant {
            Some(v) => match ty {
                Ty::Adt { kind: AdtKind::Enum, variants, .. } => {
                    if v < variants.len() && f < variants[v].len() {
                        Some((&variants[v][f], None))
                    } else {
                        None
                    }
                },
                _ => None,
            },
            None => match ty {
                Ty::Tuple(fields) => if f < fields.len() { Some((&fields[f], None)) } else { None },
                Ty::Adt { kind: AdtKind::Struct, variants, .. } => {
                    if 0 < variants.len() && f < variants[0].len() { Some((&variants[0][f], None)) } else { None }
                },
                Ty::Adt { kind: AdtKind::Union, variants, .. } => {
                    if 0 < variants.len() && f < variants[0].len() { Some((&variants[0][f], None)) } else { None }
                },
                Ty::Closure { upvars, .. } => match &**upvars {
                    Ty::Tuple(fields) => if f < fields.len() { Some((&fields[f], None)) } else { None },
                    _ => None,
                },
                _ => None,
            },
        },
        ProjElem::Index(_) => match ty {
            Ty::Array(elem) => Some((&**elem, None)),
            _ => None,
        },
        ProjElem::ConstantIndex { .. } => match ty {
            Ty::Array(elem) => Some((&**elem, None)),
            _ => None,
        },
        ProjElem::Subslice { .. } => match ty {
            Ty::Array(_) => Some((ty, None)),
            _ => None,
        },
        ProjElem::Downcast(v) => match ty {
            Ty::Adt { kind: AdtKind::Enum, .. } => Some((ty, Some(v))),
            _ => None,
        },
    }
}

/// The type of `place`, given the types of the locals; `None` when the
/// local is unknown or the projection does not fit the type.
pub fn place_ty<'a>(decls: &'a Vec<Ty>, place: &Place) -> (r: Option<&'a Ty>)
    ensures
        match r {
            Some(t) => place_ty_spec(decls@, place@) == Some(*t),
            None => place_ty_spec(decls@, place@) is None,
        },
{
    if place.local >= decls.len() {
        return None;
    }
    let mut cur: &Ty = &decls[place.local];
    let mut variant: Option<usize> = None;
    let mut i: usize = 0;
    assert(place.projection@.take(0) =~= Seq::<ProjElem>::empty());
    while i < place.projection.len()
        invariant
            i <= place.projection@.len(),
            place.local < decls@.len(),
            projection_ty(decls@[place.local as int], None, place.projection@.take(i as int)) == Some((*cur, variant)),
        decreases place.projection@.len() - i,
    {
        assert(place.projection@.take(i + 1).drop_last() =~= place.projection@.take(i as int));
        match project_step(cur, variant, place.projection[i]) {
            Some((t, v)) => {
                cur = t;
                variant = v;
            },
            None => {
                proof {
                    lemma_projection_ty_none_extends(decls@[place.local as int], place.projection@, i as int + 1);
                    assert(place.projection@.take(place.projection@.len() as int) =~= place.projection@);
                }
                return None;
            },
        }
        i = i + 1;
    }
    assert(place.projection@.take(place.projection@.len() as int) =~= place.projection@);
    Some(cur)
}

proof fn lemma_projection_ty_none_extends(ty: Ty, proj: Seq<ProjElem>, k: int)
    requires
        0 <= k <= proj.len(),
        projection_ty(ty, None, proj.take(k)) is None,
    ensures
        projection_ty(ty, None, proj) is None,
    decreases proj.len() - k,
{
    if k < proj.len() {
        assert(proj.take(k + 1).drop_last() =~= proj.take(k));
        lemma_projection_ty_none_extends(ty, proj, k + 1);
    } else {
        assert(proj.take(k) =~= proj);
    }
}

/// The regions inside the type of `place`, each with the path (from the
/// place's local) of the reference carrying it, in visiting order. A place
/// whose type is unknown has none.
pub open spec fn interior_regions(decls: Seq<Ty>, place: (usize, Seq<ProjElem>)) -> Seq<RegionEntry> {
    match place_ty_spec(decls, place) {
        Some(t) => regions_of(t, Seq::empty(), false),
        None => Seq::empty(),
    }
}

/// Whether entry `k` is the last one for its region.
pub open spec fn is_last_for_region(entries: Seq<RegionEntry>, k: int) -> bool {
    &&& 0 <= k < entries.len()
    &&& forall|j: int| k < j < entries.len() ==> (#[trigger] entries[j]).0 != entries[k].0
}

/// The entries among the first `n` that are the last for their region, in order.
pub open spec fn last_entries(entries: Seq<RegionEntry>, n: int) -> Seq<RegionEntry>
    decreases n,
{
    if n <= 0 {
        Seq::empty()
    } else {
        let rest = last_entries(entries, n - 1);
        if is_last_for_region(entries, n - 1) { rest.push(entries[n - 1]) } else { rest }
    }
}

/// The pointers inside the type of `place`, keyed by region: a region met
/// more than once keeps its last occurrence.
pub open spec fn pointers_of(decls: Seq<Ty>, place: (usize, Seq<ProjElem>)) -> Seq<RegionEntry> {
    last_entries(interior_regions(decls, place), interior_regions(decls, place).len() as int)
}

/// The view of pointer entries: region, path and mutability.
pub open spec fn pointer_views(v: Seq<(usize, Place, Mutability)>) -> Seq<RegionEntry> {
    v.map_values(|e: (usize, Place, Mutability)| (e.0, e.1.projection@, e.2))
}

/// The pointers inside the value at `place`: for each region in its type,
/// the place of the reference carrying it (rooted at the place's local, with
/// the path inside the type) and whether it may be written through.
pub fn interior_pointers(decls: &Vec<Ty>, place: &Place) -> (r: Vec<(usize, Place, Mutability)>)
    ensures
        pointer_views(r@) == pointers_of(decls@, place@),
        forall|k: int| 0 <= k < r@.len() ==> (#[trigger] r@[k]).1.local == place.local,
{
    let mut entries: Vec<(usize, Vec<ProjElem>, Mutability)> = Vec::new();
    match place_ty(decls, place) {
        Some(t) => {
            let empty: Vec<ProjElem> = Vec::new();
            visit_ty(t, &empty, false, &mut entries);
            assert(entry_views(entries@) =~= interior_regions(decls@, place@));
        },
        None => {
            assert(entry_views(entries@) =~= interior_regions(decls@, place@));
        },
    }
    let ghost all = interior_regions(decls@, place@);
    let mut r: Vec<(usize, Place, Mutability)> = Vec::new();
    let mut i: usize = 0;
    while i < entries.len()
        invariant
            i <= entries@.len(),
            all == entry_views(entries@),
            pointer_views(r@) == last_entries(all, i as int),
            forall|k: int| 0 <= k < r@.len() ==> (#[trigger] r@[k]).1.local == place.local,
        decreases entries@.len() - i,
    {
        let region = entries[i].0;
        let mut last = true;
        let mut j = i + 1;
        while j < entries.len()
            invariant
                i < j <= entries@.len(),
                all == entry_views(entries@),
                region == all[i as int].0,
                last == forall|j2: int| i < j2 < j ==> (#[trigger] all[j2]).0 != region,
            decreases entries@.len() - j,
        {
            assert(all[j as int].0 == entries@[j as int].0);
            if entries[j].0 == region {
                last = false;
            }
            j = j + 1;
        }
        assert(last == is_last_for_region(all, i as int));
        if last {
            let p = Place { local: place.local, projection: entries[i].1.clone() };
            assert(p.projection@ =~= entries@[i as int].1@);
            r.push((region, p, entries[i].2));
        }
        assert(pointer_views(r@) =~= last_entries(all, i + 1));
        i = i + 1;
    }
    r
}

} // verus!
