use vstd::prelude::*;

verus! {

/// One step of a place projection.
#[derive(Clone, Copy, Debug, PartialEq, Eq, Structural)]
pub enum ProjElem {
    /// `*p`
    Deref,
    /// `p.f`, by field position
    Field(usize),
    /// `p[i]`, indexed by a local
    Index(usize),
    /// `p[k]` with a constant offset
    ConstantIndex { offset: usize, min_length: usize, from_end: bool },
    /// `p[from..to]`
    Subslice { from: usize, to: usize, from_end: bool },
    /// `p as Variant`, by variant position
    Downcast(usize),
}

/// A memory location: a local variable followed by a projection path.
#[derive(Debug)]
pub struct Place {
    pub local: usize,
    pub projection: Vec<ProjElem>,
}

impl View for Place {
    type V = (usize, Seq<ProjElem>);

    open spec fn view(&self) -> (usize, Seq<ProjElem>) {
        (self.local, self.projection@)
    }
}

/// A program point: a statement index inside a basic block. The index equal
/// to the block's statement count designates its terminator.
#[derive(Clone, Copy, Debug, PartialEq, Eq, Structural)]
pub struct Location {
    pub block: usize,
    pub statement_index: usize,
}

/// Whether a reference permits writes.
#[derive(Clone, Copy, Debug, PartialEq, Eq, Structural)]
pub enum Mutability {
    Not,
    Mut,
}

/// An operand of an rvalue or call.
#[derive(Debug)]
pub enum Operand {
    Copy(Place),
    Move(Place),
    Constant,
}

/// The index of the local that holds a function's return value.
pub const RETURN_PLACE: usize = 0;

pub open spec fn is_deref(e: ProjElem) -> bool {
    e matches ProjElem::Deref
}

/// Whether two projection elements select the same part of a value.
pub open spec fn elems_match(a: ProjElem, b: ProjElem) -> bool {
    match (a, b) {
        (ProjElem::Deref, ProjElem::Deref) => true,
        (ProjElem::Field(f1), ProjElem::Field(f2)) => f1 == f2,
        (ProjElem::Index(_), ProjElem::Index(_)) => true,
        (ProjElem::ConstantIndex { .. }, ProjElem::ConstantIndex { .. }) => true,
        (ProjElem::Subslice { .. }, ProjElem::Subslice { .. }) => true,
        (ProjElem::Downcast(v1), ProjElem::Downcast(v2)) => v1 == v2,
        _ => false,
    }
}

/// The two projections agree element-wise on their common prefix.
pub open spec fn projections_match(p: Seq<ProjElem>, q: Seq<ProjElem>) -> bool {
    forall|i: int| 0 <= i < p.len() && i < q.len() ==> elems_match(#[trigger] p[i], #[trigger] q[i])
}

pub open spec fn has_deref(p: Seq<ProjElem>) -> bool {
    exists|i: int| 0 <= i < p.len() && is_deref(#[trigger] p[i])
}

/// How one place relates to another.
#[derive(Clone, Copy, Debug, PartialEq, Eq, Structural)]
pub enum PlaceRelation {
    /// The first place contains the second.
    Super,
    /// The first place is contained in the second.
    Sub,
    /// The places do not overlap.
    Disjoint,
}

/// The relation of `part` to `whole`: the same local with matching
/// projections and no dereference in the longer tail.
pub open spec fn relation_of(part: (usize, Seq<ProjElem>), whole: (usize, Seq<ProjElem>)) -> PlaceRelation {
    let is_sub_part = part.1.len() >= whole.1.len();
    let remaining = if is_sub_part { part.1.skip(whole.1.len() as int) } else { whole.1.skip(part.1.len() as int) };
    if part.0 != whole.0 {
        PlaceRelation::Disjoint
    } else if has_deref(remaining) {
        PlaceRelation::Disjoint
    } else if projections_match(part.1, whole.1) {
        if is_sub_part { PlaceRelation::Sub } else { PlaceRelation::Super }
    } else {
        PlaceRelation::Disjoint
    }
}

/// The relation from the local and the shared projection prefix alone,
/// whatever the longer tail holds.
pub open spec fn relation_ignoring_derefs(part: (usize, Seq<ProjElem>), whole: (usize, Seq<ProjElem>)) -> PlaceRelation {
    if part.0 == whole.0 && projections_match(part.1, whole.1) {
        if part.1.len() >= whole.1.len() { PlaceRelation::Sub } else { PlaceRelation::Super }
    } else {
        PlaceRelation::Disjoint
    }
}

fn elem_matches(a: ProjElem, b: ProjElem) -> (r: bool)
    ensures
        r == elems_match(a, b),
{
    match (a, b) {
        (ProjElem::Deref, ProjElem::Deref) => true,
        (ProjElem::Field(f1), ProjElem::Field(f2)) => f1 == f2,
        (ProjElem::Index(_), ProjElem::Index(_)) => true,
        (ProjElem::ConstantIndex { .. }, ProjElem::ConstantIndex { .. }) => true,
        (ProjElem::Subslice { .. }, ProjElem::Subslice { .. }) => true,
        (ProjElem::Downcast(v1), ProjElem::Downcast(v2)) => v1 == v2,
        _ => false,
    }
}

fn prefix_matches(p: &Vec<ProjElem>, q: &Vec<ProjElem>) -> (r: bool)
    ensures
        r == projections_match(p@, q@),
{
    let n = if p.len() < q.len() { p.len() } else { q.len() };
    let mut i: usize = 0;
    while i < n
        invariant
            i <= n,
            n == if p@.len() < q@.len() { p@.len() } else { q@.len() },
            forall|j: int| 0 <= j < i ==> elems_match(#[trigger] p@[j], #[trigger] q@[j]),
        decreases n - i,
    {
        if !elem_matches(p[i], q[i]) {
            return false;
        }
        i = i + 1;
    }
    true
}

fn any_deref_from(p: &Vec<ProjElem>, start: usize) -> (r: bool)
    requires
        start <= p@.len(),
    ensures
        r == has_deref(p@.skip(start as int)),
{
    let mut i = start;
    while i < p.len()
        invariant
            start <= i <= p@.len(),
            forall|j: int| start <= j < i ==> !is_deref(#[trigger] p@[j]),
        decreases p@.len() - i,
    {
        if let ProjElem::Deref = p[i] {
            assert(p@.skip(start as int)[i - start] == p@[i as int]);
            return true;
        }
        i = i + 1;
    }
    assert forall|j: int| 0 <= j < p@.skip(start as int).len() implies !is_deref(#[trigger] p@.skip(start as int)[j]) by {
        assert(p@.skip(start as int)[j] == p@[j + start]);
    }
    false
}

impl PlaceRelation {
    /// Whether the relation is anything but `Disjoint`.
    pub fn overlaps(&self) -> (b: bool)
        ensures
            b == !(*self is Disjoint),
    {
        !matches!(self, PlaceRelation::Disjoint)
    }

    /// How `part_place` relates to `whole_place`.
    pub fn of(part_place: &Place, whole_place: &Place) -> (r: PlaceRelation)
        ensures
            r == relation_of(part_place@, whole_place@),
    {
        let locals_match = part_place.local == whole_place.local;
        if !locals_match {
            return PlaceRelation::Disjoint;
        }
        let projections_match = prefix_matches(&part_place.projection, &whole_place.projection);
        let is_sub_part = part_place.projection.len() >= whole_place.projection.len();
        let remaining_has_deref = if is_sub_part {
            any_deref_from(&part_place.projection, whole_place.projection.len())
        } else {
            any_deref_from(&whole_place.projection, part_place.projection.len())
        };
        if remaining_has_deref {
            return PlaceRelation::Disjoint;
        }
        if projections_match {
            if is_sub_part {
                PlaceRelation::Sub
            } else {
                PlaceRelation::Super
            }
        } else {
            PlaceRelation::Disjoint
        }
    }
}

/// How `part_place` relates to `whole_place`, looking only at the local and
/// the shared projection prefix.
pub fn place_relation(part_place: &Place, whole_place: &Place) -> (r: PlaceRelation)
    ensures
        r == relation_ignoring_derefs(part_place@, whole_place@),
{
    let locals_match = part_place.local == whole_place.local;
    let projections_match = prefix_matches(&part_place.projection, &whole_place.projection);
    let is_sub_part = part_place.projection.len() >= whole_place.projection.len();
    if locals_match && projections_match {
        if is_sub_part {
            PlaceRelation::Sub
        } else {
            PlaceRelation::Super
        }
    } else {
        PlaceRelation::Disjoint
    }
}

/// Every place is a sub-place of itself.
pub proof fn lemma_relation_reflexive(p: (usize, Seq<ProjElem>))
    ensures
        relation_of(p, p) == PlaceRelation::Sub,
{
    assert(p.1.skip(p.1.len() as int) =~= Seq::<ProjElem>::empty());
    assert forall|i: int| 0 <= i < p.1.len() && i < p.1.len() implies elems_match(#[trigger] p.1[i], #[trigger] p.1[i]) by {
        match p.1[i] {
            ProjElem::Deref => {},
            ProjElem::Field(_) => {},
            ProjElem::Index(_) => {},
            ProjElem::ConstantIndex { .. } => {},
            ProjElem::Subslice { .. } => {},
            ProjElem::Downcast(_) => {},
        }
    }
}

/// Swapping the arguments swaps `Sub` and `Super` (places of equal length
/// are `Sub` both ways), and overlap is symmetric.
pub proof fn lemma_relation_converse(a: (usize, Seq<ProjElem>), b: (usize, Seq<ProjElem>))
    ensures
        relation_of(a, b) is Super ==> relation_of(b, a) is Sub,
        relation_of(a, b) is Sub && a.1.len() > b.1.len() ==> relation_of(b, a) is Super,
        relation_of(a, b) is Sub && a.1.len() == b.1.len() ==> relation_of(b, a) is Sub,
        relation_of(a, b) is Disjoint <==> relation_of(b, a) is Disjoint,
{
    assert(projections_match(a.1, b.1) == projections_match(b.1, a.1)) by {
        if projections_match(a.1, b.1) {
            assert forall|i: int| 0 <= i < b.1.len() && i < a.1.len() implies elems_match(#[trigger] b.1[i], #[trigger] a.1[i]) by {
                assert(elems_match(a.1[i], b.1[i]));
            }
        }
        if projections_match(b.1, a.1) {
            assert forall|i: int| 0 <= i < a.1.len() && i < b.1.len() implies elems_match(#[trigger] a.1[i], #[trigger] b.1[i]) by {
                assert(elems_match(b.1[i], a.1[i]));
            }
        }
    }
    if a.1.len() == b.1.len() {
        assert(a.1.skip(b.1.len() as int) =~= Seq::<ProjElem>::empty());
        assert(b.1.skip(a.1.len() as int) =~= Seq::<ProjElem>::empty());
    }
}

impl Place {
    /// The place consisting of `local` alone.
    pub fn from_local(local: usize) -> (p: Place)
        ensures
            p@ == (local, Seq::<ProjElem>::empty()),
    {
        Place { local, projection: Vec::new() }
    }

    /// The return place `_0`.
    pub fn return_place() -> (p: Place)
        ensures
            p@ == (RETURN_PLACE, Seq::<ProjElem>::empty()),
    {
        Place::from_local(RETURN_PLACE)
    }

    /// A copy of the place.
    pub fn copy(&self) -> (p: Place)
        ensures
            p@ == self@,
    {
        let mut projection: Vec<ProjElem> = Vec::new();
        let mut i: usize = 0;
        while i < self.projection.len()
            invariant
                i <= self.projection@.len(),
                projection@ == self.projection@.take(i as int),
            decreases self.projection@.len() - i,
        {
            projection.push(self.projection[i]);
            i = i + 1;
            assert(projection@ =~= self.projection@.take(i as int));
        }
        assert(projection@ =~= self.projection@);
        Place { local: self.local, projection }
    }

    /// Equality of places.
    pub fn same(&self, other: &Place) -> (b: bool)
        ensures
            b == (self@ == other@),
    {
        if self.local != other.local || self.projection.len() != other.projection.len() {
            return false;
        }
        let mut i: usize = 0;
        while i < self.projection.len()
            invariant
                i <= self.projection@.len(),
                self.projection@.len() == other.projection@.len(),
                forall|j: int| 0 <= j < i ==> self.projection@[j] == other.projection@[j],
            decreases self.projection@.len() - i,
        {
            if self.projection[i] != other.projection[i] {
                return false;
            }
            i = i + 1;
        }
        assert(self.projection@ =~= other.projection@);
        true
    }

    /// The place with the first `n` projection elements.
    pub fn prefix(&self, n: usize) -> (p: Place)
        requires
            n <= self.projection@.len(),
        ensures
            p@ == (self.local, self.projection@.take(n as int)),
    {
        let mut projection: Vec<ProjElem> = Vec::new();
        let mut i: usize = 0;
        while i < n
            invariant
                i <= n <= self.projection@.len(),
                projection@ == self.projection@.take(i as int),
            decreases n - i,
        {
            projection.push(self.projection[i]);
            i = i + 1;
            assert(projection@ =~= self.projection@.take(i as int));
        }
        Place { local: self.local, projection }
    }

    /// `*self`.
    pub fn deref(&self) -> (p: Place)
        ensures
            p@ == (self.local, self.projection@.push(ProjElem::Deref)),
    {
        let mut p = self.copy();
        p.projection.push(ProjElem::Deref);
        p
    }

    /// The place extended by the given projection elements.
    pub fn project(&self, more: &Vec<ProjElem>) -> (p: Place)
        ensures
            p@ == (self.local, self.projection@ + more@),
    {
        let mut p = self.copy();
        let mut i: usize = 0;
        while i < more.len()
            invariant
                i <= more@.len(),
                p@ == (self.local, self.projection@ + more@.take(i as int)),
            decreases more@.len() - i,
        {
            p.projection.push(more[i]);
            i = i + 1;
            assert(p.projection@ =~= self.projection@ + more@.take(i as int));
        }
        assert(more@.take(more@.len() as int) =~= more@);
        p
    }

    /// Whether the place goes through a dereference.
    pub fn is_indirect(&self) -> (b: bool)
        ensures
            b == has_deref(self.projection@),
    {
        let r = any_deref_from(&self.projection, 0);
        assert(self.projection@.skip(0) =~= self.projection@);
        r
    }
}

/// The last dereference in a projection, if any.
pub open spec fn is_last_deref(p: Seq<ProjElem>, d: int) -> bool {
    &&& 0 <= d < p.len()
    &&& is_deref(p[d])
    &&& forall|j: int| d < j < p.len() ==> !is_deref(#[trigger] p[j])
}

fn find_last_deref(p: &Vec<ProjElem>) -> (r: Option<usize>)
    ensures
        r is None <==> !has_deref(p@),
        r matches Some(d) ==> is_last_deref(p@, d as int),
{
    let mut i = p.len();
    while i > 0
        invariant
            i <= p@.len(),
            forall|j: int| i <= j < p@.len() ==> !is_deref(#[trigger] p@[j]),
        decreases i,
    {
        i = i - 1;
        if let ProjElem::Deref = p[i] {
            return Some(i);
        }
    }
    None
}

/// Splits a place at its last dereference into the pointer and the
/// projection that follows the dereference.
pub fn split_deref(place: &Place) -> (r: Option<(Place, Vec<ProjElem>)>)
    ensures
        r is None <==> !has_deref(place.projection@),
        r matches Some((ptr, rest)) ==> exists|d: int| #[trigger] is_last_deref(place.projection@, d)
            && ptr@ == (place.local, place.projection@.take(d))
            && rest@ == place.projection@.skip(d + 1),
{
    match find_last_deref(&place.projection) {
        None => None,
        Some(d) => {
            let ptr = place.prefix(d);
            let mut rest: Vec<ProjElem> = Vec::new();
            let n = place.projection.len();
            assert(d < n);
            let mut i = d + 1;
            while i < place.projection.len()
                invariant
                    d + 1 <= i <= place.projection@.len(),
                    rest@ == place.projection@.subrange(d + 1, i as int),
                decreases place.projection@.len() - i,
            {
                rest.push(place.projection[i]);
                i = i + 1;
                assert(rest@ =~= place.projection@.subrange(d + 1, i as int));
            }
            assert(rest@ =~= place.projection@.skip(d + 1));
            assert(is_last_deref(place.projection@, d as int));
            Some((ptr, rest))
        },
    }
}

/// The pointer whose dereference the place goes through last, if any.
pub fn pointer_for_place(place: &Place) -> (r: Option<Place>)
    ensures
        r is None <==> !has_deref(place.projection@),
        r matches Some(ptr) ==> exists|d: int| #[trigger] is_last_deref(place.projection@, d)
            && ptr@ == (place.local, place.projection@.take(d)),
{
    match find_last_deref(&place.projection) {
        None => None,
        Some(d) => Some(place.prefix(d)),
    }
}

/// The place an operand reads, if it is not a constant.
pub fn operand_to_place(operand: &Operand) -> (r: Option<Place>)
    ensures
        match operand {
            Operand::Copy(p) => r matches Some(q) && q@ == p@,
            Operand::Move(p) => r matches Some(q) && q@ == p@,
            Operand::Constant => r is None,
        },
{
    match operand {
        Operand::Copy(place) => Some(place.copy()),
        Operand::Move(place) => Some(place.copy()),
        Operand::Constant => None,
    }
}

pub open spec fn operand_place(operand: Operand) -> Option<(usize, Seq<ProjElem>)> {
    match operand {
        Operand::Copy(p) => Some(p@),
        Operand::Move(p) => Some(p@),
        Operand::Constant => None,
    }
}

/// The places read by the first `n` call arguments, each with the argument's position.
pub open spec fn operand_args(args: Seq<Operand>, n: int) -> Seq<(usize, (usize, Seq<ProjElem>))>
    decreases n,
{
    if n <= 0 {
        Seq::empty()
    } else {
        let rest = operand_args(args, n - 1);
        match operand_place(args[n - 1]) {
            Some(p) => rest.push(((n - 1) as usize, p)),
            None => rest,
        }
    }
}

/// The view of positioned places.
pub open spec fn arg_views(r: Seq<(usize, Place)>) -> Seq<(usize, (usize, Seq<ProjElem>))> {
    r.map_values(|e: (usize, Place)| (e.0, e.1@))
}

/// The places read by call arguments, each paired with the argument's position.
pub fn arg_places(args: &Vec<Operand>) -> (r: Vec<(usize, Place)>)
    ensures
        arg_views(r@) == operand_args(args@, args@.len() as int),
        forall|k: int| 0 <= k < r@.len() ==> {
            let (j, p) = #[trigger] r@[k];
            &&& j < args@.len()
            &&& operand_place(args@[j as int]) == Some(p@)
        },
        forall|j: int| 0 <= j < args@.len() && operand_place(args@[j]) is Some ==> exists|k: int|
            0 <= k < r@.len() && (#[trigger] r@[k]).0 == j,
        forall|k1: int, k2: int| 0 <= k1 < k2 < r@.len() ==> r@[k1].0 < r@[k2].0,
{
    let mut r: Vec<(usize, Place)> = Vec::new();
    let mut j: usize = 0;
    while j < args.len()
        invariant
            j <= args@.len(),
            forall|k: int| 0 <= k < r@.len() ==> {
                let (j2, p) = #[trigger] r@[k];
                &&& j2 < j
                &&& operand_place(args@[j2 as int]) == Some(p@)
            },
            forall|j2: int| 0 <= j2 < j && operand_place(args@[j2]) is Some ==> exists|k: int|
                0 <= k < r@.len() && (#[trigger] r@[k]).0 == j2,
            forall|k1: int, k2: int| 0 <= k1 < k2 < r@.len() ==> r@[k1].0 < r@[k2].0,
            arg_views(r@) == operand_args(args@, j as int),
        decreases args@.len() - j,
    {
        let ghost prev = r@;
        match operand_to_place(&args[j]) {
            Some(p) => {
                r.push((j, p));
                assert(r@[r@.len() - 1].0 == j);
                assert(arg_views(r@) =~= arg_views(prev).push((j, p@)));
            },
            None => {},
        }
        assert forall|j2: int| 0 <= j2 < j + 1 && operand_place(args@[j2]) is Some implies exists|k: int|
            0 <= k < r@.len() && (#[trigger] r@[k]).0 == j2 by {
            if j2 == j {
                assert(r@[r@.len() - 1].0 == j2);
            } else {
                let k = choose|k: int| 0 <= k < prev.len() && (#[trigger] prev[k]).0 == j2;
                assert(r@[k].0 == j2);
            }
        }
        j = j + 1;
    }
    r
}

/// The normal form of a projection element used to index places: any index
/// becomes `Index(0)`, and subslices are dropped.
pub open spec fn normalize_elem(e: ProjElem) -> Option<ProjElem> {
    match e {
        ProjElem::Index(_) => Some(ProjElem::Index(0)),
        ProjElem::ConstantIndex { .. } => Some(ProjElem::Index(0)),
        ProjElem::Subslice { .. } => None,
        _ => Some(e),
    }
}

pub open spec fn normalize_projection(p: Seq<ProjElem>) -> Seq<ProjElem>
    decreases p.len(),
{
    if p.len() == 0 {
        Seq::empty()
    } else {
        let rest = normalize_projection(p.drop_last());
        match normalize_elem(p.last()) {
            Some(e) => rest.push(e),
            None => rest,
        }
    }
}

/// The normal form of a place: every index is treated alike and subslices
/// select the whole slice.
pub fn normalize(place: &Place) -> (r: Place)
    ensures
        r@ == (place.local, normalize_projection(place.projection@)),
{
    let mut projection: Vec<ProjElem> = Vec::new();
    let mut i: usize = 0;
    while i < place.projection.len()
        invariant
            i <= place.projection@.len(),
            projection@ == normalize_projection(place.projection@.take(i as int)),
        decreases place.projection@.len() - i,
    {
        assert(place.projection@.take(i + 1).drop_last() =~= place.projection@.take(i as int));
        match place.projection[i] {
            ProjElem::Index(_) => projection.push(ProjElem::Index(0)),
            ProjElem::ConstantIndex { .. } => projection.push(ProjElem::Index(0)),
            ProjElem::Subslice { .. } => {},
            e => projection.push(e),
        }
        i = i + 1;
    }
    assert(place.projection@.take(place.projection@.len() as int) =~= place.projection@);
    Place { local: place.local, projection }
}

} // verus!
