use vstd::prelude::*;
use crate::body::{Body, LocationDomain, TerminatorKind, body_in_range, cfg_closed, locations_before};
use crate::indexed::{IndexMatrix, IndexSet};
use crate::mir::{Location, Operand, Place, ProjElem};

verus! {

/// What the alias analysis tells the flow analysis about each place of the
/// place domain (rows and columns are place indices).
pub struct Aliases {
    /// The places a place may denote.
    pub aliases: IndexMatrix,
    /// The places contained in a place.
    pub subs: IndexMatrix,
    /// The places whose dependencies a read of a place takes on.
    pub deps: IndexMatrix,
    /// The places a write to a place may affect.
    pub conflicts: IndexMatrix,
}

impl Aliases {
    pub open spec fn wf(&self, np: nat) -> bool {
        &&& self.aliases.wf() && self.aliases.columns() == np
        &&& self.subs.wf() && self.subs.columns() == np
        &&& self.deps.wf() && self.deps.columns() == np
        &&& self.conflicts.wf() && self.conflicts.columns() == np
    }
}

/// The dependencies of every place at a program point: the locations and
/// the places that may have influenced its value.
pub struct FlowDomain {
    pub locations: IndexMatrix,
    pub places: IndexMatrix,
}

impl FlowDomain {
    pub open spec fn wf(&self, np: nat, nl: nat) -> bool {
        &&& self.locations.wf() && self.locations.columns() == nl
        &&& self.places.wf() && self.places.columns() == np
    }

    /// No dependencies at all.
    pub fn new(np: usize, nl: usize) -> (d: FlowDomain)
        ensures
            d.wf(np as nat, nl as nat),
            forall|r: int| #[trigger] d.locations.row(r) == Set::<int>::empty() && d.places.row(r) == Set::<int>::empty(),
            forall|r: int| !(#[trigger] d.locations.has_row(r)) && !d.places.has_row(r),
    {
        FlowDomain { locations: IndexMatrix::new(nl), places: IndexMatrix::new(np) }
    }

    /// The lattice join of both matrices; returns whether either grew.
    pub fn join(&mut self, other: &FlowDomain) -> (changed: bool)
        requires
            old(self).wf(other.places.columns(), other.locations.columns()),
            other.wf(other.places.columns(), other.locations.columns()),
        ensures
            final(self).wf(other.places.columns(), other.locations.columns()),
            forall|r: int| #[trigger] final(self).locations.row(r) == old(self).locations.row(r).union(other.locations.row(r)),
            forall|r: int| #[trigger] final(self).places.row(r) == old(self).places.row(r).union(other.places.row(r)),
            forall|r: int| #[trigger] final(self).locations.has_row(r) == (old(self).locations.has_row(r) || other.locations.has_row(r)),
            forall|r: int| #[trigger] final(self).places.has_row(r) == (old(self).places.has_row(r) || other.places.has_row(r)),
            changed == exists|r: int| #![trigger other.locations.row(r)] #![trigger other.places.row(r)]
                !other.locations.row(r).subset_of(old(self).locations.row(r))
                || !other.places.row(r).subset_of(old(self).places.row(r)),
    {
        let a = self.locations.join(&other.locations);
        let b = self.places.join(&other.places);
        proof {
            if a {
                let r = choose|r: int| !(#[trigger] other.locations.row(r)).subset_of(old(self).locations.row(r));
                assert(!other.locations.row(r).subset_of(old(self).locations.row(r)) || !other.places.row(r).subset_of(old(self).places.row(r)));
            }
            if b {
                let r = choose|r: int| !(#[trigger] other.places.row(r)).subset_of(old(self).places.row(r));
                assert(!other.locations.row(r).subset_of(old(self).locations.row(r)) || !other.places.row(r).subset_of(old(self).places.row(r)));
            }
            if exists|r: int| #![trigger other.locations.row(r)] #![trigger other.places.row(r)]
                !other.locations.row(r).subset_of(old(self).locations.row(r))
                || !other.places.row(r).subset_of(old(self).places.row(r)) {
                let r = choose|r: int| #![trigger other.locations.row(r)] #![trigger other.places.row(r)]
                    !other.locations.row(r).subset_of(old(self).locations.row(r))
                    || !other.places.row(r).subset_of(old(self).places.row(r));
                if !other.locations.row(r).subset_of(old(self).locations.row(r)) {
                    assert(a);
                } else {
                    assert(b);
                }
            }
        }
        a || b
    }

    /// A copy of the state.
    pub fn to_owned(&self) -> (d: FlowDomain)
        requires
            self.locations.wf(),
            self.places.wf(),
        ensures
            d.locations.wf() && d.places.wf(),
            d.locations.columns() == self.locations.columns(),
            d.places.columns() == self.places.columns(),
            forall|r: int| #[trigger] d.locations.row(r) == self.locations.row(r),
            forall|r: int| #[trigger] d.places.row(r) == self.places.row(r),
            forall|r: int| #[trigger] d.locations.has_row(r) == self.locations.has_row(r),
            forall|r: int| #[trigger] d.places.has_row(r) == self.places.has_row(r),
            d.locations.nrows() == self.locations.nrows(),
            d.places.nrows() == self.places.nrows(),
    {
        FlowDomain { locations: self.locations.to_owned(), places: self.places.to_owned() }
    }
}

/// The abstract content of a flow state: for each place (row), its
/// location dependencies and its place dependencies.
pub type Rows = (spec_fn(int) -> Set<int>, spec_fn(int) -> Set<int>);

/// The location rows of a state.
pub open spec fn lrows(st: FlowDomain) -> spec_fn(int) -> Set<int> {
    |r: int| st.locations.row(r)
}

/// The place rows of a state.
pub open spec fn prows(st: FlowDomain) -> spec_fn(int) -> Set<int> {
    |r: int| st.places.row(r)
}

/// The abstract content of a state.
pub open spec fn rows_of(st: FlowDomain) -> Rows {
    (lrows(st), prows(st))
}

/// The position of a location in the location domain of `body`.
pub open spec fn loc_index(body: Body, l: Location) -> int {
    locations_before(body.basic_blocks@, l.block as int) + l.statement_index
}

/// The index of the last domain entry equal to `p`, if any.
pub open spec fn lookup(domain: Seq<Place>, p: (usize, Seq<ProjElem>)) -> Option<int>
    decreases domain.len(),
{
    if domain.len() == 0 {
        None
    } else if domain.last()@ == p {
        Some(domain.len() - 1)
    } else {
        lookup(domain.drop_last(), p)
    }
}

pub proof fn lemma_lookup_bounds(domain: Seq<Place>, p: (usize, Seq<ProjElem>))
    ensures
        lookup(domain, p) matches Some(i) ==> 0 <= i < domain.len() && domain[i]@ == p,
    decreases domain.len(),
{
    if domain.len() > 0 && domain.last()@ != p {
        lemma_lookup_bounds(domain.drop_last(), p);
    }
}

/// A domain without a match for `p` holds no entry equal to it.
pub proof fn lemma_lookup_none(domain: Seq<Place>, p: (usize, Seq<ProjElem>), i: int)
    requires
        lookup(domain, p) is None,
        0 <= i < domain.len(),
    ensures
        domain[i]@ != p,
    decreases domain.len(),
{
    if domain[domain.len() - 1]@ != p && i < domain.len() - 1 {
        lemma_lookup_none(domain.drop_last(), p, i);
    }
}

/// The index of a place in the place domain (its last occurrence), if present.
pub fn place_index(domain: &Vec<Place>, p: &Place) -> (r: Option<usize>)
    ensures
        match r {
            Some(i) => lookup(domain@, p@) == Some(i as int),
            None => lookup(domain@, p@) is None,
        },
        r matches Some(i) ==> i < domain@.len() && domain@[i as int]@ == p@,
{
    let mut i = domain.len();
    assert(domain@.take(i as int) =~= domain@);
    while i > 0
        invariant
            i <= domain@.len(),
            lookup(domain@, p@) == lookup(domain@.take(i as int), p@),
        decreases i,
    {
        assert(domain@.take(i as int).drop_last() =~= domain@.take(i - 1));
        if domain[i - 1].same(p) {
            proof { lemma_lookup_bounds(domain@, p@); }
            return Some(i - 1);
        }
        i = i - 1;
    }
    assert(domain@.take(0) =~= Seq::<Place>::empty());
    None
}

/// The normal form of a place: every index is treated alike and subslices
/// select the whole slice.
pub open spec fn normal(p: (usize, Seq<ProjElem>)) -> (usize, Seq<ProjElem>) {
    (p.0, crate::mir::normalize_projection(p.1))
}

/// The index of a place in the place domain: that of the entry equal to its
/// normal form.
pub open spec fn index_of(domain: Seq<Place>, p: (usize, Seq<ProjElem>)) -> Option<int> {
    lookup(domain, normal(p))
}

/// The index of a place in the place domain, if the domain holds its normal form.
pub fn domain_index(domain: &Vec<Place>, p: &Place) -> (r: Option<usize>)
    ensures
        match r {
            Some(i) => index_of(domain@, p@) == Some(i as int),
            None => index_of(domain@, p@) is None,
        },
        r matches Some(i) ==> i < domain@.len() && domain@[i as int]@ == normal(p@),
{
    let n = crate::mir::normalize(p);
    place_index(domain, &n)
}

/// A value that names an entry of a place domain: a place (by its normal
/// form), or an index.
pub trait ToIndex {
    /// The index it names in `domain`, if any.
    spec fn index_in(&self, domain: Seq<Place>) -> Option<int>;

    /// The index it names in `domain`, if any.
    fn to_index(&self, domain: &Vec<Place>) -> (r: Option<usize>)
        ensures
            match r {
                Some(i) => self.index_in(domain@) == Some(i as int) && i < domain@.len(),
                None => self.index_in(domain@) is None,
            };
}

impl ToIndex for Place {
    open spec fn index_in(&self, domain: Seq<Place>) -> Option<int> {
        index_of(domain, self@)
    }

    fn to_index(&self, domain: &Vec<Place>) -> (r: Option<usize>) {
        domain_index(domain, self)
    }
}

impl ToIndex for usize {
    open spec fn index_in(&self, domain: Seq<Place>) -> Option<int> {
        if (*self as int) < domain.len() { Some(*self as int) } else { None }
    }

    fn to_index(&self, domain: &Vec<Place>) -> (r: Option<usize>) {
        if *self < domain.len() { Some(*self) } else { None }
    }
}

/// The place read by the switch ending block `b`, as a domain index.
pub open spec fn discr_index(body: Body, domain: Seq<Place>, b: int) -> Option<int> {
    match body.basic_blocks@[b].terminator.kind {
        TerminatorKind::SwitchInt { discr, .. } => match crate::mir::operand_place(discr) {
            Some(p) => index_of(domain, p),
            None => None,
        },
        _ => None,
    }
}

/// The location index of the terminator of block `b`.
pub open spec fn terminator_index(body: Body, b: int) -> int {
    (locations_before(body.basic_blocks@, b) + body.basic_blocks@[b].statements@.len()) as int
}

/// The writes that summarise an analysed call: for each, the written place,
/// the places read (all as domain indices), and whether the write is definite.
pub type CallSummary = Vec<(usize, Vec<usize>, bool)>;

/// The indices of a call summary lie in a domain of `np` places.
pub open spec fn summary_in(s: Seq<(usize, Vec<usize>, bool)>, np: nat) -> bool {
    forall|k: int| 0 <= k < s.len() ==> {
        &&& (#[trigger] s[k]).0 < np
        &&& forall|j: int| 0 <= j < s[k].1@.len() ==> #[trigger] s[k].1@[j] < np
    }
}

/// The analysis context: a body, its place and location domains, the
/// alias facts, for each block the blocks it is control-dependent on, and
/// for each block whose call was analysed in the callee, the summary of
/// that call.
pub struct FlowAnalysis {
    pub body: Body,
    pub place_domain: Vec<Place>,
    pub location_domain: LocationDomain,
    pub aliases: Aliases,
    pub control_dependencies: Vec<IndexSet>,
    pub call_summaries: Vec<Option<CallSummary>>,
}

impl FlowAnalysis {
    pub open spec fn np(&self) -> nat {
        self.place_domain@.len()
    }

    pub open spec fn nl(&self) -> nat {
        self.location_domain.locs().len()
    }

    pub open spec fn wf(&self) -> bool {
        &&& body_in_range(self.body)
        &&& cfg_closed(self.body)
        &&& self.location_domain.describes(self.body)
        &&& self.aliases.wf(self.np())
        &&& self.control_dependencies@.len() == self.body.basic_blocks@.len()
        &&& forall|b: int| 0 <= b < self.control_dependencies@.len() ==> (#[trigger] self.control_dependencies@[b]).size() == self.body.basic_blocks@.len()
        &&& self.call_summaries@.len() == self.body.basic_blocks@.len()
        &&& forall|b: int| 0 <= b < self.call_summaries@.len() ==> (#[trigger] self.call_summaries@[b] matches Some(s) ==> summary_in(s@, self.np()))
    }

    /// The rows a definite write to `m` empties first: the sub-places of its
    /// alias, when it has exactly one.
    pub open spec fn cleared(&self, m: int, definitely: bool) -> Set<int> {
        if definitely && self.aliases.aliases.row(m).len() == 1 {
            self.aliases.subs.row(self.aliases.aliases.row(m).choose())
        } else {
            Set::empty()
        }
    }

    /// The places read when `m` is written at a location of `block`: `m`
    /// itself, the inputs, and the switched-on places of the blocks `block`
    /// is control-dependent on.
    pub open spec fn read_places(&self, m: int, inputs: Seq<usize>, block: int) -> Set<int> {
        Set::new(|p: int|
            p == m
            || (exists|k: int| 0 <= k < inputs.len() && inputs[k] == p)
            || (exists|b: int| #[trigger] self.control_dependencies@[block]@.contains(b) && discr_index(self.body, self.place_domain@, b) == Some(p)))
    }

    /// The location dependencies a write takes on, given the location rows
    /// of the state.
    pub open spec fn input_locations(&self, lr: spec_fn(int) -> Set<int>, cleared: Set<int>, m: int, inputs: Seq<usize>, loc: int, block: int) -> Set<int> {
        Set::new(|l: int|
            l == loc
            || (exists|b: int| #[trigger] self.control_dependencies@[block]@.contains(b) && l == terminator_index(self.body, b))
            || (exists|p: int, d: int| #![trigger self.read_places(m, inputs, block).contains(p), self.aliases.deps.row(p).contains(d)]
                self.read_places(m, inputs, block).contains(p) && self.aliases.deps.row(p).contains(d)
                && cleared_row(lr, cleared, d).contains(l)))
    }

    /// The place dependencies a write takes on, given the place rows of the
    /// state.
    pub open spec fn input_places(&self, pr: spec_fn(int) -> Set<int>, cleared: Set<int>, m: int, inputs: Seq<usize>, block: int) -> Set<int> {
        Set::new(|q: int|
            exists|p: int, d: int| #![trigger self.read_places(m, inputs, block).contains(p), self.aliases.deps.row(p).contains(d)]
                self.read_places(m, inputs, block).contains(p) && self.aliases.deps.row(p).contains(d)
                && (q == d || cleared_row(pr, cleared, d).contains(q)))
    }

    /// The rows after a write to `m` at `location` reading `inputs`: when
    /// the write is definite and `m` has a single alias, the sub-places of
    /// that alias are emptied first; then each target row takes on the
    /// dependencies of the write.
    pub open spec fn mutate(&self, v: Rows, m: int, inputs: Seq<usize>, location: Location, definitely: bool, aliases_only: bool) -> Rows {
        let cleared = self.cleared(m, definitely);
        let t = self.targets(m, aliases_only);
        let li = self.input_locations(v.0, cleared, m, inputs, loc_index(self.body, location), location.block as int);
        let pi = self.input_places(v.1, cleared, m, inputs, location.block as int);
        (|r: int| if t.contains(r) { cleared_row(v.0, cleared, r).union(li) } else { cleared_row(v.0, cleared, r) },
         |r: int| if t.contains(r) { cleared_row(v.1, cleared, r).union(pi) } else { cleared_row(v.1, cleared, r) })
    }

    /// The rows a write to `m` updates.
    pub open spec fn targets(&self, m: int, aliases_only: bool) -> Set<int> {
        if aliases_only { self.aliases.aliases.row(m) } else { self.aliases.conflicts.row(m) }
    }
}

/// Row `r` once the rows in `cleared` have been emptied.
pub open spec fn cleared_row(rows: spec_fn(int) -> Set<int>, cleared: Set<int>, r: int) -> Set<int> {
    if cleared.contains(r) { Set::empty() } else { rows(r) }
}

/// The locations of the dependencies of `p`, given the location rows.
pub open spec fn dep_locations(a: Aliases, lr: spec_fn(int) -> Set<int>, p: int) -> Set<int> {
    Set::new(|l: int| exists|d: int| #[trigger] a.deps.row(p).contains(d) && lr(d).contains(l))
}

/// The dependencies of `p` with their own place dependencies, given the
/// place rows.
pub open spec fn dep_places(a: Aliases, pr: spec_fn(int) -> Set<int>, p: int) -> Set<int> {
    Set::new(|q: int| exists|d: int| #[trigger] a.deps.row(p).contains(d) && (q == d || pr(d).contains(q)))
}

proof fn lemma_sorted_singleton(v: Seq<usize>, s: Set<int>)
    requires
        s.finite(),
        forall|k: int| 0 <= k < v.len() ==> s.contains(#[trigger] v[k] as int),
        forall|c: int| s.contains(c) ==> exists|k: int| 0 <= k < v.len() && v[k] == c,
        forall|k1: int, k2: int| 0 <= k1 < k2 < v.len() ==> v[k1] < v[k2],
    ensures
        (s.len() == 1) == (v.len() == 1),
        v.len() == 1 ==> s.choose() == v[0] as int,
{
    Set::lemma_is_singleton(s);
    if v.len() == 1 {
        assert(s =~= set![v[0] as int]);
        assert(s.contains(s.choose()));
    } else if v.len() == 0 {
        assert(s =~= Set::<int>::empty());
    } else {
        assert(s.contains(v[0] as int) && s.contains(v[1] as int) && v[0] != v[1]);
    }
}

impl FlowAnalysis {
    /// Adds the dependencies of `p` in `st` to the accumulated sets.
    fn add_deps(&self, st: &FlowDomain, p: usize, locdeps: &mut IndexSet, placedeps: &mut IndexSet)
        requires
            self.wf(),
            st.wf(self.np(), self.nl()),
            old(locdeps).size() == self.nl(),
            old(placedeps).size() == self.np(),
        ensures
            final(locdeps).size() == self.nl(),
            final(placedeps).size() == self.np(),
            final(locdeps)@ == old(locdeps)@.union(dep_locations(self.aliases, lrows(*st), p as int)),
            final(placedeps)@ == old(placedeps)@.union(dep_places(self.aliases, prows(*st), p as int)),
    {
        let deps = self.aliases.deps.row_indices(p);
        proof { self.aliases.deps.lemma_row_bounded(p as int); }
        let mut k: usize = 0;
        while k < deps.len()
            invariant
                self.wf(),
                st.wf(self.np(), self.nl()),
                k <= deps@.len(),
                locdeps.size() == self.nl(),
                placedeps.size() == self.np(),
                forall|j: int| 0 <= j < deps@.len() ==> self.aliases.deps.row(p as int).contains(#[trigger] deps@[j] as int),
                forall|c: int| self.aliases.deps.row(p as int).contains(c) ==> exists|j: int| 0 <= j < deps@.len() && deps@[j] == c,
                forall|c: int| self.aliases.deps.row(p as int).contains(c) ==> 0 <= c < self.np(),
                forall|l: int| #[trigger] locdeps@.contains(l) <==> old(locdeps)@.contains(l)
                    || exists|j: int| 0 <= j < k && #[trigger] st.locations.row(deps@[j] as int).contains(l),
                forall|q: int| #[trigger] placedeps@.contains(q) <==> old(placedeps)@.contains(q)
                    || exists|j: int| 0 <= j < k && (q == #[trigger] deps@[j] || st.places.row(deps@[j] as int).contains(q)),
            decreases deps@.len() - k,
        {
            let d = deps[k];
            assert(self.aliases.deps.row(p as int).contains(d as int));
            let ghost bl = locdeps@;
            let ghost bp = placedeps@;
            match st.locations.row_set(d) {
                Some(s) => { locdeps.union(s); },
                None => {},
            }
            assert(locdeps@ =~= bl.union(st.locations.row(d as int)));
            placedeps.insert(d);
            match st.places.row_set(d) {
                Some(s) => { placedeps.union(s); },
                None => {},
            }
            assert(placedeps@ =~= bp.insert(d as int).union(st.places.row(d as int)));
            assert forall|l: int| #[trigger] locdeps@.contains(l) <==> old(locdeps)@.contains(l)
                || exists|j: int| 0 <= j < k + 1 && #[trigger] st.locations.row(deps@[j] as int).contains(l) by {
                if st.locations.row(deps@[k as int] as int).contains(l) {
                    assert(0 <= k < k + 1);
                }
            }
            assert forall|q: int| #[trigger] placedeps@.contains(q) <==> old(placedeps)@.contains(q)
                || exists|j: int| 0 <= j < k + 1 && (q == #[trigger] deps@[j] || st.places.row(deps@[j] as int).contains(q)) by {
                if q == deps@[k as int] || st.places.row(deps@[k as int] as int).contains(q) {
                    assert(0 <= k < k + 1);
                }
            }
            k = k + 1;
        }
        proof {
            assert forall|l: int| #[trigger] locdeps@.contains(l) <==> old(locdeps)@.union(dep_locations(self.aliases, lrows(*st), p as int)).contains(l) by {
                if dep_locations(self.aliases, lrows(*st), p as int).contains(l) {
                    let d = choose|d: int| #[trigger] self.aliases.deps.row(p as int).contains(d) && st.locations.row(d).contains(l);
                    let j = choose|j: int| 0 <= j < deps@.len() && deps@[j] == d;
                    assert(st.locations.row(deps@[j] as int).contains(l));
                }
                if exists|j: int| 0 <= j < k && #[trigger] st.locations.row(deps@[j] as int).contains(l) {
                    let j = choose|j: int| 0 <= j < k && #[trigger] st.locations.row(deps@[j] as int).contains(l);
                    assert(self.aliases.deps.row(p as int).contains(deps@[j] as int));
                }
            }
            assert forall|q: int| #[trigger] placedeps@.contains(q) <==> old(placedeps)@.union(dep_places(self.aliases, prows(*st), p as int)).contains(q) by {
                if dep_places(self.aliases, prows(*st), p as int).contains(q) {
                    let d = choose|d: int| #[trigger] self.aliases.deps.row(p as int).contains(d) && (q == d || st.places.row(d).contains(q));
                    let j = choose|j: int| 0 <= j < deps@.len() && deps@[j] == d;
                    assert(q == deps@[j] || st.places.row(deps@[j] as int).contains(q));
                }
                if exists|j: int| 0 <= j < k && (q == #[trigger] deps@[j] || st.places.row(deps@[j] as int).contains(q)) {
                    let j = choose|j: int| 0 <= j < k && (q == #[trigger] deps@[j] || st.places.row(deps@[j] as int).contains(q));
                    assert(self.aliases.deps.row(p as int).contains(deps@[j] as int));
                }
            }
            assert(locdeps@ =~= old(locdeps)@.union(dep_locations(self.aliases, lrows(*st), p as int)));
            assert(placedeps@ =~= old(placedeps)@.union(dep_places(self.aliases, prows(*st), p as int)));
        }
    }
}

impl FlowAnalysis {
    /// Records a write to place `mutated` at `location`: when the write is
    /// definite and the place has a single alias, the sub-places of that
    /// alias forget their dependencies; then every place the write may
    /// affect (its aliases, or all its conflicts) takes on the location, the
    /// controlling switches, and the dependencies of the written place, the
    /// inputs and the switched-on places.
    pub fn apply_mutation(
        &self,
        state: &mut FlowDomain,
        mutated: usize,
        inputs: &Vec<usize>,
        location: Location,
        definitely_mutated: bool,
        mutate_aliases_only: bool,
    )
        requires
            self.wf(),
            old(state).wf(self.np(), self.nl()),
            mutated < self.np(),
            forall|k: int| 0 <= k < inputs@.len() ==> #[trigger] inputs@[k] < self.np(),
            location.block < self.body.basic_blocks@.len(),
            location.statement_index <= self.body.basic_blocks@[location.block as int].statements@.len(),
        ensures
            final(state).wf(self.np(), self.nl()),
            rows_of(*final(state)) == self.mutate(rows_of(*old(state)), mutated as int, inputs@, location, definitely_mutated, mutate_aliases_only),
            forall|r: int| #[trigger] final(state).locations.has_row(r) == (old(state).locations.has_row(r) || self.targets(mutated as int, mutate_aliases_only).contains(r)),
            forall|r: int| #[trigger] final(state).places.has_row(r) == (old(state).places.has_row(r) || self.targets(mutated as int, mutate_aliases_only).contains(r)),
    {
        let ghost np = self.np();
        let ghost nl = self.nl();
        let ghost cleared = self.cleared(mutated as int, definitely_mutated);
        let loc = self.location_domain.index(&self.body, location);

        // Clear sub-places of the mutated place (if sound to do so).
        let aliases_v = self.aliases.aliases.row_indices(mutated);
        proof {
            self.aliases.aliases.lemma_row_bounded(mutated as int);
            lemma_sorted_singleton(aliases_v@, self.aliases.aliases.row(mutated as int));
        }
        if definitely_mutated && aliases_v.len() == 1 {
            let subs_v = self.aliases.subs.row_indices(aliases_v[0]);
            let mut k: usize = 0;
            while k < subs_v.len()
                invariant
                    self.wf(),
                    k <= subs_v@.len(),
                    state.wf(np, nl),
                    aliases_v@.len() == 1,
                    cleared == self.aliases.subs.row(aliases_v@[0] as int),
                    forall|j: int| 0 <= j < subs_v@.len() ==> cleared.contains(#[trigger] subs_v@[j] as int),
                    forall|c: int| cleared.contains(c) ==> exists|j: int| 0 <= j < subs_v@.len() && subs_v@[j] == c,
                    forall|r: int| #[trigger] state.locations.row(r) == if exists|j: int| 0 <= j < k && subs_v@[j] == r { Set::<int>::empty() } else { old(state).locations.row(r) },
                    forall|r: int| #[trigger] state.places.row(r) == if exists|j: int| 0 <= j < k && subs_v@[j] == r { Set::<int>::empty() } else { old(state).places.row(r) },
                    forall|r: int| #[trigger] state.locations.has_row(r) == old(state).locations.has_row(r),
                    forall|r: int| #[trigger] state.places.has_row(r) == old(state).places.has_row(r),
                decreases subs_v@.len() - k,
            {
                state.places.clear_row(subs_v[k]);
                state.locations.clear_row(subs_v[k]);
                proof {
                    assert forall|r: int| #[trigger] state.locations.row(r) == if exists|j: int| 0 <= j < k + 1 && subs_v@[j] == r { Set::<int>::empty() } else { old(state).locations.row(r) } by {
                        if r == subs_v@[k as int] { assert(0 <= k < k + 1 && subs_v@[k as int] == r); }
                    }
                    assert forall|r: int| #[trigger] state.places.row(r) == if exists|j: int| 0 <= j < k + 1 && subs_v@[j] == r { Set::<int>::empty() } else { old(state).places.row(r) } by {
                        if r == subs_v@[k as int] { assert(0 <= k < k + 1 && subs_v@[k as int] == r); }
                    }
                }
                k = k + 1;
            }
            proof {
                assert forall|r: int| #[trigger] state.locations.row(r) == cleared_row(lrows(*old(state)), cleared, r) by {
                    if cleared.contains(r) { let j = choose|j: int| 0 <= j < subs_v@.len() && subs_v@[j] == r; }
                }
                assert forall|r: int| #[trigger] state.places.row(r) == cleared_row(prows(*old(state)), cleared, r) by {
                    if cleared.contains(r) { let j = choose|j: int| 0 <= j < subs_v@.len() && subs_v@[j] == r; }
                }
            }
        } else {
            proof {
                assert(cleared == Set::<int>::empty());
                assert forall|r: int| #[trigger] state.locations.row(r) == cleared_row(lrows(*old(state)), cleared, r) by {}
                assert forall|r: int| #[trigger] state.places.row(r) == cleared_row(prows(*old(state)), cleared, r) by {}
            }
        }
        let ghost st1 = *state;

        // Gather the dependencies of the write.
        let mut locdeps = IndexSet::new(self.location_domain.len());
        locdeps.insert(loc);
        let mut placedeps = IndexSet::new(self.place_domain.len());
        self.add_deps(state, mutated, &mut locdeps, &mut placedeps);
        let ghost mut read: Set<int> = set![mutated as int];
        let ghost mut ctrl: Set<int> = Set::empty();
        proof {
            assert forall|l: int| #[trigger] locdeps@.contains(l) <==> l == loc || ctrl.contains(l)
                || exists|p: int| #[trigger] read.contains(p) && dep_locations(self.aliases, lrows(st1), p).contains(l) by {
                if dep_locations(self.aliases, lrows(st1), mutated as int).contains(l) { assert(read.contains(mutated as int)); }
            }
            assert forall|q: int| #[trigger] placedeps@.contains(q) <==> exists|p: int| #[trigger] read.contains(p) && dep_places(self.aliases, prows(st1), p).contains(q) by {
                if dep_places(self.aliases, prows(st1), mutated as int).contains(q) { assert(read.contains(mutated as int)); }
            }
        }
        let mut k: usize = 0;
        while k < inputs.len()
            invariant
                self.wf(),
                np == self.np(),
                nl == self.nl(),
                k <= inputs@.len(),
                *state == st1,
                st1.wf(np, nl),
                loc < nl,
                locdeps.size() == nl,
                placedeps.size() == np,
                forall|k2: int| 0 <= k2 < inputs@.len() ==> #[trigger] inputs@[k2] < np,
                ctrl == Set::<int>::empty(),
                forall|p: int| read.contains(p) <==> p == mutated || exists|k2: int| 0 <= k2 < k && inputs@[k2] == p,
                forall|l: int| #[trigger] locdeps@.contains(l) <==> l == loc || ctrl.contains(l)
                    || exists|p: int| #[trigger] read.contains(p) && dep_locations(self.aliases, lrows(st1), p).contains(l),
                forall|q: int| #[trigger] placedeps@.contains(q) <==> exists|p: int| #[trigger] read.contains(p) && dep_places(self.aliases, prows(st1), p).contains(q),
            decreases inputs@.len() - k,
        {
            let ghost bl = locdeps@;
            let ghost bp = placedeps@;
            let ghost bread = read;
            self.add_deps(state, inputs[k], &mut locdeps, &mut placedeps);
            proof {
                read = read.insert(inputs@[k as int] as int);
                let p0 = inputs@[k as int] as int;
                assert forall|p: int| read.contains(p) <==> p == mutated || exists|k2: int| 0 <= k2 < k + 1 && inputs@[k2] == p by {
                    if p == p0 { assert(inputs@[k as int] == p); }
                }
                assert forall|l: int| #[trigger] locdeps@.contains(l) <==> l == loc || ctrl.contains(l)
                    || exists|p: int| #[trigger] read.contains(p) && dep_locations(self.aliases, lrows(st1), p).contains(l) by {
                    assert(locdeps@.contains(l) == (bl.contains(l) || dep_locations(self.aliases, lrows(st1), p0).contains(l)));
                    if dep_locations(self.aliases, lrows(st1), p0).contains(l) { assert(read.contains(p0)); }
                    if exists|p: int| #[trigger] bread.contains(p) && dep_locations(self.aliases, lrows(st1), p).contains(l) {
                        let p = choose|p: int| #[trigger] bread.contains(p) && dep_locations(self.aliases, lrows(st1), p).contains(l);
                        assert(read.contains(p));
                    }
                    if exists|p: int| #[trigger] read.contains(p) && dep_locations(self.aliases, lrows(st1), p).contains(l) {
                        let p = choose|p: int| #[trigger] read.contains(p) && dep_locations(self.aliases, lrows(st1), p).contains(l);
                        if p != p0 { assert(bread.contains(p)); }
                    }
                }
                assert forall|q: int| #[trigger] placedeps@.contains(q) <==> exists|p: int| #[trigger] read.contains(p) && dep_places(self.aliases, prows(st1), p).contains(q) by {
                    assert(placedeps@.contains(q) == (bp.contains(q) || dep_places(self.aliases, prows(st1), p0).contains(q)));
                    if dep_places(self.aliases, prows(st1), p0).contains(q) { assert(read.contains(p0)); }
                    if exists|p: int| #[trigger] bread.contains(p) && dep_places(self.aliases, prows(st1), p).contains(q) {
                        let p = choose|p: int| #[trigger] bread.contains(p) && dep_places(self.aliases, prows(st1), p).contains(q);
                        assert(read.contains(p));
                    }
                    if exists|p: int| #[trigger] read.contains(p) && dep_places(self.aliases, prows(st1), p).contains(q) {
                        let p = choose|p: int| #[trigger] read.contains(p) && dep_places(self.aliases, prows(st1), p).contains(q);
                        if p != p0 { assert(bread.contains(p)); }
                    }
                }
            }
            k = k + 1;
        }

        // Add control dependencies.
        let cds = self.control_dependencies[location.block].indices();
        proof { self.control_dependencies@[location.block as int].lemma_bounded(); }
        let mut j: usize = 0;
        while j < cds.len()
            invariant
                self.wf(),
                np == self.np(),
                nl == self.nl(),
                j <= cds@.len(),
                *state == st1,
                st1.wf(np, nl),
                loc < nl,
                location.block < self.body.basic_blocks@.len(),
                locdeps.size() == nl,
                placedeps.size() == np,
                forall|j2: int| 0 <= j2 < cds@.len() ==> self.control_dependencies@[location.block as int]@.contains(#[trigger] cds@[j2] as int),
                forall|c: int| self.control_dependencies@[location.block as int]@.contains(c) ==> exists|j2: int| 0 <= j2 < cds@.len() && cds@[j2] == c,
                forall|j2: int| 0 <= j2 < cds@.len() ==> #[trigger] cds@[j2] < self.body.basic_blocks@.len(),
                forall|p: int| read.contains(p) <==> p == mutated || (exists|k2: int| 0 <= k2 < inputs@.len() && inputs@[k2] == p)
                    || (exists|j2: int| 0 <= j2 < j && discr_index(self.body, self.place_domain@, #[trigger] cds@[j2] as int) == Some(p)),
                forall|l: int| ctrl.contains(l) <==> exists|j2: int| 0 <= j2 < j && l == terminator_index(self.body, #[trigger] cds@[j2] as int),
                forall|l: int| #[trigger] locdeps@.contains(l) <==> l == loc || ctrl.contains(l)
                    || exists|p: int| #[trigger] read.contains(p) && dep_locations(self.aliases, lrows(st1), p).contains(l),
                forall|q: int| #[trigger] placedeps@.contains(q) <==> exists|p: int| #[trigger] read.contains(p) && dep_places(self.aliases, prows(st1), p).contains(q),
            decreases cds@.len() - j,
        {
            let b = cds[j];
            let n_stmts = self.body.basic_blocks[b].statements.len();
            let tl = self.location_domain.index(&self.body, Location { block: b, statement_index: n_stmts });
            let ghost bl = locdeps@;
            let ghost bread = read;
            let ghost bctrl = ctrl;
            locdeps.insert(tl);
            proof {
                assert(locdeps@ == bl.insert(tl as int));
                ctrl = ctrl.insert(tl as int);
                assert forall|l: int| ctrl.contains(l) <==> exists|j2: int| 0 <= j2 < j + 1 && l == terminator_index(self.body, #[trigger] cds@[j2] as int) by {
                    if l == tl { assert(l == terminator_index(self.body, cds@[j as int] as int)); }
                }
                assert forall|l: int| #[trigger] locdeps@.contains(l) <==> l == loc || ctrl.contains(l)
                    || exists|p: int| #[trigger] read.contains(p) && dep_locations(self.aliases, lrows(st1), p).contains(l) by {
                    assert(locdeps@.contains(l) == (bl.contains(l) || l == tl));
                    assert(ctrl.contains(l) == (bctrl.contains(l) || l == tl));
                }
            }
            let discr_idx = match &self.body.basic_blocks[b].terminator.kind {
                TerminatorKind::SwitchInt { discr, .. } => match crate::mir::operand_to_place(discr) {
                    Some(p) => domain_index(&self.place_domain, &p),
                    None => None,
                },
                _ => None,
            };
            assert(discr_idx matches Some(i) ==> discr_index(self.body, self.place_domain@, b as int) == Some(i as int));
            assert(discr_idx is None ==> discr_index(self.body, self.place_domain@, b as int) is None);
            let ghost bl2 = locdeps@;
            let ghost bp2 = placedeps@;
            match discr_idx {
                Some(i) => {
                    self.add_deps(state, i, &mut locdeps, &mut placedeps);
                    proof {
                        read = read.insert(i as int);
                        let p0 = i as int;
                        assert forall|l: int| #[trigger] locdeps@.contains(l) <==> l == loc || ctrl.contains(l)
                            || exists|p: int| #[trigger] read.contains(p) && dep_locations(self.aliases, lrows(st1), p).contains(l) by {
                            assert(locdeps@.contains(l) == (bl2.contains(l) || dep_locations(self.aliases, lrows(st1), p0).contains(l)));
                            if exists|p: int| #[trigger] bread.contains(p) && dep_locations(self.aliases, lrows(st1), p).contains(l) {
                                let p = choose|p: int| #[trigger] bread.contains(p) && dep_locations(self.aliases, lrows(st1), p).contains(l);
                                assert(read.contains(p));
                            }
                            if dep_locations(self.aliases, lrows(st1), p0).contains(l) { assert(read.contains(p0)); }
                            if exists|p: int| #[trigger] read.contains(p) && dep_locations(self.aliases, lrows(st1), p).contains(l) {
                                let p = choose|p: int| #[trigger] read.contains(p) && dep_locations(self.aliases, lrows(st1), p).contains(l);
                                if p != p0 { assert(bread.contains(p)); }
                            }
                        }
                        assert forall|q: int| #[trigger] placedeps@.contains(q) <==> exists|p: int| #[trigger] read.contains(p) && dep_places(self.aliases, prows(st1), p).contains(q) by {
                            assert(placedeps@.contains(q) == (bp2.contains(q) || dep_places(self.aliases, prows(st1), p0).contains(q)));
                            if exists|p: int| #[trigger] bread.contains(p) && dep_places(self.aliases, prows(st1), p).contains(q) {
                                let p = choose|p: int| #[trigger] bread.contains(p) && dep_places(self.aliases, prows(st1), p).contains(q);
                                assert(read.contains(p));
                            }
                            if dep_places(self.aliases, prows(st1), p0).contains(q) { assert(read.contains(p0)); }
                            if exists|p: int| #[trigger] read.contains(p) && dep_places(self.aliases, prows(st1), p).contains(q) {
                                let p = choose|p: int| #[trigger] read.contains(p) && dep_places(self.aliases, prows(st1), p).contains(q);
                                if p != p0 { assert(bread.contains(p)); }
                            }
                        }
                    }
                },
                None => {},
            }
            proof {
                assert forall|p: int| read.contains(p) <==> p == mutated || (exists|k2: int| 0 <= k2 < inputs@.len() && inputs@[k2] == p)
                    || (exists|j2: int| 0 <= j2 < j + 1 && discr_index(self.body, self.place_domain@, #[trigger] cds@[j2] as int) == Some(p)) by {
                    if discr_index(self.body, self.place_domain@, cds@[j as int] as int) == Some(p) {
                        assert(0 <= j < j + 1);
                    }
                }
            }
            j = j + 1;
        }
        proof {
            let cd = self.control_dependencies@[location.block as int]@;
            assert forall|p: int| read.contains(p) <==> self.read_places(mutated as int, inputs@, location.block as int).contains(p) by {
                if exists|b: int| #[trigger] cd.contains(b) && discr_index(self.body, self.place_domain@, b) == Some(p) {
                    let b = choose|b: int| #[trigger] cd.contains(b) && discr_index(self.body, self.place_domain@, b) == Some(p);
                    let j2 = choose|j2: int| 0 <= j2 < cds@.len() && cds@[j2] == b;
                    assert(discr_index(self.body, self.place_domain@, cds@[j2] as int) == Some(p));
                }
            }
            assert(read =~= self.read_places(mutated as int, inputs@, location.block as int));
            assert forall|d: int| #[trigger] st1.locations.row(d) == cleared_row(lrows(*old(state)), cleared, d) by {}
            assert forall|l: int| #[trigger] locdeps@.contains(l) <==> self.input_locations(lrows(*old(state)), cleared, mutated as int, inputs@, loc as int, location.block as int).contains(l) by {
                if exists|b: int| #[trigger] cd.contains(b) && l == terminator_index(self.body, b) {
                    let b = choose|b: int| #[trigger] cd.contains(b) && l == terminator_index(self.body, b);
                    let j2 = choose|j2: int| 0 <= j2 < cds@.len() && cds@[j2] == b;
                    assert(l == terminator_index(self.body, cds@[j2] as int));
                }
                if ctrl.contains(l) {
                    let j2 = choose|j2: int| 0 <= j2 < cds@.len() && l == terminator_index(self.body, #[trigger] cds@[j2] as int);
                    assert(cd.contains(cds@[j2] as int));
                }
                if exists|p: int| #[trigger] read.contains(p) && dep_locations(self.aliases, lrows(st1), p).contains(l) {
                    let p = choose|p: int| #[trigger] read.contains(p) && dep_locations(self.aliases, lrows(st1), p).contains(l);
                    let d = choose|d: int| #[trigger] self.aliases.deps.row(p).contains(d) && st1.locations.row(d).contains(l);
                    assert(self.read_places(mutated as int, inputs@, location.block as int).contains(p));
                }
                if exists|p: int, d: int| #![trigger self.read_places(mutated as int, inputs@, location.block as int).contains(p), self.aliases.deps.row(p).contains(d)]
                    self.read_places(mutated as int, inputs@, location.block as int).contains(p) && self.aliases.deps.row(p).contains(d)
                    && cleared_row(lrows(*old(state)), cleared, d).contains(l) {
                    let (p, d) = choose|p: int, d: int| #![trigger self.read_places(mutated as int, inputs@, location.block as int).contains(p), self.aliases.deps.row(p).contains(d)]
                        self.read_places(mutated as int, inputs@, location.block as int).contains(p) && self.aliases.deps.row(p).contains(d)
                        && cleared_row(lrows(*old(state)), cleared, d).contains(l);
                    assert(read.contains(p));
                    assert(dep_locations(self.aliases, lrows(st1), p).contains(l));
                }
            }
            assert forall|q: int| #[trigger] placedeps@.contains(q) <==> self.input_places(prows(*old(state)), cleared, mutated as int, inputs@, location.block as int).contains(q) by {
                if exists|p: int| #[trigger] read.contains(p) && dep_places(self.aliases, prows(st1), p).contains(q) {
                    let p = choose|p: int| #[trigger] read.contains(p) && dep_places(self.aliases, prows(st1), p).contains(q);
                    let d = choose|d: int| #[trigger] self.aliases.deps.row(p).contains(d) && (q == d || st1.places.row(d).contains(q));
                    assert(self.read_places(mutated as int, inputs@, location.block as int).contains(p));
                }
                if exists|p: int, d: int| #![trigger self.read_places(mutated as int, inputs@, location.block as int).contains(p), self.aliases.deps.row(p).contains(d)]
                    self.read_places(mutated as int, inputs@, location.block as int).contains(p) && self.aliases.deps.row(p).contains(d)
                    && (q == d || cleared_row(prows(*old(state)), cleared, d).contains(q)) {
                    let (p, d) = choose|p: int, d: int| #![trigger self.read_places(mutated as int, inputs@, location.block as int).contains(p), self.aliases.deps.row(p).contains(d)]
                        self.read_places(mutated as int, inputs@, location.block as int).contains(p) && self.aliases.deps.row(p).contains(d)
                        && (q == d || cleared_row(prows(*old(state)), cleared, d).contains(q));
                    assert(read.contains(p));
                    assert(dep_places(self.aliases, prows(st1), p).contains(q));
                }
            }
            assert(locdeps@ =~= self.input_locations(lrows(*old(state)), cleared, mutated as int, inputs@, loc as int, location.block as int));
            assert(placedeps@ =~= self.input_places(prows(*old(state)), cleared, mutated as int, inputs@, location.block as int));
        }

        // Union the dependencies into every affected place.
        let targets_v = if mutate_aliases_only {
            self.aliases.aliases.row_indices(mutated)
        } else {
            self.aliases.conflicts.row_indices(mutated)
        };
        let ghost targets = self.targets(mutated as int, mutate_aliases_only);
        let mut t: usize = 0;
        while t < targets_v.len()
            invariant
                self.wf(),
                t <= targets_v@.len(),
                state.wf(np, nl),
                locdeps.size() == nl,
                placedeps.size() == np,
                forall|j2: int| 0 <= j2 < targets_v@.len() ==> targets.contains(#[trigger] targets_v@[j2] as int),
                forall|c: int| targets.contains(c) ==> exists|j2: int| 0 <= j2 < targets_v@.len() && targets_v@[j2] == c,
                forall|r: int| #[trigger] state.locations.row(r) == if exists|j2: int| 0 <= j2 < t && targets_v@[j2] == r { st1.locations.row(r).union(locdeps@) } else { st1.locations.row(r) },
                forall|r: int| #[trigger] state.places.row(r) == if exists|j2: int| 0 <= j2 < t && targets_v@[j2] == r { st1.places.row(r).union(placedeps@) } else { st1.places.row(r) },
                forall|r: int| #[trigger] state.locations.has_row(r) == (st1.locations.has_row(r) || exists|j2: int| 0 <= j2 < t && targets_v@[j2] == r),
                forall|r: int| #[trigger] state.places.has_row(r) == (st1.places.has_row(r) || exists|j2: int| 0 <= j2 < t && targets_v@[j2] == r),
            decreases targets_v@.len() - t,
        {
            let target = targets_v[t];
            let ghost bs = *state;
            state.locations.union_into_row(target, &locdeps);
            state.places.union_into_row(target, &placedeps);
            proof {
                assert forall|r: int| #[trigger] state.locations.row(r) == if exists|j2: int| 0 <= j2 < t + 1 && targets_v@[j2] == r { st1.locations.row(r).union(locdeps@) } else { st1.locations.row(r) } by {
                    if r == target {
                        assert(0 <= t < t + 1 && targets_v@[t as int] == r);
                        if exists|j2: int| 0 <= j2 < t && targets_v@[j2] == r {
                            assert(bs.locations.row(r) == st1.locations.row(r).union(locdeps@));
                            assert(st1.locations.row(r).union(locdeps@).union(locdeps@) =~= st1.locations.row(r).union(locdeps@));
                        }
                    }
                }
                assert forall|r: int| #[trigger] state.places.row(r) == if exists|j2: int| 0 <= j2 < t + 1 && targets_v@[j2] == r { st1.places.row(r).union(placedeps@) } else { st1.places.row(r) } by {
                    if r == target {
                        assert(0 <= t < t + 1 && targets_v@[t as int] == r);
                        if exists|j2: int| 0 <= j2 < t && targets_v@[j2] == r {
                            assert(bs.places.row(r) == st1.places.row(r).union(placedeps@));
                            assert(st1.places.row(r).union(placedeps@).union(placedeps@) =~= st1.places.row(r).union(placedeps@));
                        }
                    }
                }
                assert forall|r: int| #[trigger] state.locations.has_row(r) == (st1.locations.has_row(r) || exists|j2: int| 0 <= j2 < t + 1 && targets_v@[j2] == r) by {
                    if r == target { assert(0 <= t < t + 1 && targets_v@[t as int] == r); }
                }
                assert forall|r: int| #[trigger] state.places.has_row(r) == (st1.places.has_row(r) || exists|j2: int| 0 <= j2 < t + 1 && targets_v@[j2] == r) by {
                    if r == target { assert(0 <= t < t + 1 && targets_v@[t as int] == r); }
                }
            }
            t = t + 1;
        }
        proof {
            assert forall|r: int| targets.contains(r) <==> exists|j2: int| 0 <= j2 < targets_v@.len() && targets_v@[j2] == r by {}
            let mv = self.mutate(rows_of(*old(state)), mutated as int, inputs@, location, definitely_mutated, mutate_aliases_only);
            assert(loc as int == loc_index(self.body, location));
            assert forall|r: int| #[trigger] lrows(*state)(r) == mv.0(r) by {
                assert(lrows(st1)(r) == cleared_row(lrows(*old(state)), cleared, r));
            }
            assert forall|r: int| #[trigger] prows(*state)(r) == mv.1(r) by {
                assert(prows(st1)(r) == cleared_row(prows(*old(state)), cleared, r));
            }
            assert(lrows(*state) =~= mv.0);
            assert(prows(*state) =~= mv.1);
        }
    }
}

} // verus!
