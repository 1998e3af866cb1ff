use vstd::prelude::*;
use crate::fixpoint::{FlowResults, reachable, rows_bounded};
use crate::flow::{FlowDomain, Rows, domain_index, index_of, loc_index, lrows, prows, rows_of};
use crate::indexed::IndexSet;
use crate::mir::{Location, Place, ProjElem};
use crate::transfer::{Step, derefs_of, indices_in, pointer_derefs, present_indices};
use crate::ty::pointers_of;

verus! {

/// Which way a slice follows dependencies.
#[derive(Clone, Copy, Debug, PartialEq, Eq, Structural)]
pub enum Direction {
    Forward,
    Backward,
}

/// The location of statement `k` of block `b`.
pub open spec fn stmt_loc(b: int, k: int) -> Location {
    Location { block: b as usize, statement_index: k as usize }
}

impl FlowResults {
    /// The writes of the block of `l` up to and including the one at `l`.
    pub open spec fn steps_through(&self, l: Location) -> Seq<Step> {
        let a = self.analysis;
        let b = l.block as int;
        if l.statement_index < a.body.basic_blocks@[b].statements@.len() {
            a.statements_steps(b, l.statement_index + 1)
        } else {
            a.block_steps(b)
        }
    }

    /// The rows just after the effect of the statement or terminator at `l`.
    pub open spec fn after(&self, l: Location) -> Rows {
        self.analysis.run_steps(rows_of(self.entry_states@[l.block as int]), self.steps_through(l))
    }

    /// The state just after the effect of the statement or terminator at `l`.
    pub fn state_after(&self, l: Location) -> (st: FlowDomain)
        requires
            self.wf(),
            self.analysis.valid_location(l),
        ensures
            st.wf(self.analysis.np(), self.analysis.nl()),
            rows_of(st) == self.after(l),
            rows_bounded(rows_of(st), self.analysis.np() as int, self.analysis.nl() as int),
    {
        let a = &self.analysis;
        let b = l.block;
        let ghost ev = rows_of(self.entry_states@[b as int]);
        let mut st = self.entry_states[b].to_owned();
        proof {
            assert(lrows(st) =~= ev.0);
            assert(prows(st) =~= ev.1);
        }
        let n = a.body.basic_blocks[b].statements.len();
        let mut i: usize = 0;
        let last = if l.statement_index < n { l.statement_index + 1 } else { n };
        while i < last
            invariant
                a.wf(),
                a == self.analysis,
                b < a.body.basic_blocks@.len(),
                n == a.body.basic_blocks@[b as int].statements@.len(),
                last <= n,
                i <= last,
                st.wf(a.np(), a.nl()),
                rows_of(st) == a.run_steps(ev, a.statements_steps(b as int, i as int)),
            decreases last - i,
        {
            let location = Location { block: b, statement_index: i };
            a.visit_statement(&mut st, &a.body.basic_blocks[b].statements[i], location);
            proof {
                a.lemma_run_steps_append(ev, a.statements_steps(b as int, i as int),
                    a.statement_steps(a.body.basic_blocks@[b as int].statements@[i as int], location));
            }
            i = i + 1;
        }
        if l.statement_index >= n {
            let location = Location { block: b, statement_index: n };
            a.visit_terminator(&mut st, &a.body.basic_blocks[b].terminator.kind, location);
            proof {
                a.lemma_run_steps_append(ev, a.statements_steps(b as int, n as int),
                    a.terminator_steps(a.body.basic_blocks@[b as int].terminator.kind, location));
            }
        }
        proof {
            if l.statement_index < n {
                a.lemma_statements_steps_valid(b as int, l.statement_index + 1);
            } else {
                a.lemma_block_steps_valid(b as int);
            }
            a.lemma_run_bounded(ev, self.steps_through(l));
        }
        st
    }

    /// The places a target place stands for: itself and the aliases of the
    /// dereference of each pointer inside it (those in the domain).
    pub open spec fn expanded_target(&self, place: (usize, Seq<ProjElem>)) -> Set<int> {
        let dom = self.analysis.place_domain@;
        let ds = present_indices(dom, derefs_of(place.0, pointers_of(self.analysis.decls(), place), false));
        Set::new(|i: int| index_of(dom, place) == Some(i)
            || exists|k: int| 0 <= k < ds.len() && #[trigger] self.analysis.aliases.aliases.row(ds[k] as int).contains(i))
    }

    /// The set of places a target place stands for.
    pub fn expand_target(&self, place: &Place) -> (s: IndexSet)
        requires
            self.wf(),
        ensures
            s.size() == self.analysis.np(),
            s@ == self.expanded_target(place@),
    {
        let a = &self.analysis;
        let mut s = IndexSet::new(a.place_domain.len());
        let ghost dom = a.place_domain@;
        match domain_index(&a.place_domain, place) {
            Some(i) => { s.insert(i); },
            None => {},
        }
        let ds = pointer_derefs(&a.body.local_tys, place, false);
        let idx = indices_in(&a.place_domain, &ds);
        let ghost first = s@;
        let mut k: usize = 0;
        while k < idx.len()
            invariant
                a.wf(),
                a == self.analysis,
                s.size() == a.np(),
                k <= idx@.len(),
                forall|j: int| 0 <= j < idx@.len() ==> #[trigger] idx@[j] < a.np(),
                forall|i: int| #[trigger] s@.contains(i) <==> first.contains(i)
                    || exists|j: int| 0 <= j < k && #[trigger] a.aliases.aliases.row(idx@[j] as int).contains(i),
            decreases idx@.len() - k,
        {
            let ghost before = s@;
            match a.aliases.aliases.row_set(idx[k]) {
                Some(row) => { s.union(row); },
                None => {},
            }
            assert forall|i: int| #[trigger] s@.contains(i) <==> first.contains(i)
                || exists|j: int| 0 <= j < k + 1 && #[trigger] a.aliases.aliases.row(idx@[j] as int).contains(i) by {
                assert(s@.contains(i) == (before.contains(i) || a.aliases.aliases.row(idx@[k as int] as int).contains(i)));
                if a.aliases.aliases.row(idx@[k as int] as int).contains(i) {
                    assert(0 <= k < k + 1);
                }
                if exists|j: int| 0 <= j < k && #[trigger] a.aliases.aliases.row(idx@[j] as int).contains(i) {
                    assert(before.contains(i));
                }
                if exists|j: int| 0 <= j < k + 1 && #[trigger] a.aliases.aliases.row(idx@[j] as int).contains(i) {
                    let j = choose|j: int| 0 <= j < k + 1 && #[trigger] a.aliases.aliases.row(idx@[j] as int).contains(i);
                    if j < k {
                        assert(before.contains(i));
                    }
                }
            }
            k = k + 1;
        }
        assert(idx@ == present_indices(dom, derefs_of(place@.0, pointers_of(a.decls(), place@), false)));
        assert forall|i: int| #[trigger] s@.contains(i) <==> self.expanded_target(place@).contains(i) by {
            if first.contains(i) {
                assert(index_of(dom, place@) == Some(i));
            }
        }
        assert(s@ =~= self.expanded_target(place@));
        s
    }

    /// The location dependencies of the places `ts` in the rows `v`.
    pub open spec fn deps_locations(v: Rows, ts: Set<int>) -> Set<int> {
        Set::new(|l: int| exists|t: int| ts.contains(t) && #[trigger] v.0(t).contains(l))
    }

    /// The place dependencies of the places `ts` in the rows `v`.
    pub open spec fn deps_places(v: Rows, ts: Set<int>) -> Set<int> {
        Set::new(|q: int| exists|t: int| ts.contains(t) && #[trigger] v.1(t).contains(q))
    }

    /// The dependencies of the places `ts` just after `l`: the union of
    /// their location rows and of their place rows.
    pub fn target_deps(&self, ts: &IndexSet, l: Location) -> (r: (IndexSet, IndexSet))
        requires
            self.wf(),
            self.analysis.valid_location(l),
            ts.size() == self.analysis.np(),
        ensures
            r.0.size() == self.analysis.nl(),
            r.1.size() == self.analysis.np(),
            r.0@ == Self::deps_locations(self.after(l), ts@),
            r.1@ == Self::deps_places(self.after(l), ts@),
    {
        let a = &self.analysis;
        let st = self.state_after(l);
        let mut locations = IndexSet::new(a.location_domain.len());
        let mut places = IndexSet::new(a.place_domain.len());
        let targets = ts.indices();
        let ghost v = rows_of(st);
        let mut k: usize = 0;
        while k < targets.len()
            invariant
                a.wf(),
                a == self.analysis,
                st.wf(a.np(), a.nl()),
                v == rows_of(st),
                k <= targets@.len(),
                locations.size() == a.nl(),
                places.size() == a.np(),
                forall|j: int| 0 <= j < targets@.len() ==> ts@.contains(#[trigger] targets@[j] as int),
                forall|i: int| ts@.contains(i) ==> exists|j: int| 0 <= j < targets@.len() && targets@[j] == i,
                forall|x: int| locations@.contains(x) <==> exists|j: int| 0 <= j < k && #[trigger] v.0(targets@[j] as int).contains(x),
                forall|x: int| places@.contains(x) <==> exists|j: int| 0 <= j < k && #[trigger] v.1(targets@[j] as int).contains(x),
            decreases targets@.len() - k,
        {
            let t = targets[k];
            match st.locations.row_set(t) {
                Some(row) => { locations.union(row); },
                None => {},
            }
            match st.places.row_set(t) {
                Some(row) => { places.union(row); },
                None => {},
            }
            assert forall|x: int| locations@.contains(x) <==> exists|j: int| 0 <= j < k + 1 && #[trigger] v.0(targets@[j] as int).contains(x) by {
                if v.0(targets@[k as int] as int).contains(x) {
                    assert(0 <= k < k + 1);
                }
            }
            assert forall|x: int| places@.contains(x) <==> exists|j: int| 0 <= j < k + 1 && #[trigger] v.1(targets@[j] as int).contains(x) by {
                if v.1(targets@[k as int] as int).contains(x) {
                    assert(0 <= k < k + 1);
                }
            }
            k = k + 1;
        }
        assert forall|x: int| locations@.contains(x) <==> Self::deps_locations(v, ts@).contains(x) by {
            if Self::deps_locations(v, ts@).contains(x) {
                let t = choose|t: int| ts@.contains(t) && #[trigger] v.0(t).contains(x);
                let j = choose|j: int| 0 <= j < targets@.len() && targets@[j] == t;
                assert(v.0(targets@[j] as int).contains(x));
            }
        }
        assert forall|x: int| places@.contains(x) <==> Self::deps_places(v, ts@).contains(x) by {
            if Self::deps_places(v, ts@).contains(x) {
                let t = choose|t: int| ts@.contains(t) && #[trigger] v.1(t).contains(x);
                let j = choose|j: int| 0 <= j < targets@.len() && targets@[j] == t;
                assert(v.1(targets@[j] as int).contains(x));
            }
        }
        assert(locations@ =~= Self::deps_locations(self.after(l), ts@));
        assert(places@ =~= Self::deps_places(self.after(l), ts@));
        (locations, places)
    }
}

/// `(b2, k2)` comes before `(b, k)` in block-then-statement order.
pub open spec fn before_pos(b2: int, k2: int, b: int, k: int) -> bool {
    b2 < b || (b2 == b && k2 < k)
}

impl FlowResults {
    /// Statement `k` of block `b` is visited by the forward pass: the block
    /// is reachable and `k` is one of its statements.
    pub open spec fn visited(&self, b: int, k: int) -> bool {
        &&& 0 <= b < self.analysis.body.basic_blocks@.len()
        &&& reachable(self.analysis.body, b)
        &&& 0 <= k < self.analysis.body.basic_blocks@[b].statements@.len()
    }

    /// Just after statement `k` of block `b`, some place depends on that
    /// statement and on every location of `locs`.
    pub open spec fn relevant_at(&self, locs: Set<int>, b: int, k: int) -> bool {
        let sv = self.after(stmt_loc(b, k));
        let l = loc_index(self.analysis.body, stmt_loc(b, k));
        exists|r: int| #[trigger] sv.0(r).contains(l) && locs.subset_of(sv.0(r))
    }

    /// Just after statement `k` of block `b`, place `r` depends on that
    /// statement, on some place of `ts`, and on every place of `places`.
    pub open spec fn flows_into(&self, ts: Set<int>, places: Set<int>, b: int, k: int, r: int) -> bool {
        let sv = self.after(stmt_loc(b, k));
        &&& sv.0(r).contains(loc_index(self.analysis.body, stmt_loc(b, k)))
        &&& exists|x: int| #[trigger] sv.1(r).contains(x) && ts.contains(x)
        &&& places.subset_of(sv.1(r))
    }

    /// The statements reached forward from a target whose location
    /// dependencies are `locs`.
    pub open spec fn forward_locations(&self, locs: Set<int>) -> Set<int> {
        Set::new(|l: int| exists|b: int, k: int| #[trigger] self.visited(b, k)
            && l == loc_index(self.analysis.body, stmt_loc(b, k)) && self.relevant_at(locs, b, k))
    }

    /// The places reached forward from the target places `ts` whose place
    /// dependencies are `places`: the targets and every place into which
    /// they flow.
    pub open spec fn forward_places(&self, ts: Set<int>, places: Set<int>) -> Set<int> {
        ts.union(Set::new(|r: int| exists|b: int, k: int| #[trigger] self.visited(b, k) && self.flows_into(ts, places, b, k, r)))
    }

    /// The forward dependencies of one target: every statement of a reachable
    /// block just after which some place depends on it and on all of `locs`,
    /// and every place that then depends on it, on a target place and on all
    /// of `places`.
    pub fn forward_deps(&self, reach: &IndexSet, ts: &IndexSet, locs: &IndexSet, places: &IndexSet) -> (r: (IndexSet, IndexSet))
        requires
            self.wf(),
            reach.size() == self.analysis.body.basic_blocks@.len(),
            forall|b: int| #[trigger] reach@.contains(b) <==> 0 <= b < self.analysis.body.basic_blocks@.len() && reachable(self.analysis.body, b),
            ts.size() == self.analysis.np(),
            locs.size() == self.analysis.nl(),
            places.size() == self.analysis.np(),
        ensures
            r.0.size() == self.analysis.nl(),
            r.1.size() == self.analysis.np(),
            r.0@ == self.forward_locations(locs@),
            r.1@ == self.forward_places(ts@, places@),
    {
        let a = &self.analysis;
        let nb = a.body.basic_blocks.len();
        let mut out_locs = IndexSet::new(a.location_domain.len());
        let mut out_places = ts.to_owned();
        let mut b: usize = 0;
        while b < nb
            invariant
                self.wf(),
                a == self.analysis,
                nb == a.body.basic_blocks@.len(),
                b <= nb,
                reach.size() == nb,
                forall|b3: int| #[trigger] reach@.contains(b3) <==> 0 <= b3 < nb && reachable(a.body, b3),
                ts.size() == a.np(),
                locs.size() == a.nl(),
                places.size() == a.np(),
                out_locs.size() == a.nl(),
                out_places.size() == a.np(),
                forall|l: int| #[trigger] out_locs@.contains(l) <==> exists|b2: int, k2: int| #[trigger] self.visited(b2, k2) && b2 < b
                    && l == loc_index(a.body, stmt_loc(b2, k2)) && self.relevant_at(locs@, b2, k2),
                forall|x: int| #[trigger] out_places@.contains(x) <==> ts@.contains(x)
                    || exists|b2: int, k2: int| #[trigger] self.visited(b2, k2) && b2 < b && self.flows_into(ts@, places@, b2, k2, x),
            decreases nb - b,
        {
            if reach.contains(b) {
                let ghost ev = rows_of(self.entry_states@[b as int]);
                let mut st = self.entry_states[b].to_owned();
                proof {
                    assert(lrows(st) =~= ev.0);
                    assert(prows(st) =~= ev.1);
                }
                let n = a.body.basic_blocks[b].statements.len();
                let mut k: usize = 0;
                while k < n
                    invariant
                        self.wf(),
                        a == self.analysis,
                        nb == a.body.basic_blocks@.len(),
                        b < nb,
                        reachable(a.body, b as int),
                        ev == rows_of(self.entry_states@[b as int]),
                        n == a.body.basic_blocks@[b as int].statements@.len(),
                        k <= n,
                        st.wf(a.np(), a.nl()),
                        rows_of(st) == a.run_steps(ev, a.statements_steps(b as int, k as int)),
                        ts.size() == a.np(),
                        locs.size() == a.nl(),
                        places.size() == a.np(),
                        out_locs.size() == a.nl(),
                        out_places.size() == a.np(),
                        forall|l: int| #[trigger] out_locs@.contains(l) <==> exists|b2: int, k2: int| #[trigger] self.visited(b2, k2)
                            && before_pos(b2, k2, b as int, k as int)
                            && l == loc_index(a.body, stmt_loc(b2, k2)) && self.relevant_at(locs@, b2, k2),
                        forall|x: int| #[trigger] out_places@.contains(x) <==> ts@.contains(x)
                            || exists|b2: int, k2: int| #[trigger] self.visited(b2, k2) && before_pos(b2, k2, b as int, k as int)
                                && self.flows_into(ts@, places@, b2, k2, x),
                    decreases n - k,
                {
                    let location = Location { block: b, statement_index: k };
                    a.visit_statement(&mut st, &a.body.basic_blocks[b].statements[k], location);
                    let ghost sv = rows_of(st);
                    proof {
                        a.lemma_run_steps_append(ev, a.statements_steps(b as int, k as int),
                            a.statement_steps(a.body.basic_blocks@[b as int].statements@[k as int], location));
                        assert(location == stmt_loc(b as int, k as int));
                        assert(sv == self.after(stmt_loc(b as int, k as int)));
                        a.lemma_statements_steps_valid(b as int, k + 1);
                        a.lemma_run_bounded(ev, a.statements_steps(b as int, k + 1));
                        assert(self.visited(b as int, k as int));
                    }
                    let l = a.location_domain.index(&a.body, location);
                    let nr = st.locations.num_rows();
                    let ghost outp0 = out_places@;
                    let mut relevant = false;
                    let mut r: usize = 0;
                    while r < nr
                        invariant
                            self.wf(),
                            a == self.analysis,
                            st.wf(a.np(), a.nl()),
                            sv == rows_of(st),
                            rows_bounded(sv, a.np() as int, a.nl() as int),
                            nr == st.locations.nrows(),
                            l < a.nl(),
                            l == loc_index(a.body, stmt_loc(b as int, k as int)),
                            sv == self.after(stmt_loc(b as int, k as int)),
                            r <= nr,
                            ts.size() == a.np(),
                            locs.size() == a.nl(),
                            places.size() == a.np(),
                            out_places.size() == a.np(),
                            relevant == exists|r2: int| 0 <= r2 < r && #[trigger] sv.0(r2).contains(l as int) && locs@.subset_of(sv.0(r2)),
                            forall|x: int| #[trigger] out_places@.contains(x) <==> outp0.contains(x)
                                || (0 <= x < r && self.flows_into(ts@, places@, b as int, k as int, x)),
                        decreases nr - r,
                    {
                        if st.locations.contains(r, l) {
                            match st.locations.row_set(r) {
                                Some(ld) => {
                                    if !relevant && ld.is_superset(locs) {
                                        relevant = true;
                                    }
                                },
                                None => {},
                            }
                            let ghost before = out_places@;
                            match st.places.row_set(r) {
                                Some(pd) => {
                                    if pd.intersects(ts) && pd.is_superset(places) {
                                        assert(sv.0(r as int).contains(l as int));
                                        out_places.insert(r);
                                    }
                                },
                                None => {},
                            }
                            assert forall|x: int| #[trigger] out_places@.contains(x) <==> outp0.contains(x)
                                || (0 <= x < r + 1 && self.flows_into(ts@, places@, b as int, k as int, x)) by {
                                if x == r {
                                    if self.flows_into(ts@, places@, b as int, k as int, x) {
                                        let y = choose|y: int| #[trigger] sv.1(x).contains(y) && ts@.contains(y);
                                        assert(st.places.row(x).contains(y));
                                    }
                                }
                            }
                        } else {
                            assert(!self.flows_into(ts@, places@, b as int, k as int, r as int));
                        }
                        r = r + 1;
                    }
                    proof {
                        st.locations.lemma_row_outside(0);
                        assert forall|r2: int| !(0 <= r2 < nr) implies !(#[trigger] sv.0(r2)).contains(l as int) by {
                            st.locations.lemma_row_outside(r2);
                        }
                        assert(relevant == self.relevant_at(locs@, b as int, k as int));
                    }
                    if relevant {
                        out_locs.insert(l);
                    }
                    proof {
                        assert forall|l2: int| #[trigger] out_locs@.contains(l2) <==> exists|b2: int, k2: int| #[trigger] self.visited(b2, k2)
                            && before_pos(b2, k2, b as int, k + 1)
                            && l2 == loc_index(a.body, stmt_loc(b2, k2)) && self.relevant_at(locs@, b2, k2) by {
                            if exists|b2: int, k2: int| #[trigger] self.visited(b2, k2)
                                && before_pos(b2, k2, b as int, k + 1)
                                && l2 == loc_index(a.body, stmt_loc(b2, k2)) && self.relevant_at(locs@, b2, k2) {
                                let (b2, k2) = choose|b2: int, k2: int| #[trigger] self.visited(b2, k2)
                                    && before_pos(b2, k2, b as int, k + 1)
                                    && l2 == loc_index(a.body, stmt_loc(b2, k2)) && self.relevant_at(locs@, b2, k2);
                                if !before_pos(b2, k2, b as int, k as int) {
                                    assert(b2 == b && k2 == k);
                                }
                            }
                        }
                        assert forall|x: int| #[trigger] out_places@.contains(x) <==> ts@.contains(x)
                            || exists|b2: int, k2: int| #[trigger] self.visited(b2, k2) && before_pos(b2, k2, b as int, k + 1)
                                && self.flows_into(ts@, places@, b2, k2, x) by {
                            if self.flows_into(ts@, places@, b as int, k as int, x) {
                                st.locations.lemma_row_outside(x);
                                assert(before_pos(b as int, k as int, b as int, k + 1));
                            }
                            if exists|b2: int, k2: int| #[trigger] self.visited(b2, k2) && before_pos(b2, k2, b as int, k + 1)
                                && self.flows_into(ts@, places@, b2, k2, x) {
                                let (b2, k2) = choose|b2: int, k2: int| #[trigger] self.visited(b2, k2) && before_pos(b2, k2, b as int, k + 1)
                                    && self.flows_into(ts@, places@, b2, k2, x);
                                if !before_pos(b2, k2, b as int, k as int) {
                                    assert(b2 == b && k2 == k);
                                    st.locations.lemma_row_outside(x);
                                }
                            }
                        }
                    }
                    k = k + 1;
                }
                proof {
                    assert forall|b2: int, k2: int| #[trigger] self.visited(b2, k2) implies
                        (before_pos(b2, k2, b as int, n as int) <==> b2 < b + 1) by {}
                }
            } else {
                proof {
                    assert forall|b2: int, k2: int| #[trigger] self.visited(b2, k2) implies (b2 < b + 1 <==> b2 < b) by {
                        if b2 == b {
                            assert(reach@.contains(b2));
                        }
                    }
                }
            }
            b = b + 1;
        }
        proof {
            assert(out_locs@ =~= self.forward_locations(locs@));
            assert(out_places@ =~= self.forward_places(ts@, places@));
        }
        (out_locs, out_places)
    }

    /// `r` is what the analysis answers for `target` in `direction`.
    /// Backward: the locations and places that the expanded target depends
    /// on just after the target's location. Forward: the statements and
    /// places reached from the target (see `forward_deps`), given those
    /// backward dependencies.
    pub open spec fn dependencies_of(&self, target: (Place, Location), direction: Direction, r: (IndexSet, IndexSet)) -> bool {
        let ts = self.expanded_target(target.0@);
        let v = self.after(target.1);
        let bl = Self::deps_locations(v, ts);
        let bp = Self::deps_places(v, ts);
        &&& r.0.size() == self.analysis.nl()
        &&& r.1.size() == self.analysis.np()
        &&& match direction {
            Direction::Backward => r.0@ == bl && r.1@ == bp,
            Direction::Forward => r.0@ == self.forward_locations(bl) && r.1@ == self.forward_places(ts, bp),
        }
    }

    /// The dependencies of each target place at its location, backward or
    /// forward.
    pub fn compute_dependencies(&self, targets: &Vec<(Place, Location)>, direction: Direction) -> (out: Vec<(IndexSet, IndexSet)>)
        requires
            self.wf(),
            forall|i: int| 0 <= i < targets@.len() ==> self.analysis.valid_location(#[trigger] targets@[i].1),
        ensures
            out@.len() == targets@.len(),
            forall|i: int| 0 <= i < out@.len() ==> self.dependencies_of(#[trigger] targets@[i], direction, out@[i]),
    {
        let reach = self.analysis.reachable_blocks();
        let mut out: Vec<(IndexSet, IndexSet)> = Vec::new();
        let mut i: usize = 0;
        while i < targets.len()
            invariant
                self.wf(),
                reach.size() == self.analysis.body.basic_blocks@.len(),
                forall|b: int| #[trigger] reach@.contains(b) <==> 0 <= b < self.analysis.body.basic_blocks@.len() && reachable(self.analysis.body, b),
                forall|j: int| 0 <= j < targets@.len() ==> self.analysis.valid_location(#[trigger] targets@[j].1),
                i <= targets@.len(),
                out@.len() == i,
                forall|j: int| 0 <= j < i ==> self.dependencies_of(#[trigger] targets@[j], direction, out@[j]),
            decreases targets@.len() - i,
        {
            let ts = self.expand_target(&targets[i].0);
            let (locs, places) = self.target_deps(&ts, targets[i].1);
            let item = match direction {
                Direction::Backward => (locs, places),
                Direction::Forward => self.forward_deps(&reach, &ts, &locs, &places),
            };
            let ghost prev = out@;
            out.push(item);
            proof {
                assert(self.dependencies_of(targets@[i as int], direction, out@[i as int]));
                assert forall|j: int| 0 <= j < i + 1 implies self.dependencies_of(#[trigger] targets@[j], direction, out@[j]) by {
                    if j < i {
                        assert(out@[j] == prev[j]);
                    }
                }
            }
            i = i + 1;
        }
        out
    }
}

} // verus!
