use vstd::prelude::*;
use crate::body::{Body, cfg_edge, lemma_location_before_end, successors, successors_spec};
use crate::flow::{FlowAnalysis, FlowDomain, Rows, cleared_row, loc_index, lrows, prows, rows_of, terminator_index};
use crate::indexed::IndexSet;
use crate::transfer::{Step, mut_steps};

verus! {

/// A path through the control-flow graph that starts at the entry block.
pub open spec fn is_cfg_path(body: Body, path: Seq<int>) -> bool {
    &&& path.len() > 0
    &&& path[0] == 0
    &&& forall|i: int| 0 <= i < path.len() - 1 ==> #[trigger] cfg_edge(body, path[i], path[i + 1])
}

/// Block `b` can be reached from the entry block.
pub open spec fn reachable(body: Body, b: int) -> bool {
    exists|path: Seq<int>| #[trigger] is_cfg_path(body, path) && path.last() == b
}

pub proof fn lemma_reachable_entry(body: Body)
    ensures
        reachable(body, 0),
{
    let path = seq![0int];
    assert(is_cfg_path(body, path));
}

pub proof fn lemma_reachable_step(body: Body, p: int, s: int)
    requires
        reachable(body, p),
        cfg_edge(body, p, s),
    ensures
        reachable(body, s),
{
    let path = choose|path: Seq<int>| #[trigger] is_cfg_path(body, path) && path.last() == p;
    let path2 = path.push(s);
    assert forall|i: int| 0 <= i < path2.len() - 1 implies #[trigger] cfg_edge(body, path2[i], path2[i + 1]) by {
        if i < path.len() - 1 {
            assert(path2[i] == path[i] && path2[i + 1] == path[i + 1]);
        }
    }
    assert(is_cfg_path(body, path2));
}

/// A set that holds the entry block and is closed under successors holds
/// the end of every path.
proof fn lemma_path_in_closed(body: Body, path: Seq<int>, set: Set<int>)
    requires
        is_cfg_path(body, path),
        set.contains(0),
        forall|p: int, s: int| set.contains(p) && #[trigger] cfg_edge(body, p, s) ==> set.contains(s),
    ensures
        set.contains(path.last()),
    decreases path.len(),
{
    if path.len() > 1 {
        let prefix = path.drop_last();
        assert forall|i: int| 0 <= i < prefix.len() - 1 implies #[trigger] cfg_edge(body, prefix[i], prefix[i + 1]) by {
            assert(cfg_edge(body, path[i], path[i + 1]));
        }
        lemma_path_in_closed(body, prefix, set);
        let i = path.len() - 2;
        assert(cfg_edge(body, path[i], path[i + 1]));
        assert(prefix.last() == path[i]);
        assert(path.last() == path[i + 1]);
    }
}

impl FlowAnalysis {
    /// The blocks reachable from the entry block.
    pub fn reachable_blocks(&self) -> (seen: IndexSet)
        requires
            self.wf(),
        ensures
            seen.size() == self.body.basic_blocks@.len(),
            forall|b: int| #[trigger] seen@.contains(b) <==> 0 <= b < self.body.basic_blocks@.len() && reachable(self.body, b),
    {
        let nb = self.body.basic_blocks.len();
        let ghost body = self.body;
        let mut seen = IndexSet::new(nb);
        if nb > 0 {
            seen.insert(0);
        }
        proof { lemma_reachable_entry(body); }
        loop
            invariant
                self.wf(),
                body == self.body,
                nb == body.basic_blocks@.len(),
                seen.size() == nb,
                nb > 0 ==> seen@.contains(0),
                forall|b: int| #[trigger] seen@.contains(b) ==> 0 <= b < nb && reachable(body, b),
            ensures
                seen.size() == nb,
                nb > 0 ==> seen@.contains(0),
                forall|b: int| #[trigger] seen@.contains(b) ==> 0 <= b < nb && reachable(body, b),
                forall|p: int, s: int| seen@.contains(p) && #[trigger] cfg_edge(body, p, s) ==> seen@.contains(s),
            decreases nb - seen@.len(),
        {
            proof {
                seen.lemma_bounded();
                vstd::set_lib::lemma_int_range(0, nb as int);
                vstd::set_lib::lemma_len_subset(seen@, vstd::set_lib::set_int_range(0, nb as int));
            }
            let ghost start = seen@;
            let mut changed = false;
            let mut p: usize = 0;
            while p < nb
                invariant
                    self.wf(),
                    body == self.body,
                    nb == body.basic_blocks@.len(),
                    p <= nb,
                    seen.size() == nb,
                    start.finite(),
                    start.subset_of(seen@),
                    nb > 0 ==> seen@.contains(0),
                    forall|b: int| #[trigger] seen@.contains(b) ==> 0 <= b < nb && reachable(body, b),
                    !changed ==> seen@ == start,
                    changed ==> seen@.len() > start.len(),
                    !changed ==> forall|p2: int, s: int| 0 <= p2 < p && seen@.contains(p2) && #[trigger] cfg_edge(body, p2, s) ==> seen@.contains(s),
                decreases nb - p,
            {
                if seen.contains(p) {
                    let succ = successors(&self.body.basic_blocks[p].terminator.kind);
                    let mut k: usize = 0;
                    while k < succ.len()
                        invariant
                            self.wf(),
                            body == self.body,
                            nb == body.basic_blocks@.len(),
                            p < nb,
                            seen@.contains(p as int),
                            succ@ == successors_spec(body.basic_blocks@[p as int].terminator.kind),
                            k <= succ@.len(),
                            seen.size() == nb,
                            start.finite(),
                            start.subset_of(seen@),
                            nb > 0 ==> seen@.contains(0),
                            forall|b: int| #[trigger] seen@.contains(b) ==> 0 <= b < nb && reachable(body, b),
                            !changed ==> seen@ == start,
                            changed ==> seen@.len() > start.len(),
                            !changed ==> forall|p2: int, s: int| 0 <= p2 < p && seen@.contains(p2) && #[trigger] cfg_edge(body, p2, s) ==> seen@.contains(s),
                            forall|j: int| 0 <= j < k ==> seen@.contains(#[trigger] succ@[j] as int),
                        decreases succ@.len() - k,
                    {
                        let s = succ[k];
                        assert(cfg_edge(body, p as int, s as int));
                        if !seen.contains(s) {
                            let ghost before = seen@;
                            proof {
                                lemma_reachable_step(body, p as int, s as int);
                                seen.lemma_bounded();
                                vstd::set_lib::lemma_len_subset(start, before);
                            }
                            seen.insert(s);
                            changed = true;
                        }
                        k = k + 1;
                    }
                    proof {
                        if !changed {
                            assert forall|p2: int, s: int| 0 <= p2 < p + 1 && seen@.contains(p2) && #[trigger] cfg_edge(body, p2, s) implies seen@.contains(s) by {
                                if p2 == p {
                                    let k2 = choose|k2: int| 0 <= k2 < successors_spec(body.basic_blocks@[p2].terminator.kind).len()
                                        && #[trigger] successors_spec(body.basic_blocks@[p2].terminator.kind)[k2] == s;
                                    assert(seen@.contains(succ@[k2] as int));
                                }
                            }
                        }
                    }
                }
                p = p + 1;
            }
            if !changed {
                break;
            }
            proof {
                seen.lemma_bounded();
                vstd::set_lib::lemma_len_subset(seen@, vstd::set_lib::set_int_range(0, nb as int));
            }
        }
        proof {
            assert forall|b: int| 0 <= b < nb && reachable(body, b) implies #[trigger] seen@.contains(b) by {
                let path = choose|path: Seq<int>| #[trigger] is_cfg_path(body, path) && path.last() == b;
                lemma_path_in_closed(body, path, seen@);
            }
        }
        seen
    }
}

/// Every row of `a` is contained in the same row of `b`.
pub open spec fn rows_le(a: Rows, b: Rows) -> bool {
    &&& forall|r: int| #![trigger a.0(r)] #![trigger b.0(r)] a.0(r).subset_of(b.0(r))
    &&& forall|r: int| #![trigger a.1(r)] #![trigger b.1(r)] a.1(r).subset_of(b.1(r))
}

/// Only rows `0..np` are non-empty; location columns lie in `0..nl` and
/// place columns in `0..np`.
pub open spec fn rows_bounded(v: Rows, np: int, nl: int) -> bool {
    &&& forall|r: int, c: int| #[trigger] v.0(r).contains(c) ==> 0 <= r < np && 0 <= c < nl
    &&& forall|r: int, c: int| #[trigger] v.1(r).contains(c) ==> 0 <= r < np && 0 <= c < np
}

/// The rows with nothing in them.
pub open spec fn empty_rows() -> Rows {
    (|r: int| Set::<int>::empty(), |r: int| Set::<int>::empty())
}

/// The row-wise union.
pub open spec fn rows_join(a: Rows, b: Rows) -> Rows {
    (|r: int| a.0(r).union(b.0(r)), |r: int| a.1(r).union(b.1(r)))
}

/// The number of entries in rows `0..n`.
pub open spec fn row_size(v: Rows, n: int) -> int
    decreases n,
{
    if n <= 0 {
        0
    } else {
        row_size(v, n - 1) + v.0(n - 1).len() + v.1(n - 1).len()
    }
}

/// The number of entries in the first `k` states.
pub open spec fn total_size(es: Seq<FlowDomain>, np: int, k: int) -> int
    decreases k,
{
    if k <= 0 {
        0
    } else {
        total_size(es, np, k - 1) + row_size(rows_of(es[k - 1]), np)
    }
}

proof fn lemma_bounded_row_len(v: Rows, np: int, nl: int, r: int)
    requires
        rows_bounded(v, np, nl),
        0 <= np,
        0 <= nl,
    ensures
        v.0(r).finite(),
        v.1(r).finite(),
        v.0(r).len() <= nl,
        v.1(r).len() <= np,
{
    vstd::set_lib::lemma_int_range(0, nl);
    vstd::set_lib::lemma_int_range(0, np);
    assert(v.0(r).subset_of(vstd::set_lib::set_int_range(0, nl)));
    assert(v.1(r).subset_of(vstd::set_lib::set_int_range(0, np)));
    vstd::set_lib::lemma_len_subset(v.0(r), vstd::set_lib::set_int_range(0, nl));
    vstd::set_lib::lemma_len_subset(v.1(r), vstd::set_lib::set_int_range(0, np));
}

proof fn lemma_row_size_bound(v: Rows, n: int, np: int, nl: int)
    requires
        rows_bounded(v, np, nl),
        0 <= n,
        0 <= np,
        0 <= nl,
    ensures
        0 <= row_size(v, n) <= n * (nl + np),
    decreases n,
{
    if n > 0 {
        lemma_row_size_bound(v, n - 1, np, nl);
        lemma_bounded_row_len(v, np, nl, n - 1);
        assert((n - 1) * (nl + np) + nl + np == n * (nl + np)) by (nonlinear_arith);
    }
}

proof fn lemma_subset_len(a: Set<int>, b: Set<int>)
    requires
        b.finite(),
        a.subset_of(b),
    ensures
        a.len() <= b.len(),
        a != b ==> a.len() < b.len(),
{
    vstd::set_lib::lemma_len_subset(a, b);
    if a != b {
        if exists|x: int| b.contains(x) && !a.contains(x) {
            let x = choose|x: int| b.contains(x) && !a.contains(x);
            vstd::set_lib::lemma_len_subset(a, b.remove(x));
        } else {
            assert(a =~= b);
        }
    }
}

proof fn lemma_row_size_mono(v: Rows, w: Rows, n: int, np: int, nl: int)
    requires
        rows_bounded(v, np, nl),
        rows_bounded(w, np, nl),
        rows_le(v, w),
        0 <= np,
        0 <= nl,
    ensures
        row_size(v, n) <= row_size(w, n),
        (exists|r: int| #![trigger v.0(r)] #![trigger v.1(r)] 0 <= r < n && (v.0(r) != w.0(r) || v.1(r) != w.1(r))) ==> row_size(v, n) < row_size(w, n),
    decreases n,
{
    if n > 0 {
        lemma_row_size_mono(v, w, n - 1, np, nl);
        lemma_bounded_row_len(w, np, nl, n - 1);
        assert(v.0(n - 1).subset_of(w.0(n - 1)));
        assert(v.1(n - 1).subset_of(w.1(n - 1)));
        lemma_subset_len(v.0(n - 1), w.0(n - 1));
        lemma_subset_len(v.1(n - 1), w.1(n - 1));
        if exists|r: int| #![trigger v.0(r)] #![trigger v.1(r)] 0 <= r < n && (v.0(r) != w.0(r) || v.1(r) != w.1(r)) {
            let r = choose|r: int| #![trigger v.0(r)] #![trigger v.1(r)] 0 <= r < n && (v.0(r) != w.0(r) || v.1(r) != w.1(r));
            if r < n - 1 {
                assert(exists|r2: int| #![trigger v.0(r2)] #![trigger v.1(r2)] 0 <= r2 < n - 1 && (v.0(r2) != w.0(r2) || v.1(r2) != w.1(r2)));
            }
        }
    }
}

proof fn lemma_total_update(es: Seq<FlowDomain>, np: int, k: int, s: int, x: FlowDomain)
    requires
        0 <= s < es.len(),
        k <= es.len(),
    ensures
        total_size(es.update(s, x), np, k) == total_size(es, np, k)
            + (if s < k { row_size(rows_of(x), np) - row_size(rows_of(es[s]), np) } else { 0 }),
    decreases k,
{
    if k > 0 {
        lemma_total_update(es, np, k - 1, s, x);
    }
}

proof fn lemma_total_bound(es: Seq<FlowDomain>, np: int, nl: int, k: int)
    requires
        0 <= k <= es.len(),
        0 <= np,
        0 <= nl,
        forall|b: int| 0 <= b < es.len() ==> rows_bounded(#[trigger] rows_of(es[b]), np, nl),
    ensures
        0 <= total_size(es, np, k) <= k * (np * (nl + np)),
    decreases k,
{
    if k > 0 {
        lemma_total_bound(es, np, nl, k - 1);
        lemma_row_size_bound(rows_of(es[k - 1]), np, np, nl);
        assert((k - 1) * (np * (nl + np)) + np * (nl + np) == k * (np * (nl + np))) by (nonlinear_arith);
    }
}

impl FlowAnalysis {
    /// The write of a step reads more from a larger state.
    pub proof fn lemma_mutate_mono(&self, v: Rows, w: Rows, s: Step)
        requires
            rows_le(v, w),
        ensures
            rows_le(self.mutate(v, s.0, s.1, s.2, s.3, s.4), self.mutate(w, s.0, s.1, s.2, s.3, s.4)),
    {
        let cleared = self.cleared(s.0, s.3);
        let li = self.input_locations(v.0, cleared, s.0, s.1, loc_index(self.body, s.2), s.2.block as int);
        let lw = self.input_locations(w.0, cleared, s.0, s.1, loc_index(self.body, s.2), s.2.block as int);
        let pi = self.input_places(v.1, cleared, s.0, s.1, s.2.block as int);
        let pw = self.input_places(w.1, cleared, s.0, s.1, s.2.block as int);
        let rp = self.read_places(s.0, s.1, s.2.block as int);
        assert forall|l: int| li.contains(l) implies lw.contains(l) by {
            if exists|p: int, d: int| #![trigger rp.contains(p), self.aliases.deps.row(p).contains(d)]
                rp.contains(p) && self.aliases.deps.row(p).contains(d) && cleared_row(v.0, cleared, d).contains(l) {
                let (p, d) = choose|p: int, d: int| #![trigger rp.contains(p), self.aliases.deps.row(p).contains(d)]
                    rp.contains(p) && self.aliases.deps.row(p).contains(d) && cleared_row(v.0, cleared, d).contains(l);
                assert(v.0(d).subset_of(w.0(d)));
                assert(cleared_row(w.0, cleared, d).contains(l));
            }
        }
        assert forall|q: int| pi.contains(q) implies pw.contains(q) by {
            let (p, d) = choose|p: int, d: int| #![trigger rp.contains(p), self.aliases.deps.row(p).contains(d)]
                rp.contains(p) && self.aliases.deps.row(p).contains(d) && (q == d || cleared_row(v.1, cleared, d).contains(q));
            assert(v.1(d).subset_of(w.1(d)));
            assert(q == d || cleared_row(w.1, cleared, d).contains(q));
        }
        let mv = self.mutate(v, s.0, s.1, s.2, s.3, s.4);
        let mw = self.mutate(w, s.0, s.1, s.2, s.3, s.4);
        assert forall|r: int| #![trigger mv.0(r)] #![trigger mw.0(r)] mv.0(r).subset_of(mw.0(r)) by {
            assert(v.0(r).subset_of(w.0(r)));
        }
        assert forall|r: int| #![trigger mv.1(r)] #![trigger mw.1(r)] mv.1(r).subset_of(mw.1(r)) by {
            assert(v.1(r).subset_of(w.1(r)));
        }
    }

    /// Running the same writes on a larger state gives a larger state.
    pub proof fn lemma_run_mono(&self, v: Rows, w: Rows, steps: Seq<Step>)
        requires
            rows_le(v, w),
        ensures
            rows_le(self.run_steps(v, steps), self.run_steps(w, steps)),
        decreases steps.len(),
    {
        if steps.len() > 0 {
            self.lemma_run_mono(v, w, steps.drop_last());
            let s = steps.last();
            self.lemma_mutate_mono(self.run_steps(v, steps.drop_last()), self.run_steps(w, steps.drop_last()), s);
        }
    }

    /// A write at a location of the body keeps the rows bounded.
    pub proof fn lemma_mutate_bounded(&self, v: Rows, s: Step)
        requires
            self.wf(),
            rows_bounded(v, self.np() as int, self.nl() as int),
            self.valid_location(s.2),
        ensures
            rows_bounded(self.mutate(v, s.0, s.1, s.2, s.3, s.4), self.np() as int, self.nl() as int),
    {
        let np = self.np() as int;
        let nl = self.nl() as int;
        let cleared = self.cleared(s.0, s.3);
        let block = s.2.block as int;
        let li = self.input_locations(v.0, cleared, s.0, s.1, loc_index(self.body, s.2), block);
        let pi = self.input_places(v.1, cleared, s.0, s.1, block);
        let rp = self.read_places(s.0, s.1, block);
        let t = self.targets(s.0, s.4);
        self.location_domain.lemma_len(self.body);
        lemma_location_before_end(self.body, block, s.2.statement_index as int);
        self.aliases.aliases.lemma_row_bounded(s.0);
        self.aliases.conflicts.lemma_row_bounded(s.0);
        self.control_dependencies@[block].lemma_bounded();
        assert forall|l: int| li.contains(l) implies 0 <= l < nl by {
            if exists|b: int| #[trigger] self.control_dependencies@[block]@.contains(b) && l == terminator_index(self.body, b) {
                let b = choose|b: int| #[trigger] self.control_dependencies@[block]@.contains(b) && l == terminator_index(self.body, b);
                lemma_location_before_end(self.body, b, self.body.basic_blocks@[b].statements@.len() as int);
            }
            if exists|p: int, d: int| #![trigger rp.contains(p), self.aliases.deps.row(p).contains(d)]
                rp.contains(p) && self.aliases.deps.row(p).contains(d) && cleared_row(v.0, cleared, d).contains(l) {
                let (p, d) = choose|p: int, d: int| #![trigger rp.contains(p), self.aliases.deps.row(p).contains(d)]
                    rp.contains(p) && self.aliases.deps.row(p).contains(d) && cleared_row(v.0, cleared, d).contains(l);
                assert(v.0(d).contains(l));
            }
        }
        assert forall|q: int| pi.contains(q) implies 0 <= q < np by {
            let (p, d) = choose|p: int, d: int| #![trigger rp.contains(p), self.aliases.deps.row(p).contains(d)]
                rp.contains(p) && self.aliases.deps.row(p).contains(d) && (q == d || cleared_row(v.1, cleared, d).contains(q));
            self.aliases.deps.lemma_row_bounded(p);
            if q != d {
                assert(v.1(d).contains(q));
            }
        }
        let mv = self.mutate(v, s.0, s.1, s.2, s.3, s.4);
        assert forall|r: int, c: int| #[trigger] mv.0(r).contains(c) implies 0 <= r < np && 0 <= c < nl by {
            if !v.0(r).contains(c) || cleared.contains(r) {
                assert(t.contains(r));
            }
        }
        assert forall|r: int, c: int| #[trigger] mv.1(r).contains(c) implies 0 <= r < np && 0 <= c < np by {
            if !v.1(r).contains(c) || cleared.contains(r) {
                assert(t.contains(r));
            }
        }
    }

    /// Writes at locations of the body keep the rows bounded.
    pub proof fn lemma_run_bounded(&self, v: Rows, steps: Seq<Step>)
        requires
            self.wf(),
            rows_bounded(v, self.np() as int, self.nl() as int),
            forall|k: int| 0 <= k < steps.len() ==> self.valid_location(#[trigger] steps[k].2),
        ensures
            rows_bounded(self.run_steps(v, steps), self.np() as int, self.nl() as int),
        decreases steps.len(),
    {
        if steps.len() > 0 {
            let prefix = steps.drop_last();
            assert forall|k: int| 0 <= k < prefix.len() implies self.valid_location(#[trigger] prefix[k].2) by {
                assert(prefix[k] == steps[k]);
            }
            self.lemma_run_bounded(v, prefix);
            assert(self.valid_location(steps[steps.len() - 1].2));
            self.lemma_mutate_bounded(self.run_steps(v, prefix), steps.last());
        }
    }

    /// Every write of block `b` happens at a location of the body.
    pub proof fn lemma_block_steps_valid(&self, b: int)
        requires
            0 <= b < self.body.basic_blocks@.len(),
        ensures
            forall|k: int| 0 <= k < self.block_steps(b).len() ==> self.valid_location(#[trigger] self.block_steps(b)[k].2),
    {
        let n = self.body.basic_blocks@[b].statements@.len() as int;
        self.lemma_statements_steps_valid(b, n);
        let st = self.statements_steps(b, n);
        let loc = crate::mir::Location { block: b as usize, statement_index: n as usize };
        let tt = self.terminator_steps(self.body.basic_blocks@[b].terminator.kind, loc);
        assert(self.body.basic_blocks@.len() == self.body.basic_blocks.len());
        assert(self.body.basic_blocks@[b].statements@.len() == self.body.basic_blocks@[b].statements.len());
        assert(self.valid_location(loc));
        assert forall|k: int| 0 <= k < tt.len() implies (#[trigger] tt[k]).2 == loc by {
            match self.body.basic_blocks@[b].terminator.kind {
                crate::body::TerminatorKind::Call { args, destination, .. } if self.call_summaries@[b] is Some => {
                    let sm = self.call_summaries@[b]->Some_0@;
                    assert(tt == crate::transfer::summary_steps(sm, loc));
                    assert(tt[k] == (sm[k].0 as int, sm[k].1@, loc, sm[k].2, true));
                },
                crate::body::TerminatorKind::Call { args, destination, .. } => {
                    let dom = self.place_domain@;
                    let inputs = crate::transfer::present_indices(dom, crate::transfer::call_input_places(self.decls(), args@));
                    let ms = mut_steps(crate::transfer::present_indices(dom, crate::transfer::call_mut_places(self.decls(), args@)), inputs, loc);
                    let dl = tt.len() - ms.len();
                    if k >= dl {
                        assert(tt[k] == ms[k - dl]);
                    }
                },
                _ => {},
            }
        }
        assert forall|k: int| 0 <= k < self.block_steps(b).len() implies self.valid_location(#[trigger] self.block_steps(b)[k].2) by {
            if k < st.len() {
                assert(self.block_steps(b)[k] == st[k]);
            } else {
                assert(self.block_steps(b)[k] == tt[k - st.len()]);
            }
        }
    }

    pub proof fn lemma_statements_steps_valid(&self, b: int, k: int)
        requires
            0 <= b < self.body.basic_blocks@.len(),
            k <= self.body.basic_blocks@[b].statements@.len(),
        ensures
            forall|j: int| 0 <= j < self.statements_steps(b, k).len() ==> self.valid_location(#[trigger] self.statements_steps(b, k)[j].2),
        decreases k,
    {
        if k > 0 {
            self.lemma_statements_steps_valid(b, k - 1);
            let prev = self.statements_steps(b, k - 1);
            let loc = crate::mir::Location { block: b as usize, statement_index: (k - 1) as usize };
            let cur = self.statement_steps(self.body.basic_blocks@[b].statements@[k - 1], loc);
            assert(self.body.basic_blocks@.len() == self.body.basic_blocks.len());
            assert(self.body.basic_blocks@[b].statements@.len() == self.body.basic_blocks@[b].statements.len());
            assert(self.valid_location(loc));
            assert forall|i: int| 0 <= i < cur.len() implies (#[trigger] cur[i]).2 == loc by {}
            assert forall|j: int| 0 <= j < self.statements_steps(b, k).len() implies self.valid_location(#[trigger] self.statements_steps(b, k)[j].2) by {
                if j < prev.len() {
                    assert(self.statements_steps(b, k)[j] == prev[j]);
                } else {
                    assert(self.statements_steps(b, k)[j] == cur[j - prev.len()]);
                }
            }
        }
    }
}

/// The analysis together with the state at the entry of every block.
pub struct FlowResults {
    pub analysis: FlowAnalysis,
    pub entry_states: Vec<FlowDomain>,
}

/// The rows of each state.
pub open spec fn entry_rows(es: Seq<FlowDomain>) -> Seq<Rows> {
    es.map_values(|e: FlowDomain| rows_of(e))
}

proof fn lemma_rows_le_trans(a: Rows, b: Rows, c: Rows)
    requires
        rows_le(a, b),
        rows_le(b, c),
    ensures
        rows_le(a, c),
{
    assert forall|r: int| #![trigger a.0(r)] #![trigger c.0(r)] a.0(r).subset_of(c.0(r)) by {
        assert(a.0(r).subset_of(b.0(r)) && b.0(r).subset_of(c.0(r)));
    }
    assert forall|r: int| #![trigger a.1(r)] #![trigger c.1(r)] a.1(r).subset_of(c.1(r)) by {
        assert(a.1(r).subset_of(b.1(r)) && b.1(r).subset_of(c.1(r)));
    }
}

impl FlowResults {
    /// The entry states belong to the analysis: one per block, each
    /// well-formed and bounded by the domains.
    pub open spec fn wf(&self) -> bool {
        &&& self.analysis.wf()
        &&& self.entry_states@.len() == self.analysis.body.basic_blocks@.len()
        &&& forall|b: int| 0 <= b < self.entry_states@.len() ==> (#[trigger] self.entry_states@[b]).wf(self.analysis.np(), self.analysis.nl())
        &&& forall|b: int| 0 <= b < self.entry_states@.len()
            ==> rows_bounded(#[trigger] rows_of(self.entry_states@[b]), self.analysis.np() as int, self.analysis.nl() as int)
    }
}

impl FlowAnalysis {
    /// `ys` gives each block a state that holds what the effect of each
    /// reachable predecessor block produces from that block's state.
    pub open spec fn is_post_fixpoint(&self, ys: Seq<Rows>) -> bool {
        forall|p: int, s: int| reachable(self.body, p) && #[trigger] cfg_edge(self.body, p, s)
            ==> rows_le(self.run_steps(ys[p], self.block_steps(p)), ys[s])
    }

    /// Each state of `es` is below the state of the same block in every
    /// post-fixpoint.
    pub open spec fn below_every_post_fixpoint(&self, es: Seq<FlowDomain>) -> bool {
        forall|ys: Seq<Rows>, b: int| #![trigger self.is_post_fixpoint(ys), ys[b]]
            ys.len() == self.body.basic_blocks@.len() && self.is_post_fixpoint(ys) && 0 <= b < es.len()
            ==> rows_le(rows_of(es[b]), ys[b])
    }

    /// Runs the analysis to its least fixpoint: from empty entry states, the
    /// effect of each reachable block is joined into the entry states of its
    /// successors until a whole pass changes nothing.
    pub fn iterate_to_fixpoint(self) -> (res: FlowResults)
        requires
            self.wf(),
        ensures
            res.analysis == self,
            res.entry_states@.len() == self.body.basic_blocks@.len(),
            res.wf(),
            self.is_post_fixpoint(entry_rows(res.entry_states@)),
            self.below_every_post_fixpoint(res.entry_states@),
    {
        let nb = self.body.basic_blocks.len();
        let np_ = self.place_domain.len();
        let nl_ = self.location_domain.len();
        let ghost np = np_ as int;
        let ghost nl = nl_ as int;
        let ghost body = self.body;
        let reach = self.reachable_blocks();
        let mut entry: Vec<FlowDomain> = Vec::new();
        let mut b: usize = 0;
        while b < nb
            invariant
                b <= nb,
                entry@.len() == b,
                forall|b2: int| 0 <= b2 < b ==> (#[trigger] entry@[b2]).wf(np_ as nat, nl_ as nat) && rows_of(entry@[b2]) == empty_rows(),
            decreases nb - b,
        {
            let d = FlowDomain::new(np_, nl_);
            proof {
                assert(lrows(d) =~= empty_rows().0);
                assert(prows(d) =~= empty_rows().1);
            }
            entry.push(d);
            b = b + 1;
        }
        loop
            invariant
                self.wf(),
                body == self.body,
                nb == body.basic_blocks@.len(),
                np_ == self.np(),
                nl_ == self.nl(),
                np == np_,
                nl == nl_,
                reach.size() == nb,
                forall|b2: int| #[trigger] reach@.contains(b2) <==> 0 <= b2 < nb && reachable(body, b2),
                entry@.len() == nb,
                forall|b2: int| 0 <= b2 < nb ==> (#[trigger] entry@[b2]).wf(np_ as nat, nl_ as nat),
                forall|b2: int| 0 <= b2 < nb ==> rows_bounded(#[trigger] rows_of(entry@[b2]), np, nl),
                self.below_every_post_fixpoint(entry@),
            ensures
                entry@.len() == nb,
                forall|b2: int| 0 <= b2 < nb ==> (#[trigger] entry@[b2]).wf(np_ as nat, nl_ as nat),
                forall|b2: int| 0 <= b2 < nb ==> rows_bounded(#[trigger] rows_of(entry@[b2]), np, nl),
                self.below_every_post_fixpoint(entry@),
                self.is_post_fixpoint(entry_rows(entry@)),
            decreases nb * (np * (nl + np)) - total_size(entry@, np, nb as int),
        {
            proof { lemma_total_bound(entry@, np, nl, nb as int); }
            let ghost start = entry@;
            let mut changed = false;
            let mut p: usize = 0;
            while p < nb
                invariant
                    self.wf(),
                    body == self.body,
                    nb == body.basic_blocks@.len(),
                    np_ == self.np(),
                    nl_ == self.nl(),
                    np == np_,
                    nl == nl_,
                    reach.size() == nb,
                    forall|b2: int| #[trigger] reach@.contains(b2) <==> 0 <= b2 < nb && reachable(body, b2),
                    entry@.len() == nb,
                    forall|b2: int| 0 <= b2 < nb ==> (#[trigger] entry@[b2]).wf(np_ as nat, nl_ as nat),
                    forall|b2: int| 0 <= b2 < nb ==> rows_bounded(#[trigger] rows_of(entry@[b2]), np, nl),
                    self.below_every_post_fixpoint(entry@),
                    p <= nb,
                    start.len() == nb,
                    total_size(entry@, np, nb as int) >= total_size(start, np, nb as int),
                    changed ==> total_size(entry@, np, nb as int) > total_size(start, np, nb as int),
                    !changed ==> forall|b2: int| 0 <= b2 < nb ==> #[trigger] rows_of(entry@[b2]) == rows_of(start[b2]),
                    !changed ==> forall|p2: int, s: int| 0 <= p2 < p && reachable(body, p2) && #[trigger] cfg_edge(body, p2, s)
                        ==> rows_le(self.run_steps(rows_of(entry@[p2]), self.block_steps(p2)), rows_of(entry@[s])),
                decreases nb - p,
            {
                if reach.contains(p) {
                    let ghost ep = rows_of(entry@[p as int]);
                    let mut st = entry[p].to_owned();
                    proof {
                        assert(lrows(st) =~= ep.0);
                        assert(prows(st) =~= ep.1);
                    }
                    self.apply_block(&mut st, p);
                    let ghost stv = rows_of(st);
                    proof {
                        self.lemma_block_steps_valid(p as int);
                        self.lemma_run_bounded(ep, self.block_steps(p as int));
                    }
                    let succ = successors(&self.body.basic_blocks[p].terminator.kind);
                    let mut k: usize = 0;
                    while k < succ.len()
                        invariant
                            self.wf(),
                            body == self.body,
                            nb == body.basic_blocks@.len(),
                            np_ == self.np(),
                            nl_ == self.nl(),
                            np == np_,
                            nl == nl_,
                            entry@.len() == nb,
                            forall|b2: int| 0 <= b2 < nb ==> (#[trigger] entry@[b2]).wf(np_ as nat, nl_ as nat),
                            forall|b2: int| 0 <= b2 < nb ==> rows_bounded(#[trigger] rows_of(entry@[b2]), np, nl),
                            self.below_every_post_fixpoint(entry@),
                            p < nb,
                            reachable(body, p as int),
                            succ@ == successors_spec(body.basic_blocks@[p as int].terminator.kind),
                            k <= succ@.len(),
                            st.wf(np_ as nat, nl_ as nat),
                            rows_of(st) == stv,
                            stv == self.run_steps(ep, self.block_steps(p as int)),
                            rows_bounded(stv, np, nl),
                            forall|ys: Seq<Rows>| #![trigger self.is_post_fixpoint(ys)]
                                ys.len() == nb && self.is_post_fixpoint(ys) ==> rows_le(ep, ys[p as int]),
                            !changed ==> ep == rows_of(entry@[p as int]),
                            forall|j: int| 0 <= j < k ==> rows_le(stv, rows_of(entry@[#[trigger] succ@[j] as int])),
                            start.len() == nb,
                            total_size(entry@, np, nb as int) >= total_size(start, np, nb as int),
                            changed ==> total_size(entry@, np, nb as int) > total_size(start, np, nb as int),
                            !changed ==> forall|b2: int| 0 <= b2 < nb ==> #[trigger] rows_of(entry@[b2]) == rows_of(start[b2]),
                            !changed ==> forall|p2: int, s: int| 0 <= p2 < p && reachable(body, p2) && #[trigger] cfg_edge(body, p2, s)
                                ==> rows_le(self.run_steps(rows_of(entry@[p2]), self.block_steps(p2)), rows_of(entry@[s])),
                        decreases succ@.len() - k,
                    {
                        let s = succ[k];
                        proof { assert(cfg_edge(body, p as int, s as int)); }
                        let ghost entry0 = entry@;
                        let ghost e0 = rows_of(entry@[s as int]);
                        let mut e = entry[s].to_owned();
                        let c = e.join(&st);
                        let ghost ev = e;
                        let ghost e1 = rows_of(ev);
                        proof {
                            assert(lrows(ev) =~= rows_join(e0, stv).0);
                            assert(prows(ev) =~= rows_join(e0, stv).1);
                            assert(e1 == rows_join(e0, stv));
                        }
                        entry.set(s, e);
                        proof {
                            assert(entry@ == entry0.update(s as int, ev));
                            // the new state is bounded and above the old one and the block effect
                            assert(rows_le(e0, e1));
                            assert(rows_le(stv, e1));
                            assert(rows_bounded(e1, np, nl));
                            // it stays below every post-fixpoint
                            assert forall|ys: Seq<Rows>, b2: int| #![trigger self.is_post_fixpoint(ys), ys[b2]]
                                ys.len() == nb && self.is_post_fixpoint(ys) && 0 <= b2 < entry@.len()
                                implies rows_le(rows_of(entry@[b2]), ys[b2]) by {
                                if b2 == s {
                                    assert(rows_le(ep, ys[p as int]));
                                    self.lemma_run_mono(ep, ys[p as int], self.block_steps(p as int));
                                    assert(cfg_edge(body, p as int, s as int));
                                    assert(rows_le(self.run_steps(ys[p as int], self.block_steps(p as int)), ys[s as int]));
                                    lemma_rows_le_trans(stv, self.run_steps(ys[p as int], self.block_steps(p as int)), ys[s as int]);
                                    assert(rows_le(e0, ys[b2]));
                                } else {
                                    assert(entry@[b2] == entry0[b2]);
                                }
                            }
                            // the successors seen so far stay above the block effect
                            assert forall|j: int| 0 <= j < k + 1 implies rows_le(stv, rows_of(entry@[#[trigger] succ@[j] as int])) by {
                                assert(cfg_edge(body, p as int, succ@[j] as int));
                                if succ@[j] == s {
                                    assert(rows_of(entry@[succ@[j] as int]) == e1);
                                } else {
                                    assert(entry@[succ@[j] as int] == entry0[succ@[j] as int]);
                                }
                            }
                            // size accounting
                            lemma_total_update(entry0, np, nb as int, s as int, ev);
                            lemma_row_size_mono(e0, e1, np, np, nl);
                            if c {
                                let r = choose|r: int| #![trigger st.locations.row(r)] #![trigger st.places.row(r)]
                                    !st.locations.row(r).subset_of(entry0[s as int].locations.row(r))
                                    || !st.places.row(r).subset_of(entry0[s as int].places.row(r));
                                if !st.locations.row(r).subset_of(entry0[s as int].locations.row(r)) {
                                    let x = choose|x: int| st.locations.row(r).contains(x) && !entry0[s as int].locations.row(r).contains(x);
                                    assert(stv.0(r).contains(x));
                                    assert(e1.0(r).contains(x) && !e0.0(r).contains(x));
                                } else {
                                    let x = choose|x: int| st.places.row(r).contains(x) && !entry0[s as int].places.row(r).contains(x);
                                    assert(stv.1(r).contains(x));
                                    assert(e1.1(r).contains(x) && !e0.1(r).contains(x));
                                }
                                assert(0 <= r < np);
                            } else {
                                assert forall|r: int| #![trigger e1.0(r)] e1.0(r) == e0.0(r) by {
                                    assert(st.locations.row(r).subset_of(entry0[s as int].locations.row(r)));
                                    assert(e1.0(r) =~= e0.0(r));
                                }
                                assert forall|r: int| #![trigger e1.1(r)] e1.1(r) == e0.1(r) by {
                                    assert(st.places.row(r).subset_of(entry0[s as int].places.row(r)));
                                    assert(e1.1(r) =~= e0.1(r));
                                }
                                assert(e1.0 =~= e0.0);
                                assert(e1.1 =~= e0.1);
                                assert(e1 == e0);
                                assert forall|b2: int| 0 <= b2 < nb implies #[trigger] rows_of(entry@[b2]) == rows_of(entry0[b2]) by {
                                    if b2 != s {
                                        assert(entry@[b2] == entry0[b2]);
                                    }
                                }
                            }
                        }
                        changed = changed || c;
                        k = k + 1;
                    }
                    proof {
                        if !changed {
                            assert forall|p2: int, s: int| 0 <= p2 < p + 1 && reachable(body, p2) && #[trigger] cfg_edge(body, p2, s)
                                implies rows_le(self.run_steps(rows_of(entry@[p2]), self.block_steps(p2)), rows_of(entry@[s])) by {
                                if p2 == p {
                                    let k2 = choose|k2: int| 0 <= k2 < successors_spec(body.basic_blocks@[p2].terminator.kind).len()
                                        && #[trigger] successors_spec(body.basic_blocks@[p2].terminator.kind)[k2] == s;
                                    assert(rows_le(stv, rows_of(entry@[succ@[k2] as int])));
                                }
                            }
                        }
                    }
                } else {
                    proof {
                        if !changed {
                            assert forall|p2: int, s: int| 0 <= p2 < p + 1 && reachable(body, p2) && #[trigger] cfg_edge(body, p2, s)
                                implies rows_le(self.run_steps(rows_of(entry@[p2]), self.block_steps(p2)), rows_of(entry@[s])) by {
                                if p2 == p {
                                    assert(reach@.contains(p2));
                                }
                            }
                        }
                    }
                }
                p = p + 1;
            }
            if !changed {
                proof {
                    let er = entry_rows(entry@);
                    assert forall|p2: int, s: int| reachable(body, p2) && #[trigger] cfg_edge(body, p2, s)
                        implies rows_le(self.run_steps(er[p2], self.block_steps(p2)), er[s]) by {
                        assert(0 <= s < nb);
                        assert(er[p2] == rows_of(entry@[p2]));
                        assert(er[s] == rows_of(entry@[s]));
                    }
                }
                break;
            }
            proof {
                lemma_total_bound(entry@, np, nl, nb as int);
            }
        }
        FlowResults { analysis: self, entry_states: entry }
    }
}

} // verus!
