use vstd::prelude::*;
use vstd::pervasive::VecAdditionalExecFns;
use crate::body::{Body, TerminatorKind, body_in_range, cfg_closed};
use crate::calls::{Callee, LocalFn, Recursion, decide_recursion, recursion_decision};
use crate::config::{ContextMode, EvalMode, is_extension_active};
use crate::domain::{body_loan_table, regions_in_range};
use crate::loans::{body_conservative_constraints, conservative_constraints_of, extra_in_table, is_table_region, lemma_conservative_regions, local_pointers};
use crate::config::PointerMode;
use crate::fixpoint::FlowResults;
use crate::indexed::IndexSet;
use crate::mir::Operand;
use crate::slicing::{call_summary_of, compute_flow_with_calls, flow_of, opt_results};

verus! {

/// A function of the program: its body, the outlives constraints between
/// its regions, the blocks each block is control-dependent on, and, for
/// each block, what is known of the function its call invokes.
pub struct FunctionInput {
    pub body: Body,
    pub constraints: Vec<(usize, usize)>,
    pub control_dependencies: Vec<IndexSet>,
    pub callees: Vec<Callee>,
}

/// The body index a callee has, when it is a local function with a body.
pub open spec fn callee_body(c: Callee) -> Option<usize> {
    match c {
        Callee::FnDef { local: Some(f), .. } => f.body,
        _ => None,
    }
}

impl FunctionInput {
    /// The function can be analysed, in a program of `n` functions.
    pub open spec fn wf(&self, n: nat) -> bool {
        &&& body_in_range(self.body)
        &&& cfg_closed(self.body)
        &&& regions_in_range(self.body, self.constraints@)
        &&& self.control_dependencies@.len() == self.body.basic_blocks@.len()
        &&& forall|b: int| 0 <= b < self.control_dependencies@.len() ==> (#[trigger] self.control_dependencies@[b]).size() == self.body.basic_blocks@.len()
        &&& self.callees@.len() == self.body.basic_blocks@.len()
        &&& forall|b: int| 0 <= b < self.callees@.len() ==> (#[trigger] callee_body(self.callees@[b]) matches Some(k) ==> k < n)
    }
}

/// The arguments of the call ending block `b`, if it ends in a call.
pub open spec fn call_args(body: Body, b: int) -> Seq<Operand> {
    match body.basic_blocks@[b].terminator.kind {
        TerminatorKind::Call { args, .. } => args@,
        _ => Seq::empty(),
    }
}

/// The analysis of the functions of a program, each analysed at most once:
/// calls are analysed in their callees when `recurse` holds (see
/// `recursion_decision`).
pub struct ProgramAnalysis {
    /// The functions not analysed yet.
    pub inputs: Vec<Option<FunctionInput>>,
    /// The results of the functions analysed.
    pub results: Vec<Option<FlowResults>>,
    /// Whether calls are analysed in their callees.
    pub recurse: bool,
    /// Whether pointers to values of the same type are taken to alias.
    pub conservative: bool,
    /// Whether a call analysed in its callee reached a function outside the local crate.
    pub reached_library: bool,
    /// The functions as given.
    pub program: Ghost<Seq<FunctionInput>>,
    /// For each function analysed, the functions being analysed when it was.
    pub stacks: Ghost<Seq<Seq<usize>>>,
}

impl ProgramAnalysis {
    /// The extra constraints function `f` is analysed with: in the
    /// conservative pointer mode, those between pointers to values of the
    /// same type; none otherwise.
    pub open spec fn extra_of(&self, f: int) -> Seq<(usize, usize)> {
        if self.conservative {
            body_conservative_constraints(self.program@[f].body.local_tys@)
        } else {
            Seq::empty()
        }
    }

    /// The decision for the call ending block `b` of function `f`.
    pub open spec fn decision(&self, f: int, b: int) -> Recursion {
        let input = self.program@[f];
        recursion_decision(input.callees@[b], input.body.local_tys@, call_args(input.body, b), self.stacks@[f])
    }

    /// The results standing for the callee of block `b` of function `f`.
    pub open spec fn callee_results(&self, f: int, b: int) -> Option<FlowResults> {
        if self.recurse {
            match self.decision(f, b) {
                Recursion::Into(k) => self.results@[k as int],
                _ => None,
            }
        } else {
            None
        }
    }

    /// Function `f` has been analysed: its results are the least fixpoint
    /// for its body, and each call analysed in its callee carries the
    /// effects of the callee's results, which are there.
    pub open spec fn analysed(&self, f: int) -> bool {
        let input = self.program@[f];
        &&& self.results@[f] matches Some(r)
        &&& flow_of(r, input.body, input.constraints@, self.extra_of(f), input.control_dependencies)
        &&& r.analysis.call_summaries@.len() == input.body.basic_blocks@.len()
        &&& forall|b: int| 0 <= b < input.body.basic_blocks@.len() ==> {
            &&& (self.recurse ==> (#[trigger] self.decision(f, b) matches Recursion::Into(k) ==> self.results@[k as int] is Some))
            &&& call_summary_of(r.analysis, self.callee_results(f, b), b)
        }
    }

    /// The state while the functions `stack` are being analysed.
    pub open spec fn inv(&self, stack: Seq<usize>) -> bool {
        let n = self.program@.len();
        &&& self.inputs@.len() == n
        &&& self.results@.len() == n
        &&& self.stacks@.len() == n
        &&& forall|j: int| 0 <= j < n ==> (#[trigger] self.program@[j]).wf(n)
        &&& forall|j: int| 0 <= j < n ==> (#[trigger] self.inputs@[j] matches Some(x) ==> x == self.program@[j] && self.results@[j] is None)
        &&& forall|j: int| 0 <= j < n ==> (#[trigger] self.results@[j] is Some ==> self.analysed(j) && self.inputs@[j] is None)
        &&& forall|j: int| 0 <= j < n ==> (stack.contains(j as usize) <==> (#[trigger] self.inputs@[j]) is None && self.results@[j] is None)
        &&& forall|k: int| 0 <= k < stack.len() ==> (#[trigger] stack[k]) < n
    }

    /// The number of functions not analysed yet.
    pub open spec fn remaining(&self) -> nat {
        count_some(self.inputs@)
    }

    /// Calls are analysed in their callees, and the call ending one of the
    /// blocks `0..n` of function `j` reaches a function outside the local crate.
    pub open spec fn reaches_before(&self, j: int, n: int) -> bool {
        self.recurse && exists|b: int| 0 <= b < n && (#[trigger] self.decision(j, b)) is ReachesLibrary
    }

    /// Calls are analysed in their callees, and a call of function `j`
    /// reaches a function outside the local crate.
    pub open spec fn reaches_library(&self, j: int) -> bool {
        self.reaches_before(j, self.program@[j].body.basic_blocks@.len() as int)
    }
}

/// A function analysed in `after` but not in `before` reaches a function
/// outside the local crate (see `reaches_library`).
pub open spec fn newly_reached(before: Seq<Option<FlowResults>>, after: ProgramAnalysis) -> bool {
    exists|j: int| 0 <= j < before.len() && before[j] is None && (#[trigger] after.results@[j]) is Some
        && after.reaches_library(j)
}

proof fn lemma_reached_after_call(old_results: Seq<Option<FlowResults>>, prev: ProgramAnalysis, cur: ProgramAnalysis, f: int, b: int)
    requires
        prev.program == cur.program,
        prev.recurse == cur.recurse,
        old_results.len() == prev.results@.len(),
        cur.results@.len() == prev.results@.len(),
        cur.stacks@.len() == prev.stacks@.len(),
        forall|j: int| 0 <= j < old_results.len() && (#[trigger] old_results[j]) is Some ==> prev.results@[j] is Some,
        forall|j: int| 0 <= j < prev.results@.len() && (#[trigger] prev.results@[j]) is Some ==> cur.results@[j] == prev.results@[j]
            && cur.stacks@[j] == prev.stacks@[j],
        cur.stacks@[f] == prev.stacks@[f],
    ensures
        newly_reached(old_results, cur) == (newly_reached(old_results, prev) || newly_reached(prev.results@, cur)),
        forall|c: int| #[trigger] cur.decision(f, c) == prev.decision(f, c),
        cur.reaches_before(f, b) == prev.reaches_before(f, b),
{
    if cur.reaches_before(f, b) {
        let c = choose|c: int| 0 <= c < b && (#[trigger] cur.decision(f, c)) is ReachesLibrary;
        assert(prev.decision(f, c) is ReachesLibrary);
    }
    if prev.reaches_before(f, b) {
        let c = choose|c: int| 0 <= c < b && (#[trigger] prev.decision(f, c)) is ReachesLibrary;
        assert(cur.decision(f, c) is ReachesLibrary);
    }
    if newly_reached(old_results, cur) {
        let j = choose|j: int| 0 <= j < old_results.len() && old_results[j] is None && (#[trigger] cur.results@[j]) is Some
            && cur.reaches_library(j);
        if prev.results@[j] is Some {
            let c = choose|c: int| 0 <= c < cur.program@[j].body.basic_blocks@.len() && (#[trigger] cur.decision(j, c)) is ReachesLibrary;
            assert(prev.decision(j, c) == cur.decision(j, c));
            assert(prev.reaches_library(j));
            assert(newly_reached(old_results, prev));
        } else {
            assert(newly_reached(prev.results@, cur));
        }
    }
    if newly_reached(old_results, prev) {
        let j = choose|j: int| 0 <= j < old_results.len() && old_results[j] is None && (#[trigger] prev.results@[j]) is Some
            && prev.reaches_library(j);
        let c = choose|c: int| 0 <= c < prev.program@[j].body.basic_blocks@.len() && (#[trigger] prev.decision(j, c)) is ReachesLibrary;
        assert(prev.decision(j, c) == cur.decision(j, c));
        assert(cur.reaches_library(j));
        assert(newly_reached(old_results, cur));
    }
    if newly_reached(prev.results@, cur) {
        let j = choose|j: int| 0 <= j < prev.results@.len() && prev.results@[j] is None && (#[trigger] cur.results@[j]) is Some
            && cur.reaches_library(j);
        assert(old_results[j] is None);
        assert(newly_reached(old_results, cur));
    }
}

proof fn lemma_reaches_before_step(p: ProgramAnalysis, f: int, b: int)
    requires
        0 <= b,
    ensures
        p.reaches_before(f, b + 1) == (p.reaches_before(f, b) || (p.recurse && p.decision(f, b) is ReachesLibrary)),
{
    if p.reaches_before(f, b + 1) {
        let c = choose|c: int| 0 <= c < b + 1 && (#[trigger] p.decision(f, c)) is ReachesLibrary;
        if c < b {
            assert(p.reaches_before(f, b));
        }
    }
    if p.reaches_before(f, b) {
        let c = choose|c: int| 0 <= c < b && (#[trigger] p.decision(f, c)) is ReachesLibrary;
        assert(p.reaches_before(f, b + 1));
    }
}

proof fn lemma_reached_after_set(old_results: Seq<Option<FlowResults>>, pre: ProgramAnalysis, fin: ProgramAnalysis, f: int, r: FlowResults)
    requires
        0 <= f < old_results.len(),
        old_results.len() == pre.results@.len(),
        old_results[f] is None,
        pre.results@[f] is None,
        fin.results@ == pre.results@.update(f, Some(r)),
        fin.program == pre.program,
        fin.recurse == pre.recurse,
        fin.stacks == pre.stacks,
    ensures
        newly_reached(old_results, fin) == (newly_reached(old_results, pre) || pre.reaches_library(f)),
{
    assert forall|j: int, c: int| #[trigger] fin.decision(j, c) == pre.decision(j, c) by {}
    assert(fin.reaches_library(f) == pre.reaches_library(f)) by {
        if fin.reaches_library(f) {
            let c = choose|c: int| 0 <= c < fin.program@[f].body.basic_blocks@.len() && (#[trigger] fin.decision(f, c)) is ReachesLibrary;
            assert(pre.decision(f, c) is ReachesLibrary);
        }
        if pre.reaches_library(f) {
            let c = choose|c: int| 0 <= c < pre.program@[f].body.basic_blocks@.len() && (#[trigger] pre.decision(f, c)) is ReachesLibrary;
            assert(fin.decision(f, c) is ReachesLibrary);
        }
    }
    if newly_reached(old_results, fin) {
        let j = choose|j: int| 0 <= j < old_results.len() && old_results[j] is None && (#[trigger] fin.results@[j]) is Some
            && fin.reaches_library(j);
        if j != f {
            let c = choose|c: int| 0 <= c < fin.program@[j].body.basic_blocks@.len() && (#[trigger] fin.decision(j, c)) is ReachesLibrary;
            assert(pre.decision(j, c) is ReachesLibrary);
            assert(pre.results@[j] is Some);
            assert(newly_reached(old_results, pre));
        }
    }
    if newly_reached(old_results, pre) {
        let j = choose|j: int| 0 <= j < old_results.len() && old_results[j] is None && (#[trigger] pre.results@[j]) is Some
            && pre.reaches_library(j);
        let c = choose|c: int| 0 <= c < pre.program@[j].body.basic_blocks@.len() && (#[trigger] pre.decision(j, c)) is ReachesLibrary;
        assert(fin.decision(j, c) is ReachesLibrary);
        assert(fin.results@[j] is Some);
        assert(newly_reached(old_results, fin));
    }
    if pre.reaches_library(f) {
        assert(fin.results@[f] is Some);
        assert(newly_reached(old_results, fin));
    }
}

proof fn lemma_inv_same(a: ProgramAnalysis, b: ProgramAnalysis, stack: Seq<usize>)
    requires
        a.inv(stack),
        a.inputs == b.inputs,
        a.results == b.results,
        a.program == b.program,
        a.stacks == b.stacks,
        a.recurse == b.recurse,
        a.conservative == b.conservative,
    ensures
        b.inv(stack),
{
    assert forall|j: int| 0 <= j < b.program@.len() && (#[trigger] b.results@[j]) is Some implies b.analysed(j) by {
        assert(a.analysed(j));
        assert forall|bb: int| 0 <= bb < b.program@[j].body.basic_blocks@.len() implies #[trigger] b.decision(j, bb) == a.decision(j, bb)
            && b.callee_results(j, bb) == a.callee_results(j, bb) by {}
    }
}

/// The regions of the constraints the conservative pointer mode adds are
/// regions of the body's loan table.
proof fn lemma_conservative_in_table(body: Body)
    ensures
        extra_in_table(body_loan_table(body), body_conservative_constraints(body.local_tys@)),
{
    let decls = body.local_tys@;
    let ptrs = local_pointers(decls, decls.len() as int);
    let more = body_conservative_constraints(decls);
    lemma_conservative_regions(decls, ptrs, ptrs.len() as int);
    let table = body_loan_table(body);
    assert forall|k: int| 0 <= k < more.len() implies
        is_table_region(table, (#[trigger] more[k]).0) && is_table_region(table, more[k].1) by {
        let c = more[k];
        let i = choose|i: int| 0 <= i < ptrs.len() && ptrs[i].0 == c.0;
        let j = choose|j: int| 0 <= j < ptrs.len() && ptrs[j].0 == c.1;
        assert(table[i].0 == ptrs[i].0);
        assert(table[j].0 == ptrs[j].0);
    }
}

/// The number of entries that hold a value.
pub open spec fn count_some(s: Seq<Option<FunctionInput>>) -> nat
    decreases s.len(),
{
    if s.len() == 0 { 0 } else { count_some(s.drop_last()) + if s.last() is Some { 1nat } else { 0nat } }
}

proof fn lemma_count_take(s: Seq<Option<FunctionInput>>, i: int)
    requires
        0 <= i < s.len(),
        s[i] is Some,
    ensures
        count_some(s.update(i, None)) + 1 == count_some(s),
    decreases s.len(),
{
    if i < s.len() - 1 {
        assert(s.update(i, None).drop_last() =~= s.drop_last().update(i, None));
        lemma_count_take(s.drop_last(), i);
    } else {
        assert(s.update(i, None).drop_last() =~= s.drop_last());
    }
}

impl ProgramAnalysis {
    /// Analyses function `f`, when it has not been yet: first the callees
    /// its calls are analysed in, then `f` itself with their results.
    /// `stack` holds the functions being analysed.
    #[verifier::spinoff_prover]
    #[verifier::rlimit(30)]
    fn analyze(&mut self, f: usize, stack: &mut Vec<usize>)
        requires
            old(self).inv(old(stack)@),
            f < old(self).program@.len(),
            !old(stack)@.contains(f),
        ensures
            final(self).inv(old(stack)@),
            final(stack)@ == old(stack)@,
            final(self).program == old(self).program,
            final(self).recurse == old(self).recurse,
            final(self).conservative == old(self).conservative,
            final(self).results@[f as int] is Some,
            final(self).remaining() <= old(self).remaining(),
            forall|j: int| 0 <= j < old(self).results@.len() && (#[trigger] old(self).results@[j]) is Some ==> final(self).results@[j] == old(self).results@[j]
                && final(self).stacks@[j] == old(self).stacks@[j],
            forall|j: int| 0 <= j < old(self).results@.len() && old(stack)@.contains(j as usize) ==> #[trigger] final(self).stacks@[j] == old(self).stacks@[j],
            old(self).results@[f as int] is None ==> final(self).stacks@[f as int] == old(stack)@.push(f),
            final(self).reached_library == (old(self).reached_library || newly_reached(old(self).results@, *final(self))),
        decreases old(self).remaining(),
    {
        if self.results[f].is_some() {
            return;
        }
        let ghost n = self.program@.len();
        let ghost old_results = self.results@;
        let ghost old_stacks = self.stacks@;
        let mut taken: Option<FunctionInput> = None;
        self.inputs.set_and_swap(f, &mut taken);
        let input = match taken {
            Some(x) => x,
            None => { return; },
        };
        proof {
            lemma_count_take(old(self).inputs@, f as int);
        }
        stack.push(f);
        let ghost st = stack@;
        assert(st =~= old(stack)@.push(f));
        assert(n == self.inputs@.len() && self.inputs@.len() == self.inputs.len());
        assert(st.contains(f)) by { assert(st[st.len() - 1] == f); }
        self.stacks = Ghost(self.stacks@.update(f as int, st));
        proof {
            assert forall|j: int| 0 <= j < n && (#[trigger] self.results@[j]) is Some implies self.analysed(j) by {
                assert(old(self).analysed(j));
                assert(j != f);
                assert forall|b: int| 0 <= b < self.program@[j].body.basic_blocks@.len() implies #[trigger] self.decision(j, b) == old(self).decision(j, b) by {}
            }
            assert forall|j: int| 0 <= j < n implies (st.contains(j as usize) <==> (#[trigger] self.inputs@[j]) is None && self.results@[j] is None) by {
                if j == f {
                    assert(st[st.len() - 1] == f);
                } else {
                    assert(st.contains(j as usize) <==> old(stack)@.contains(j as usize)) by {
                        if st.contains(j as usize) {
                            let k = choose|k: int| 0 <= k < st.len() && st[k] == j as usize;
                            assert(k < old(stack)@.len());
                            assert(old(stack)@[k] == j as usize);
                        }
                        if old(stack)@.contains(j as usize) {
                            let k = choose|k: int| 0 <= k < old(stack)@.len() && old(stack)@[k] == j as usize;
                            assert(st[k] == j as usize);
                        }
                    }
                }
            }
            assert(self.inv(st));
        }
        let nb = input.body.basic_blocks.len();
        let mut targets: Vec<Option<usize>> = Vec::new();
        let mut b: usize = 0;
        while b < nb
            invariant
                self.inv(st),
                stack@ == st,
                st == old(stack)@.push(f),
                self.program == old(self).program,
                self.recurse == old(self).recurse,
                self.conservative == old(self).conservative,
                n == self.program@.len(),
                f < n,
                self.stacks@[f as int] == st,
                st.contains(f),
                n <= usize::MAX,
                self.remaining() + 1 <= old(self).remaining(),
                input == self.program@[f as int],
                nb == input.body.basic_blocks@.len(),
                b <= nb,
                targets@.len() == b,
                forall|c: int| 0 <= c < b ==> #[trigger] targets@[c] == (if self.recurse && self.decision(f as int, c) is Into {
                    Some(self.decision(f as int, c)->Into_0)
                } else {
                    None
                }),
                forall|c: int| 0 <= c < b ==> (#[trigger] targets@[c] matches Some(k) ==> k < n && self.results@[k as int] is Some),
                forall|j: int| 0 <= j < n && (#[trigger] old_results[j]) is Some ==> self.results@[j] == old_results[j]
                    && self.stacks@[j] == old_stacks[j],
                forall|j: int| 0 <= j < n && old(stack)@.contains(j as usize) ==> #[trigger] self.stacks@[j] == old_stacks[j],
                old_results == old(self).results@,
                old_results.len() == n,
                self.reached_library == (old(self).reached_library || newly_reached(old_results, *self)
                    || self.reaches_before(f as int, b as int)),
            decreases nb - b,
        {
            let d = if self.recurse {
                match &input.body.basic_blocks[b].terminator.kind {
                    TerminatorKind::Call { args, .. } => decide_recursion(&input.callees[b], &input.body.local_tys, args, stack),
                    _ => {
                        let none: Vec<Operand> = Vec::new();
                        assert(none@ =~= Seq::<Operand>::empty());
                        decide_recursion(&input.callees[b], &input.body.local_tys, &none, stack)
                    },
                }
            } else {
                Recursion::No
            };
            let ghost prev_results = self.results@;
            let ghost prev_stacks = self.stacks@;
            match d {
                Recursion::Into(k) => {
                    proof {
                        assert(self.decision(f as int, b as int) == d);
                        assert(input.wf(n));
                        assert(callee_body(input.callees@[b as int]) == Some(k));
                        assert(!st.contains(k));
                    }
                    let ghost prev = *self;
                    self.analyze(k, stack);
                    assert(self.stacks@[f as int] == prev_stacks[f as int]);
                    proof {
                        lemma_reached_after_call(old_results, prev, *self, f as int, b as int);
                        lemma_reaches_before_step(*self, f as int, b as int);
                    }
                    proof {
                        assert forall|j: int| 0 <= j < n && old(stack)@.contains(j as usize) implies #[trigger] self.stacks@[j] == prev_stacks[j] by {
                            let x = choose|x: int| 0 <= x < old(stack)@.len() && old(stack)@[x] == j as usize;
                            assert(st[x] == j as usize);
                            assert(st.contains(j as usize));
                        }
                    }
                    targets.push(Some(k));
                },
                Recursion::ReachesLibrary => {
                    let ghost before_flag = *self;
                    self.reached_library = true;
                    proof {
                        lemma_inv_same(before_flag, *self, st);
                        assert(self.decision(f as int, b as int) == d);
                        lemma_reaches_before_step(*self, f as int, b as int);
                    }
                    targets.push(None);
                },
                Recursion::No => {
                    proof {
                        if self.recurse {
                            assert(self.decision(f as int, b as int) == d);
                        }
                        lemma_reaches_before_step(*self, f as int, b as int);
                    }
                    targets.push(None);
                },
            }
            proof {
                assert forall|c: int| 0 <= c < b + 1 implies #[trigger] targets@[c] == (if self.recurse && self.decision(f as int, c) is Into {
                    Some(self.decision(f as int, c)->Into_0)
                } else {
                    None
                }) by {
                    assert(self.stacks@[f as int] == st);
                    assert(self.decision(f as int, c) == recursion_decision(input.callees@[c], input.body.local_tys@, call_args(input.body, c), st));
                }
                assert forall|c: int| 0 <= c < b + 1 implies (#[trigger] targets@[c] matches Some(k) ==> k < n && self.results@[k as int] is Some) by {
                    if c < b {
                        if let Some(k) = targets@[c] {
                            assert(prev_results[k as int] is Some);
                        }
                    }
                }
            }
            b = b + 1;
        }
        // The results of the callees, block by block.
        let mut callees: Vec<Option<&FlowResults>> = Vec::new();
        let mut c: usize = 0;
        while c < nb
            invariant
                self.inv(st),
                n == self.program@.len(),
                nb == targets@.len(),
                c <= nb,
                callees@.len() == c,
                forall|x: int| 0 <= x < nb ==> (#[trigger] targets@[x] matches Some(k) ==> k < n && self.results@[k as int] is Some),
                forall|x: int| 0 <= x < c ==> opt_results(#[trigger] callees@[x]) == match targets@[x] {
                    Some(k) => self.results@[k as int],
                    None => None,
                },
                forall|x: int| 0 <= x < c ==> (#[trigger] callees@[x] matches Some(r) ==> r.wf()),
            decreases nb - c,
        {
            let entry: Option<&FlowResults> = match targets[c] {
                Some(k) => {
                    proof { assert(self.analysed(k as int)); }
                    self.results[k].as_ref()
                },
                None => None,
            };
            callees.push(entry);
            c = c + 1;
        }
        let FunctionInput { body, constraints, control_dependencies, callees: _ } = input;
        let extra: Vec<(usize, usize)> = if self.conservative {
            conservative_constraints_of(&body.local_tys)
        } else {
            Vec::new()
        };
        assert(extra@ == self.extra_of(f as int));
        proof { lemma_conservative_in_table(body); }
        let res = compute_flow_with_calls(body, &constraints, &extra, control_dependencies, &callees);
        let ghost before_set = self.results@;
        let ghost pre = *self;
        let ghost rv = res;
        let ghost cv: Seq<Option<FlowResults>> = Seq::new(nb as nat, |x: int| opt_results(callees@[x]));
        assert forall|x: int| 0 <= x < nb implies call_summary_of(rv.analysis, #[trigger] cv[x], x) by {
            assert(call_summary_of(res.analysis, opt_results(callees@[x]), x));
        }
        self.results.set(f, Some(res));
        assert(self.results@ == pre.results@.update(f as int, Some(rv)));
        proof {
            lemma_reached_after_set(old_results, pre, *self, f as int, rv);
        }
        stack.pop();
        proof {
            assert(stack@ =~= old(stack)@);
            assert forall|j: int| 0 <= j < n implies (old(stack)@.contains(j as usize) <==> (#[trigger] self.inputs@[j]) is None && self.results@[j] is None) by {
                if j != f as int {
                    assert(pre.inv(st));
                    assert(st.contains(j as usize) <==> pre.inputs@[j] is None && pre.results@[j] is None);
                    if st.contains(j as usize) {
                        let k = choose|k: int| 0 <= k < st.len() && st[k] == j as usize;
                        if k == old(stack)@.len() {
                            assert(st[k] == f);
                        }
                        assert(old(stack)@[k] == j as usize);
                    }
                    if old(stack)@.contains(j as usize) {
                        let k = choose|k: int| 0 <= k < old(stack)@.len() && old(stack)@[k] == j as usize;
                        assert(st[k] == j as usize);
                    }
                }
            }
            assert forall|j: int| 0 <= j < n && (#[trigger] self.results@[j]) is Some implies self.analysed(j) by {
                if j == f as int {
                    assert forall|bb: int| 0 <= bb < self.program@[j].body.basic_blocks@.len() implies {
                        &&& (self.recurse ==> (#[trigger] self.decision(j, bb) matches Recursion::Into(k) ==> self.results@[k as int] is Some))
                        &&& call_summary_of(rv.analysis, self.callee_results(j, bb), bb)
                    } by {
                        assert(call_summary_of(rv.analysis, cv[bb], bb));
                        if let Some(k) = targets@[bb] {
                            assert(before_set[k as int] is Some);
                            assert(k != f);
                        }
                    }
                } else {
                    assert(before_set[j] is Some);
                    assert(pre.analysed(j));
                    assert forall|bb: int| 0 <= bb < self.program@[j].body.basic_blocks@.len() implies {
                        &&& (self.recurse ==> (#[trigger] self.decision(j, bb) matches Recursion::Into(k) ==> self.results@[k as int] is Some))
                        &&& call_summary_of(self.results@[j]->Some_0.analysis, self.callee_results(j, bb), bb)
                    } by {
                        assert(self.decision(j, bb) == pre.decision(j, bb));
                        if self.recurse {
                            if let Recursion::Into(k) = self.decision(j, bb) {
                                assert(pre.results@[k as int] is Some);
                                assert(k != f);
                                assert(self.program@[j].wf(n));
                                assert(callee_body(self.program@[j].callees@[bb]) == Some(k));
                                assert(k < n);
                                assert(self.results@[k as int] == pre.results@[k as int]);
                            }
                        }
                        assert(self.callee_results(j, bb) == pre.callee_results(j, bb));
                        assert(call_summary_of(pre.results@[j]->Some_0.analysis, pre.callee_results(j, bb), bb));
                    }
                }
            }
        }
    }
}

impl ProgramAnalysis {
    /// The analysis of the functions of `program`, none analysed yet; `mode`
    /// is the mode of the run, if one is set: calls are analysed in their
    /// callees when its context mode is `Recurse`.
    pub fn new(program: Vec<FunctionInput>, mode: Option<EvalMode>) -> (p: ProgramAnalysis)
        requires
            forall|j: int| 0 <= j < program@.len() ==> (#[trigger] program@[j]).wf(program@.len()),
        ensures
            p.inv(Seq::empty()),
            p.program@ == program@,
            p.recurse == (mode matches Some(m) && m.context_mode == ContextMode::Recurse),
            p.conservative == (mode matches Some(m) && m.pointer_mode == PointerMode::Conservative),
            !p.reached_library,
            forall|j: int| 0 <= j < p.results@.len() ==> (#[trigger] p.results@[j]) is None,
    {
        let recurse = is_extension_active(mode, |m: EvalMode| -> (b: bool)
            ensures
                b == (m.context_mode == ContextMode::Recurse),
            {
                m.context_mode == ContextMode::Recurse
            });
        let conservative = is_extension_active(mode, |m: EvalMode| -> (b: bool)
            ensures
                b == (m.pointer_mode == PointerMode::Conservative),
            {
                m.pointer_mode == PointerMode::Conservative
            });
        let ghost all = program@;
        let n = program.len();
        let mut rest = program;
        let mut inputs: Vec<Option<FunctionInput>> = Vec::new();
        let mut results: Vec<Option<FlowResults>> = Vec::new();
        let ghost mut i: int = 0;
        while rest.len() > 0
            invariant
                0 <= i <= all.len(),
                rest@ == all.skip(i),
                inputs@.len() == i,
                results@.len() == i,
                forall|j: int| 0 <= j < i ==> (#[trigger] inputs@[j]) == Some(all[j]),
                forall|j: int| 0 <= j < i ==> (#[trigger] results@[j]) is None,
            decreases rest@.len(),
        {
            let ghost before = rest@;
            let x = rest.remove(0);
            proof {
                assert(all.skip(i)[0] == all[i]);
                assert(rest@ =~= all.skip(i + 1));
            }
            inputs.push(Some(x));
            results.push(None);
            proof { i = i + 1; }
        }
        let p = ProgramAnalysis {
            inputs,
            results,
            recurse,
            conservative,
            reached_library: false,
            program: Ghost(all),
            stacks: Ghost(Seq::new(all.len(), |j: int| Seq::<usize>::empty())),
        };
        proof {
            assert(i == all.len());
            assert forall|j: int| 0 <= j < all.len() implies (Seq::<usize>::empty().contains(j as usize) <==> (#[trigger] p.inputs@[j]) is None && p.results@[j] is None) by {
                assert(p.inputs@[j] is Some);
            }
        }
        p
    }

    /// Analyses function `f`, if it has not been yet, with the callees its
    /// calls are analysed in (see `recursion_decision`); each function is
    /// analysed once, while the functions on the way to it are being analysed.
    /// `reached_library` is set when a call of a function analysed now
    /// reaches a function outside the local crate. A function analysed
    /// before is not analysed again: the analysis stays as it was, so a
    /// second call gives the results of the first.
    pub fn analyze_function(&mut self, f: usize)
        requires
            old(self).inv(Seq::empty()),
            f < old(self).program@.len(),
        ensures
            final(self).inv(Seq::empty()),
            final(self).program == old(self).program,
            final(self).recurse == old(self).recurse,
            final(self).conservative == old(self).conservative,
            final(self).analysed(f as int),
            old(self).results@[f as int] is None ==> final(self).stacks@[f as int] == seq![f],
            final(self).reached_library == (old(self).reached_library || newly_reached(old(self).results@, *final(self))),
            forall|j: int| 0 <= j < old(self).results@.len() && (#[trigger] old(self).results@[j]) is Some ==> final(self).results@[j] == old(self).results@[j]
                && final(self).stacks@[j] == old(self).stacks@[j],
            old(self).results@[f as int] is Some ==> *final(self) == *old(self),
    {
        if self.results[f].is_some() {
            return;
        }
        let mut stack: Vec<usize> = Vec::new();
        assert(stack@ =~= Seq::<usize>::empty());
        self.analyze(f, &mut stack);
        assert(Seq::<usize>::empty().push(f) =~= seq![f]);
    }

    /// The results of function `f`, once analysed.
    pub fn results_of(&self, f: usize) -> (r: Option<&FlowResults>)
        requires
            f < self.results@.len(),
        ensures
            opt_results(r) == self.results@[f as int],
    {
        self.results[f].as_ref()
    }
}

} // verus!
