use vstd::prelude::*;
use crate::body::TerminatorKind;
use crate::domain::PlaceView;
use crate::fixpoint::FlowResults;
use crate::flow::{CallSummary, FlowDomain, Rows, domain_index, index_of, lookup, place_index, rows_of, summary_in, terminator_index};
use crate::mir::{Location, Operand, Place, ProjElem, arg_places, arg_views, operand_args};
use crate::ty::{ClosureKind, GenericArg, Ty, place_ty, place_ty_spec};

verus! {

/// The location of the terminator of block `b`.
pub open spec fn terminator_loc(res: FlowResults, b: int) -> Location {
    Location { block: b as usize, statement_index: res.analysis.body.basic_blocks@[b].statements@.len() as usize }
}

/// Block `b` ends the function.
pub open spec fn is_return_block(res: FlowResults, b: int) -> bool {
    0 <= b < res.analysis.body.basic_blocks@.len() && res.analysis.body.basic_blocks@[b].terminator.kind is Return
}

/// The dependencies on exit of the function: those after each return,
/// joined.
pub open spec fn return_rows(res: FlowResults) -> Rows {
    (|r: int| Set::new(|l: int| exists|b: int| #[trigger] is_return_block(res, b) && res.after(terminator_loc(res, b)).0(r).contains(l)),
     |r: int| Set::new(|p: int| exists|b: int| #[trigger] is_return_block(res, b) && res.after(terminator_loc(res, b)).1(r).contains(p)))
}

/// The union of `row(c)` over the return blocks `c` among `0..b`.
pub open spec fn returns_union(res: FlowResults, row: spec_fn(int) -> Set<int>, b: int) -> Set<int> {
    Set::new(|x: int| exists|c: int| 0 <= c < b && #[trigger] is_return_block(res, c) && row(c).contains(x))
}

/// The union over the return blocks of `0..b + 1` adds block `b`'s row when
/// it is a return block.
proof fn lemma_returns_union_step(res: FlowResults, row: spec_fn(int) -> Set<int>, b: int)
    requires
        0 <= b,
    ensures
        returns_union(res, row, b + 1) == if is_return_block(res, b) {
            returns_union(res, row, b).union(row(b))
        } else {
            returns_union(res, row, b)
        },
{
    let next = if is_return_block(res, b) { returns_union(res, row, b).union(row(b)) } else { returns_union(res, row, b) };
    assert forall|x: int| #[trigger] returns_union(res, row, b + 1).contains(x) <==> next.contains(x) by {
        if returns_union(res, row, b + 1).contains(x) {
            let c = choose|c: int| 0 <= c < b + 1 && #[trigger] is_return_block(res, c) && row(c).contains(x);
            if c < b {
                assert(returns_union(res, row, b).contains(x));
            }
        }
        if returns_union(res, row, b).contains(x) {
            let c = choose|c: int| 0 <= c < b && #[trigger] is_return_block(res, c) && row(c).contains(x);
            assert(0 <= c < b + 1);
        }
    }
    assert(returns_union(res, row, b + 1) =~= next);
}

/// The union over all return blocks is that over the blocks of the body.
proof fn lemma_returns_union_all(res: FlowResults, row: spec_fn(int) -> Set<int>)
    ensures
        returns_union(res, row, res.analysis.body.basic_blocks@.len() as int)
            =~= Set::new(|x: int| exists|c: int| #[trigger] is_return_block(res, c) && row(c).contains(x)),
{
}

impl FlowResults {
    /// The location row `r` after block `c`'s terminator.
    pub open spec fn exit_locations(&self, r: int) -> spec_fn(int) -> Set<int> {
        |c: int| self.after(terminator_loc(*self, c)).0(r)
    }

    /// The place row `r` after block `c`'s terminator.
    pub open spec fn exit_places(&self, r: int) -> spec_fn(int) -> Set<int> {
        |c: int| self.after(terminator_loc(*self, c)).1(r)
    }

    /// The dependencies on exit of the function (see `return_rows`).
    pub fn return_state(&self) -> (st: FlowDomain)
        requires
            self.wf(),
        ensures
            st.wf(self.analysis.np(), self.analysis.nl()),
            rows_of(st).0 =~= return_rows(*self).0,
            rows_of(st).1 =~= return_rows(*self).1,
    {
        let a = &self.analysis;
        let np = a.place_domain.len();
        let nl = a.location_domain.len();
        let mut st = FlowDomain::new(np, nl);
        let nb = a.body.basic_blocks.len();
        proof {
            assert forall|r: int| #[trigger] rows_of(st).0(r) == returns_union(*self, self.exit_locations(r), 0) by {
                assert(rows_of(st).0(r) =~= returns_union(*self, self.exit_locations(r), 0));
            }
            assert forall|r: int| #[trigger] rows_of(st).1(r) == returns_union(*self, self.exit_places(r), 0) by {
                assert(st.locations.row(r) == Set::<int>::empty());
                assert(rows_of(st).1(r) =~= returns_union(*self, self.exit_places(r), 0));
            }
        }
        let mut b: usize = 0;
        while b < nb
            invariant
                self.wf(),
                a == &self.analysis,
                np == a.np(),
                nl == a.nl(),
                nb == a.body.basic_blocks@.len(),
                b <= nb,
                st.wf(np as nat, nl as nat),
                forall|r: int| #[trigger] rows_of(st).0(r) == returns_union(*self, self.exit_locations(r), b as int),
                forall|r: int| #[trigger] rows_of(st).1(r) == returns_union(*self, self.exit_places(r), b as int),
            decreases nb - b,
        {
            let ghost prev = rows_of(st);
            if matches!(a.body.basic_blocks[b].terminator.kind, TerminatorKind::Return) {
                let l = Location { block: b, statement_index: a.body.basic_blocks[b].statements.len() };
                assert(l == terminator_loc(*self, b as int));
                let here = self.state_after(l);
                st.join(&here);
                proof {
                    assert(is_return_block(*self, b as int));
                    assert forall|r: int| #[trigger] rows_of(st).0(r) == returns_union(*self, self.exit_locations(r), b + 1) by {
                        lemma_returns_union_step(*self, self.exit_locations(r), b as int);
                        assert(rows_of(st).0(r) =~= prev.0(r).union(self.exit_locations(r)(b as int)));
                    }
                    assert forall|r: int| #[trigger] rows_of(st).1(r) == returns_union(*self, self.exit_places(r), b + 1) by {
                        lemma_returns_union_step(*self, self.exit_places(r), b as int);
                        assert(rows_of(st).1(r) =~= prev.1(r).union(self.exit_places(r)(b as int)));
                    }
                }
            } else {
                proof {
                    assert(!is_return_block(*self, b as int));
                    assert forall|r: int| #[trigger] rows_of(st).0(r) == returns_union(*self, self.exit_locations(r), b + 1) by {
                        lemma_returns_union_step(*self, self.exit_locations(r), b as int);
                    }
                    assert forall|r: int| #[trigger] rows_of(st).1(r) == returns_union(*self, self.exit_places(r), b + 1) by {
                        lemma_returns_union_step(*self, self.exit_places(r), b as int);
                    }
                }
            }
            b = b + 1;
        }
        proof {
            assert forall|r: int| #[trigger] rows_of(st).0(r) =~= return_rows(*self).0(r) by {
                lemma_returns_union_all(*self, self.exit_locations(r));
            }
            assert forall|r: int| #[trigger] rows_of(st).1(r) =~= return_rows(*self).1(r) by {
                lemma_returns_union_all(*self, self.exit_places(r));
            }
        }
        st
    }
}

/// The longest prefix, of length at most `k`, of `p` that the domain holds
/// as it is: its length.
pub open spec fn longest_present_prefix(domain: Seq<Place>, p: PlaceView, k: int) -> Option<int>
    decreases k,
{
    if k < 0 {
        None
    } else if lookup(domain, (p.0, p.1.take(k))) is Some {
        Some(k)
    } else if k == 0 {
        None
    } else {
        longest_present_prefix(domain, p, k - 1)
    }
}

/// The place passed as argument `j` (the first entry for it from position `k` on).
pub open spec fn arg_at(args: Seq<(usize, PlaceView)>, j: int, k: int) -> Option<PlaceView>
    decreases args.len() - k,
{
    if k < 0 || k >= args.len() {
        None
    } else if args[k].0 == j {
        Some(args[k].1)
    } else {
        arg_at(args, j, k + 1)
    }
}

/// The place of the caller that place `c` of the callee stands for: the
/// destination for the callee's return place; for a place of the callee's
/// argument `i` (1-based), the same projection from the place passed as
/// argument `i`, cut to its longest prefix that the caller's domain holds;
/// none otherwise.
pub open spec fn translate_place(arg_count: usize, parent_args: Seq<(usize, PlaceView)>, destination: Option<PlaceView>,
    parent_domain: Seq<Place>, c: PlaceView) -> Option<PlaceView>
{
    if c.0 == 0 && c.1.len() == 0 && destination is Some {
        destination
    } else if !(1 <= c.0 <= arg_count) {
        None
    } else {
        match arg_at(parent_args, c.0 - 1, 0) {
            Some(top) => {
                let projected = (top.0, top.1 + c.1);
                match longest_present_prefix(parent_domain, projected, projected.1.len() as int) {
                    Some(k) => Some((projected.0, projected.1.take(k))),
                    None => None,
                }
            },
            None => None,
        }
    }
}

/// What a call looks like from the callee's side: the callee's analysis,
/// the places passed as arguments, the destination, and the caller's domain.
pub struct CallSite {
    pub parent_args: Seq<(usize, PlaceView)>,
    pub destination: Option<PlaceView>,
    pub parent_domain: Seq<Place>,
}

/// The index in the caller's domain of the place that callee place `d`
/// (a callee domain index) stands for.
pub open spec fn translated_index(child: FlowResults, site: CallSite, d: int) -> Option<int> {
    match translate_place(child.analysis.body.arg_count, site.parent_args, site.destination, site.parent_domain, child.analysis.place_domain@[d]@) {
        Some(q) => index_of(site.parent_domain, q),
        None => None,
    }
}

/// The caller indices standing for the callee places of `deps` among `0..n`, in order.
pub open spec fn translated_deps(child: FlowResults, site: CallSite, deps: Set<int>, n: int) -> Seq<usize>
    decreases n,
{
    if n <= 0 {
        Seq::empty()
    } else {
        let rest = translated_deps(child, site, deps, n - 1);
        if deps.contains(n - 1) {
            match translated_index(child, site, n - 1) {
                Some(i) => rest.push(i as usize),
                None => rest,
            }
        } else {
            rest
        }
    }
}

/// The writes summarising the call for the callee places `0..n`: each place
/// that stands for a caller place and is the return value, or was written by
/// the callee, writes that caller place (definitely for the return value),
/// reading the caller places standing for its dependencies on exit.
pub open spec fn summary_entries(child: FlowResults, site: CallSite, rr: Rows, n: int) -> Seq<(usize, Seq<usize>, bool)>
    decreases n,
{
    if n <= 0 {
        Seq::empty()
    } else {
        let rest = summary_entries(child, site, rr, n - 1);
        let was_return = child.analysis.place_domain@[n - 1]@.0 == 0;
        let mutated = rr.0(n - 1) != Set::<int>::empty();
        match translated_index(child, site, n - 1) {
            Some(m) => if was_return || mutated {
                rest.push((m as usize, translated_deps(child, site, rr.1(n - 1), child.analysis.np() as int), was_return))
            } else {
                rest
            },
            None => rest,
        }
    }
}

/// The view of a call summary.
pub open spec fn summary_view(s: Seq<(usize, Vec<usize>, bool)>) -> Seq<(usize, Seq<usize>, bool)> {
    s.map_values(|e: (usize, Vec<usize>, bool)| (e.0, e.1@, e.2))
}

/// The place passed as argument `j`, if any (see `arg_at`).
fn find_arg(args: &Vec<(usize, Place)>, j: usize) -> (r: Option<Place>)
    ensures
        match r {
            Some(p) => arg_at(arg_views(args@), j as int, 0) == Some(p@),
            None => arg_at(arg_views(args@), j as int, 0) is None,
        },
{
    let mut k: usize = 0;
    while k < args.len()
        invariant
            k <= args@.len(),
            arg_at(arg_views(args@), j as int, 0) == arg_at(arg_views(args@), j as int, k as int),
        decreases args@.len() - k,
    {
        if args[k].0 == j {
            return Some(args[k].1.copy());
        }
        k = k + 1;
    }
    None
}

/// The place of the caller that callee place `c` stands for (see `translate_place`).
fn translate(arg_count: usize, parent_args: &Vec<(usize, Place)>, destination: &Option<Place>, parent_domain: &Vec<Place>, c: &Place)
    -> (r: Option<Place>)
    ensures
        match r {
            Some(p) => translate_place(arg_count, arg_views(parent_args@), match destination { Some(d) => Some(d@), None => None }, parent_domain@, c@) == Some(p@),
            None => translate_place(arg_count, arg_views(parent_args@), match destination { Some(d) => Some(d@), None => None }, parent_domain@, c@) is None,
        },
{
    if c.local == 0 && c.projection.len() == 0 {
        if let Some(d) = destination {
            return Some(d.copy());
        }
    }
    if !(1 <= c.local && c.local <= arg_count) {
        return None;
    }
    match find_arg(parent_args, c.local - 1) {
        Some(top) => {
            let projected = top.project(&c.projection);
            assert(projected@ == (top@.0, top@.1 + c@.1));
            let ghost pv = projected@;
            let mut k = projected.projection.len();
            loop
                invariant
                    k <= pv.1.len(),
                    projected@ == pv,
                    pv == (top@.0, top@.1 + c@.1),
                    1 <= c.local <= arg_count,
                    arg_at(arg_views(parent_args@), c.local - 1, 0) == Some(top@),
                    longest_present_prefix(parent_domain@, pv, pv.1.len() as int) == longest_present_prefix(parent_domain@, pv, k as int),
                decreases k,
            {
                let prefix = projected.prefix(k);
                if place_index(parent_domain, &prefix).is_some() {
                    return Some(prefix);
                }
                if k == 0 {
                    return None;
                }
                k = k - 1;
            }
        },
        None => None,
    }
}

impl FlowResults {
    /// The writes summarising a call to the function analysed here (see
    /// `summary_entries`): `args` and `destination` are those of the call,
    /// `parent_domain` the caller's place domain.
    pub fn summarize_call(&self, args: &Vec<Operand>, destination: &Option<(Place, usize)>, parent_domain: &Vec<Place>) -> (s: CallSummary)
        requires
            self.wf(),
        ensures
            summary_in(s@, parent_domain@.len()),
            ({
                let site = CallSite {
                    parent_args: operand_args(args@, args@.len() as int),
                    destination: match destination { Some((d, _)) => Some(d@), None => None },
                    parent_domain: parent_domain@,
                };
                summary_view(s@) == summary_entries(*self, site, return_rows(*self), self.analysis.np() as int)
            }),
    {
        let parent_args = arg_places(args);
        let dst: Option<Place> = match destination { Some((d, _)) => Some(d.copy()), None => None };
        let rs = self.return_state();
        let a = &self.analysis;
        let ghost site = CallSite {
            parent_args: arg_views(parent_args@),
            destination: match destination { Some((d, _)) => Some(d@), None => None },
            parent_domain: parent_domain@,
        };
        let ghost rr = return_rows(*self);
        let np = a.place_domain.len();
        // The caller index standing for each callee place.
        let mut trans: Vec<Option<usize>> = Vec::new();
        let mut d: usize = 0;
        while d < np
            invariant
                np == a.np(),
                a == &self.analysis,
                d <= np,
                trans@.len() == d,
                site.parent_args == arg_views(parent_args@),
                site.destination == match dst { Some(p) => Some(p@), None => None },
                site.parent_domain == parent_domain@,
                forall|x: int| 0 <= x < d ==> match #[trigger] trans@[x] {
                    Some(i) => translated_index(*self, site, x) == Some(i as int) && i < parent_domain@.len(),
                    None => translated_index(*self, site, x) is None,
                },
            decreases np - d,
        {
            let t = match translate(a.body.arg_count, &parent_args, &dst, parent_domain, &a.place_domain[d]) {
                Some(q) => domain_index(parent_domain, &q),
                None => None,
            };
            trans.push(t);
            d = d + 1;
        }
        let mut s: CallSummary = Vec::new();
        let mut c: usize = 0;
        while c < np
            invariant
                self.wf(),
                np == a.np(),
                a == &self.analysis,
                c <= np,
                trans@.len() == np,
                rs.wf(np as nat, a.nl()),
                rows_of(rs).0 =~= rr.0,
                rows_of(rs).1 =~= rr.1,
                forall|x: int| 0 <= x < np ==> match #[trigger] trans@[x] {
                    Some(i) => translated_index(*self, site, x) == Some(i as int) && i < parent_domain@.len(),
                    None => translated_index(*self, site, x) is None,
                },
                summary_in(s@, parent_domain@.len()),
                summary_view(s@) == summary_entries(*self, site, rr, c as int),
            decreases np - c,
        {
            let ghost prev = s@;
            match trans[c] {
                Some(m) => {
                    let was_return = a.place_domain[c].local == 0;
                    let mutated = match rs.locations.row_set(c) {
                        Some(row) => row.len() > 0,
                        None => false,
                    };
                    proof {
                        rs.locations.lemma_row_bounded(c as int);
                        if !mutated {
                            assert(rr.0(c as int) =~= Set::<int>::empty());
                        } else {
                            assert(rr.0(c as int) != Set::<int>::empty()) by {
                                let row = rs.locations.row(c as int);
                                assert(row.len() > 0);
                            }
                        }
                    }
                    if was_return || mutated {
                        // The caller places standing for the dependencies on exit.
                        let mut deps: Vec<usize> = Vec::new();
                        let mut e: usize = 0;
                        while e < np
                            invariant
                                np == a.np(),
                                e <= np,
                                trans@.len() == np,
                                rs.wf(np as nat, a.nl()),
                                rows_of(rs).1 =~= rr.1,
                                forall|x: int| 0 <= x < np ==> match #[trigger] trans@[x] {
                                    Some(i) => translated_index(*self, site, x) == Some(i as int) && i < parent_domain@.len(),
                                    None => translated_index(*self, site, x) is None,
                                },
                                deps@ == translated_deps(*self, site, rr.1(c as int), e as int),
                                forall|j: int| 0 <= j < deps@.len() ==> #[trigger] deps@[j] < parent_domain@.len(),
                            decreases np - e,
                        {
                            if rs.places.contains(c, e) {
                                match trans[e] {
                                    Some(i) => { deps.push(i); },
                                    None => {},
                                }
                            }
                            e = e + 1;
                        }
                        s.push((m, deps, was_return));
                        proof {
                            assert(summary_view(s@) =~= prev_view_push(summary_view(prev), (m, translated_deps(*self, site, rr.1(c as int), np as int), was_return)));
                        }
                    }
                },
                None => {},
            }
            assert(summary_view(s@) =~= summary_entries(*self, site, rr, c + 1));
            c = c + 1;
        }
        s
    }
}

/// `v` with `e` appended.
pub open spec fn prev_view_push(v: Seq<(usize, Seq<usize>, bool)>, e: (usize, Seq<usize>, bool)) -> Seq<(usize, Seq<usize>, bool)> {
    v.push(e)
}

/// Whether a closure that may mutate its environment, or be called only
/// once, occurs anywhere in `ty` (its component types and generic
/// arguments included).
pub open spec fn has_mut_closure(ty: Ty) -> bool
    decreases ty, 1int,
{
    match ty {
        Ty::Closure { kind, upvars } => kind != ClosureKind::Fn || has_mut_closure(*upvars),
        Ty::Tuple(fields) => tys_have_mut_closure(fields@, 0),
        Ty::Adt { args, .. } => args_have_mut_closure(args@, 0),
        Ty::Array(elem) => has_mut_closure(*elem),
        Ty::Ref { inner, .. } => has_mut_closure(*inner),
        Ty::Boxed(inner) => has_mut_closure(*inner),
        _ => false,
    }
}

pub open spec fn tys_have_mut_closure(tys: Seq<Ty>, i: int) -> bool
    decreases tys, tys.len() - i,
{
    if 0 <= i < tys.len() { has_mut_closure(tys[i]) || tys_have_mut_closure(tys, i + 1) } else { false }
}

pub open spec fn args_have_mut_closure(args: Seq<GenericArg>, i: int) -> bool
    decreases args, args.len() - i,
{
    if 0 <= i < args.len() {
        (match args[i] { GenericArg::Type(t) => has_mut_closure(t), _ => false }) || args_have_mut_closure(args, i + 1)
    } else {
        false
    }
}

/// Whether a closure that may mutate its environment occurs in `ty` (see `has_mut_closure`).
fn find_mut_closure(ty: &Ty) -> (b: bool)
    ensures
        b == has_mut_closure(*ty),
    decreases *ty, 1int,
{
    match ty {
        Ty::Closure { kind, upvars } => {
            if !matches!(kind, ClosureKind::Fn) {
                true
            } else {
                find_mut_closure(upvars)
            }
        },
        Ty::Tuple(fields) => {
            let mut i: usize = 0;
            while i < fields.len()
                invariant
                    i <= fields@.len(),
                    *ty == Ty::Tuple(*fields),
                    tys_have_mut_closure(fields@, 0) == tys_have_mut_closure(fields@, i as int),
                decreases fields@.len() - i,
            {
                proof {
                    assert(decreases_to!(*ty => (*ty)->Tuple_0));
                    assert(decreases_to!(*fields => fields@));
                    assert(decreases_to!(fields@ => fields@[i as int]));
                }
                if find_mut_closure(&fields[i]) {
                    return true;
                }
                i = i + 1;
            }
            false
        },
        Ty::Adt { kind, variants, args, names } => {
            let mut i: usize = 0;
            while i < args.len()
                invariant
                    i <= args@.len(),
                    *ty == (Ty::Adt { kind: *kind, variants: *variants, args: *args, names: *names }),
                    args_have_mut_closure(args@, 0) == args_have_mut_closure(args@, i as int),
                decreases args@.len() - i,
            {
                match &args[i] {
                    GenericArg::Type(t) => {
                        proof {
                            assert(decreases_to!(*ty => (*ty)->args));
                            assert(decreases_to!(*args => args@));
                            assert(decreases_to!(args@ => args@[i as int]));
                        }
                        if find_mut_closure(t) {
                            return true;
                        }
                    },
                    _ => {},
                }
                i = i + 1;
            }
            false
        },
        Ty::Array(elem) => find_mut_closure(elem),
        Ty::Ref { inner, .. } => find_mut_closure(inner),
        Ty::Boxed(inner) => find_mut_closure(inner),
        _ => false,
    }
}

/// Whether a place passed as a call argument has a type holding a closure
/// that may mutate its environment.
pub open spec fn closure_inputs(decls: Seq<Ty>, args: Seq<Operand>) -> bool {
    let ps = operand_args(args, args.len() as int);
    exists|k: int| 0 <= k < ps.len() && opt_has_mut_closure(#[trigger] place_ty_spec(decls, ps[k].1))
}

/// A type is known and holds a closure that may mutate its environment.
pub open spec fn opt_has_mut_closure(t: Option<Ty>) -> bool {
    match t {
        Some(t) => has_mut_closure(t),
        None => false,
    }
}

/// What the compiler knows of the function a call invokes.
#[derive(Debug, Clone, Copy)]
pub enum Callee {
    /// The called operand is not a constant function item.
    Unknown,
    /// A function item: whether it never returns, and, when it is defined
    /// in the local crate, what is known of its definition.
    FnDef { returns_never: bool, local: Option<LocalFn> },
}

/// A function of the local crate: its body (by position among the bodies
/// of the program), when it has one, and whether it holds `unsafe` blocks.
#[derive(Debug, Clone, Copy)]
pub struct LocalFn {
    pub body: Option<usize>,
    pub has_unsafe_blocks: bool,
}

/// Whether a call is analysed in the callee.
#[derive(Debug, Clone, Copy, PartialEq, Eq, Structural)]
pub enum Recursion {
    /// The call is summarised by its signature.
    No,
    /// The call is summarised by its signature, and reaches a function
    /// outside the local crate.
    ReachesLibrary,
    /// The callee, body `body`, is analysed and its effects carried over.
    Into(usize),
}

/// Whether a call is analysed in the callee: only a function item that
/// returns, is defined in the local crate with a body and no `unsafe` block,
/// is passed no closure that may mutate its environment, and is not being
/// analysed already (`stack`).
pub open spec fn recursion_decision(callee: Callee, decls: Seq<Ty>, args: Seq<Operand>, stack: Seq<usize>) -> Recursion {
    match callee {
        Callee::Unknown => Recursion::No,
        Callee::FnDef { returns_never, local } => if returns_never {
            Recursion::No
        } else {
            match local {
                None => Recursion::ReachesLibrary,
                Some(f) => match f.body {
                    None => Recursion::No,
                    Some(b) => if f.has_unsafe_blocks || closure_inputs(decls, args) || stack.contains(b) {
                        Recursion::No
                    } else {
                        Recursion::Into(b)
                    },
                },
            }
        },
    }
}

/// Whether a call is analysed in the callee (see `recursion_decision`).
pub fn decide_recursion(callee: &Callee, decls: &Vec<Ty>, args: &Vec<Operand>, stack: &Vec<usize>) -> (r: Recursion)
    ensures
        r == recursion_decision(*callee, decls@, args@, stack@),
{
    match callee {
        Callee::Unknown => Recursion::No,
        Callee::FnDef { returns_never, local } => {
            if *returns_never {
                return Recursion::No;
            }
            match local {
                None => Recursion::ReachesLibrary,
                Some(f) => match f.body {
                    None => Recursion::No,
                    Some(b) => {
                        if f.has_unsafe_blocks {
                            return Recursion::No;
                        }
                        let ps = arg_places(args);
                        let ghost pv = operand_args(args@, args@.len() as int);
                        let mut k: usize = 0;
                        while k < ps.len()
                            invariant
                                k <= ps@.len(),
                                arg_views(ps@) == pv,
                                pv == operand_args(args@, args@.len() as int),
                                *callee == (Callee::FnDef { returns_never: false, local: Some(*f) }),
                                f.body == Some(b),
                                !f.has_unsafe_blocks,
                                forall|j: int| 0 <= j < k ==> !opt_has_mut_closure(#[trigger] place_ty_spec(decls@, pv[j].1)),
                            decreases ps@.len() - k,
                        {
                            assert(pv[k as int].1 == ps@[k as int].1@);
                            match place_ty(decls, &ps[k].1) {
                                Some(t) => {
                                    if find_mut_closure(t) {
                                        assert(opt_has_mut_closure(place_ty_spec(decls@, pv[k as int].1)));
                                        assert(closure_inputs(decls@, args@));
                                        return Recursion::No;
                                    }
                                },
                                None => {},
                            }
                            k = k + 1;
                        }
                        assert(!closure_inputs(decls@, args@));
                        let mut i: usize = 0;
                        while i < stack.len()
                            invariant
                                i <= stack@.len(),
                                forall|j: int| 0 <= j < i ==> stack@[j] != b,
                                *callee == (Callee::FnDef { returns_never: false, local: Some(*f) }),
                                f.body == Some(b),
                                !f.has_unsafe_blocks,
                                !closure_inputs(decls@, args@),
                            decreases stack@.len() - i,
                        {
                            if stack[i] == b {
                                assert(stack@.contains(b));
                                return Recursion::No;
                            }
                            i = i + 1;
                        }
                        Recursion::Into(b)
                    },
                },
            }
        },
    }
}

} // verus!
