use vstd::prelude::*;
use crate::body::{Body, Span, StatementKind, TerminatorKind, collect_rvalue_places, lemma_place_views_push, operands_places, place_views, rvalue_places};
use crate::domain::{PlaceView, opt_place};
use crate::mir::{Location, Operand, Place, ProjElem, operand_place, operand_to_place};

verus! {

/// The width of a span.
pub open spec fn width(s: Span) -> int {
    s.hi - s.lo
}

/// Entry `i` of `spans` is the narrowest span containing `target`, and the
/// first of the narrowest ones.
pub open spec fn is_narrowest(spans: Seq<Span>, target: Span, i: int) -> bool {
    &&& 0 <= i < spans.len()
    &&& spans[i].contains_spec(target)
    &&& forall|j: int| 0 <= j < spans.len() && #[trigger] spans[j].contains_spec(target) ==> width(spans[i]) <= width(spans[j])
    &&& forall|j: int| 0 <= j < i && #[trigger] spans[j].contains_spec(target) ==> width(spans[i]) < width(spans[j])
}

/// The narrowest span of `spans` containing `target` (the first of the
/// narrowest ones), if any contains it.
pub open spec fn narrowest(spans: Seq<Span>, target: Span) -> Option<Span> {
    if exists|i: int| is_narrowest(spans, target, i) {
        Some(spans[choose|i: int| is_narrowest(spans, target, i)])
    } else {
        None
    }
}

/// Every span starts before it ends.
pub open spec fn spans_wf(spans: Seq<Span>) -> bool {
    forall|i: int| 0 <= i < spans.len() ==> (#[trigger] spans[i]).lo <= spans[i].hi
}

pub proof fn lemma_narrowest_unique(spans: Seq<Span>, target: Span, i: int, j: int)
    requires
        is_narrowest(spans, target, i),
        is_narrowest(spans, target, j),
    ensures
        i == j,
{
    if i < j {
        assert(spans[i].contains_spec(target));
    } else if j < i {
        assert(spans[j].contains_spec(target));
    }
}

/// The spans of the expressions and statements of a function's source.
pub struct HirSpanner {
    pub expr_spans: Vec<Span>,
    pub stmt_spans: Vec<Span>,
}

/// The narrowest span of `spans` containing `target`, if any.
fn find_narrowest(spans: &Vec<Span>, target: Span) -> (r: Option<Span>)
    requires
        spans_wf(spans@),
    ensures
        r == narrowest(spans@, target),
{
    let mut best: Option<usize> = None;
    let mut i: usize = 0;
    while i < spans.len()
        invariant
            i <= spans@.len(),
            spans_wf(spans@),
            match best {
                Some(b) => b < i && is_narrowest(spans@.take(i as int), target, b as int),
                None => forall|j: int| 0 <= j < i ==> !(#[trigger] spans@[j]).contains_spec(target),
            },
        decreases spans@.len() - i,
    {
        let s = spans[i];
        if s.contains(&target) {
            match best {
                Some(b) => {
                    if s.hi - s.lo < spans[b].hi - spans[b].lo {
                        best = Some(i);
                    }
                },
                None => {
                    best = Some(i);
                },
            }
        }
        proof {
            let t = spans@.take(i + 1);
            match best {
                Some(b) => {
                    assert forall|j: int| 0 <= j < t.len() && #[trigger] t[j].contains_spec(target) implies width(t[b as int]) <= width(t[j]) by {
                        if j < i {
                            assert(spans@.take(i as int)[j] == t[j]);
                        }
                    }
                    assert forall|j: int| 0 <= j < b && #[trigger] t[j].contains_spec(target) implies width(t[b as int]) < width(t[j]) by {
                        assert(spans@.take(i as int)[j] == t[j]);
                    }
                },
                None => {},
            }
        }
        i = i + 1;
    }
    assert(spans@.take(spans@.len() as int) =~= spans@);
    match best {
        Some(b) => {
            proof {
                let c = choose|c: int| is_narrowest(spans@, target, c);
                lemma_narrowest_unique(spans@, target, b as int, c);
            }
            Some(spans[b])
        },
        None => {
            assert(!exists|c: int| is_narrowest(spans@, target, c));
            None
        },
    }
}

impl HirSpanner {
    /// Every span of the spanner starts before it ends.
    pub open spec fn wf(&self) -> bool {
        spans_wf(self.expr_spans@) && spans_wf(self.stmt_spans@)
    }

    /// The spans enclosing `span` in the source: the narrowest expression
    /// containing it, then the narrowest statement containing it (each when
    /// there is one).
    pub open spec fn enclosing(&self, span: Span) -> Seq<Span> {
        let e: Seq<Span> = match narrowest(self.expr_spans@, span) {
            Some(s) => seq![s],
            None => Seq::empty(),
        };
        let s: Seq<Span> = match narrowest(self.stmt_spans@, span) {
            Some(s) => seq![s],
            None => Seq::empty(),
        };
        e + s
    }

    /// The enclosing spans come from the spanner, so they start before they end.
    pub proof fn lemma_enclosing_wf(&self, span: Span)
        requires
            self.wf(),
        ensures
            spans_wf(self.enclosing(span)),
    {
        if exists|i: int| is_narrowest(self.expr_spans@, span, i) {
            let i = choose|i: int| is_narrowest(self.expr_spans@, span, i);
            assert(self.expr_spans@[i].lo <= self.expr_spans@[i].hi);
        }
        if exists|i: int| is_narrowest(self.stmt_spans@, span, i) {
            let i = choose|i: int| is_narrowest(self.stmt_spans@, span, i);
            assert(self.stmt_spans@[i].lo <= self.stmt_spans@[i].hi);
        }
    }

    /// The narrowest expression span and the narrowest statement span that
    /// contain `span` (the first of equally narrow ones).
    pub fn find_enclosing_hir_span(&self, span: Span) -> (r: Vec<Span>)
        requires
            self.wf(),
        ensures
            r@ == self.enclosing(span),
    {
        let mut r: Vec<Span> = Vec::new();
        match find_narrowest(&self.expr_spans, span) {
            Some(s) => r.push(s),
            None => {},
        }
        match find_narrowest(&self.stmt_spans, span) {
            Some(s) => r.push(s),
            None => {},
        }
        assert(r@ =~= self.enclosing(span));
        r
    }
}

/// The source span of the statement or terminator at `l`.
pub open spec fn location_span(body: Body, l: Location) -> Span {
    let data = body.basic_blocks@[l.block as int];
    if l.statement_index < data.statements@.len() {
        data.statements@[l.statement_index as int].span
    } else {
        data.terminator.span
    }
}

/// The source spans of the statement or terminator at `l`: the HIR spans
/// enclosing its span.
pub fn location_to_spans(l: Location, body: &Body, spanner: &HirSpanner) -> (r: Vec<Span>)
    requires
        spanner.wf(),
        l.block < body.basic_blocks@.len(),
    ensures
        r@ == spanner.enclosing(location_span(*body, l)),
{
    let data = &body.basic_blocks[l.block];
    let span = if l.statement_index < data.statements.len() {
        data.statements[l.statement_index].span
    } else {
        data.terminator.span
    };
    spanner.find_enclosing_hir_span(span)
}

/// The places a statement uses: the assigned place, then those the rvalue reads.
pub open spec fn statement_uses(kind: StatementKind) -> Seq<PlaceView> {
    match kind {
        StatementKind::Assign(p, rv) => seq![p@] + rvalue_places(rv),
        StatementKind::FakeRead(p) => seq![p@],
        StatementKind::Nop | StatementKind::StorageLive(_) | StatementKind::StorageDead(_) => Seq::empty(),
    }
}

/// The places a terminator uses.
pub open spec fn terminator_uses(kind: TerminatorKind) -> Seq<PlaceView> {
    match kind {
        TerminatorKind::SwitchInt { discr, .. } => opt_place(operand_place(discr)),
        TerminatorKind::Call { args, destination, .. } => operands_places(args@, 0) + match destination {
            Some((d, _)) => seq![d@],
            None => Seq::<PlaceView>::empty(),
        },
        TerminatorKind::Assert { cond, .. } => opt_place(operand_place(cond)),
        TerminatorKind::DropAndReplace { place, value, .. } => seq![place@] + opt_place(operand_place(value)),
        TerminatorKind::Return => seq![(0usize, Seq::<ProjElem>::empty())],
        _ => Seq::empty(),
    }
}

/// The places used at location `l`.
pub open spec fn uses_at(body: Body, l: Location) -> Seq<PlaceView> {
    let data = body.basic_blocks@[l.block as int];
    if l.statement_index < data.statements@.len() {
        statement_uses(data.statements@[l.statement_index as int].kind)
    } else {
        terminator_uses(data.terminator.kind)
    }
}

/// Two spans overlap by containment, one way or the other.
pub open spec fn nested(a: Span, b: Span) -> bool {
    a.contains_spec(b) || b.contains_spec(a)
}

/// The place is the return place itself.
pub open spec fn is_return_local(p: PlaceView) -> bool {
    p.0 == 0 && p.1.len() == 0
}

/// The places used at a location whose span is nested with `span` (the
/// return place itself excepted), with the location.
pub open spec fn used_under(body: Body, span: Span) -> Set<(PlaceView, Location)> {
    Set::new(|e: (PlaceView, Location)|
        0 <= e.1.block < body.basic_blocks@.len()
            && e.1.statement_index <= body.basic_blocks@[e.1.block as int].statements@.len()
            && uses_at(body, e.1).contains(e.0) && !is_return_local(e.0)
            && nested(span, location_span(body, e.1)))
}

/// The places under a span, each with its location: a place used at a
/// location whose span is nested with `span` (the return place itself
/// excepted); and an argument that debug information names, at the start of
/// the body, when its declaration's span is nested with `span`.
pub open spec fn spanned_places(body: Body, span: Span) -> Set<(PlaceView, Location)> {
    Set::new(|e: (PlaceView, Location)|
        (0 <= e.1.block < body.basic_blocks@.len()
            && e.1.statement_index <= body.basic_blocks@[e.1.block as int].statements@.len()
            && uses_at(body, e.1).contains(e.0) && !is_return_local(e.0)
            && nested(span, location_span(body, e.1)))
        || (e.1 == Location { block: 0, statement_index: 0 }
            && (exists|k: int| 0 <= k < body.var_debug_info@.len() && (#[trigger] body.var_debug_info@[k])@ == e.0)
            && 1 <= e.0.0 <= body.arg_count && e.0.0 < body.local_spans@.len() && !is_return_local(e.0)
            && nested(span, body.local_spans@[e.0.0 as int])))
}

/// The (place, location) pairs of a list, taken by view.
pub open spec fn target_views(v: Seq<(Place, Location)>) -> Seq<(PlaceView, Location)> {
    v.map_values(|e: (Place, Location)| (e.0@, e.1))
}

/// `acc` with `x` at its end, unless `x` is already in it.
pub open spec fn add_once(acc: Seq<(PlaceView, Location)>, x: (PlaceView, Location)) -> Seq<(PlaceView, Location)> {
    if acc.contains(x) { acc } else { acc.push(x) }
}

/// `acc` after the places of `ps`, in order, each with location `l`: added
/// once each, when `keep` holds, the return place itself excepted.
pub open spec fn add_uses_seq(acc: Seq<(PlaceView, Location)>, ps: Seq<PlaceView>, l: Location, keep: bool) -> Seq<(PlaceView, Location)>
    decreases ps.len(),
{
    if ps.len() == 0 {
        acc
    } else {
        let a = add_uses_seq(acc, ps.drop_last(), l, keep);
        if keep && !is_return_local(ps.last()) { add_once(a, (ps.last(), l)) } else { a }
    }
}

/// `acc` after the first `i` locations of block `b` (its statements, then
/// its terminator), each adding the places it uses when its span is nested
/// with `span`.
pub open spec fn scan_block(body: Body, span: Span, acc: Seq<(PlaceView, Location)>, b: int, i: int) -> Seq<(PlaceView, Location)>
    decreases i,
{
    if i <= 0 {
        acc
    } else {
        let l = Location { block: b as usize, statement_index: (i - 1) as usize };
        add_uses_seq(scan_block(body, span, acc, b, i - 1), uses_at(body, l), l, nested(span, location_span(body, l)))
    }
}

/// The pairs gathered from the blocks before `b`, block by block.
pub open spec fn scan_blocks(body: Body, span: Span, b: int) -> Seq<(PlaceView, Location)>
    decreases b,
{
    if b <= 0 {
        Seq::empty()
    } else {
        scan_block(body, span, scan_blocks(body, span, b - 1), b - 1, body.basic_blocks@[b - 1].statements@.len() + 1int)
    }
}

/// The argument that debug information entry `p` names is under `span`.
pub open spec fn named_argument_under(body: Body, span: Span, p: PlaceView) -> bool {
    1 <= p.0 <= body.arg_count && p.0 < body.local_spans@.len() && !is_return_local(p)
        && nested(span, body.local_spans@[p.0 as int])
}

/// `acc` after the first `k` debug information entries: each argument under
/// `span` added once, at the start of the body.
pub open spec fn scan_debug_info(body: Body, span: Span, acc: Seq<(PlaceView, Location)>, k: int) -> Seq<(PlaceView, Location)>
    decreases k,
{
    if k <= 0 {
        acc
    } else {
        let a = scan_debug_info(body, span, acc, k - 1);
        let p = body.var_debug_info@[k - 1]@;
        if named_argument_under(body, span, p) {
            add_once(a, (p, Location { block: 0, statement_index: 0 }))
        } else {
            a
        }
    }
}

/// The places under `span` in the order they are found: location by
/// location, then the arguments that debug information names.
pub open spec fn spanned_targets(body: Body, span: Span) -> Seq<(PlaceView, Location)> {
    scan_debug_info(body, span, scan_blocks(body, span, body.basic_blocks@.len() as int), body.var_debug_info@.len() as int)
}

pub proof fn lemma_contains_push<A>(s: Seq<A>, x: A, a: A)
    ensures
        s.push(x).contains(a) == (s.contains(a) || a == x),
{
    let w = s.push(x);
    if w.contains(a) {
        let i = choose|i: int| 0 <= i < w.len() && w[i] == a;
        if i < s.len() {
            assert(s[i] == a);
        }
    }
    if s.contains(a) {
        let i = choose|i: int| 0 <= i < s.len() && s[i] == a;
        assert(w[i] == a);
    }
    if a == x {
        assert(w[s.len() as int] == a);
    }
}

/// The (place, location) pairs of a list.
pub open spec fn pair_set(v: Seq<(Place, Location)>) -> Set<(PlaceView, Location)> {
    Set::new(|e: (PlaceView, Location)| exists|k: int| 0 <= k < v.len() && (#[trigger] v[k]).0@ == e.0 && v[k].1 == e.1)
}

/// No pair occurs twice in the list.
pub open spec fn distinct_pairs(v: Seq<(Place, Location)>) -> bool {
    forall|i: int, j: int| 0 <= i < j < v.len() ==> !((#[trigger] v[i]).0@ == (#[trigger] v[j]).0@ && v[i].1 == v[j].1)
}

proof fn lemma_pair_set_push(v: Seq<(Place, Location)>, x: (Place, Location))
    ensures
        pair_set(v.push(x)) == pair_set(v).insert((x.0@, x.1)),
{
    let w = v.push(x);
    assert forall|e: (PlaceView, Location)| #[trigger] pair_set(w).contains(e) <==> pair_set(v).contains(e) || e == (x.0@, x.1) by {
        if pair_set(w).contains(e) {
            let k = choose|k: int| 0 <= k < w.len() && (#[trigger] w[k]).0@ == e.0 && w[k].1 == e.1;
            if k < v.len() {
                assert(v[k] == w[k]);
            }
        }
        if pair_set(v).contains(e) {
            let k = choose|k: int| 0 <= k < v.len() && (#[trigger] v[k]).0@ == e.0 && v[k].1 == e.1;
            assert(w[k] == v[k]);
        }
        if e == (x.0@, x.1) {
            assert(w[v.len() as int] == x);
        }
    }
    assert(pair_set(w) =~= pair_set(v).insert((x.0@, x.1)));
}

/// Adds `(p, l)` unless it is already there.
fn add_pair(out: &mut Vec<(Place, Location)>, p: &Place, l: Location)
    requires
        distinct_pairs(old(out)@),
    ensures
        distinct_pairs(final(out)@),
        pair_set(final(out)@) == pair_set(old(out)@).insert((p@, l)),
        target_views(final(out)@) == add_once(target_views(old(out)@), (p@, l)),
{
    let mut k: usize = 0;
    while k < out.len()
        invariant
            k <= out@.len(),
            out@ == old(out)@,
            distinct_pairs(out@),
            forall|j: int| 0 <= j < k ==> !((#[trigger] out@[j]).0@ == p@ && out@[j].1 == l),
        decreases out@.len() - k,
    {
        if out[k].0.same(p) && out[k].1.block == l.block && out[k].1.statement_index == l.statement_index {
            assert(pair_set(out@).contains((p@, l)));
            assert(pair_set(out@) =~= pair_set(out@).insert((p@, l)));
            assert(target_views(out@)[k as int] == (p@, l));
            assert(target_views(out@).contains((p@, l)));
            return;
        }
        k = k + 1;
    }
    assert(!target_views(out@).contains((p@, l))) by {
        if target_views(out@).contains((p@, l)) {
            let j = choose|j: int| 0 <= j < target_views(out@).len() && target_views(out@)[j] == (p@, l);
            assert(out@[j].0@ == p@ && out@[j].1 == l);
        }
    }
    let x = (p.copy(), l);
    proof { lemma_pair_set_push(out@, x); }
    out.push(x);
    assert(target_views(out@) =~= target_views(old(out)@).push((p@, l)));
}

/// Adds the places of `ps`, with location `l`, when the location's span
/// `lspan` is nested with `span` (the return place itself excepted).
fn add_uses(out: &mut Vec<(Place, Location)>, ps: &Vec<Place>, l: Location, span: Span, lspan: Span)
    requires
        distinct_pairs(old(out)@),
    ensures
        distinct_pairs(final(out)@),
        pair_set(final(out)@) == pair_set(old(out)@).union(Set::new(|e: (PlaceView, Location)|
            e.1 == l && place_views(ps@).contains(e.0) && !is_return_local(e.0) && nested(span, lspan))),
        target_views(final(out)@) == add_uses_seq(target_views(old(out)@), place_views(ps@), l, nested(span, lspan)),
{
    let keep = span.contains(&lspan) || lspan.contains(&span);
    let mut k: usize = 0;
    assert(place_views(ps@.take(0)) =~= Seq::<PlaceView>::empty());
    while k < ps.len()
        invariant
            k <= ps@.len(),
            target_views(out@) == add_uses_seq(target_views(old(out)@), place_views(ps@.take(k as int)), l, keep),
            keep == nested(span, lspan),
            distinct_pairs(out@),
            pair_set(out@) == pair_set(old(out)@).union(Set::new(|e: (PlaceView, Location)|
                e.1 == l && place_views(ps@.take(k as int)).contains(e.0) && !is_return_local(e.0) && nested(span, lspan))),
        decreases ps@.len() - k,
    {
        let p = &ps[k];
        let ret = p.local == 0 && p.projection.len() == 0;
        let ghost before = pair_set(out@);
        if keep && !ret {
            add_pair(out, p, l);
        }
        proof {
            assert(ps@.take(k + 1) =~= ps@.take(k as int).push(ps@[k as int]));
            lemma_place_views_push(ps@.take(k as int), ps@[k as int]);
            assert(ret == is_return_local(p@));
            assert forall|e: (PlaceView, Location)| #[trigger] pair_set(out@).contains(e) <==> pair_set(old(out)@).union(Set::new(|e2: (PlaceView, Location)|
                e2.1 == l && place_views(ps@.take(k + 1)).contains(e2.0) && !is_return_local(e2.0) && nested(span, lspan))).contains(e) by {
                lemma_contains_push(place_views(ps@.take(k as int)), ps@[k as int]@, e.0);
                assert(place_views(ps@.take(k + 1)).contains(e.0) == (place_views(ps@.take(k as int)).contains(e.0) || e.0 == p@));
            }
            assert(pair_set(out@) =~= pair_set(old(out)@).union(Set::new(|e2: (PlaceView, Location)|
                e2.1 == l && place_views(ps@.take(k + 1)).contains(e2.0) && !is_return_local(e2.0) && nested(span, lspan))));
            assert(place_views(ps@.take(k + 1)).drop_last() =~= place_views(ps@.take(k as int)));
            assert(place_views(ps@.take(k + 1)).last() == p@);
        }
        k = k + 1;
    }
    assert(ps@.take(ps@.len() as int) =~= ps@);
}

/// The places a statement or terminator uses, in order.
fn uses_at_location(body: &Body, l: Location) -> (v: Vec<Place>)
    requires
        l.block < body.basic_blocks@.len(),
    ensures
        place_views(v@) == uses_at(*body, l),
{
    let data = &body.basic_blocks[l.block];
    let mut v: Vec<Place> = Vec::new();
    if l.statement_index < data.statements.len() {
        match &data.statements[l.statement_index].kind {
            StatementKind::Assign(p, rv) => {
                v.push(p.copy());
                let read = collect_rvalue_places(rv);
                let mut k: usize = 0;
                while k < read.len()
                    invariant
                        k <= read@.len(),
                        place_views(v@) == seq![p@] + place_views(read@.take(k as int)),
                    decreases read@.len() - k,
                {
                    let x = read[k].copy();
                    proof {
                        lemma_place_views_push(v@, x);
                        assert(read@.take(k + 1) =~= read@.take(k as int).push(read@[k as int]));
                        lemma_place_views_push(read@.take(k as int), read@[k as int]);
                    }
                    v.push(x);
                    assert(place_views(v@) =~= seq![p@] + place_views(read@.take(k + 1)));
                    k = k + 1;
                }
                assert(read@.take(read@.len() as int) =~= read@);
                assert(place_views(v@) =~= uses_at(*body, l));
            },
            StatementKind::FakeRead(p) => {
                v.push(p.copy());
                assert(place_views(v@) =~= uses_at(*body, l));
            },
            StatementKind::Nop | StatementKind::StorageLive(_) | StatementKind::StorageDead(_) => {
                assert(place_views(v@) =~= uses_at(*body, l));
            },
        }
    } else {
        match &data.terminator.kind {
            TerminatorKind::SwitchInt { discr, .. } => {
                match operand_to_place(discr) {
                    Some(p) => { v.push(p); },
                    None => {},
                }
            },
            TerminatorKind::Assert { cond, .. } => {
                match operand_to_place(cond) {
                    Some(p) => { v.push(p); },
                    None => {},
                }
            },
            TerminatorKind::Call { args, destination, .. } => {
                let mut i: usize = 0;
                while i < args.len()
                    invariant
                        i <= args@.len(),
                        place_views(v@) + operands_places(args@, i as int) == operands_places(args@, 0),
                    decreases args@.len() - i,
                {
                    let ghost before = place_views(v@);
                    match operand_to_place(&args[i]) {
                        Some(p) => {
                            proof { lemma_place_views_push(v@, p); }
                            v.push(p);
                        },
                        None => {},
                    }
                    assert(place_views(v@) + operands_places(args@, i + 1) =~= before + operands_places(args@, i as int));
                    i = i + 1;
                }
                assert(place_views(v@) =~= operands_places(args@, 0));
                match destination {
                    Some((d, _)) => {
                        let x = d.copy();
                        proof { lemma_place_views_push(v@, x); }
                        v.push(x);
                    },
                    None => {},
                }
            },
            TerminatorKind::DropAndReplace { place, value, .. } => {
                let x = place.copy();
                proof { lemma_place_views_push(v@, x); }
                v.push(x);
                match operand_to_place(value) {
                    Some(p) => {
                        proof { lemma_place_views_push(v@, p); }
                        v.push(p);
                    },
                    None => {},
                }
            },
            TerminatorKind::Return => {
                v.push(Place::return_place());
            },
            _ => {},
        }
        assert(place_views(v@) =~= uses_at(*body, l));
    }
    v
}

/// The places under `span`, each with its location, once each (see
/// `spanned_places`).
pub fn span_to_places(body: &Body, span: Span) -> (r: Vec<(Place, Location)>)
    ensures
        distinct_pairs(r@),
        pair_set(r@) == spanned_places(*body, span),
        target_views(r@) == spanned_targets(*body, span),
{
    let mut out: Vec<(Place, Location)> = Vec::new();
    let ghost target = spanned_places(*body, span);
    let ghost from_uses = used_under(*body, span);
    assert(pair_set(out@) =~= Set::<(PlaceView, Location)>::empty());
    let mut b: usize = 0;
    while b < body.basic_blocks.len()
        invariant
            b <= body.basic_blocks@.len(),
            distinct_pairs(out@),
            forall|e: (PlaceView, Location)| #[trigger] pair_set(out@).contains(e) <==> used_under(*body, span).contains(e) && e.1.block < b,
            target_views(out@) == scan_blocks(*body, span, b as int),
        decreases body.basic_blocks@.len() - b,
    {
        let n = body.basic_blocks[b].statements.len();
        let mut i: usize = 0;
        loop
            invariant_except_break
                forall|e: (PlaceView, Location)| #[trigger] pair_set(out@).contains(e) <==> used_under(*body, span).contains(e)
                    && (e.1.block < b || (e.1.block == b && e.1.statement_index < i)),
                target_views(out@) == scan_block(*body, span, scan_blocks(*body, span, b as int), b as int, i as int),
            invariant
                b < body.basic_blocks@.len(),
                n == body.basic_blocks@[b as int].statements@.len(),
                i <= n,
                distinct_pairs(out@),
            ensures
                distinct_pairs(out@),
                target_views(out@) == scan_block(*body, span, scan_blocks(*body, span, b as int), b as int, n + 1),
                forall|e: (PlaceView, Location)| #[trigger] pair_set(out@).contains(e) <==> used_under(*body, span).contains(e)
                    && (e.1.block < b || (e.1.block == b && e.1.statement_index <= n)),
            decreases n - i,
        {
            let l = Location { block: b, statement_index: i };
            let uses = uses_at_location(body, l);
            let lspan = if i < n { body.basic_blocks[b].statements[i].span } else { body.basic_blocks[b].terminator.span };
            assert(lspan == location_span(*body, l));
            let ghost before = pair_set(out@);
            add_uses(&mut out, &uses, l, span, lspan);
            assert(target_views(out@) == scan_block(*body, span, scan_blocks(*body, span, b as int), b as int, i + 1));
            proof {
                assert forall|e: (PlaceView, Location)| #[trigger] pair_set(out@).contains(e) <==> used_under(*body, span).contains(e)
                    && (e.1.block < b || (e.1.block == b && e.1.statement_index < i + 1)) by {
                    assert(pair_set(out@).contains(e) == (before.contains(e) || (e.1 == l && place_views(uses@).contains(e.0)
                        && !is_return_local(e.0) && nested(span, lspan))));
                    if e.1.block == b && e.1.statement_index == i {
                        assert(e.1 == l);
                        assert(uses_at(*body, e.1) == place_views(uses@));
                    }
                }
            }
            if i == n {
                break;
            }
            i = i + 1;
        }
        proof {
            assert forall|e: (PlaceView, Location)| #[trigger] pair_set(out@).contains(e) <==> used_under(*body, span).contains(e) && e.1.block < b + 1 by {
                if used_under(*body, span).contains(e) && e.1.block == b {
                    assert(body.basic_blocks@[e.1.block as int].statements@.len() == n);
                    assert(e.1.statement_index <= n);
                }
            }
        }
        assert(target_views(out@) == scan_blocks(*body, span, b + 1));
        b = b + 1;
    }
    assert forall|e: (PlaceView, Location)| #[trigger] pair_set(out@).contains(e) <==> used_under(*body, span).contains(e) by {}
    // arguments named by debug information
    let start = Location { block: 0, statement_index: 0 };
    let mut k: usize = 0;
    while k < body.var_debug_info.len()
        invariant
            k <= body.var_debug_info@.len(),
            distinct_pairs(out@),
            start == (Location { block: 0, statement_index: 0 }),
            target_views(out@) == scan_debug_info(*body, span, scan_blocks(*body, span, body.basic_blocks@.len() as int), k as int),
            forall|e: (PlaceView, Location)| #[trigger] pair_set(out@).contains(e) <==> used_under(*body, span).contains(e) || (e.1 == start
                && (exists|k2: int| 0 <= k2 < k && (#[trigger] body.var_debug_info@[k2])@ == e.0)
                && 1 <= e.0.0 <= body.arg_count && e.0.0 < body.local_spans@.len() && !is_return_local(e.0)
                && nested(span, body.local_spans@[e.0.0 as int])),
        decreases body.var_debug_info@.len() - k,
    {
        let p = &body.var_debug_info[k];
        let ghost before = pair_set(out@);
        if 1 <= p.local && p.local <= body.arg_count && p.local < body.local_spans.len() && !(p.local == 0 && p.projection.len() == 0) {
            let lspan = body.local_spans[p.local];
            if span.contains(&lspan) || lspan.contains(&span) {
                add_pair(&mut out, p, start);
            }
        }
        assert(target_views(out@) == scan_debug_info(*body, span, scan_blocks(*body, span, body.basic_blocks@.len() as int), k + 1));
        proof {
            assert forall|e: (PlaceView, Location)| #[trigger] pair_set(out@).contains(e) <==> used_under(*body, span).contains(e) || (e.1 == start
                && (exists|k2: int| 0 <= k2 < k + 1 && (#[trigger] body.var_debug_info@[k2])@ == e.0)
                && 1 <= e.0.0 <= body.arg_count && e.0.0 < body.local_spans@.len() && !is_return_local(e.0)
                && nested(span, body.local_spans@[e.0.0 as int])) by {
                if e.0 == p@ {
                    assert(body.var_debug_info@[k as int]@ == e.0);
                }
                if exists|k2: int| 0 <= k2 < k + 1 && (#[trigger] body.var_debug_info@[k2])@ == e.0 {
                    let k2 = choose|k2: int| 0 <= k2 < k + 1 && (#[trigger] body.var_debug_info@[k2])@ == e.0;
                    if k2 < k {
                        assert(exists|k3: int| 0 <= k3 < k && (#[trigger] body.var_debug_info@[k3])@ == e.0);
                    }
                }
            }
        }
        k = k + 1;
    }
    assert(pair_set(out@) =~= target);
    assert(target_views(out@) == spanned_targets(*body, span));
    out
}

} // verus!
