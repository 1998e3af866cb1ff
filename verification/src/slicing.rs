use vstd::prelude::*;
use crate::body::{Body, Span, TerminatorKind, body_in_range, build_location_domain, cfg_closed};
use crate::config::{FileName, FlowistryOutput, Range, SourceFile};
use crate::dependencies::Direction;
use crate::domain::{alias_row, body_loan_table, body_tracked_places, build_aliases, deps_row, no_duplicates, normal_forms, regions_in_range, related_row, view_set};
use crate::fixpoint::{FlowResults, entry_rows};
use crate::flow::{CallSummary, FlowAnalysis, summary_in};
use crate::calls::{CallSite, return_rows, summary_entries, summary_view};
use crate::mir::operand_args;
use crate::loans::extra_in_table;
use crate::indexed::IndexSet;
use crate::mir::{Location, Place, PlaceRelation};
use crate::spans::{HirSpanner, distinct_pairs, is_return_local, location_span, location_to_spans, pair_set, span_to_places, spanned_places, spanned_targets, spans_wf, target_views, width};

verus! {

/// Analyses a body: builds its place domain and alias facts from the
/// outlives constraints between its regions, then runs the flow analysis to
/// its least fixpoint (`control_dependencies` gives, for each block, the
/// blocks it is control-dependent on). Calls are summarised by their
/// signatures.
pub fn compute_flow(body: Body, constraints: &Vec<(usize, usize)>, control_dependencies: Vec<IndexSet>) -> (res: FlowResults)
    requires
        body_in_range(body),
        cfg_closed(body),
        regions_in_range(body, constraints@),
        control_dependencies@.len() == body.basic_blocks@.len(),
        forall|b: int| 0 <= b < control_dependencies@.len() ==> (#[trigger] control_dependencies@[b]).size() == body.basic_blocks@.len(),
    ensures
        flow_of(res, body, constraints@, Seq::empty(), control_dependencies),
        forall|b: int| 0 <= b < res.analysis.call_summaries@.len() ==> (#[trigger] res.analysis.call_summaries@[b]) is None,
{
    let mut callees: Vec<Option<&FlowResults>> = Vec::new();
    let mut b: usize = 0;
    while b < body.basic_blocks.len()
        invariant
            b <= body.basic_blocks@.len(),
            callees@.len() == b,
            forall|c: int| 0 <= c < b ==> (#[trigger] callees@[c]) is None,
        decreases body.basic_blocks@.len() - b,
    {
        callees.push(None);
        b = b + 1;
    }
    let ghost nb = body.basic_blocks@.len();
    let none: Vec<(usize, usize)> = Vec::new();
    assert(none@ =~= Seq::<(usize, usize)>::empty());
    let res = compute_flow_with_calls(body, constraints, &none, control_dependencies, &callees);
    proof {
        assert forall|b: int| 0 <= b < res.analysis.call_summaries@.len() implies (#[trigger] res.analysis.call_summaries@[b]) is None by {
            assert(callees@[b] is None);
            assert(call_summary_of(res.analysis, opt_results(callees@[b]), b));
        }
    }
    res
}

/// `res` is the analysis of `body` to its least fixpoint, with the place
/// domain and alias facts that the constraints give.
pub open spec fn flow_of(res: FlowResults, body: Body, constraints: Seq<(usize, usize)>, extra: Seq<(usize, usize)>, control_dependencies: Vec<IndexSet>) -> bool {
    &&& res.wf()
    &&& res.analysis.body == body
    &&& res.analysis.control_dependencies == control_dependencies
    &&& view_set(res.analysis.place_domain@) == normal_forms(body_tracked_places(body, constraints, extra))
    &&& no_duplicates(res.analysis.place_domain@)
    &&& forall|i: int| 0 <= i < res.analysis.place_domain@.len() ==> {
        let d = res.analysis.place_domain@;
        &&& (#[trigger] res.analysis.aliases.aliases.row(i)) == alias_row(body, constraints, extra, d, i)
        &&& res.analysis.aliases.subs.row(i) == related_row(body, constraints, extra, d, i, PlaceRelation::Sub)
        &&& res.analysis.aliases.conflicts.row(i) == related_row(body, constraints, extra, d, i, PlaceRelation::Sub)
            .union(related_row(body, constraints, extra, d, i, PlaceRelation::Super))
        &&& res.analysis.aliases.deps.row(i) == deps_row(body, constraints, extra, d, i)
    }
    &&& res.analysis.is_post_fixpoint(entry_rows(res.entry_states@))
    &&& res.analysis.below_every_post_fixpoint(res.entry_states@)
}

/// The call of block `b` carries the effects of its callee's results when
/// they are given, and its signature's otherwise.
pub open spec fn call_summary_of(a: FlowAnalysis, callee: Option<FlowResults>, b: int) -> bool {
    match callee {
        Some(c) => match a.body.basic_blocks@[b].terminator.kind {
            TerminatorKind::Call { args, destination, .. } => a.call_summaries@[b] matches Some(s)
                && summary_view(s@) == summary_entries(c, CallSite {
                    parent_args: operand_args(args@, args@.len() as int),
                    destination: match destination { Some((d, _)) => Some(d@), None => None },
                    parent_domain: a.place_domain@,
                }, return_rows(c), c.analysis.np() as int),
            _ => a.call_summaries@[b] is None,
        },
        None => a.call_summaries@[b] is None,
    }
}

/// The results a reference points to, if any.
pub open spec fn opt_results(o: Option<&FlowResults>) -> Option<FlowResults> {
    match o {
        Some(r) => Some(*r),
        None => None,
    }
}

/// Analyses a body (see `compute_flow`) whose calls may have been analysed
/// in their callees: `callees[b]`, for a block that ends in a call, holds
/// the callee's results, whose effects on exit replace those of the call's
/// signature (see `summarize_call`). The extra constraints `extra` join the
/// outlives constraints in relating regions, but only regions of the
/// outlives constraints take part (see `alias_regions_of`).
pub fn compute_flow_with_calls(body: Body, constraints: &Vec<(usize, usize)>, extra: &Vec<(usize, usize)>,
    control_dependencies: Vec<IndexSet>, callees: &Vec<Option<&FlowResults>>) -> (res: FlowResults)
    requires
        body_in_range(body),
        cfg_closed(body),
        regions_in_range(body, constraints@),
        extra_in_table(body_loan_table(body), extra@),
        control_dependencies@.len() == body.basic_blocks@.len(),
        forall|b: int| 0 <= b < control_dependencies@.len() ==> (#[trigger] control_dependencies@[b]).size() == body.basic_blocks@.len(),
        callees@.len() == body.basic_blocks@.len(),
        forall|b: int| 0 <= b < callees@.len() ==> (#[trigger] callees@[b] matches Some(c) ==> c.wf()),
    ensures
        flow_of(res, body, constraints@, extra@, control_dependencies),
        res.analysis.call_summaries@.len() == body.basic_blocks@.len(),
        forall|b: int| 0 <= b < body.basic_blocks@.len() ==> #[trigger] call_summary_of(res.analysis, opt_results(callees@[b]), b),
{
    let (place_domain, aliases) = build_aliases(&body, constraints, extra);
    let location_domain = build_location_domain(&body);
    let mut call_summaries: Vec<Option<CallSummary>> = Vec::new();
    let mut b: usize = 0;
    while b < body.basic_blocks.len()
        invariant
            b <= body.basic_blocks@.len(),
            callees@.len() == body.basic_blocks@.len(),
            forall|c: int| 0 <= c < callees@.len() ==> (#[trigger] callees@[c] matches Some(r) ==> r.wf()),
            call_summaries@.len() == b,
            forall|c: int| 0 <= c < b ==> (#[trigger] call_summaries@[c] matches Some(s) ==> summary_in(s@, place_domain@.len())),
            forall|c: int| 0 <= c < b ==> match callees@[c] {
                Some(r) => match body.basic_blocks@[c].terminator.kind {
                    TerminatorKind::Call { args, destination, .. } => (#[trigger] call_summaries@[c]) matches Some(s)
                        && summary_view(s@) == summary_entries(*r, CallSite {
                            parent_args: operand_args(args@, args@.len() as int),
                            destination: match destination { Some((d, _)) => Some(d@), None => None },
                            parent_domain: place_domain@,
                        }, return_rows(*r), r.analysis.np() as int),
                    _ => call_summaries@[c] is None,
                },
                None => call_summaries@[c] is None,
            },
        decreases body.basic_blocks@.len() - b,
    {
        let summary = match (callees[b], &body.basic_blocks[b].terminator.kind) {
            (Some(r), TerminatorKind::Call { args, destination, .. }) => Some(r.summarize_call(args, destination, &place_domain)),
            _ => None,
        };
        call_summaries.push(summary);
        b = b + 1;
    }
    let ghost sums = call_summaries@;
    let ghost dom = place_domain@;
    let analysis = FlowAnalysis { body, place_domain, location_domain, aliases, control_dependencies, call_summaries };
    let res = analysis.iterate_to_fixpoint();
    proof {
        assert(res.analysis.call_summaries@ == sums);
        assert(res.analysis.place_domain@ == dom);
        assert forall|c: int| 0 <= c < res.analysis.body.basic_blocks@.len() implies #[trigger] call_summary_of(res.analysis, opt_results(callees@[c]), c) by {
            assert(res.analysis.call_summaries@[c] == sums[c]);
        }
    }
    res
}

/// The narrowest of the spans (the first of equally narrow ones), if any.
pub open spec fn narrowest_span(spans: Seq<Span>) -> Option<Span>
    decreases spans.len(),
{
    if spans.len() == 0 {
        None
    } else {
        match narrowest_span(spans.drop_last()) {
            Some(m) => if width(spans.last()) < width(m) { Some(spans.last()) } else { Some(m) },
            None => Some(spans.last()),
        }
    }
}

/// The narrowest of the spans (the first of equally narrow ones), if any.
pub fn find_narrowest_span(spans: &Vec<Span>) -> (r: Option<Span>)
    requires
        spans_wf(spans@),
    ensures
        r == narrowest_span(spans@),
{
    let mut best: Option<Span> = None;
    let mut k: usize = 0;
    while k < spans.len()
        invariant
            k <= spans@.len(),
            spans_wf(spans@),
            best == narrowest_span(spans@.take(k as int)),
            best matches Some(m) ==> m.lo <= m.hi,
        decreases spans@.len() - k,
    {
        assert(spans@.take(k + 1).drop_last() =~= spans@.take(k as int));
        let s = spans[k];
        best = match best {
            Some(m) => if s.hi - s.lo < m.hi - m.lo { Some(s) } else { Some(m) },
            None => Some(s),
        };
        k = k + 1;
    }
    assert(spans@.take(spans@.len() as int) =~= spans@);
    best
}

/// The source span reported for a location: the narrowest of the HIR spans
/// enclosing its statement or terminator.
pub open spec fn location_source_span(res: FlowResults, spanner: HirSpanner, l: Location) -> Seq<Span> {
    match narrowest_span(spanner.enclosing(location_span(res.analysis.body, l))) {
        Some(s) => seq![s],
        None => Seq::empty(),
    }
}

/// The spans of the locations `0..n` of `locs`, in order (see
/// `location_source_span`).
pub open spec fn location_spans(res: FlowResults, spanner: HirSpanner, locs: Set<int>, n: int) -> Seq<Span>
    decreases n,
{
    if n <= 0 {
        Seq::empty()
    } else {
        location_spans(res, spanner, locs, n - 1) + if locs.contains(n - 1) {
            location_source_span(res, spanner, res.analysis.location_domain.locs()[n - 1])
        } else {
            Seq::<Span>::empty()
        }
    }
}

/// The spans of the places `0..n` of `places`, in order: for each but the
/// return place, the declaration of its local.
pub open spec fn place_spans(res: FlowResults, places: Set<int>, n: int) -> Seq<Span>
    decreases n,
{
    if n <= 0 {
        Seq::empty()
    } else {
        let p = res.analysis.place_domain@[n - 1]@;
        place_spans(res, places, n - 1) + if places.contains(n - 1) && !is_return_local(p) && p.0 < res.analysis.body.local_spans@.len() {
            seq![res.analysis.body.local_spans@[p.0 as int]]
        } else {
            Seq::<Span>::empty()
        }
    }
}

/// The positions, relative to the start `start_pos` of the file, of the
/// spans that lie in the file.
pub open spec fn relative_positions(spans: Seq<Span>, start_pos: int) -> Seq<(int, int)>
    decreases spans.len(),
{
    if spans.len() == 0 {
        Seq::empty()
    } else {
        let rest = relative_positions(spans.drop_last(), start_pos);
        let s = spans.last();
        if start_pos <= s.lo && start_pos <= s.hi { rest.push((s.lo - start_pos, s.hi - start_pos)) } else { rest }
    }
}

pub open spec fn range_positions(v: Seq<Range>) -> Seq<(int, int)> {
    v.map_values(|r: Range| (r.start as int, r.end as int))
}

/// Every range names the file `name`.
pub open spec fn all_in_file(v: Seq<Range>, name: Seq<char>) -> bool {
    forall|i: int| 0 <= i < v.len() ==> (#[trigger] v[i]).filename@ == name
}

/// The ranges of the spans, in order: each span of `file` as a range of
/// the file; none when the file is not on the local disk.
pub open spec fn ranges_of(v: Seq<Range>, spans: Seq<Span>, file: SourceFile) -> bool {
    match file.name {
        FileName::Real(name) => range_positions(v) == relative_positions(spans, file.start_pos as int) && all_in_file(v, name@),
        FileName::Other(_) => v.len() == 0,
    }
}

fn push_ranges(out: &mut Vec<Range>, spans: &Vec<Span>, file: &SourceFile)
    ensures
        match file.name {
            FileName::Real(name) => range_positions(final(out)@) == range_positions(old(out)@) + relative_positions(spans@, file.start_pos as int)
                && (all_in_file(old(out)@, name@) ==> all_in_file(final(out)@, name@)),
            FileName::Other(_) => final(out)@ == old(out)@,
        },
{
    let mut k: usize = 0;
    while k < spans.len()
        invariant
            k <= spans@.len(),
            match file.name {
                FileName::Real(name) => range_positions(out@) == range_positions(old(out)@) + relative_positions(spans@.take(k as int), file.start_pos as int)
                    && (all_in_file(old(out)@, name@) ==> all_in_file(out@, name@)),
                FileName::Other(_) => out@ == old(out)@,
            },
        decreases spans@.len() - k,
    {
        let s = spans[k];
        assert(spans@.take(k + 1).drop_last() =~= spans@.take(k as int));
        let ghost before = out@;
        if file.start_pos <= s.lo && file.start_pos <= s.hi {
            match Range::from_span(s, file) {
                Ok(r) => {
                    out.push(r);
                    assert(range_positions(out@) =~= range_positions(before).push((r.start as int, r.end as int)));
                },
                Err(_) => {},
            }
        }
        k = k + 1;
    }
    assert(spans@.take(spans@.len() as int) =~= spans@);
}

impl FlowResults {
    /// `v` holds the ranges of the dependencies of `target` in `direction`.
    pub open spec fn ranges_for(&self, target: (Place, Location), direction: Direction, spanner: HirSpanner, file: SourceFile, v: Seq<Range>) -> bool {
        exists|d: (IndexSet, IndexSet)| #[trigger] self.dependencies_of(target, direction, d)
            && ranges_of(v, location_spans(*self, spanner, d.0@, self.analysis.nl() as int)
                + place_spans(*self, d.1@, self.analysis.np() as int), file)
    }

    /// The ranges of one dependency pair: the spans of its locations, then
    /// the declarations of its places (see `location_spans`, `place_spans`).
    pub fn dependency_ranges(&self, locs: &IndexSet, places: &IndexSet, spanner: &HirSpanner, file: &SourceFile) -> (v: Vec<Range>)
        requires
            self.wf(),
            spanner.wf(),
            locs.size() == self.analysis.nl(),
            places.size() == self.analysis.np(),
        ensures
            ranges_of(v@, location_spans(*self, *spanner, locs@, self.analysis.nl() as int)
                + place_spans(*self, places@, self.analysis.np() as int), *file),
    {
        let a = &self.analysis;
        let mut spans: Vec<Span> = Vec::new();
        let nl = a.location_domain.len();
        let mut l: usize = 0;
        while l < nl
            invariant
                self.wf(),
                spanner.wf(),
                a == &self.analysis,
                nl == a.nl(),
                l <= nl,
                locs.size() == nl,
                spans@ == location_spans(*self, *spanner, locs@, l as int),
            decreases nl - l,
        {
            if locs.contains(l) {
                let loc = a.location_domain.value(l);
                proof {
                    a.location_domain.lemma_loc_valid(a.body, l as int);
                }
                let more = location_to_spans(loc, &a.body, spanner);
                proof { spanner.lemma_enclosing_wf(location_span(a.body, loc)); }
                match find_narrowest_span(&more) {
                    Some(s) => { spans.push(s); },
                    None => {},
                }
            }
            l = l + 1;
        }
        let ghost ls = spans@;
        let np = a.place_domain.len();
        let mut p: usize = 0;
        while p < np
            invariant
                self.wf(),
                a == &self.analysis,
                np == a.np(),
                p <= np,
                places.size() == np,
                spans@ == ls + place_spans(*self, places@, p as int),
            decreases np - p,
        {
            if places.contains(p) {
                let place = &a.place_domain[p];
                if !(place.local == 0 && place.projection.len() == 0) && place.local < a.body.local_spans.len() {
                    spans.push(a.body.local_spans[place.local]);
                }
            }
            assert(spans@ =~= ls + place_spans(*self, places@, p + 1));
            p = p + 1;
        }
        let mut v: Vec<Range> = Vec::new();
        push_ranges(&mut v, &spans, file);
        v
    }

    /// The ranges of the dependencies of each target, backward or forward
    /// (see `compute_dependencies` and `dependency_ranges`).
    pub fn compute_dependency_ranges(&self, targets: &Vec<(Place, Location)>, direction: Direction, spanner: &HirSpanner, file: &SourceFile)
        -> (out: Vec<Vec<Range>>)
        requires
            self.wf(),
            spanner.wf(),
            forall|i: int| 0 <= i < targets@.len() ==> self.analysis.valid_location(#[trigger] targets@[i].1),
        ensures
            out@.len() == targets@.len(),
            forall|i: int| 0 <= i < out@.len() ==> self.ranges_for(targets@[i], direction, *spanner, *file, (#[trigger] out@[i])@),
    {
        let deps = self.compute_dependencies(targets, direction);
        let mut out: Vec<Vec<Range>> = Vec::new();
        let mut i: usize = 0;
        while i < deps.len()
            invariant
                self.wf(),
                spanner.wf(),
                deps@.len() == targets@.len(),
                forall|j: int| 0 <= j < deps@.len() ==> self.dependencies_of(#[trigger] targets@[j], direction, deps@[j]),
                i <= deps@.len(),
                out@.len() == i,
                forall|j: int| 0 <= j < i ==> self.ranges_for(targets@[j], direction, *spanner, *file, (#[trigger] out@[j])@),
            decreases deps@.len() - i,
        {
            let (locs, places) = &deps[i];
            assert(self.dependencies_of(targets@[i as int], direction, deps@[i as int]));
            let v = self.dependency_ranges(locs, places, spanner, file);
            let ghost prev = out@;
            out.push(v);
            proof {
                assert(self.dependencies_of(targets@[i as int], direction, deps@[i as int]));
                assert(self.ranges_for(targets@[i as int], direction, *spanner, *file, v@));
                assert forall|j: int| 0 <= j < i + 1 implies self.ranges_for(targets@[j], direction, *spanner, *file, (#[trigger] out@[j])@) by {
                    if j < i {
                        assert(out@[j] == prev[j]);
                    } else {
                        assert(out@[j] == v);
                    }
                }
            }
            i = i + 1;
        }
        out
    }
}

/// The output of a slice: the ranges in the slice, and statistics of the
/// analysed function.
#[derive(Debug, Clone)]
pub struct SliceOutput {
    pub ranges: Vec<Range>,
    pub num_instructions: usize,
    pub num_relevant_instructions: usize,
    pub mutated_inputs: Vec<usize>,
    pub relevant_inputs: Vec<usize>,
}

impl SliceOutput {
    /// The ranges in the slice.
    pub fn ranges(&self) -> (r: &Vec<Range>)
        ensures
            r == &self.ranges,
    {
        &self.ranges
    }
}

impl FlowistryOutput for SliceOutput {
    fn empty() -> (s: SliceOutput)
        ensures
            s.ranges@.len() == 0,
            s.num_instructions == 0,
            s.num_relevant_instructions == 0,
            s.mutated_inputs@.len() == 0,
            s.relevant_inputs@.len() == 0,
    {
        SliceOutput {
            ranges: Vec::new(),
            num_instructions: 0,
            num_relevant_instructions: 0,
            mutated_inputs: Vec::new(),
            relevant_inputs: Vec::new(),
        }
    }

    /// Appends the ranges of `other`; the statistics become those of `other`.
    fn merge(&mut self, other: SliceOutput)
        ensures
            final(self).ranges@ == old(self).ranges@ + other.ranges@,
            final(self).num_instructions == other.num_instructions,
            final(self).num_relevant_instructions == other.num_relevant_instructions,
            final(self).mutated_inputs@ == other.mutated_inputs@,
            final(self).relevant_inputs@ == other.relevant_inputs@,
    {
        let mut more = other.ranges;
        self.ranges.append(&mut more);
        self.num_instructions = other.num_instructions;
        self.num_relevant_instructions = other.num_relevant_instructions;
        self.mutated_inputs = other.mutated_inputs;
        self.relevant_inputs = other.relevant_inputs;
    }
}

/// The slice of a function from the places under `span`, backward or
/// forward: every range in the dependencies of any of those places, target
/// by target, in the order `span_to_places` finds them.
pub fn slice(results: &FlowResults, span: Span, direction: Direction, spanner: &HirSpanner, file: &SourceFile) -> (out: SliceOutput)
    requires
        results.wf(),
        spanner.wf(),
        results.analysis.body.basic_blocks@.len() > 0,
    ensures
        exists|targets: Seq<(Place, Location)>, per_target: Seq<Vec<Range>>| #![trigger target_views(targets), flatten_ranges(per_target, per_target.len() as int)] {
            &&& target_views(targets) == spanned_targets(results.analysis.body, span)
            &&& pair_set(targets) == spanned_places(results.analysis.body, span)
            &&& distinct_pairs(targets)
            &&& per_target.len() == targets.len()
            &&& (forall|i: int| 0 <= i < per_target.len() ==> results.ranges_for(targets[i], direction, *spanner, *file, (#[trigger] per_target[i])@))
            &&& out.ranges@ == flatten_ranges(per_target, per_target.len() as int)
        },
        out.num_instructions == 0,
        out.num_relevant_instructions == 0,
        out.mutated_inputs@.len() == 0,
        out.relevant_inputs@.len() == 0,
{
    let targets = span_to_places(&results.analysis.body, span);
    proof {
        assert forall|i: int| 0 <= i < targets@.len() implies results.analysis.valid_location(#[trigger] targets@[i].1) by {
            let e = (targets@[i].0@, targets@[i].1);
            assert(pair_set(targets@).contains(e));
        }
    }
    let mut deps = results.compute_dependency_ranges(&targets, direction, spanner, file);
    let ghost all = deps@;
    let mut out = SliceOutput::empty();
    let ghost mut i: int = 0;
    while deps.len() > 0
        invariant
            0 <= i <= all.len(),
            deps@ == all.skip(i),
            out.ranges@ == flatten_ranges(all, i),
            out.num_instructions == 0,
            out.num_relevant_instructions == 0,
            out.mutated_inputs@.len() == 0,
            out.relevant_inputs@.len() == 0,
        decreases deps@.len(),
    {
        let mut list = deps.remove(0);
        proof {
            assert(list == all[i]);
            assert(deps@ =~= all.skip(i + 1));
        }
        out.ranges.append(&mut list);
        proof { i = i + 1; }
    }
    assert(all.skip(i).len() == 0);
    assert(pair_set(targets@) == spanned_places(results.analysis.body, span));
    assert(out.ranges@ == flatten_ranges(all, all.len() as int));
    out
}

/// The ranges of the first `n` lists, one list after the other.
pub open spec fn flatten_ranges(lists: Seq<Vec<Range>>, n: int) -> Seq<Range>
    decreases n,
{
    if n <= 0 { Seq::empty() } else { flatten_ranges(lists, n - 1) + lists[n - 1]@ }
}

} // verus!
