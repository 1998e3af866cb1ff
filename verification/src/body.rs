use vstd::prelude::*;
use crate::mir::{Location, Mutability, Operand, Place, ProjElem, operand_place};
use crate::ty::Ty;

verus! {

/// A byte range in a source file.
#[derive(Clone, Copy, Debug, PartialEq, Eq, Structural)]
pub struct Span {
    pub lo: usize,
    pub hi: usize,
}

impl Span {
    pub open spec fn contains_spec(self, other: Span) -> bool {
        self.lo <= other.lo && other.hi <= self.hi
    }

    /// Whether `other` lies within this span.
    pub fn contains(&self, other: &Span) -> (b: bool)
        ensures
            b == self.contains_spec(*other),
    {
        self.lo <= other.lo && other.hi <= self.hi
    }
}

/// The right-hand side of an assignment.
#[derive(Debug)]
pub enum Rvalue {
    /// A copy or move of an operand.
    Use(Operand),
    /// A borrow `&'region place`.
    Ref { region: usize, mutability: Mutability, place: Place },
    /// The discriminant of an enum.
    Discriminant(Place),
    /// Any other computation (arithmetic, casts, aggregates...) over operands.
    Other(Vec<Operand>),
}

/// A statement of a basic block.
#[derive(Debug)]
pub enum StatementKind {
    Assign(Place, Rvalue),
    /// A read of a place that has no effect on the state (such as the read
    /// that a `let` binding makes of its variable).
    FakeRead(Place),
    /// The start of the storage of a local.
    StorageLive(usize),
    /// The end of the storage of a local.
    StorageDead(usize),
    /// Any other statement that neither reads nor writes places.
    Nop,
}

#[derive(Debug)]
pub struct Statement {
    pub kind: StatementKind,
    pub span: Span,
}

/// How a basic block ends.
#[derive(Debug)]
pub enum TerminatorKind {
    Goto(usize),
    SwitchInt { discr: Operand, targets: Vec<usize> },
    Return,
    /// A call; `destination` holds the return place and the block to continue in.
    Call { args: Vec<Operand>, destination: Option<(Place, usize)>, cleanup: Option<usize> },
    /// A check of `cond` (such as an overflow check), continuing in `target`
    /// or, when it fails, unwinding to `cleanup`.
    Assert { cond: Operand, target: usize, cleanup: Option<usize> },
    DropAndReplace { place: Place, value: Operand, target: usize },
    /// A branch to `real_target` that the borrow checker also takes to
    /// reach `imaginary_target`.
    FalseEdge { real_target: usize, imaginary_target: usize },
    /// A jump to `real_target` that the borrow checker also takes to
    /// unwind to `unwind` (the head of a loop).
    FalseUnwind { real_target: usize, unwind: Option<usize> },
    /// Any other terminator, given by its successors.
    Other(Vec<usize>),
}

#[derive(Debug)]
pub struct Terminator {
    pub kind: TerminatorKind,
    pub span: Span,
}

#[derive(Debug)]
pub struct BasicBlockData {
    pub statements: Vec<Statement>,
    pub terminator: Terminator,
}

/// A function body: basic blocks (block 0 is the entry); for each local,
/// its type and the span of its declaration (local 0 is the return place,
/// locals `1..=arg_count` the arguments); and the places that debug
/// information attaches to user variables.
#[derive(Debug)]
pub struct Body {
    pub basic_blocks: Vec<BasicBlockData>,
    pub local_tys: Vec<Ty>,
    pub local_spans: Vec<Span>,
    pub arg_count: usize,
    pub var_debug_info: Vec<Place>,
}

/// The places an rvalue reads.
pub open spec fn rvalue_places(rv: Rvalue) -> Seq<(usize, Seq<ProjElem>)> {
    match rv {
        Rvalue::Use(op) => match operand_place(op) {
            Some(p) => seq![p],
            None => Seq::empty(),
        },
        Rvalue::Ref { place, .. } => seq![place@],
        Rvalue::Discriminant(place) => seq![place@],
        Rvalue::Other(ops) => operands_places(ops@, 0),
    }
}

/// The places read by the operands `i..`.
pub open spec fn operands_places(ops: Seq<Operand>, i: int) -> Seq<(usize, Seq<ProjElem>)>
    decreases ops.len() - i,
{
    if 0 <= i < ops.len() {
        let rest = operands_places(ops, i + 1);
        match operand_place(ops[i]) {
            Some(p) => seq![p] + rest,
            None => rest,
        }
    } else {
        Seq::empty()
    }
}

/// Place `r` occurs in the rvalue: as the place of a copied or moved
/// operand, as the borrowed place, as the place whose discriminant is read,
/// or as the place of one of the operands of another computation.
pub open spec fn occurs_in_rvalue(rv: Rvalue, r: (usize, Seq<ProjElem>)) -> bool {
    match rv {
        Rvalue::Use(op) => operand_place(op) == Some(r),
        Rvalue::Ref { place, .. } => place@ == r,
        Rvalue::Discriminant(place) => place@ == r,
        Rvalue::Other(ops) => exists|i: int| 0 <= i < ops@.len() && operand_place(#[trigger] ops@[i]) == Some(r),
    }
}

proof fn lemma_operands_places_contains(ops: Seq<Operand>, i: int, r: (usize, Seq<ProjElem>))
    requires
        0 <= i,
    ensures
        operands_places(ops, i).contains(r) <==> exists|k: int| i <= k < ops.len() && operand_place(#[trigger] ops[k]) == Some(r),
    decreases ops.len() - i,
{
    if i < ops.len() {
        lemma_operands_places_contains(ops, i + 1, r);
        let rest = operands_places(ops, i + 1);
        let all = operands_places(ops, i);
        match operand_place(ops[i]) {
            Some(p) => {
                assert(all == seq![p] + rest);
                if all.contains(r) {
                    let j = choose|j: int| 0 <= j < all.len() && all[j] == r;
                    if j > 0 {
                        assert(all[j] == rest[j - 1]);
                        assert(rest.contains(r));
                    } else {
                        assert(operand_place(ops[i]) == Some(r));
                    }
                }
                if exists|k: int| i <= k < ops.len() && operand_place(#[trigger] ops[k]) == Some(r) {
                    let k = choose|k: int| i <= k < ops.len() && operand_place(#[trigger] ops[k]) == Some(r);
                    if k == i {
                        assert(all[0] == r);
                    } else {
                        assert(rest.contains(r));
                        let j = choose|j: int| 0 <= j < rest.len() && rest[j] == r;
                        assert(all[j + 1] == rest[j]);
                    }
                }
            },
            None => {
                if exists|k: int| i <= k < ops.len() && operand_place(#[trigger] ops[k]) == Some(r) {
                    let k = choose|k: int| i <= k < ops.len() && operand_place(#[trigger] ops[k]) == Some(r);
                    assert(k != i);
                }
            },
        }
    }
}

/// The places an assignment reads are exactly those that occur in its
/// rvalue: every operand place, borrowed place and discriminant place is
/// read, and nothing else is.
pub proof fn lemma_rvalue_reads_its_places(rv: Rvalue, r: (usize, Seq<ProjElem>))
    ensures
        rvalue_places(rv).contains(r) <==> occurs_in_rvalue(rv, r),
{
    match rv {
        Rvalue::Use(op) => {
            if rvalue_places(rv).contains(r) {
                assert(rvalue_places(rv)[0] == r);
            }
            if occurs_in_rvalue(rv, r) {
                assert(rvalue_places(rv)[0] == r);
            }
        },
        Rvalue::Ref { place, .. } => {
            assert(rvalue_places(rv)[0] == place@);
        },
        Rvalue::Discriminant(place) => {
            assert(rvalue_places(rv)[0] == place@);
        },
        Rvalue::Other(ops) => {
            lemma_operands_places_contains(ops@, 0, r);
        },
    }
}

pub open spec fn place_views(v: Seq<Place>) -> Seq<(usize, Seq<ProjElem>)> {
    v.map_values(|p: Place| p@)
}

pub proof fn lemma_place_views_push(s: Seq<Place>, x: Place)
    ensures
        place_views(s.push(x)) == place_views(s).push(x@),
{
    assert(place_views(s.push(x)) =~= place_views(s).push(x@));
}

/// The places an rvalue reads, in order.
pub fn collect_rvalue_places(rv: &Rvalue) -> (v: Vec<Place>)
    ensures
        place_views(v@) == rvalue_places(*rv),
{
    let mut v: Vec<Place> = Vec::new();
    match rv {
        Rvalue::Use(op) => {
            match crate::mir::operand_to_place(op) {
                Some(p) => v.push(p),
                None => {},
            }
        },
        Rvalue::Ref { place, .. } => v.push(place.copy()),
        Rvalue::Discriminant(place) => v.push(place.copy()),
        Rvalue::Other(ops) => {
            let mut i: usize = 0;
            while i < ops.len()
                invariant
                    i <= ops@.len(),
                    place_views(v@) + operands_places(ops@, i as int) == operands_places(ops@, 0),
                decreases ops@.len() - i,
            {
                let ghost before = place_views(v@);
                match crate::mir::operand_to_place(&ops[i]) {
                    Some(p) => {
                        v.push(p);
                        assert(place_views(v@) =~= before.push(p@));
                        assert(place_views(v@) + operands_places(ops@, i + 1) =~= before + operands_places(ops@, i as int));
                    },
                    None => {
                        assert(place_views(v@) =~= before);
                    },
                }
                i = i + 1;
            }
            assert(place_views(v@) =~= operands_places(ops@, 0));
        },
    }
    assert(place_views(v@) =~= rvalue_places(*rv));
    v
}

/// The blocks a terminator may continue in.
pub open spec fn successors_spec(t: TerminatorKind) -> Seq<usize> {
    match t {
        TerminatorKind::Goto(b) => seq![b],
        TerminatorKind::SwitchInt { targets, .. } => targets@,
        TerminatorKind::Return => Seq::empty(),
        TerminatorKind::Call { destination, cleanup, .. } => {
            let normal: Seq<usize> = match destination {
                Some((_, b)) => seq![b],
                None => Seq::empty(),
            };
            let unwind: Seq<usize> = match cleanup {
                Some(b) => seq![b],
                None => Seq::empty(),
            };
            normal + unwind
        },
        TerminatorKind::Assert { target, cleanup, .. } => {
            let unwind: Seq<usize> = match cleanup {
                Some(b) => seq![b],
                None => Seq::empty(),
            };
            seq![target] + unwind
        },
        TerminatorKind::DropAndReplace { target, .. } => seq![target],
        TerminatorKind::FalseEdge { real_target, imaginary_target } => seq![real_target, imaginary_target],
        TerminatorKind::FalseUnwind { real_target, unwind } => {
            let u: Seq<usize> = match unwind {
                Some(b) => seq![b],
                None => Seq::empty(),
            };
            seq![real_target] + u
        },
        TerminatorKind::Other(succ) => succ@,
    }
}

/// The blocks a terminator may continue in.
pub fn successors(t: &TerminatorKind) -> (v: Vec<usize>)
    ensures
        v@ == successors_spec(*t),
{
    let mut v: Vec<usize> = Vec::new();
    match t {
        TerminatorKind::Goto(b) => v.push(*b),
        TerminatorKind::SwitchInt { targets, .. } => {
            v = targets.clone();
            assert(v@ =~= targets@);
        },
        TerminatorKind::Return => {},
        TerminatorKind::Call { destination, cleanup, .. } => {
            match destination {
                Some((_, b)) => v.push(*b),
                None => {},
            }
            match cleanup {
                Some(b) => v.push(*b),
                None => {},
            }
        },
        TerminatorKind::Assert { target, cleanup, .. } => {
            v.push(*target);
            match cleanup {
                Some(b) => v.push(*b),
                None => {},
            }
        },
        TerminatorKind::DropAndReplace { target, .. } => v.push(*target),
        TerminatorKind::FalseEdge { real_target, imaginary_target } => {
            v.push(*real_target);
            v.push(*imaginary_target);
        },
        TerminatorKind::FalseUnwind { real_target, unwind } => {
            v.push(*real_target);
            match unwind {
                Some(b) => v.push(*b),
                None => {},
            }
        },
        TerminatorKind::Other(succ) => {
            v = succ.clone();
            assert(v@ =~= succ@);
        },
    }
    assert(v@ =~= successors_spec(*t));
    v
}

/// Block `s` is a successor of block `p`.
pub open spec fn cfg_edge(body: Body, p: int, s: int) -> bool {
    &&& 0 <= p < body.basic_blocks@.len()
    &&& exists|k: int| 0 <= k < successors_spec(body.basic_blocks@[p].terminator.kind).len()
        && #[trigger] successors_spec(body.basic_blocks@[p].terminator.kind)[k] == s
}

/// Every successor of every block is a block of the body.
pub open spec fn cfg_closed(body: Body) -> bool {
    forall|p: int, s: int| #[trigger] cfg_edge(body, p, s) ==> 0 <= s < body.basic_blocks@.len()
}

/// The number of locations in blocks `0..b`.
pub open spec fn locations_before(blocks: Seq<BasicBlockData>, b: int) -> nat
    decreases b,
{
    if b <= 0 { 0 } else { locations_before(blocks, b - 1) + blocks[b - 1].statements@.len() + 1 }
}

/// The locations of a body in order: block by block, each statement then the terminator.
pub open spec fn all_locations(blocks: Seq<BasicBlockData>, b: int) -> Seq<Location>
    decreases b,
{
    if b <= 0 {
        Seq::empty()
    } else {
        all_locations(blocks, b - 1) + Seq::new(
            (blocks[b - 1].statements@.len() + 1) as nat,
            |i: int| Location { block: (b - 1) as usize, statement_index: i as usize },
        )
    }
}

proof fn lemma_all_locations_len(blocks: Seq<BasicBlockData>, b: int)
    requires
        0 <= b <= blocks.len(),
    ensures
        all_locations(blocks, b).len() == locations_before(blocks, b),
    decreases b,
{
    if b > 0 {
        lemma_all_locations_len(blocks, b - 1);
    }
}

/// A body is in range when its block and location counts fit a `usize`.
pub open spec fn body_in_range(body: Body) -> bool {
    locations_before(body.basic_blocks@, body.basic_blocks@.len() as int) <= usize::MAX
}

proof fn lemma_locations_before_mono(blocks: Seq<BasicBlockData>, a: int, b: int)
    requires
        0 <= a <= b <= blocks.len(),
    ensures
        locations_before(blocks, a) <= locations_before(blocks, b),
    decreases b - a,
{
    if a < b {
        lemma_locations_before_mono(blocks, a, b - 1);
    }
}

/// The locations of a body, with the position of the first location of each block.
pub struct LocationDomain {
    locations: Vec<Location>,
    starts: Vec<usize>,
}

impl LocationDomain {
    /// The locations, in order.
    pub closed spec fn locs(&self) -> Seq<Location> {
        self.locations@
    }

    /// The domain lists exactly the locations of `body`.
    pub closed spec fn describes(&self, body: Body) -> bool {
        &&& self.locations@ == all_locations(body.basic_blocks@, body.basic_blocks@.len() as int)
        &&& self.starts@.len() == body.basic_blocks@.len()
        &&& forall|b: int| 0 <= b < self.starts@.len() ==> #[trigger] self.starts@[b] == locations_before(body.basic_blocks@, b)
    }

    /// The number of locations.
    pub fn len(&self) -> (n: usize)
        ensures
            n == self.locs().len(),
    {
        self.locations.len()
    }

    /// The location at `index`.
    pub fn value(&self, index: usize) -> (l: Location)
        requires
            index < self.locs().len(),
        ensures
            l == self.locs()[index as int],
    {
        self.locations[index]
    }

    /// The position of a location of the body.
    pub fn index(&self, body: &Body, l: Location) -> (i: usize)
        requires
            self.describes(*body),
            l.block < body.basic_blocks@.len(),
            l.statement_index <= body.basic_blocks@[l.block as int].statements@.len(),
        ensures
            i < self.locs().len(),
            self.locs()[i as int] == l,
            i == locations_before(body.basic_blocks@, l.block as int) + l.statement_index,
    {
        proof {
            let blocks = body.basic_blocks@;
            lemma_all_locations_len(blocks, blocks.len() as int);
            lemma_all_locations_len(blocks, l.block as int);
            lemma_locations_before_mono(blocks, l.block + 1, blocks.len() as int);
            lemma_all_locations_prefix(blocks, l.block + 1, blocks.len() as int);
            assert(all_locations(blocks, l.block + 1)[locations_before(blocks, l.block as int) + l.statement_index] == l);
        }
        let total = self.locations.len();
        assert(self.starts@[l.block as int] == locations_before(body.basic_blocks@, l.block as int));
        self.starts[l.block] + l.statement_index
    }
}

impl LocationDomain {
    /// A domain that describes a body has one entry per location of it.
    pub proof fn lemma_len(&self, body: Body)
        requires
            self.describes(body),
        ensures
            self.locs().len() == locations_before(body.basic_blocks@, body.basic_blocks@.len() as int),
    {
        lemma_all_locations_len(body.basic_blocks@, body.basic_blocks@.len() as int);
    }
}

proof fn lemma_all_locations_valid(blocks: Seq<BasicBlockData>, b: int, i: int)
    requires
        0 <= b <= blocks.len(),
        locations_before(blocks, b) <= usize::MAX,
        0 <= i < all_locations(blocks, b).len(),
    ensures
        all_locations(blocks, b)[i].block < b,
        all_locations(blocks, b)[i].statement_index <= blocks[all_locations(blocks, b)[i].block as int].statements@.len(),
    decreases b,
{
    if b > 0 {
        lemma_all_locations_len(blocks, b - 1);
        let prefix = all_locations(blocks, b - 1);
        assert(locations_before(blocks, b - 1) <= locations_before(blocks, b));
        if i < prefix.len() {
            lemma_all_locations_valid(blocks, b - 1, i);
            assert(all_locations(blocks, b)[i] == prefix[i]);
        } else {
            let k = i - prefix.len();
            lemma_blocks_bounded(blocks, b - 1);
            assert(b - 1 <= locations_before(blocks, b - 1));
            assert(all_locations(blocks, b)[i] == Location { block: (b - 1) as usize, statement_index: k as usize });
        }
    }
}

proof fn lemma_blocks_bounded(blocks: Seq<BasicBlockData>, b: int)
    requires
        0 <= b <= blocks.len(),
    ensures
        b <= locations_before(blocks, b),
    decreases b,
{
    if b > 0 {
        lemma_blocks_bounded(blocks, b - 1);
    }
}

impl LocationDomain {
    /// Every entry of a domain that describes a body is a location of it.
    pub proof fn lemma_loc_valid(&self, body: Body, i: int)
        requires
            self.describes(body),
            body_in_range(body),
            0 <= i < self.locs().len(),
        ensures
            self.locs()[i].block < body.basic_blocks@.len(),
            self.locs()[i].statement_index <= body.basic_blocks@[self.locs()[i].block as int].statements@.len(),
    {
        let blocks = body.basic_blocks@;
        lemma_blocks_bounded(blocks, blocks.len() as int);
        lemma_all_locations_valid(blocks, blocks.len() as int, i);
    }
}

/// A location of block `b` comes before the end of the body.
pub proof fn lemma_location_before_end(body: Body, b: int, i: int)
    requires
        0 <= b < body.basic_blocks@.len(),
        0 <= i <= body.basic_blocks@[b].statements@.len(),
    ensures
        locations_before(body.basic_blocks@, b) + i < locations_before(body.basic_blocks@, body.basic_blocks@.len() as int),
{
    lemma_locations_before_mono(body.basic_blocks@, b + 1, body.basic_blocks@.len() as int);
}

proof fn lemma_all_locations_prefix(blocks: Seq<BasicBlockData>, a: int, b: int)
    requires
        0 <= a <= b <= blocks.len(),
    ensures
        all_locations(blocks, a).len() <= all_locations(blocks, b).len(),
        forall|i: int| 0 <= i < all_locations(blocks, a).len() ==> #[trigger] all_locations(blocks, b)[i] == all_locations(blocks, a)[i],
    decreases b - a,
{
    if a < b {
        lemma_all_locations_prefix(blocks, a, b - 1);
    }
}

/// All locations of a body, block by block.
pub fn build_location_domain(body: &Body) -> (d: LocationDomain)
    requires
        body_in_range(*body),
    ensures
        d.describes(*body),
{
    let blocks = &body.basic_blocks;
    let mut locations: Vec<Location> = Vec::new();
    let mut starts: Vec<usize> = Vec::new();
    let mut b: usize = 0;
    while b < blocks.len()
        invariant
            b <= blocks@.len(),
            locations_before(blocks@, blocks@.len() as int) <= usize::MAX,
            locations@ == all_locations(blocks@, b as int),
            locations@.len() == locations_before(blocks@, b as int),
            starts@.len() == b,
            forall|b2: int| 0 <= b2 < b ==> #[trigger] starts@[b2] == locations_before(blocks@, b2),
        decreases blocks@.len() - b,
    {
        proof { lemma_locations_before_mono(blocks@, b + 1, blocks@.len() as int); }
        starts.push(locations.len());
        let n = blocks[b].statements.len();
        let m = n + 1;
        let mut i: usize = 0;
        while i < m
            invariant
                m == n + 1,
                i <= n + 1,
                n == blocks@[b as int].statements@.len(),
                b < blocks@.len(),
                locations_before(blocks@, b + 1) <= usize::MAX,
                locations@ == all_locations(blocks@, b as int) + Seq::new(i as nat, |k: int| Location { block: b, statement_index: k as usize }),
                all_locations(blocks@, b as int).len() == locations_before(blocks@, b as int),
            decreases n + 1 - i,
        {
            locations.push(Location { block: b, statement_index: i });
            assert(locations@ =~= all_locations(blocks@, b as int) + Seq::new((i + 1) as nat, |k: int| Location { block: b, statement_index: k as usize }));
            i = i + 1;
        }
        assert(locations@ =~= all_locations(blocks@, b + 1));
        b = b + 1;
    }
    LocationDomain { locations, starts }
}

/// A marker of where the storage of a local begins or ends.
pub open spec fn is_storage_marker(k: StatementKind) -> bool {
    k is StorageLive || k is StorageDead
}

/// The statements that are not storage markers, in order.
pub open spec fn without_storage_markers(s: Seq<Statement>) -> Seq<Statement>
    decreases s.len(),
{
    if s.len() == 0 {
        Seq::empty()
    } else {
        let rest = without_storage_markers(s.drop_last());
        if is_storage_marker(s.last().kind) { rest } else { rest.push(s.last()) }
    }
}

/// The terminator with a false edge or a false unwind made a plain jump to
/// its real target.
pub open spec fn without_false_edges(k: TerminatorKind) -> TerminatorKind {
    match k {
        TerminatorKind::FalseEdge { real_target, .. } => TerminatorKind::Goto(real_target),
        TerminatorKind::FalseUnwind { real_target, .. } => TerminatorKind::Goto(real_target),
        _ => k,
    }
}

/// Block `n` is block `o` simplified: its storage markers dropped and its
/// false edges made plain jumps.
pub open spec fn simplified_block(o: BasicBlockData, n: BasicBlockData) -> bool {
    &&& n.statements@ == without_storage_markers(o.statements@)
    &&& n.terminator.kind == without_false_edges(o.terminator.kind)
    &&& n.terminator.span == o.terminator.span
}

proof fn lemma_without_storage_markers_len(s: Seq<Statement>)
    ensures
        without_storage_markers(s).len() <= s.len(),
    decreases s.len(),
{
    if s.len() > 0 {
        lemma_without_storage_markers_len(s.drop_last());
    }
}

proof fn lemma_fewer_locations(o: Seq<BasicBlockData>, n: Seq<BasicBlockData>, b: int)
    requires
        o.len() == n.len(),
        0 <= b <= o.len(),
        forall|j: int| 0 <= j < o.len() ==> #[trigger] n[j].statements@.len() <= o[j].statements@.len(),
    ensures
        locations_before(n, b) <= locations_before(o, b),
    decreases b,
{
    if b > 0 {
        lemma_fewer_locations(o, n, b - 1);
        assert(n[b - 1].statements@.len() <= o[b - 1].statements@.len());
    }
}

fn drop_storage_markers(stmts: Vec<Statement>) -> (r: Vec<Statement>)
    ensures
        r@ == without_storage_markers(stmts@),
{
    let ghost all = stmts@;
    let mut rest = stmts;
    let mut r: Vec<Statement> = Vec::new();
    let ghost mut i: int = 0;
    while rest.len() > 0
        invariant
            0 <= i <= all.len(),
            rest@ == all.skip(i),
            r@ == without_storage_markers(all.take(i)),
        decreases rest@.len(),
    {
        let st = rest.remove(0);
        proof {
            assert(st == all[i]);
            assert(rest@ =~= all.skip(i + 1));
            assert(all.take(i + 1).drop_last() =~= all.take(i));
            assert(all.take(i + 1).last() == st);
        }
        match st.kind {
            StatementKind::StorageLive(_) | StatementKind::StorageDead(_) => {},
            _ => { r.push(st); },
        }
        proof { i = i + 1; }
    }
    assert(all.take(i) =~= all);
    r
}

/// Simplifies a body for the analysis: drops the statements that mark
/// where the storage of a local begins or ends, and makes false edges and
/// false unwinds plain jumps to their real targets. A body whose blocks
/// only continue in blocks of the body keeps that property, and its
/// locations still fit a `usize` when they did.
pub fn simplify_mir(body: &mut Body)
    ensures
        final(body).basic_blocks@.len() == old(body).basic_blocks@.len(),
        forall|b: int| 0 <= b < old(body).basic_blocks@.len()
            ==> simplified_block(old(body).basic_blocks@[b], #[trigger] final(body).basic_blocks@[b]),
        final(body).local_tys == old(body).local_tys,
        final(body).local_spans == old(body).local_spans,
        final(body).arg_count == old(body).arg_count,
        final(body).var_debug_info == old(body).var_debug_info,
        cfg_closed(*old(body)) ==> cfg_closed(*final(body)),
        body_in_range(*old(body)) ==> body_in_range(*final(body)),
{
    let ghost old_body = *body;
    let mut blocks: Vec<BasicBlockData> = Vec::new();
    std::mem::swap(&mut blocks, &mut body.basic_blocks);
    let ghost all = blocks@;
    let mut out: Vec<BasicBlockData> = Vec::new();
    let ghost mut i: int = 0;
    while blocks.len() > 0
        invariant
            0 <= i <= all.len(),
            blocks@ == all.skip(i),
            out@.len() == i,
            forall|j: int| 0 <= j < i ==> simplified_block(all[j], #[trigger] out@[j]),
        decreases blocks@.len(),
    {
        let block = blocks.remove(0);
        proof {
            assert(block == all[i]);
            assert(blocks@ =~= all.skip(i + 1));
        }
        let BasicBlockData { statements, terminator } = block;
        let Terminator { kind, span } = terminator;
        let statements = drop_storage_markers(statements);
        let kind = match kind {
            TerminatorKind::FalseEdge { real_target, .. } => TerminatorKind::Goto(real_target),
            TerminatorKind::FalseUnwind { real_target, .. } => TerminatorKind::Goto(real_target),
            k => k,
        };
        out.push(BasicBlockData { statements, terminator: Terminator { kind, span } });
        proof { i = i + 1; }
    }
    body.basic_blocks = out;
    proof {
        assert(i == all.len());
        assert(all == old_body.basic_blocks@);
        let n = body.basic_blocks@;
        assert forall|j: int| 0 <= j < all.len() implies #[trigger] n[j].statements@.len() <= all[j].statements@.len() by {
            assert(simplified_block(all[j], n[j]));
            lemma_without_storage_markers_len(all[j].statements@);
        }
        lemma_fewer_locations(all, n, all.len() as int);
        if cfg_closed(old_body) {
            assert forall|p: int, s: int| #[trigger] cfg_edge(*body, p, s) implies 0 <= s < n.len() by {
                let k = choose|k: int| 0 <= k < successors_spec(n[p].terminator.kind).len()
                    && #[trigger] successors_spec(n[p].terminator.kind)[k] == s;
                assert(simplified_block(all[p], n[p]));
                assert(successors_spec(all[p].terminator.kind)[k] == s);
                assert(cfg_edge(old_body, p, s));
            }
        }
    }
}

} // verus!
