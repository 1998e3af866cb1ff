use flowistry::body::{BasicBlockData, Body, Rvalue, Span, Statement, StatementKind, Terminator, TerminatorKind};
use flowistry::config::{FileName, Range, SourceFile};
use flowistry::effects::{arg_name, qpath_to_span, unique_slices, EffectsError, EffectsOutput, FunctionIdentifier, IdentifierError};
use flowistry::fixpoint::FlowResults;
use flowistry::indexed::IndexSet;
use flowistry::mir::{Mutability, Operand, Place, ProjElem};
use flowistry::slicing::compute_flow;
use flowistry::spans::HirSpanner;
use flowistry::ty::{AdtKind, AdtNames, Ty};

const FOO_SRC: &str = "\nfn foo(x: &mut i32) -> i32 {\n  *x += 1;\n  *x + 1  \n}\n\nfn main() {}\n";

fn local(l: usize) -> Place {
  Place { local: l, projection: vec![] }
}

fn deref(l: usize) -> Place {
  Place { local: l, projection: vec![ProjElem::Deref] }
}

fn field(l: usize, f: usize) -> Place {
  Place { local: l, projection: vec![ProjElem::Field(f)] }
}

/// The span of the first occurrence of `needle` at or after `from`.
fn find(src: &str, needle: &str, from: usize) -> Span {
  let lo = src[from..].find(needle).expect("needle not found") + from;
  Span { lo, hi: lo + needle.len() }
}

fn file() -> SourceFile {
  SourceFile { name: FileName::Real("main.rs".to_string()), start_pos: 0 }
}

fn no_control_dependencies(n: usize) -> Vec<IndexSet> {
  (0..n).map(|_| IndexSet::new(n)).collect()
}

/// The body of `foo`, its HIR spans, and the spans of its statements.
fn foo_body() -> (Body, HirSpanner, Span, Span) {
  let src = FOO_SRC;
  let x_decl = find(src, "x", src.find("foo").unwrap());
  let ret_ty = find(src, "i32", src.find("->").unwrap());
  let incr = find(src, "*x += 1", 0);
  let incr_lhs = find(src, "*x", incr.lo);
  let one_a = find(src, "1", incr.lo + 6);
  let sum = find(src, "*x + 1", incr.hi);
  let sum_lhs = find(src, "*x", sum.lo);
  let one_b = find(src, "1", sum.lo + 4);
  let block = Span { lo: src.find('{').unwrap(), hi: src.find('}').unwrap() + 1 };
  let incr_stmt = find(src, "*x += 1;", 0);

  let stmt = |kind: StatementKind, span: Span| Statement { kind, span };
  let bb0 = BasicBlockData {
    statements: vec![stmt(
      StatementKind::Assign(local(2), Rvalue::Other(vec![Operand::Copy(deref(1)), Operand::Constant])),
      incr,
    )],
    terminator: Terminator {
      kind: TerminatorKind::Assert { cond: Operand::Move(field(2, 1)), target: 1, cleanup: None },
      span: incr,
    },
  };
  let bb1 = BasicBlockData {
    statements: vec![
      stmt(StatementKind::Assign(deref(1), Rvalue::Use(Operand::Move(field(2, 0)))), incr),
      stmt(StatementKind::Assign(local(4), Rvalue::Use(Operand::Copy(deref(1)))), sum_lhs),
      stmt(StatementKind::Assign(local(3), Rvalue::Other(vec![Operand::Move(local(4)), Operand::Constant])), sum),
    ],
    terminator: Terminator {
      kind: TerminatorKind::Assert { cond: Operand::Move(field(3, 1)), target: 2, cleanup: None },
      span: sum,
    },
  };
  let bb2 = BasicBlockData {
    statements: vec![stmt(StatementKind::Assign(local(0), Rvalue::Use(Operand::Move(field(3, 0)))), sum)],
    terminator: Terminator { kind: TerminatorKind::Return, span: block },
  };
  let body = Body {
    basic_blocks: vec![bb0, bb1, bb2],
    local_tys: vec![
      Ty::Prim,
      Ty::Ref { region: Some(1), mutability: Mutability::Mut, inner: Box::new(Ty::Prim) },
      Ty::Tuple(vec![Ty::Prim, Ty::Prim]),
      Ty::Tuple(vec![Ty::Prim, Ty::Prim]),
      Ty::Prim,
    ],
    local_spans: vec![ret_ty, x_decl, incr, sum, sum_lhs],
    arg_count: 1,
    var_debug_info: vec![local(1)],
  };
  let spanner = HirSpanner {
    expr_spans: vec![block, incr, incr_lhs, one_a, sum, sum_lhs, one_b],
    stmt_spans: vec![incr_stmt],
  };
  (body, spanner, incr, sum)
}

fn foo_results() -> (FlowResults, HirSpanner, Span, Span) {
  let (body, spanner, incr, sum) = foo_body();
  let results = compute_flow(body, &vec![], no_control_dependencies(3));
  (results, spanner, incr, sum)
}

fn foo_effects() -> Result<EffectsOutput, EffectsError> {
  let (results, spanner, _, _) = foo_results();
  let body_span = Span { lo: FOO_SRC.find('{').unwrap(), hi: FOO_SRC.find('}').unwrap() + 1 };
  results.analyze_effects(&spanner, &file(), FOO_SRC, false, body_span, "foo".to_string())
}

#[test]
fn foo() {
  let _src = r#"
fn foo(x: &mut i32) -> i32 {
  *x += 1;
  *x + 1  
}

fn main() {}
"#;

  foo_effects().unwrap();
}

#[test]
fn effects_of_increment() {
  let out = foo_effects().unwrap();
  let (_, _, incr, sum) = foo_results();

  // one mutated argument, named by its declaration, with the increment as its effect
  assert_eq!(out.args_effects.len(), 1);
  assert_eq!(out.args_effects[0].0, "x");
  assert_eq!(out.args_effects[0].1.len(), 1);
  let arg_effect = &out.args_effects[0].1[0];
  assert_eq!((arg_effect.effect.start, arg_effect.effect.end), (incr.lo, incr.hi));

  // the returned value is the other effect
  assert_eq!(out.return_effects.len(), 1);
  let ret = &out.return_effects[0];
  assert_eq!((ret.effect.start, ret.effect.end), (sum.lo, sum.hi));

  // the return value depends on the increment
  assert!(ret.slice.iter().any(|r| (r.start, r.end) == (incr.lo, incr.hi)));
  assert_eq!(out.fn_name, "foo");
  assert_eq!(out.body_span.filename, "main.rs");
}

#[test]
fn effects_body_outside_local_file() {
  let (results, spanner, _, _) = foo_results();
  let other = SourceFile { name: FileName::Other("<macro>".to_string()), start_pos: 0 };
  let r = results.analyze_effects(&spanner, &other, FOO_SRC, false, Span { lo: 0, hi: 1 }, "foo".to_string());
  assert!(matches!(r, Err(EffectsError::UnsupportedFile)));
}

#[test]
fn effects_argument_without_source_text() {
  let (results, spanner, _, _) = foo_results();
  // the source text is too short to hold the declaration of `x`
  let r = results.analyze_effects(&spanner, &file(), "fn", false, Span { lo: 0, hi: 1 }, "foo".to_string());
  assert!(matches!(r, Err(EffectsError::UnnamedArgument)));
}

fn range(start: usize, end: usize) -> Range {
  Range { start, end, filename: "main.rs".to_string() }
}

#[test]
fn unique_ranges_drop_shared_code() {
  let slices = vec![vec![range(0, 5), range(10, 12)], vec![range(3, 4), range(20, 25)], vec![range(12, 15)]];
  let u = unique_slices(&slices);
  let pos = |v: &Vec<Range>| v.iter().map(|r| (r.start, r.end)).collect::<Vec<_>>();
  // 0..5 overlaps 3..4; 10..12 ends where 12..15 starts, so they do not overlap
  assert_eq!(pos(&u[0]), vec![(10, 12)]);
  assert_eq!(pos(&u[1]), vec![(20, 25)]);
  assert_eq!(pos(&u[2]), vec![(12, 15)]);
}

#[test]
fn argument_names_follow_projections() {
  let names = AdtNames { variants: vec!["A".to_string(), "B".to_string()], fields: vec!["a".to_string(), "b".to_string()] };
  let pair = Ty::Tuple(vec![Ty::Prim, Ty::Prim]);
  let adt = Ty::Adt { kind: AdtKind::Enum, variants: vec![vec![Ty::Prim], vec![Ty::Prim]], args: vec![], names };
  let body = Body {
    basic_blocks: vec![],
    local_tys: vec![Ty::Prim, Ty::Tuple(vec![pair, adt])],
    local_spans: vec![Span { lo: 0, hi: 0 }, Span { lo: 3, hi: 6 }],
    arg_count: 1,
    var_debug_info: vec![],
  };
  let src = "fn arg(arg: T) {}";
  let p = Place { local: 1, projection: vec![ProjElem::Field(1), ProjElem::Downcast(1), ProjElem::Field(1)] };
  let (name, order) = arg_name(&body, src, 0, false, &p).unwrap();
  assert_eq!(name, "arg.1 as B.b");
  assert_eq!(order, vec![1, 1, 0, 1]);
  let q = Place { local: 1, projection: vec![ProjElem::Field(0), ProjElem::Field(1)] };
  let (name, _) = arg_name(&body, src, 0, true, &q).unwrap();
  assert_eq!(name, "self.0.1");
  let s = Place { local: 1, projection: vec![ProjElem::Field(0), ProjElem::Subslice { from: 2, to: 13, from_end: false }] };
  assert_eq!(arg_name(&body, src, 0, false, &s).unwrap().0, "arg.0[2..13]");
  // a field the type does not have cannot be named
  let t = Place { local: 1, projection: vec![ProjElem::Field(1), ProjElem::Field(5)] };
  assert!(arg_name(&body, src, 0, false, &t).is_none());
}

#[test]
fn qpath_picks_the_last_matching_body() {
  let bodies = vec![
    ("::foo".to_string(), Span { lo: 1, hi: 2 }),
    ("::bar::foo".to_string(), Span { lo: 3, hi: 4 }),
    ("::foo".to_string(), Span { lo: 5, hi: 6 }),
  ];
  assert_eq!(qpath_to_span(&bodies, &"foo".to_string()).unwrap(), Span { lo: 5, hi: 6 });
  assert_eq!(qpath_to_span(&bodies, &"bar::foo".to_string()).unwrap(), Span { lo: 3, hi: 4 });
  assert_eq!(qpath_to_span(&bodies, &"baz".to_string()), Err(IdentifierError::NoFunction));
  let id = FunctionIdentifier::Range(range(7, 9));
  let f = SourceFile { name: FileName::Real("main.rs".to_string()), start_pos: 100 };
  assert_eq!(id.to_span(&bodies, &f).unwrap(), Span { lo: 107, hi: 109 });
}
