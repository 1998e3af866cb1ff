use flowistry::body::{BasicBlockData, Body, Rvalue, Span, Statement, StatementKind, Terminator, TerminatorKind};
use flowistry::calls::{decide_recursion, Callee, LocalFn, Recursion};
use flowistry::config::{ContextMode, EvalMode, MutabilityMode, PointerMode};
use flowistry::driver::{analysis_wanted, arg_value};
use flowistry::flow::domain_index;
use flowistry::indexed::IndexSet;
use flowistry::loans::conservative_constraints_of;
use flowistry::mir::{Location, Mutability, Operand, Place, ProjElem};
use flowistry::program::{FunctionInput, ProgramAnalysis};
use flowistry::ty::{ClosureKind, Ty};

fn local(l: usize) -> Place {
  Place { local: l, projection: vec![] }
}

fn deref(l: usize) -> Place {
  Place { local: l, projection: vec![ProjElem::Deref] }
}

fn span() -> Span {
  Span { lo: 0, hi: 0 }
}

fn assign(p: Place, rv: Rvalue) -> Statement {
  Statement { kind: StatementKind::Assign(p, rv), span: span() }
}

fn no_control_dependencies(n: usize) -> Vec<IndexSet> {
  (0..n).map(|_| IndexSet::new(n)).collect()
}

fn mut_ref(region: usize) -> Ty {
  Ty::Ref { region: Some(region), mutability: Mutability::Mut, inner: Box::new(Ty::Prim) }
}

/// `fn other(x: &mut i32) -> i32 { *x }`
fn other() -> FunctionInput {
  let bb0 = BasicBlockData {
    statements: vec![assign(local(0), Rvalue::Use(Operand::Copy(deref(1))))],
    terminator: Terminator { kind: TerminatorKind::Return, span: span() },
  };
  let body = Body {
    basic_blocks: vec![bb0],
    local_tys: vec![Ty::Prim, mut_ref(1)],
    local_spans: vec![span(); 2],
    arg_count: 1,
    var_debug_info: vec![local(1)],
  };
  FunctionInput {
    body,
    constraints: vec![],
    control_dependencies: no_control_dependencies(1),
    callees: vec![Callee::Unknown],
  }
}

/// `fn main() { let mut x = 1; let y = other(&mut x); x; }`, whose call
/// invokes `callee`.
fn main_fn(callee: Callee) -> FunctionInput {
  let bb0 = BasicBlockData {
    statements: vec![
      assign(local(1), Rvalue::Use(Operand::Constant)),
      Statement { kind: StatementKind::FakeRead(local(1)), span: span() },
      assign(local(4), Rvalue::Ref { region: 5, mutability: Mutability::Mut, place: local(1) }),
      assign(local(3), Rvalue::Ref { region: 6, mutability: Mutability::Mut, place: deref(4) }),
    ],
    terminator: Terminator {
      kind: TerminatorKind::Call { args: vec![Operand::Move(local(3))], destination: Some((local(2), 1)), cleanup: None },
      span: span(),
    },
  };
  let bb1 = BasicBlockData {
    statements: vec![
      Statement { kind: StatementKind::FakeRead(local(2)), span: span() },
      assign(local(5), Rvalue::Use(Operand::Copy(local(1)))),
      assign(local(0), Rvalue::Use(Operand::Constant)),
    ],
    terminator: Terminator { kind: TerminatorKind::Return, span: span() },
  };
  let body = Body {
    basic_blocks: vec![bb0, bb1],
    local_tys: vec![Ty::Tuple(vec![]), Ty::Prim, Ty::Prim, mut_ref(3), mut_ref(4), Ty::Prim],
    local_spans: vec![span(); 6],
    arg_count: 0,
    var_debug_info: vec![local(1), local(2)],
  };
  FunctionInput {
    body,
    constraints: vec![(5, 4), (4, 6), (6, 3)],
    control_dependencies: no_control_dependencies(2),
    callees: vec![callee, Callee::Unknown],
  }
}

fn local_other() -> Callee {
  Callee::FnDef { returns_never: false, local: Some(LocalFn { body: Some(1), has_unsafe_blocks: false }) }
}

fn mode(context_mode: ContextMode) -> Option<EvalMode> {
  Some(EvalMode { mutability_mode: MutabilityMode::DistinguishMut, context_mode, pointer_mode: PointerMode::Precise })
}

/// Whether, after `x;`, `x` depends on the call.
fn x_depends_on_call(context_mode: ContextMode, callee: Callee) -> (bool, bool) {
  let mut p = ProgramAnalysis::new(vec![main_fn(callee), other()], mode(context_mode));
  p.analyze_function(0);
  let results = p.results_of(0).unwrap();
  let a = &results.analysis;
  let x = domain_index(&a.place_domain, &local(1)).unwrap();
  let call = a.location_domain.index(&a.body, Location { block: 0, statement_index: 4 });
  let state = results.state_after(Location { block: 1, statement_index: 1 });
  (state.locations.contains(x, call), p.reached_library)
}

#[test]
fn recursion_sees_the_callee_only_reads() {
  // the signature lets `other` write `x`; its body does not
  assert_eq!(x_depends_on_call(ContextMode::SigOnly, local_other()), (true, false));
  assert_eq!(x_depends_on_call(ContextMode::Recurse, local_other()), (false, false));
}

#[test]
fn recursion_falls_back_to_the_signature() {
  let library = Callee::FnDef { returns_never: false, local: None };
  assert_eq!(x_depends_on_call(ContextMode::Recurse, library), (true, true));
  let unsafe_fn = Callee::FnDef { returns_never: false, local: Some(LocalFn { body: Some(1), has_unsafe_blocks: true }) };
  assert_eq!(x_depends_on_call(ContextMode::Recurse, unsafe_fn), (true, false));
  let diverging = Callee::FnDef { returns_never: true, local: Some(LocalFn { body: Some(1), has_unsafe_blocks: false }) };
  assert_eq!(x_depends_on_call(ContextMode::Recurse, diverging), (true, false));
}

#[test]
fn recursion_return_value_depends_on_argument() {
  let mut p = ProgramAnalysis::new(vec![main_fn(local_other()), other()], mode(ContextMode::Recurse));
  p.analyze_function(0);
  // the callee was analysed on the way, once
  assert!(p.results_of(1).is_some());
  let results = p.results_of(0).unwrap();
  let a = &results.analysis;
  let y = domain_index(&a.place_domain, &local(2)).unwrap();
  let x_init = a.location_domain.index(&a.body, Location { block: 0, statement_index: 0 });
  let call = a.location_domain.index(&a.body, Location { block: 0, statement_index: 4 });
  let state = results.state_after(Location { block: 1, statement_index: 0 });
  // y = other(&mut x) returns *x: it depends on the call and on x's initialisation
  assert!(state.locations.contains(y, call));
  assert!(state.locations.contains(y, x_init));
}

#[test]
fn recursion_decisions() {
  let decls = vec![Ty::Prim, Ty::Closure { kind: ClosureKind::FnMut, upvars: Box::new(Ty::Tuple(vec![])) }, Ty::Prim];
  let args = vec![Operand::Move(local(2))];
  let with_closure = vec![Operand::Move(local(1))];
  assert_eq!(decide_recursion(&local_other(), &decls, &args, &vec![]), Recursion::Into(1));
  // a body being analysed is not entered again
  assert_eq!(decide_recursion(&local_other(), &decls, &args, &vec![0, 1]), Recursion::No);
  // a closure that mutates its environment is not followed
  assert_eq!(decide_recursion(&local_other(), &decls, &with_closure, &vec![]), Recursion::No);
  assert_eq!(decide_recursion(&Callee::Unknown, &decls, &args, &vec![]), Recursion::No);
  let no_body = Callee::FnDef { returns_never: false, local: Some(LocalFn { body: None, has_unsafe_blocks: false }) };
  assert_eq!(decide_recursion(&no_body, &decls, &args, &vec![]), Recursion::No);
}

#[test]
fn conservative_mode_relates_pointers_of_same_type() {
  let decls = vec![Ty::Tuple(vec![]), mut_ref(1), mut_ref(2), Ty::Ref { region: Some(3), mutability: Mutability::Not, inner: Box::new(Ty::Tuple(vec![])) }];
  let cs = conservative_constraints_of(&decls);
  assert_eq!(cs, vec![(1, 2), (2, 1)]);
}

#[test]
fn option_values() {
  let args: Vec<String> = vec!["rustc", "--sysroot=/a", "--edition", "2018", "--sysroot", "/b"].into_iter().map(String::from).collect();
  let any = |_: &str| true;
  assert_eq!(arg_value(&args, "--sysroot", any), Some("/a".to_string()));
  assert_eq!(arg_value(&args, "--edition", any), Some("2018".to_string()));
  assert_eq!(arg_value(&args, "--crate-name", any), None);
  let last: Vec<String> = vec!["--sysroot".to_string()];
  assert_eq!(arg_value(&last, "--sysroot", any), None);
}

#[test]
fn option_values_skip_rejected_candidates() {
  let args: Vec<String> = vec!["--sysroot=rel", "--sysroot", "/abs"].into_iter().map(String::from).collect();
  assert_eq!(arg_value(&args, "--sysroot", |v: &str| v.starts_with('/')), Some("/abs".to_string()));
  assert_eq!(arg_value(&args, "--sysroot", |v: &str| v.starts_with('x')), None);
  // a value taken by `--sysroot` is not itself looked at as an option
  let args: Vec<String> = vec!["--sysroot", "--sysroot=/inner", "--sysroot-dir=/x"].into_iter().map(String::from).collect();
  assert_eq!(arg_value(&args, "--sysroot", |v: &str| v.starts_with('/')), None);
  assert_eq!(arg_value(&args, "--sysroot", |_: &str| true), Some("--sysroot=/inner".to_string()));
}

#[test]
fn analysis_wanted_when_a_location_is_inside() {
  let item = Span { lo: 10, hi: 20 };
  assert!(analysis_wanted(item, &vec![Span { lo: 0, hi: 5 }, Span { lo: 12, hi: 14 }], false));
  assert!(!analysis_wanted(item, &vec![Span { lo: 12, hi: 14 }], true));
  assert!(!analysis_wanted(item, &vec![Span { lo: 15, hi: 25 }], false));
}

#[test]
fn a_function_is_analysed_once() {
  let mut p = ProgramAnalysis::new(vec![main_fn(local_other()), other()], mode(ContextMode::Recurse));
  p.analyze_function(1);
  let places = p.results_of(1).unwrap().analysis.place_domain.len();
  let locations = p.results_of(1).unwrap().analysis.location_domain.len();
  p.analyze_function(0);
  p.analyze_function(1);
  p.analyze_function(0);
  // the callee's results are those computed first
  assert_eq!(p.results_of(1).unwrap().analysis.place_domain.len(), places);
  assert_eq!(p.results_of(1).unwrap().analysis.location_domain.len(), locations);
  assert!(!p.reached_library);
}
