use flowistry::body::{simplify_mir, BasicBlockData, Body, Rvalue, Span, Statement, StatementKind, Terminator, TerminatorKind};
use flowistry::flow::domain_index;
use flowistry::indexed::IndexSet;
use flowistry::mir::{Location, Operand, Place, ProjElem};
use flowistry::slicing::compute_flow;
use flowistry::ty::Ty;

fn local(l: usize) -> Place {
  Place { local: l, projection: vec![] }
}

fn field(l: usize, f: usize) -> Place {
  Place { local: l, projection: vec![ProjElem::Field(f)] }
}

fn span(lo: usize, hi: usize) -> Span {
  Span { lo, hi }
}

fn assign(p: Place, rv: Rvalue) -> Statement {
  Statement { kind: StatementKind::Assign(p, rv), span: span(0, 0) }
}

fn fake_read(p: Place) -> Statement {
  Statement { kind: StatementKind::FakeRead(p), span: span(0, 0) }
}

fn no_control_dependencies(n: usize) -> Vec<IndexSet> {
  (0..n).map(|_| IndexSet::new(n)).collect()
}

/// The body of `let mut x = 1; let y = 2; x += y;`.
fn add_assign_body() -> Body {
  let bb0 = BasicBlockData {
    statements: vec![
      assign(local(1), Rvalue::Use(Operand::Constant)),
      fake_read(local(1)),
      assign(local(2), Rvalue::Use(Operand::Constant)),
      fake_read(local(2)),
      assign(local(3), Rvalue::Use(Operand::Copy(local(2)))),
      assign(local(4), Rvalue::Other(vec![Operand::Copy(local(1)), Operand::Move(local(3))])),
    ],
    terminator: Terminator {
      kind: TerminatorKind::Assert { cond: Operand::Move(field(4, 1)), target: 1, cleanup: None },
      span: span(0, 0),
    },
  };
  let bb1 = BasicBlockData {
    statements: vec![
      assign(local(1), Rvalue::Use(Operand::Move(field(4, 0)))),
      assign(local(0), Rvalue::Use(Operand::Constant)),
    ],
    terminator: Terminator { kind: TerminatorKind::Return, span: span(0, 0) },
  };
  Body {
    basic_blocks: vec![bb0, bb1],
    local_tys: vec![Ty::Tuple(vec![]), Ty::Prim, Ty::Prim, Ty::Prim, Ty::Tuple(vec![Ty::Prim, Ty::Prim])],
    local_spans: vec![span(0, 0); 5],
    arg_count: 0,
    var_debug_info: vec![local(1), local(2)],
  }
}

#[test]
fn foobar() {
  let _src = r#"
fn main() {
  let mut x = 1;
  let y = 2;
  x += y;  
}
"#;

  let body = add_assign_body();
  let results = compute_flow(body, &vec![], no_control_dependencies(2));
  let a = &results.analysis;
  let x = domain_index(&a.place_domain, &local(1)).unwrap();
  let y = domain_index(&a.place_domain, &local(2)).unwrap();
  let x_init = a.location_domain.index(&a.body, Location { block: 0, statement_index: 0 });
  let y_init = a.location_domain.index(&a.body, Location { block: 0, statement_index: 2 });
  let update = a.location_domain.index(&a.body, Location { block: 1, statement_index: 0 });

  // after `x += y`, x depends on both initialisations and on y
  let state = results.state_after(Location { block: 1, statement_index: 0 });
  assert!(state.locations.contains(x, x_init));
  assert!(state.locations.contains(x, y_init));
  assert!(state.locations.contains(x, update));
  assert!(state.places.contains(x, y));

  // y never depends on x
  assert!(!state.locations.contains(y, x_init));
  assert!(!state.places.contains(y, x));
}

#[test]
fn flow_overwrite_kills_old_dependencies() {
  // _1 = const; _1 = const; the second write replaces the dependencies of the first
  let bb0 = BasicBlockData {
    statements: vec![assign(local(1), Rvalue::Use(Operand::Constant)), assign(local(1), Rvalue::Use(Operand::Constant))],
    terminator: Terminator { kind: TerminatorKind::Return, span: span(0, 0) },
  };
  let body = Body {
    basic_blocks: vec![bb0],
    local_tys: vec![Ty::Tuple(vec![]), Ty::Prim],
    local_spans: vec![span(0, 0); 2],
    arg_count: 0,
    var_debug_info: vec![],
  };
  let results = compute_flow(body, &vec![], no_control_dependencies(1));
  let a = &results.analysis;
  let x = domain_index(&a.place_domain, &local(1)).unwrap();
  let first = a.location_domain.index(&a.body, Location { block: 0, statement_index: 0 });
  let second = a.location_domain.index(&a.body, Location { block: 0, statement_index: 1 });
  let state = results.state_after(Location { block: 0, statement_index: 1 });
  assert!(state.locations.contains(x, second));
  assert!(!state.locations.contains(x, first));
  let state = results.state_after(Location { block: 0, statement_index: 0 });
  assert!(state.locations.contains(x, first));
}

#[test]
fn flow_loop_reaches_fixpoint() {
  // bb0: _1 = const; goto bb1
  // bb1: switch on _2 to bb2 or bb3
  // bb2: _2 = _1; goto bb1
  // bb3: return
  let bb0 = BasicBlockData {
    statements: vec![assign(local(1), Rvalue::Use(Operand::Constant)), assign(local(2), Rvalue::Use(Operand::Constant))],
    terminator: Terminator { kind: TerminatorKind::Goto(1), span: span(0, 0) },
  };
  let bb1 = BasicBlockData {
    statements: vec![],
    terminator: Terminator {
      kind: TerminatorKind::SwitchInt { discr: Operand::Copy(local(2)), targets: vec![2, 3] },
      span: span(0, 0),
    },
  };
  let bb2 = BasicBlockData {
    statements: vec![assign(local(2), Rvalue::Use(Operand::Copy(local(1))))],
    terminator: Terminator { kind: TerminatorKind::Goto(1), span: span(0, 0) },
  };
  let bb3 = BasicBlockData {
    statements: vec![],
    terminator: Terminator { kind: TerminatorKind::Return, span: span(0, 0) },
  };
  let body = Body {
    basic_blocks: vec![bb0, bb1, bb2, bb3],
    local_tys: vec![Ty::Tuple(vec![]), Ty::Prim, Ty::Prim],
    local_spans: vec![span(0, 0); 3],
    arg_count: 0,
    var_debug_info: vec![],
  };
  let mut cds = no_control_dependencies(4);
  // bb2 runs only when the switch of bb1 goes there
  cds[2].insert(1);
  let results = compute_flow(body, &vec![], cds);
  let a = &results.analysis;
  let x = domain_index(&a.place_domain, &local(1)).unwrap();
  let y = domain_index(&a.place_domain, &local(2)).unwrap();
  let x_init = a.location_domain.index(&a.body, Location { block: 0, statement_index: 0 });
  let y_init = a.location_domain.index(&a.body, Location { block: 0, statement_index: 1 });
  let switch = a.location_domain.index(&a.body, Location { block: 1, statement_index: 0 });
  let copy = a.location_domain.index(&a.body, Location { block: 2, statement_index: 0 });

  // at the exit, y may come from its initialisation or from the copy in the loop
  let entry = &results.entry_states[3];
  assert!(entry.locations.contains(y, y_init));
  assert!(entry.locations.contains(y, copy));
  assert!(entry.locations.contains(y, x_init));
  // the copy is control-dependent on the switch, which reads y
  assert!(entry.locations.contains(y, switch));
  assert!(entry.places.contains(y, x));
  // x is never written in the loop
  assert!(!entry.locations.contains(x, copy));
}

#[test]
fn simplification_drops_storage_markers_and_false_edges() {
  let marker = |kind: StatementKind| Statement { kind, span: span(0, 0) };
  let bb0 = BasicBlockData {
    statements: vec![
      marker(StatementKind::StorageLive(1)),
      assign(local(1), Rvalue::Use(Operand::Constant)),
      marker(StatementKind::Nop),
      marker(StatementKind::StorageDead(1)),
    ],
    terminator: Terminator { kind: TerminatorKind::FalseEdge { real_target: 1, imaginary_target: 2 }, span: span(3, 4) },
  };
  let bb1 = BasicBlockData {
    statements: vec![],
    terminator: Terminator { kind: TerminatorKind::FalseUnwind { real_target: 2, unwind: Some(1) }, span: span(5, 6) },
  };
  let bb2 = BasicBlockData {
    statements: vec![fake_read(local(1))],
    terminator: Terminator { kind: TerminatorKind::Return, span: span(7, 8) },
  };
  let mut body = Body {
    basic_blocks: vec![bb0, bb1, bb2],
    local_tys: vec![Ty::Tuple(vec![]), Ty::Prim],
    local_spans: vec![span(0, 9), span(1, 2)],
    arg_count: 0,
    var_debug_info: vec![local(1)],
  };
  simplify_mir(&mut body);
  let bbs = &body.basic_blocks;
  assert_eq!(bbs.len(), 3);
  assert_eq!(bbs[0].statements.len(), 2);
  assert!(matches!(bbs[0].statements[0].kind, StatementKind::Assign(..)));
  assert!(matches!(bbs[0].statements[1].kind, StatementKind::Nop));
  assert!(matches!(bbs[0].terminator.kind, TerminatorKind::Goto(1)));
  assert_eq!((bbs[0].terminator.span.lo, bbs[0].terminator.span.hi), (3, 4));
  assert!(matches!(bbs[1].terminator.kind, TerminatorKind::Goto(2)));
  assert_eq!(bbs[2].statements.len(), 1);
  assert!(matches!(bbs[2].terminator.kind, TerminatorKind::Return));
  assert_eq!(body.local_tys.len(), 2);
}
