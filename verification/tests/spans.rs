use flowistry::body::{BasicBlockData, Body, Rvalue, Span, Statement, StatementKind, Terminator, TerminatorKind};
use flowistry::mir::{Operand, Place};
use flowistry::spans::span_to_places;
use flowistry::ty::Ty;

fn local(l: usize) -> Place {
  Place { local: l, projection: vec![] }
}

fn span(lo: usize, hi: usize) -> Span {
  Span { lo, hi }
}

#[test]
fn places_under_a_span_come_location_by_location_once_each() {
  let bb0 = BasicBlockData {
    statements: vec![
      Statement { kind: StatementKind::Assign(local(2), Rvalue::Use(Operand::Copy(local(1)))), span: span(5, 10) },
      Statement { kind: StatementKind::FakeRead(local(2)), span: span(50, 60) },
    ],
    terminator: Terminator { kind: TerminatorKind::Return, span: span(5, 10) },
  };
  let bb1 = BasicBlockData {
    statements: vec![
      Statement { kind: StatementKind::Assign(local(1), Rvalue::Use(Operand::Copy(local(2)))), span: span(3, 4) },
    ],
    terminator: Terminator { kind: TerminatorKind::Return, span: span(50, 60) },
  };
  let body = Body {
    basic_blocks: vec![bb0, bb1],
    local_tys: vec![Ty::Prim, Ty::Prim, Ty::Prim],
    local_spans: vec![span(0, 0), span(1, 2), span(0, 0)],
    arg_count: 1,
    var_debug_info: vec![local(2), local(1)],
  };
  let found: Vec<(usize, usize, usize, usize)> = span_to_places(&body, span(0, 20))
    .iter()
    .map(|(p, l)| (p.local, p.projection.len(), l.block, l.statement_index))
    .collect();
  assert_eq!(found, vec![(2, 0, 0, 0), (1, 0, 0, 0), (1, 0, 1, 0), (2, 0, 1, 0)]);
}
