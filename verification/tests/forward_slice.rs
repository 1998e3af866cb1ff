use std::collections::{HashMap, HashSet};

use flowistry::body::{BasicBlockData, Body, Rvalue, Span, Statement, StatementKind, Terminator, TerminatorKind};
use flowistry::config::{FileName, Range, SourceFile};
use flowistry::dependencies::Direction;
use flowistry::indexed::IndexSet;
use flowistry::mir::{Mutability, Operand, Place, ProjElem};
use flowistry::slicing::{compute_flow, slice};
use flowistry::spans::HirSpanner;
use flowistry::ty::Ty;

const FILENAME: &str = "main.rs";

/// Strips the range markers from a program: returns the clean program and,
/// for each opening marker, the ranges it delimits in the clean program.
fn parse_ranges(
  prog: &str,
  delimiters: Vec<(&'static str, &'static str)>,
) -> Result<(String, HashMap<&'static str, Vec<Range>>), String> {
  let mut in_idx = 0;
  let mut out_idx = 0;
  let mut buf = Vec::new();
  let bytes = prog.bytes().collect::<Vec<_>>();
  let mut stack: Vec<(usize, &'static str)> = vec![];

  let (opens, closes): (Vec<_>, Vec<_>) = delimiters.into_iter().unzip();
  let mut ranges: HashMap<&'static str, Vec<Range>> = HashMap::new();

  let check_token = |tokens: &Vec<&'static str>, in_idx: usize| -> Option<&'static str> {
    tokens
      .iter()
      .find(|t| in_idx + t.len() <= bytes.len() && t.as_bytes() == &bytes[in_idx..in_idx + t.len()])
      .map(|t| *t)
  };

  while in_idx < bytes.len() {
    if let Some(open) = check_token(&opens, in_idx) {
      stack.push((out_idx, open));
      in_idx += open.len();
      continue;
    }

    if let Some(close) = check_token(&closes, in_idx) {
      let (start, delim) = stack
        .pop()
        .ok_or_else(|| format!("Missing open delimiter for \"{}\"", close))?;
      ranges.entry(delim).or_insert_with(Vec::new).push(Range {
        start,
        end: out_idx,
        filename: FILENAME.to_owned(),
      });
      in_idx += close.len();
      continue;
    }

    buf.push(bytes[in_idx]);
    in_idx += 1;
    out_idx += 1;
  }

  if stack.len() > 0 {
    return Err(format!("Unclosed delimiters: {:?}", stack));
  }

  let prog_clean = String::from_utf8(buf).map_err(|e| e.to_string())?;
  Ok((prog_clean, ranges))
}

/// The span of the `nth` occurrence of `needle` in the line that contains `line`.
fn span_in(prog: &str, line: &str, needle: &str, nth: usize) -> Span {
  let line_start = prog.find(line).expect("line not found");
  let line_text = &prog[line_start..line_start + line.len()];
  let mut from = 0;
  let mut found = 0;
  loop {
    let pos = line_text[from..].find(needle).expect("needle not found") + from;
    if found == nth {
      return Span { lo: line_start + pos, hi: line_start + pos + needle.len() };
    }
    found += 1;
    from = pos + 1;
  }
}

fn body_span(prog: &str) -> Span {
  let lo = prog.find('{').unwrap();
  let hi = prog.rfind('}').unwrap() + 1;
  Span { lo, hi }
}

fn closing_brace(prog: &str) -> Span {
  let lo = prog.rfind('}').unwrap();
  Span { lo, hi: lo + 1 }
}

fn local(l: usize) -> Place {
  Place { local: l, projection: vec![] }
}

fn field(l: usize, f: usize) -> Place {
  Place { local: l, projection: vec![ProjElem::Field(f)] }
}

fn deref(l: usize) -> Place {
  Place { local: l, projection: vec![ProjElem::Deref] }
}

fn assign(p: Place, rv: Rvalue, span: Span) -> Statement {
  Statement { kind: StatementKind::Assign(p, rv), span }
}

fn fake_read(p: Place, span: Span) -> Statement {
  Statement { kind: StatementKind::FakeRead(p), span }
}

fn unit() -> Ty {
  Ty::Tuple(vec![])
}

fn checked_result() -> Ty {
  Ty::Tuple(vec![Ty::Prim, Ty::Prim])
}

fn no_control_dependencies(n: usize) -> Vec<IndexSet> {
  (0..n).map(|_| IndexSet::new(n)).collect()
}

fn file() -> SourceFile {
  SourceFile { name: FileName::Real(FILENAME.to_owned()), start_pos: 0 }
}

/// Runs a forward slice from `selection` and checks that its ranges, with
/// the selection, are exactly the `expected` ones.
fn check_forward_slice(
  body: Body,
  constraints: Vec<(usize, usize)>,
  spanner: HirSpanner,
  selection: &Range,
  expected: Vec<Range>,
) {
  let n = body.basic_blocks.len();
  let results = compute_flow(body, &constraints, no_control_dependencies(n));
  let output = slice(
    &results,
    Span { lo: selection.start, hi: selection.end },
    Direction::Forward,
    &spanner,
    &file(),
  );
  let mut expected = expected
    .into_iter()
    .map(|r| (r.start, r.end, r.filename))
    .collect::<HashSet<_>>();
  expected.insert((selection.start, selection.end, selection.filename.clone()));
  let actual = output
    .ranges()
    .iter()
    .map(|r| (r.start, r.end, r.filename.clone()))
    .collect::<HashSet<_>>();
  assert_eq!(actual, expected);
}

fn parse(src: &str) -> (String, Range, Vec<Range>) {
  let (prog, ranges) = parse_ranges(src, vec![("`[", "]`"), ("`(", ")`")]).unwrap();
  let selection = ranges["`("][0].clone();
  let expected = ranges["`["].clone();
  (prog, selection, expected)
}

/// `let mut x = 1; let y = x + 2; let z = y;`
fn arithmetic_body(prog: &str) -> (Body, HirSpanner) {
  let l2 = "let mut x = 1;";
  let l3 = "let y = x + 2;";
  let l4 = "let z = y;";
  let one = span_in(prog, l2, "1", 0);
  let mut_x = span_in(prog, l2, "mut x", 0);
  let x_op = span_in(prog, l3, "x", 0);
  let sum = span_in(prog, l3, "x + 2", 0);
  let two = span_in(prog, l3, "2", 0);
  let y_decl = span_in(prog, l3, "y", 0);
  let y_rhs = span_in(prog, l4, "y", 0);
  let z_decl = span_in(prog, l4, "z", 0);

  let bb0 = BasicBlockData {
    statements: vec![
      assign(local(1), Rvalue::Use(Operand::Constant), one),
      fake_read(local(1), mut_x),
      assign(local(3), Rvalue::Use(Operand::Copy(local(1))), x_op),
      assign(local(4), Rvalue::Other(vec![Operand::Move(local(3)), Operand::Constant]), sum),
    ],
    terminator: Terminator {
      kind: TerminatorKind::Assert { cond: Operand::Move(field(4, 1)), target: 1, cleanup: None },
      span: sum,
    },
  };
  let bb1 = BasicBlockData {
    statements: vec![
      assign(local(2), Rvalue::Use(Operand::Move(field(4, 0))), sum),
      fake_read(local(2), y_decl),
      assign(local(5), Rvalue::Use(Operand::Copy(local(2))), y_rhs),
      fake_read(local(5), z_decl),
      assign(local(0), Rvalue::Use(Operand::Constant), body_span(prog)),
    ],
    terminator: Terminator { kind: TerminatorKind::Return, span: closing_brace(prog) },
  };
  let body = Body {
    basic_blocks: vec![bb0, bb1],
    local_tys: vec![unit(), Ty::Prim, Ty::Prim, Ty::Prim, checked_result(), Ty::Prim],
    local_spans: vec![body_span(prog), mut_x, y_decl, x_op, sum, z_decl],
    arg_count: 0,
    var_debug_info: vec![local(1), local(2), local(5)],
  };
  let stmt = |line: &str| span_in(prog, line, line, 0);
  let spanner = HirSpanner {
    expr_spans: vec![body_span(prog), one, sum, x_op, two, y_rhs],
    stmt_spans: vec![stmt(l2), stmt(l3), stmt(l4)],
  };
  (body, spanner)
}

#[test]
fn basic_slice_constant() {
  let src = r#"
fn main() {
  let `[mut x]` = `(1)`;
  let `[y]` = `[`[x]` + 2]`;
  let `[z]` = `[y]`;
}
"#;

  let (prog, selection, expected) = parse(src);
  let (body, spanner) = arithmetic_body(&prog);
  check_forward_slice(body, vec![], spanner, &selection, expected);
}

#[test]
fn basic_slice_variable() {
  let src = r#"
fn main() {
  let `(mut x)` = `[1]`;
  let `[y]` = `[`[x]` + 2]`;
  let `[z]` = `[y]`;
}
"#;

  let (prog, selection, expected) = parse(src);
  let (body, spanner) = arithmetic_body(&prog);
  check_forward_slice(body, vec![], spanner, &selection, expected);
}

#[test]
fn basic_unused() {
  let src = r#"
fn main() {
  let `(x)` = `[1]`;
  let y = 1 + 2;
  let `[z]` = `[`[x]` + y]`;
}
"#;

  let (prog, selection, expected) = parse(src);
  let l2 = "let x = 1;";
  let l3 = "let y = 1 + 2;";
  let l4 = "let z = x + y;";
  let one = span_in(&prog, l2, "1", 0);
  let x_decl = span_in(&prog, l2, "x", 0);
  let y_init = span_in(&prog, l3, "1 + 2", 0);
  let y_decl = span_in(&prog, l3, "y", 0);
  let x_op = span_in(&prog, l4, "x", 0);
  let y_op = span_in(&prog, l4, "y", 0);
  let sum = span_in(&prog, l4, "x + y", 0);
  let z_decl = span_in(&prog, l4, "z", 0);

  // _1 = x, _2 = y, _3 = (1 + 2) checked, _4 = z, _5 = copy of x, _6 = copy of y, _7 = (x + y) checked
  let bb0 = BasicBlockData {
    statements: vec![
      assign(local(1), Rvalue::Use(Operand::Constant), one),
      fake_read(local(1), x_decl),
      assign(local(3), Rvalue::Other(vec![Operand::Constant, Operand::Constant]), y_init),
    ],
    terminator: Terminator {
      kind: TerminatorKind::Assert { cond: Operand::Move(field(3, 1)), target: 1, cleanup: None },
      span: y_init,
    },
  };
  let bb1 = BasicBlockData {
    statements: vec![
      assign(local(2), Rvalue::Use(Operand::Move(field(3, 0))), y_init),
      fake_read(local(2), y_decl),
      assign(local(5), Rvalue::Use(Operand::Copy(local(1))), x_op),
      assign(local(6), Rvalue::Use(Operand::Copy(local(2))), y_op),
      assign(local(7), Rvalue::Other(vec![Operand::Move(local(5)), Operand::Move(local(6))]), sum),
    ],
    terminator: Terminator {
      kind: TerminatorKind::Assert { cond: Operand::Move(field(7, 1)), target: 2, cleanup: None },
      span: sum,
    },
  };
  let bb2 = BasicBlockData {
    statements: vec![
      assign(local(4), Rvalue::Use(Operand::Move(field(7, 0))), sum),
      fake_read(local(4), z_decl),
      assign(local(0), Rvalue::Use(Operand::Constant), body_span(&prog)),
    ],
    terminator: Terminator { kind: TerminatorKind::Return, span: closing_brace(&prog) },
  };
  let body = Body {
    basic_blocks: vec![bb0, bb1, bb2],
    local_tys: vec![unit(), Ty::Prim, Ty::Prim, checked_result(), Ty::Prim, Ty::Prim, Ty::Prim, checked_result()],
    local_spans: vec![body_span(&prog), x_decl, y_decl, y_init, z_decl, x_op, y_op, sum],
    arg_count: 0,
    var_debug_info: vec![local(1), local(2), local(4)],
  };
  let stmt = |line: &str| span_in(&prog, line, line, 0);
  let spanner = HirSpanner {
    expr_spans: vec![
      body_span(&prog),
      one,
      y_init,
      span_in(&prog, l3, "1", 0),
      span_in(&prog, l3, "2", 0),
      sum,
      x_op,
      y_op,
    ],
    stmt_spans: vec![stmt(l2), stmt(l3), stmt(l4)],
  };
  check_forward_slice(body, vec![], spanner, &selection, expected);
}

#[test]
fn forward_slice_pointer_write() {
  let src = r#"
fn main() {
  let `(mut x)` = `[1]`;
  let `[y]` = `[&mut x]`;
  `[*y += 2]`;
}
"#;

  let (prog, selection, expected) = parse(src);
  let l2 = "let mut x = 1;";
  let l3 = "let y = &mut x;";
  let l4 = "*y += 2;";
  let one = span_in(&prog, l2, "1", 0);
  let mut_x = span_in(&prog, l2, "mut x", 0);
  let borrow = span_in(&prog, l3, "&mut x", 0);
  let y_decl = span_in(&prog, l3, "y", 0);
  let update = span_in(&prog, l4, "*y += 2", 0);

  // _1 = x, _2 = y: &'1 mut i32, _3 = (*y + 2) checked; the borrow has region 2,
  // which flows into region 1
  let bb0 = BasicBlockData {
    statements: vec![
      assign(local(1), Rvalue::Use(Operand::Constant), one),
      fake_read(local(1), mut_x),
      assign(local(2), Rvalue::Ref { region: 2, mutability: Mutability::Mut, place: local(1) }, borrow),
      fake_read(local(2), y_decl),
      assign(local(3), Rvalue::Other(vec![Operand::Copy(deref(2)), Operand::Constant]), update),
    ],
    terminator: Terminator {
      kind: TerminatorKind::Assert { cond: Operand::Move(field(3, 1)), target: 1, cleanup: None },
      span: update,
    },
  };
  let bb1 = BasicBlockData {
    statements: vec![
      assign(deref(2), Rvalue::Use(Operand::Move(field(3, 0))), update),
      assign(local(0), Rvalue::Use(Operand::Constant), body_span(&prog)),
    ],
    terminator: Terminator { kind: TerminatorKind::Return, span: closing_brace(&prog) },
  };
  let body = Body {
    basic_blocks: vec![bb0, bb1],
    local_tys: vec![
      unit(),
      Ty::Prim,
      Ty::Ref { region: Some(1), mutability: Mutability::Mut, inner: Box::new(Ty::Prim) },
      checked_result(),
    ],
    local_spans: vec![body_span(&prog), mut_x, y_decl, update],
    arg_count: 0,
    var_debug_info: vec![local(1), local(2)],
  };
  let stmt = |line: &str| span_in(&prog, line, line, 0);
  let spanner = HirSpanner {
    expr_spans: vec![
      body_span(&prog),
      one,
      borrow,
      span_in(&prog, l3, "x", 0),
      update,
      span_in(&prog, l4, "*y", 0),
      span_in(&prog, l4, "y", 0),
      span_in(&prog, l4, "2", 0),
    ],
    stmt_spans: vec![stmt(l2), stmt(l3), stmt(l4)],
  };
  check_forward_slice(body, vec![(2, 1)], spanner, &selection, expected);
}
