use flowistry::aliases::conflicts_of;
use flowistry::loans::compute_loans;
use flowistry::maps::hashmap_merge;
use std::collections::HashMap;
use flowistry::body::Span;
use flowistry::config::{
  is_extension_active, Config, ContextMode, EvalMode, FileName, MutabilityMode, PointerMode, Range, RangeError, SourceFile,
};
use flowistry::flow::ToIndex;
use flowistry::indexed::{IndexMatrix, IndexSet};
use flowistry::mir::{place_relation, Mutability, Place, PlaceRelation, ProjElem};
use flowistry::ty::{interior_pointers, Ty};

fn range(start: usize, end: usize, filename: &str) -> Range {
  Range { start, end, filename: filename.to_string() }
}

#[test]
fn substr_takes_the_bytes_of_the_range() {
  let src = "fn main() { let x = 1; }";
  assert_eq!(range(3, 7, "a.rs").substr(src), "main");
  // a range past the end is clipped
  assert_eq!(range(22, 40, "a.rs").substr(src), " }");
  assert_eq!(range(5, 5, "a.rs").substr(src), "");
}

#[test]
fn from_span_is_relative_to_the_file() {
  let file = SourceFile { name: FileName::Real("src/lib.rs".to_string()), start_pos: 100 };
  let r = Range::from_span(Span { lo: 105, hi: 110 }, &file).unwrap();
  assert_eq!((r.start, r.end, r.filename.as_str()), (5, 10, "src/lib.rs"));
  let s = r.to_span(&file);
  assert_eq!(s, Span { lo: 105, hi: 110 });
  let macro_file = SourceFile { name: FileName::Other("<macro>".to_string()), start_pos: 0 };
  assert_eq!(Range::from_span(Span { lo: 1, hi: 2 }, &macro_file).unwrap_err(), RangeError::UnsupportedFile);
}

#[test]
fn source_file_matches_path_suffixes() {
  let files = vec![
    SourceFile { name: FileName::Other("<macro>".to_string()), start_pos: 0 },
    SourceFile { name: FileName::Real("lib.rs".to_string()), start_pos: 10 },
    SourceFile { name: FileName::Real("src/main.rs".to_string()), start_pos: 20 },
  ];
  assert_eq!(range(0, 1, "/home/me/proj/src/main.rs").source_file(&files), Ok(2));
  assert_eq!(range(0, 1, "/home/me/proj/src/lib.rs").source_file(&files), Ok(1));
  // whole components only: "mylib.rs" does not end with "lib.rs"
  assert_eq!(range(0, 1, "/home/me/mylib.rs").source_file(&files), Err(RangeError::NoSourceFile));
}

#[test]
fn default_modes() {
  let m = EvalMode::default();
  assert_eq!(m.mutability_mode, MutabilityMode::DistinguishMut);
  assert_eq!(m.context_mode, ContextMode::SigOnly);
  assert_eq!(m.pointer_mode, PointerMode::Precise);
  let c = Config::default();
  assert_eq!((c.range.start, c.range.end, c.range.filename.as_str()), (0, 0, ""));
  assert!(!c.debug);
  assert_eq!(c.eval_mode, m);
  assert_eq!(c.local, None);
}

#[test]
fn extensions_need_a_mode() {
  let recurse = EvalMode { context_mode: ContextMode::Recurse, ..EvalMode::default() };
  assert!(!is_extension_active(None, |m: EvalMode| m.context_mode == ContextMode::Recurse));
  assert!(is_extension_active(Some(recurse), |m: EvalMode| m.context_mode == ContextMode::Recurse));
  assert!(!is_extension_active(Some(EvalMode::default()), |m: EvalMode| m.context_mode == ContextMode::Recurse));
}

fn place(local: usize, projection: Vec<ProjElem>) -> Place {
  Place { local, projection }
}

#[test]
fn place_relations() {
  let x = place(1, vec![]);
  let x0 = place(1, vec![ProjElem::Field(0)]);
  let x1 = place(1, vec![ProjElem::Field(1)]);
  let xd = place(1, vec![ProjElem::Deref]);
  let y = place(2, vec![]);
  assert_eq!(PlaceRelation::of(&x0, &x), PlaceRelation::Sub);
  assert_eq!(PlaceRelation::of(&x, &x0), PlaceRelation::Super);
  assert_eq!(PlaceRelation::of(&x, &x), PlaceRelation::Sub);
  assert_eq!(PlaceRelation::of(&x0, &x1), PlaceRelation::Disjoint);
  assert_eq!(PlaceRelation::of(&x, &y), PlaceRelation::Disjoint);
  // what lies behind a pointer is not part of the pointer
  assert_eq!(PlaceRelation::of(&xd, &x), PlaceRelation::Disjoint);
  assert!(place_relation(&x0, &x).overlaps());
  assert!(!PlaceRelation::Disjoint.overlaps());
}

#[test]
fn index_sets() {
  let mut a = IndexSet::new(8);
  assert!(a.insert(3));
  assert!(!a.insert(3));
  assert!(a.insert(5));
  let mut b = IndexSet::new(8);
  b.insert(5);
  b.insert(6);
  assert!(a.union(&b));
  assert_eq!(a.indices(), vec![3, 5, 6]);
  // joining again adds nothing
  assert!(!a.join(&b));
  assert_eq!(a.len(), 3);
  assert!(a.is_superset(&b));
  assert!(a.intersect(&b));
  assert_eq!(a.indices(), vec![5, 6]);
  assert!(a.subtract(&b));
  assert_eq!(a.len(), 0);
}

#[test]
fn index_matrices() {
  let mut m = IndexMatrix::new(4);
  assert!(m.insert(2, 1));
  assert!(!m.insert(2, 1));
  assert!(m.contains(2, 1));
  assert!(!m.contains(0, 1));
  let mut other = IndexMatrix::new(4);
  other.insert(0, 3);
  other.insert(2, 2);
  assert!(m.join(&other));
  assert_eq!(m.row_indices(2), vec![1, 2]);
  assert_eq!(m.row_indices(0), vec![3]);
  assert!(!m.join(&other));
  m.clear_row(2);
  assert_eq!(m.row_indices(2), Vec::<usize>::new());
}

#[test]
fn places_and_indices_name_domain_entries() {
  let domain = vec![place(1, vec![]), place(1, vec![ProjElem::Index(0)])];
  // any index is looked up by its normal form
  assert_eq!(place(1, vec![ProjElem::Index(7)]).to_index(&domain), Some(1));
  assert_eq!(place(2, vec![]).to_index(&domain), None);
  assert_eq!(1usize.to_index(&domain), Some(1));
  assert_eq!(2usize.to_index(&domain), None);
}

#[test]
fn conflicts_list_contained_then_containing_places() {
  // domain: _1, _1.0, (*_1.0), _2; the aliases of the place are _1.0
  let domain = vec![
    place(1, vec![]),
    place(1, vec![ProjElem::Field(0)]),
    place(1, vec![ProjElem::Field(0), ProjElem::Deref]),
    place(2, vec![]),
  ];
  let c = conflicts_of(&domain, &vec![place(1, vec![ProjElem::Field(0)])]);
  assert!(c.single_pointee);
  // _1.0 lies inside it and _1 contains it; (*_1.0) is behind a
  // dereference and _2 is another local
  assert_eq!(c.iter(), vec![1, 0]);
}

#[test]
fn references_in_tuple_fields_count_their_own_sharedness() {
  // _1: (&'3 i32, &'4 mut &'5 i32)
  let shared = Ty::Ref { region: Some(3), mutability: Mutability::Not, inner: Box::new(Ty::Prim) };
  let inner = Ty::Ref { region: Some(5), mutability: Mutability::Not, inner: Box::new(Ty::Prim) };
  let nested = Ty::Ref { region: Some(4), mutability: Mutability::Mut, inner: Box::new(inner) };
  let decls = vec![Ty::Tuple(vec![]), Ty::Tuple(vec![shared, nested])];
  let ptrs = interior_pointers(&decls, &place(1, vec![]));
  let view: Vec<(usize, Vec<ProjElem>, Mutability)> =
    ptrs.into_iter().map(|(r, p, m)| (r, p.projection, m)).collect();
  assert_eq!(
    view,
    vec![
      (3, vec![ProjElem::Field(0)], Mutability::Not),
      (4, vec![ProjElem::Field(1)], Mutability::Mut),
      (5, vec![ProjElem::Field(1), ProjElem::Deref], Mutability::Not),
    ]
  );
}

#[test]
fn extra_constraints_relate_only_regions_of_the_outlives_constraints() {
  // loan 0 has region 1, loan 1 has region 2; region 1 outlives region 2
  let table = vec![(1, place(1, vec![])), (2, place(2, vec![]))];
  let (m, loans) = compute_loans(&table, &vec![(1, 2)], &vec![]);
  assert_eq!(m, 3);
  assert_eq!(loans[2].indices(), vec![0, 1]);
  // the same relation given only as an extra constraint: region 2 takes no
  // part, so it keeps its own loan
  let (_, loans) = compute_loans(&table, &vec![], &vec![(1, 2)]);
  assert_eq!(loans[2].indices(), vec![1]);
  // with region 2 in the outlives constraints, the extra edge counts
  let (_, loans) = compute_loans(&table, &vec![(2, 2), (1, 1)], &vec![(1, 2)]);
  assert_eq!(loans[2].indices(), vec![0, 1]);
}

#[test]
fn merging_maps_combines_shared_keys() {
  let mut h1: HashMap<usize, Vec<usize>> = HashMap::new();
  h1.insert(1, vec![10]);
  h1.insert(2, vec![20]);
  let mut h2: HashMap<usize, Vec<usize>> = HashMap::new();
  h2.insert(2, vec![21]);
  h2.insert(3, vec![30]);
  let merged = hashmap_merge(h1, h2, |mut a: Vec<usize>, b: Vec<usize>| {
    a.extend(b);
    a
  });
  assert_eq!(merged.len(), 3);
  assert_eq!(merged[&1], vec![10]);
  assert_eq!(merged[&2], vec![20, 21]);
  assert_eq!(merged[&3], vec![30]);
}
