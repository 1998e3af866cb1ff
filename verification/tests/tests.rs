#[test]
fn while_cond_irrelevant() {
  let _src = r#"
fn main() {
  let mut x = 1;
  let mut y = 2;
  while x < y {
    y -= 1;
  }
  x;
}
"#;
}

#[test]
fn tuple_write_whole_read_whole() {
  let _src = r#"
fn main() {
  let mut x = (0, 1);
  x = (2, 3);
  x;
}
"#;
}

#[test]
fn enum_write_branch_read_branch() {
  // Foo::Y code should be irrelevant
  let _src = r#"
fn main() {
  enum Foo { X(i32), Y(i32) }
  let mut x = Foo::X(1);
  if let Foo::X(z) = &mut x {
    *z += 1;
  }
  if let Foo::Y(z) = &mut x {
    *z += 1;
  }  
  if let Foo::X(z) = x {
    z;
  }
}
"#;
}

#[test]
fn macro_read() {
  let _src = r#"
fn main() {
  let x = vec![1, 2, 3];
  x;
}
"#;
}
