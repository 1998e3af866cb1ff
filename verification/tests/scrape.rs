use flowistry::scrape::{
  find_unit_containing, get_flags, missing_rmeta, rmeta_paths, slicer_rustc_args, split_at, ScrapeError, Unit,
};

fn strings(v: &[&str]) -> Vec<String> {
  v.iter().map(|s| s.to_string()).collect()
}

const CARGO_OUTPUT: &str = "   Compiling foo v0.1.0 (/ws/foo)
     Running `rustc --crate-name foo --edition=2018 src/lib.rs --error-format=json --json=diagnostic-rendered-ansi --crate-type lib --cfg feature=\"x\" -C debuginfo=2`
     Running `rustc --crate-name second src/main.rs`
    Finished dev [unoptimized + debuginfo] target(s) in 0.5s";

#[test]
fn split_keeps_empty_pieces() {
  assert_eq!(split_at("a  b", ' '), strings(&["a", "", "b"]));
  assert_eq!(split_at("", '\n'), strings(&[""]));
  assert_eq!(split_at("x\n", '\n'), strings(&["x", ""]));
}

#[test]
fn slicer_arguments_come_from_the_first_running_command() {
  let args = slicer_rustc_args(CARGO_OUTPUT, "/sys").unwrap();
  assert_eq!(
    args,
    strings(&[
      "rustc", "--crate-name", "foo", "--edition=2018", "src/lib.rs", "-C", "debuginfo=2", "--sysroot", "/sys",
      "--crate-type", "lib",
    ])
  );
}

#[test]
fn slicer_arguments_need_a_running_command() {
  assert_eq!(slicer_rustc_args("   Compiling foo v0.1.0\n    Finished", "/sys"), Err(ScrapeError::NoRustcCommand));
}

#[test]
fn a_dropped_flag_needs_a_value() {
  let out = "     Running `rustc src/lib.rs`";
  assert_eq!(slicer_rustc_args(out, "--cfg"), Err(ScrapeError::FlagWithoutValue));
  // the sysroot's value can be what a trailing flag takes
  let out = "     Running `rustc --cfg`";
  assert_eq!(slicer_rustc_args(out, "/sys"), Ok(strings(&["rustc", "/sys", "--crate-type", "lib"])));
}

#[test]
fn metadata_files_name_their_crates() {
  let files = vec![
    ("libfoo-abc123.rmeta".to_string(), "/d/libfoo-abc123.rmeta".to_string()),
    ("libbar-1.rlib".to_string(), "/d/libbar-1.rlib".to_string()),
    ("libfoo_bar-9f.rmeta".to_string(), "/d/libfoo_bar-9f.rmeta".to_string()),
  ];
  assert_eq!(
    rmeta_paths(files),
    vec![
      ("foo".to_string(), "/d/libfoo-abc123.rmeta".to_string()),
      ("foo_bar".to_string(), "/d/libfoo_bar-9f.rmeta".to_string()),
    ]
  );
}

fn units() -> Vec<Unit> {
  vec![
    Unit {
      name: "app".to_string(),
      crate_types: strings(&["bin"]),
      edition: "2018".to_string(),
      src_path: "/ws/app/src/main.rs".to_string(),
      dependencies: vec![1],
      features: strings(&["default"]),
    },
    Unit {
      name: "my-dep".to_string(),
      crate_types: strings(&["lib"]),
      edition: "2015".to_string(),
      src_path: "/reg/my-dep/src/lib.rs".to_string(),
      dependencies: vec![],
      features: vec![],
    },
  ]
}

#[test]
fn unit_of_a_path_is_the_first_whose_directory_holds_it() {
  let us = units();
  assert_eq!(find_unit_containing(&us, "/ws/app/src/foo.rs"), Some(0));
  assert_eq!(find_unit_containing(&us, "/reg/my-dep/src/a/b.rs"), Some(1));
  assert_eq!(find_unit_containing(&us, "/elsewhere/x.rs"), None);
}

#[test]
fn unit_flags_name_features_and_dependencies() {
  let us = units();
  let entries = vec![
    ("my_dep".to_string(), "/old/libmy_dep-0.rmeta".to_string()),
    ("my_dep".to_string(), "/ws/target/debug/deps/libmy_dep-1.rmeta".to_string()),
  ];
  assert_eq!(missing_rmeta(&us, 0, &entries), None);
  assert_eq!(
    get_flags(&us, 0, &entries),
    strings(&[
      "rustc", "--crate-name", "app", "--crate-type", "bin", "/ws/app/src/main.rs", "--edition=2018", "-L",
      "dependency=target/debug/deps", "--emit=dep-info,metadata", "--cfg", "feature=\"default\"", "--extern",
      "my_dep=/ws/target/debug/deps/libmy_dep-1.rmeta",
    ])
  );
  assert_eq!(missing_rmeta(&us, 0, &vec![]), Some("my_dep".to_string()));
}

#[test]
fn a_bare_file_name_holds_only_relative_paths() {
  let mut us = units();
  us.insert(
    0,
    Unit {
      name: "bare".to_string(),
      crate_types: strings(&["lib"]),
      edition: "2018".to_string(),
      src_path: "lib.rs".to_string(),
      dependencies: vec![],
      features: vec![],
    },
  );
  // the parent of `lib.rs` is the empty path, an ancestor of relative paths only
  assert_eq!(find_unit_containing(&us, "/w/x.rs"), None);
  assert_eq!(find_unit_containing(&us, "/ws/app/src/foo.rs"), Some(1));
  assert_eq!(find_unit_containing(&us, "a/b.rs"), Some(0));
}
