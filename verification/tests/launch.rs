use flowistry::driver::{driver_args, toolchain_path, wrapper_args};
use flowistry::launch::{cargo_args, find_target, Package, Target, TargetError};

fn strings(v: &[&str]) -> Vec<String> {
  v.iter().map(|s| s.to_string()).collect()
}

fn target(name: &str, kind: &str, src_path: &str) -> Target {
  Target { name: name.to_string(), kind: vec![kind.to_string()], src_path: src_path.to_string() }
}

fn workspace() -> Vec<Package> {
  vec![
    Package {
      name: "app".to_string(),
      targets: vec![
        target("app", "lib", "/ws/app/src/lib.rs"),
        target("tool", "bin", "/ws/app/src/bin/tool.rs"),
      ],
    },
    Package { name: "other".to_string(), targets: vec![target("other", "lib", "/ws/other/src/lib.rs")] },
  ]
}

#[test]
fn driver_drops_the_wrapped_rustc_and_adds_the_sysroot() {
  let args = strings(&["flowistry-driver", "/home/u/.rustup/toolchains/nightly/bin/rustc", "main.rs", "--crate-name", "x"]);
  let r = driver_args(args, Some("/sys".to_string()));
  assert_eq!(r, Some((false, strings(&["flowistry-driver", "main.rs", "--crate-name", "x", "--sysroot", "/sys"]))));
}

#[test]
fn driver_keeps_a_second_argument_that_is_not_rustc() {
  let args = strings(&["flowistry-driver", "main.rs", "--sysroot=/given"]);
  let r = driver_args(args, Some("/sys".to_string()));
  assert_eq!(r, Some((false, strings(&["flowistry-driver", "main.rs", "--sysroot=/given"]))));
  // the stem of `rustc.exe` is `rustc`
  let args = strings(&["flowistry-driver", "rustc.exe", "main.rs"]);
  let r = driver_args(args, Some("/sys".to_string()));
  assert_eq!(r, Some((false, strings(&["flowistry-driver", "main.rs", "--sysroot", "/sys"]))));
}

#[test]
fn driver_runs_plain_rustc_when_asked() {
  let args = strings(&["flowistry-driver", "--rustc", "a.rs", "--sysroot", "/s"]);
  let r = driver_args(args, None);
  assert_eq!(r, Some((true, strings(&["rustc", "a.rs", "--sysroot", "/s"]))));
}

#[test]
fn driver_needs_a_sysroot() {
  let args = strings(&["flowistry-driver", "a.rs"]);
  assert_eq!(driver_args(args, None), None);
}

#[test]
fn file_belongs_to_the_deepest_target() {
  let ws = workspace();
  assert_eq!(find_target("/ws/app/src/bin/tool.rs", &ws), Ok(Some((0, 1))));
  assert_eq!(find_target("/ws/app/src/main.rs", &ws), Ok(Some((0, 0))));
  assert_eq!(find_target("/ws/other/src/lib.rs", &ws), Ok(Some((1, 0))));
  assert_eq!(find_target("/elsewhere/x.rs", &ws), Ok(None));
  // a directory is a prefix by whole components only
  assert_eq!(find_target("/ws/app/srcx/a.rs", &ws), Ok(None));
}

#[test]
fn equally_deep_targets_pick_the_last() {
  let ws = vec![Package {
    name: "app".to_string(),
    targets: vec![target("app", "lib", "/ws/app/src/lib.rs"), target("app", "bin", "/ws/app/src/main.rs")],
  }];
  assert_eq!(find_target("/ws/app/src/x.rs", &ws), Ok(Some((0, 1))));
}

#[test]
fn target_without_parent_directory_is_an_error() {
  let mut ws = workspace();
  ws[0].targets.push(target("root", "bin", "/"));
  assert_eq!(find_target("/ws/app/src/main.rs", &ws), Err(TargetError::NoParentDirectory));
  // a package after the one found is not looked at
  let mut ws = workspace();
  ws[1].targets.push(target("root", "bin", "/"));
  assert_eq!(find_target("/ws/app/src/main.rs", &ws), Ok(Some((0, 0))));
}

#[test]
fn cargo_arguments_name_the_target() {
  let ws = workspace();
  let lib = cargo_args(&ws[0], &ws[0].targets[0], 42, &vec![]);
  assert_eq!(lib, strings(&["rustc", "--profile", "check", "-q", "-p", "app", "--lib", "--", "--flowistry=42"]));
  let bin = cargo_args(&ws[0], &ws[0].targets[1], 1907, &strings(&["-Zflag"]));
  assert_eq!(
    bin,
    strings(&["rustc", "--profile", "check", "-q", "-p", "app", "--bin", "tool", "--", "--flowistry=1907", "-Zflag"])
  );
}

#[test]
fn wrapper_passes_its_arguments_with_the_sysroot() {
  let r = wrapper_args(strings(&["rustc", "main.rs", "--edition=2018"]), "/sys".to_string());
  assert_eq!(r, strings(&["main.rs", "--edition=2018", "--sysroot", "/sys"]));
  let r = wrapper_args(strings(&["main.rs"]), "/sys".to_string());
  assert_eq!(r, strings(&["main.rs", "--sysroot", "/sys"]));
  let r = wrapper_args(vec![], "/sys".to_string());
  assert_eq!(r, strings(&["--sysroot", "/sys"]));
}

#[test]
fn toolchain_directory_of_a_rustup_home() {
  assert_eq!(
    toolchain_path(Some("/home/u/.rustup".to_string()), Some("nightly".to_string())),
    Some("/home/u/.rustup/toolchains/nightly".to_string())
  );
  // an absolute toolchain replaces the path
  assert_eq!(toolchain_path(Some("/h".to_string()), Some("/abs".to_string())), Some("/abs".to_string()));
  assert_eq!(toolchain_path(None, Some("nightly".to_string())), None);
  assert_eq!(toolchain_path(Some("/h".to_string()), None), None);
}
