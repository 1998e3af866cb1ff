use vstd::prelude::*;
use vstd::string::{StrSliceExecFns, StringExecFns};
use crate::driver::{arg_views, text_eq};
use crate::effects::{decimal, push_decimal};

verus! {

/// A build target of a package: its name, its kinds (`lib`, `bin`, ...),
/// and the path of its root source file.
pub struct Target {
    pub name: String,
    pub kind: Vec<String>,
    pub src_path: String,
}

/// A package of the workspace and its targets.
pub struct Package {
    pub name: String,
    pub targets: Vec<Target>,
}

/// The parent of a path (`Path::parent`), if it has one.
pub uninterp spec fn path_parent(path: Seq<char>) -> Option<Seq<char>>;

/// Whether `base` is a prefix of `path`, comparing whole components
/// (`Path::starts_with`).
pub uninterp spec fn path_starts_with(path: Seq<char>, base: Seq<char>) -> bool;

/// The number of components of a path (`Path::components`).
pub uninterp spec fn path_component_count(path: Seq<char>) -> nat;

/// `Path::parent`: the path without its last component, as text; the
/// result is named, not stated.
#[verifier::external_body]
pub(crate) fn parent(path: &str) -> (r: Option<String>)
    ensures
        match r {
            Some(s) => path_parent(path@) == Some(s@),
            None => path_parent(path@) is None,
        },
{
    match std::path::Path::new(path).parent() {
        Some(p) => Some(p.to_string_lossy().into_owned()),
        None => None,
    }
}

/// `Path::starts_with`: whether `base` is a prefix of `path` by whole
/// components; the result is named, not stated.
#[verifier::external_body]
fn starts_with(path: &str, base: &str) -> (b: bool)
    ensures
        b == path_starts_with(path@, base@),
{
    std::path::Path::new(path).starts_with(base)
}

/// `Path::components`: how many components `path` has; the result is
/// named, not stated.
#[verifier::external_body]
fn component_count(path: &str) -> (n: usize)
    ensures
        n == path_component_count(path@),
{
    std::path::Path::new(path).components().count()
}

/// The directory of target `t`, the parent of its root source file, holds
/// `file`.
pub open spec fn holds_file(file: Seq<char>, t: Target) -> bool {
    path_parent(t.src_path@) matches Some(d) && path_starts_with(file, d)
}

/// Among the first `n` targets, the deepest whose directory holds `file`:
/// the one whose root source file has the most components, the last of
/// equally deep ones.
pub open spec fn deepest_target(file: Seq<char>, ts: Seq<Target>, n: int) -> Option<int>
    decreases n,
{
    if n <= 0 {
        None
    } else {
        let r = deepest_target(file, ts, n - 1);
        if holds_file(file, ts[n - 1]) {
            match r {
                Some(k) => if path_component_count(ts[k].src_path@) <= path_component_count(ts[n - 1].src_path@) {
                    Some(n - 1)
                } else {
                    Some(k)
                },
                None => Some(n - 1),
            }
        } else {
            r
        }
    }
}

/// The package and target `file` belongs to: the first package from `i` on
/// with a target whose directory holds the file, and its deepest such
/// target (see `deepest_target`).
pub open spec fn file_target(file: Seq<char>, ps: Seq<Package>, i: int) -> Option<(int, int)>
    decreases ps.len() - i,
{
    if i < 0 || i >= ps.len() {
        None
    } else {
        match deepest_target(file, ps[i].targets@, ps[i].targets@.len() as int) {
            Some(k) => Some((i, k)),
            None => file_target(file, ps, i + 1),
        }
    }
}

/// Every target of the packages looked at while searching from `i` on, up
/// to the one `file` belongs to, has a parent directory.
pub open spec fn parents_known(file: Seq<char>, ps: Seq<Package>, i: int) -> bool
    decreases ps.len() - i,
{
    if i < 0 || i >= ps.len() {
        true
    } else {
        &&& forall|j: int| 0 <= j < ps[i].targets@.len() ==> (#[trigger] path_parent(ps[i].targets@[j].src_path@)) is Some
        &&& (deepest_target(file, ps[i].targets@, ps[i].targets@.len() as int) is None ==> parents_known(file, ps, i + 1))
    }
}

/// Why the target of a file could not be looked for.
#[derive(Debug, Clone, Copy, PartialEq, Eq)]
pub enum TargetError {
    /// A target looked at has a root source file without a parent directory.
    NoParentDirectory,
}

/// The package and target `file` belongs to, as positions in `packages`
/// and in that package's targets (see `file_target`); an error when a
/// target looked at on the way has no parent directory (see `parents_known`).
pub fn find_target(file: &str, packages: &Vec<Package>) -> (r: Result<Option<(usize, usize)>, TargetError>)
    ensures
        r is Err <==> !parents_known(file@, packages@, 0),
        match r {
            Ok(Some((i, k))) => file_target(file@, packages@, 0) == Some((i as int, k as int)),
            Ok(None) => file_target(file@, packages@, 0) is None,
            Err(_) => true,
        },
{
    let mut i: usize = 0;
    while i < packages.len()
        invariant
            i <= packages@.len(),
            file_target(file@, packages@, 0) == file_target(file@, packages@, i as int),
            parents_known(file@, packages@, 0) == parents_known(file@, packages@, i as int),
        decreases packages@.len() - i,
    {
        let ts = &packages[i].targets;
        let mut best: Option<(usize, usize)> = None;
        let mut j: usize = 0;
        while j < ts.len()
            invariant
                i < packages@.len(),
                ts == &packages@[i as int].targets,
                parents_known(file@, packages@, 0) == parents_known(file@, packages@, i as int),
                j <= ts@.len(),
                forall|x: int| 0 <= x < j ==> (#[trigger] path_parent(ts@[x].src_path@)) is Some,
                match best {
                    Some((k, depth)) => deepest_target(file@, ts@, j as int) == Some(k as int)
                        && depth == path_component_count(ts@[k as int].src_path@),
                    None => deepest_target(file@, ts@, j as int) is None,
                },
            decreases ts@.len() - j,
        {
            let t = &ts[j];
            let dir = match parent(t.src_path.as_str()) {
                Some(d) => d,
                None => {
                    assert(path_parent(packages@[i as int].targets@[j as int].src_path@) is None);
                    assert(!parents_known(file@, packages@, i as int));
                    return Err(TargetError::NoParentDirectory);
                },
            };
            let holds = starts_with(file, dir.as_str());
            assert(holds == holds_file(file@, ts@[j as int]));
            if holds {
                let depth = component_count(t.src_path.as_str());
                best = match best {
                    Some((k, d)) => if d <= depth { Some((j, depth)) } else { Some((k, d)) },
                    None => Some((j, depth)),
                };
            }
            j = j + 1;
        }
        match best {
            Some((k, _)) => { return Ok(Some((i, k))); },
            None => {},
        }
        i = i + 1;
    }
    Ok(None)
}

/// The arguments of the cargo run that checks one target of package `pkg`
/// through the driver: `rustc --profile check -q -p <pkg> --<kind>`, the
/// target's `name` unless its kind is `lib`, then `--`, `--flowistry=<nonce>`
/// and the extra `flags`.
pub open spec fn cargo_arguments(pkg: Seq<char>, kind: Seq<char>, name: Seq<char>, nonce: nat, flags: Seq<Seq<char>>) -> Seq<Seq<char>> {
    seq!["rustc"@, "--profile"@, "check"@, "-q"@, "-p"@, pkg, "--"@ + kind]
        + (if kind == "lib"@ { Seq::<Seq<char>>::empty() } else { seq![name] })
        + seq!["--"@, "--flowistry="@ + decimal(nonce)]
        + flags
}

fn text(s: &str) -> (r: String)
    ensures
        r@ == s@,
{
    String::from_str(s)
}

/// The arguments of the cargo run that checks `target` of package `pkg`
/// (see `cargo_arguments`); the target's first kind is the one named.
pub fn cargo_args(pkg: &Package, target: &Target, nonce: u64, flags: &Vec<String>) -> (r: Vec<String>)
    requires
        target.kind@.len() > 0,
    ensures
        arg_views(r@) == cargo_arguments(pkg.name@, target.kind@[0]@, target.name@, nonce as nat, arg_views(flags@)),
{
    let kind = target.kind[0].as_str();
    let mut r: Vec<String> = Vec::new();
    r.push(text("rustc"));
    r.push(text("--profile"));
    r.push(text("check"));
    r.push(text("-q"));
    r.push(text("-p"));
    r.push(text(pkg.name.as_str()));
    let mut k = text("--");
    k.append(kind);
    r.push(k);
    let is_lib = text_eq(kind, "lib");
    if !is_lib {
        r.push(text(target.name.as_str()));
    }
    r.push(text("--"));
    let mut n = text("--flowistry=");
    push_decimal(&mut n, nonce);
    r.push(n);
    let ghost before = r@;
    let mut i: usize = 0;
    while i < flags.len()
        invariant
            i <= flags@.len(),
            arg_views(r@) == arg_views(before) + arg_views(flags@.take(i as int)),
        decreases flags@.len() - i,
    {
        let ghost prev = r@;
        r.push(text(flags[i].as_str()));
        assert(arg_views(r@) =~= arg_views(prev).push(flags@[i as int]@));
        assert(arg_views(flags@.take(i + 1)) =~= arg_views(flags@.take(i as int)).push(flags@[i as int]@));
        i = i + 1;
    }
    proof {
        reveal_strlit("rustc");
        reveal_strlit("--profile");
        reveal_strlit("check");
        reveal_strlit("-q");
        reveal_strlit("-p");
        reveal_strlit("--");
        reveal_strlit("lib");
        reveal_strlit("--flowistry=");
        assert(flags@.take(flags@.len() as int) =~= flags@);
    }
    assert(arg_views(r@) =~= cargo_arguments(pkg.name@, target.kind@[0]@, target.name@, nonce as nat, arg_views(flags@)));
    r
}

} // verus!
