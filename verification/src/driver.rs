use vstd::prelude::*;
use vstd::string::{StrSliceExecFns, StringExecFns};
use crate::body::Span;

verus! {

/// The position of the first `=` in `a`, if any.
pub open spec fn first_eq(a: Seq<char>, i: int) -> Option<int>
    decreases a.len() - i,
{
    if i < 0 || i >= a.len() {
        None
    } else if a[i] == '=' {
        Some(i)
    } else {
        first_eq(a, i + 1)
    }
}

/// The name of a command-line argument: what comes before its first `=`.
pub open spec fn arg_name(a: Seq<char>) -> Seq<char> {
    match first_eq(a, 0) {
        Some(k) => a.take(k),
        None => a,
    }
}

/// The value given inside a command-line argument: what comes after its first `=`.
pub open spec fn inline_value(a: Seq<char>) -> Option<Seq<char>> {
    match first_eq(a, 0) {
        Some(k) => Some(a.skip(k + 1)),
        None => None,
    }
}

/// The value of option `name` among the arguments from `i` on: that of its
/// first occurrence, given as `name=value` or as `name value`; none when
/// that occurrence is the last argument and has no `=`.
pub open spec fn option_value(args: Seq<Seq<char>>, name: Seq<char>, i: int) -> Option<Seq<char>>
    decreases args.len() - i,
{
    if i < 0 || i >= args.len() {
        None
    } else if arg_name(args[i]) != name {
        option_value(args, name, i + 1)
    } else {
        match inline_value(args[i]) {
            Some(v) => Some(v),
            None => if i + 1 < args.len() { Some(args[i + 1]) } else { None },
        }
    }
}

/// The views of the arguments.
pub open spec fn arg_views(args: Seq<String>) -> Seq<Seq<char>> {
    args.map_values(|a: String| a@)
}

/// The position of the first `=` in `a` (see `first_eq`).
fn find_eq(a: &str) -> (r: Option<usize>)
    ensures
        match r {
            Some(k) => first_eq(a@, 0) == Some(k as int),
            None => first_eq(a@, 0) is None,
        },
{
    let n = a.unicode_len();
    let mut i: usize = 0;
    while i < n
        invariant
            n == a@.len(),
            i <= n,
            first_eq(a@, 0) == first_eq(a@, i as int),
        decreases n - i,
    {
        if a.get_char(i) == '=' {
            return Some(i);
        }
        i = i + 1;
    }
    None
}

/// Whether the name of argument `a` is `name` (see `arg_name`).
fn name_is(a: &str, eq: Option<usize>, name: &str) -> (b: bool)
    requires
        match eq {
            Some(k) => first_eq(a@, 0) == Some(k as int),
            None => first_eq(a@, 0) is None,
        },
    ensures
        b == (arg_name(a@) == name@),
{
    let end = match eq {
        Some(k) => k,
        None => a.unicode_len(),
    };
    proof {
        if let Some(k) = eq {
            lemma_first_eq_bounds(a@, 0);
        }
    }
    if end != name.unicode_len() {
        assert(arg_name(a@).len() != name@.len());
        return false;
    }
    let mut i: usize = 0;
    while i < end
        invariant
            end == name@.len(),
            end <= a@.len(),
            arg_name(a@) == a@.take(end as int),
            i <= end,
            forall|j: int| 0 <= j < i ==> a@[j] == name@[j],
        decreases end - i,
    {
        if a.get_char(i) != name.get_char(i) {
            assert(arg_name(a@)[i as int] != name@[i as int]);
            return false;
        }
        i = i + 1;
    }
    assert(arg_name(a@) =~= name@);
    true
}

proof fn lemma_first_eq_bounds(a: Seq<char>, i: int)
    requires
        0 <= i,
    ensures
        first_eq(a, i) matches Some(k) ==> i <= k < a.len() && a[k] == '=',
    decreases a.len() - i,
{
    if i < a.len() && a[i] != '=' {
        lemma_first_eq_bounds(a, i + 1);
    }
}

/// The values offered for option `name` by the arguments from `i` on, in
/// the order of a scan: `v` for an argument `name=v`, and for an argument
/// `name` the argument after it, which the scan then passes over; an
/// argument `name` that is the last one offers nothing.
pub open spec fn candidates(args: Seq<Seq<char>>, name: Seq<char>, i: int) -> Seq<Seq<char>>
    decreases args.len() - i,
{
    if i < 0 || i >= args.len() {
        Seq::empty()
    } else if arg_name(args[i]) != name {
        candidates(args, name, i + 1)
    } else {
        match inline_value(args[i]) {
            Some(v) => seq![v] + candidates(args, name, i + 1),
            None => if i + 1 < args.len() { seq![args[i + 1]] + candidates(args, name, i + 2) } else { Seq::empty() },
        }
    }
}

proof fn lemma_option_value_first_candidate(args: Seq<Seq<char>>, name: Seq<char>, i: int)
    requires
        0 <= i,
    ensures
        option_value(args, name, i) == (if candidates(args, name, i).len() > 0 { Some(candidates(args, name, i)[0]) } else { None::<Seq<char>> }),
    decreases args.len() - i,
{
    if i < args.len() && arg_name(args[i]) != name {
        lemma_option_value_first_candidate(args, name, i + 1);
    }
}

/// The predicate can answer `b` on a text whose view is `v`.
pub open spec fn pred_gives<F: Fn(&str) -> bool>(pred: F, v: Seq<char>, b: bool) -> bool {
    exists|s: &str| s@ == v && #[trigger] pred.ensures((s,), b)
}

/// The value of option `name` among `args` that `pred` accepts: the
/// candidates (see `candidates`) are offered to `pred` in order, and the
/// first it accepts is returned; `None` when it accepts none.
pub fn arg_value<F: Fn(&str) -> bool>(args: &Vec<String>, name: &str, pred: F) -> (r: Option<String>)
    requires
        forall|s: &str| #[trigger] pred.requires((s,)),
    ensures
        ({
            let cs = candidates(arg_views(args@), name@, 0);
            match r {
                Some(v) => exists|k: int| 0 <= k < cs.len() && cs[k] == v@ && pred_gives(pred, cs[k], true)
                    && forall|j: int| 0 <= j < k ==> pred_gives(pred, #[trigger] cs[j], false),
                None => forall|j: int| 0 <= j < cs.len() ==> pred_gives(pred, #[trigger] cs[j], false),
            }
        }),
{
    let ghost av = arg_views(args@);
    let ghost cs = candidates(av, name@, 0);
    let ghost mut seen: Seq<Seq<char>> = Seq::empty();
    let mut i: usize = 0;
    while i < args.len()
        invariant
            av == arg_views(args@),
            cs == candidates(av, name@, 0),
            i <= args@.len(),
            cs == seen + candidates(av, name@, i as int),
            forall|j: int| 0 <= j < seen.len() ==> pred_gives(pred, #[trigger] seen[j], false),
            forall|s: &str| #[trigger] pred.requires((s,)),
        decreases args@.len() - i,
    {
        let a = args[i].as_str();
        assert(a@ == av[i as int]);
        let eq = find_eq(a);
        if !name_is(a, eq, name) {
            i = i + 1;
            continue;
        }
        let (v, next): (&str, usize) = match eq {
            Some(k) => {
                proof { lemma_first_eq_bounds(a@, 0); }
                let n = a.unicode_len();
                let v = a.substring_char(k + 1, n);
                assert(v@ =~= a@.skip(k + 1));
                (v, i + 1)
            },
            None => {
                if i + 1 < args.len() {
                    let v = args[i + 1].as_str();
                    assert(v@ == av[i + 1]);
                    (v, i + 2)
                } else {
                    assert(candidates(av, name@, i as int) =~= Seq::<Seq<char>>::empty());
                    assert(cs =~= seen);
                    return None;
                }
            },
        };
        assert(candidates(av, name@, i as int) == seq![v@] + candidates(av, name@, next as int));
        let ok = pred(v);
        assert(pred_gives(pred, v@, ok));
        if ok {
            assert(cs[seen.len() as int] == v@);
            assert(forall|j: int| 0 <= j < seen.len() ==> cs[j] == seen[j]);
            return Some(String::from_str(v));
        }
        proof {
            seen = seen.push(v@);
            assert(cs =~= seen + candidates(av, name@, next as int));
        }
        i = next;
    }
    assert(candidates(av, name@, i as int) =~= Seq::<Seq<char>>::empty());
    assert(cs =~= seen);
    None
}

/// Whether a body whose item spans `item_span` is analysed: some requested
/// location lies inside it, and no earlier analysis has failed.
pub fn analysis_wanted(item_span: Span, locations: &Vec<Span>, failed: bool) -> (b: bool)
    ensures
        b == (!failed && exists|k: int| 0 <= k < locations@.len() && item_span.contains_spec(#[trigger] locations@[k])),
{
    if failed {
        return false;
    }
    let mut k: usize = 0;
    while k < locations.len()
        invariant
            k <= locations@.len(),
            !failed,
            forall|j: int| 0 <= j < k ==> !item_span.contains_spec(#[trigger] locations@[j]),
        decreases locations@.len() - k,
    {
        if item_span.contains(&locations[k]) {
            assert(item_span.contains_spec(locations@[k as int]));
            return true;
        }
        k = k + 1;
    }
    false
}

/// Whether the two texts are equal.
pub(crate) fn text_eq(a: &str, b: &str) -> (r: bool)
    ensures
        r == (a@ == b@),
{
    let n = a.unicode_len();
    if n != b.unicode_len() {
        return false;
    }
    let mut i: usize = 0;
    while i < n
        invariant
            n == a@.len(),
            n == b@.len(),
            i <= n,
            forall|j: int| 0 <= j < i ==> a@[j] == b@[j],
        decreases n - i,
    {
        if a.get_char(i) != b.get_char(i) {
            assert(a@[i as int] != b@[i as int]);
            return false;
        }
        i = i + 1;
    }
    assert(a@ =~= b@);
    true
}

/// The position of the first of `args` from `i` on that is `x`, if any.
pub open spec fn first_index(args: Seq<Seq<char>>, x: Seq<char>, i: int) -> Option<int>
    decreases args.len() - i,
{
    if i < 0 || i >= args.len() {
        None
    } else if args[i] == x {
        Some(i)
    } else {
        first_index(args, x, i + 1)
    }
}

/// The stem of the last component of a path (`Path::file_stem`), if it has one.
pub uninterp spec fn path_file_stem(path: Seq<char>) -> Option<Seq<char>>;

/// `Path::file_stem`: the stem of the last component of `path`, as text;
/// the result is named, not stated.
#[verifier::external_body]
fn file_stem(path: &str) -> (r: Option<String>)
    ensures
        match r {
            Some(s) => path_file_stem(path@) == Some(s@),
            None => path_file_stem(path@) is None,
        },
{
    match std::path::Path::new(path).file_stem() {
        Some(stem) => Some(stem.to_string_lossy().into_owned()),
        None => None,
    }
}

/// The arguments with `--sysroot <root>` appended, unless `given`.
pub open spec fn with_sysroot(args: Seq<Seq<char>>, root: Seq<char>, given: bool) -> Seq<Seq<char>> {
    if given { args } else { args + seq!["--sysroot"@, root] }
}

/// How the compiler driver runs on `args`, with `root` the sysroot to pass
/// when the arguments give none: `(true, a)` runs plain rustc with `a` (a
/// `--rustc` argument asks for it; it is dropped and the program name
/// becomes `rustc`); `(false, a)` runs the analysis in the primary package
/// and rustc elsewhere, with `a` (the `rustc` that cargo passes second when
/// the driver wraps it is dropped).
pub open spec fn driver_invocation(args: Seq<Seq<char>>, root: Seq<char>) -> (bool, Seq<Seq<char>>) {
    let given = option_value(args, "--sysroot"@, 0) is Some;
    match first_index(args, "--rustc"@, 0) {
        Some(p) => (true, with_sysroot(args.remove(p).update(0, "rustc"@), root, given)),
        None => {
            let wrapper = args.len() > 1 && path_file_stem(args[1]) == Some("rustc"@);
            (false, with_sysroot(if wrapper { args.remove(1) } else { args }, root, given))
        },
    }
}

/// The text of `t`, or the empty text.
pub open spec fn text_or_empty(t: Option<String>) -> Seq<char> {
    match t {
        Some(s) => s@,
        None => Seq::empty(),
    }
}

/// The arguments the compiler driver runs with (see `driver_invocation`):
/// `fallback_root` is the sysroot found outside the arguments; `None` when
/// neither the arguments nor the fallback give one.
pub fn driver_args(args: Vec<String>, fallback_root: Option<String>) -> (r: Option<(bool, Vec<String>)>)
    requires
        first_index(arg_views(args@), "--rustc"@, 0) is Some ==> args@.len() >= 2,
    ensures
        match r {
            Some((plain, a)) => (option_value(arg_views(args@), "--sysroot"@, 0) is Some || fallback_root is Some)
                && driver_invocation(arg_views(args@), text_or_empty(fallback_root)) == (plain, arg_views(a@)),
            None => option_value(arg_views(args@), "--sysroot"@, 0) is None && fallback_root is None,
        },
{
    let ghost av = arg_views(args@);
    let always = |_v: &str| -> (b: bool) ensures b { true };
    let given = arg_value(&args, "--sysroot", always);
    proof {
        lemma_option_value_first_candidate(av, "--sysroot"@, 0);
        let cs = candidates(av, "--sysroot"@, 0);
        assert forall|v: Seq<char>| !pred_gives(always, v, false) by {
            if pred_gives(always, v, false) {
                let s = choose|s: &str| s@ == v && #[trigger] always.ensures((s,), false);
                assert(always.ensures((s,), false));
            }
        }
        if given is Some {
            assert(cs.len() > 0);
            assert(!pred_gives(always, cs[0], false));
            assert(given->0@ == cs[0]);
        } else if cs.len() > 0 {
            assert(!pred_gives(always, cs[0], false));
        }
    }
    let root: String = match given {
        Some(_) => String::new(),
        None => match fallback_root {
            Some(f) => f,
            None => { return None; },
        },
    };
    let have = given.is_some();
    // find `--rustc`
    let mut p: usize = 0;
    let mut found = false;
    while p < args.len()
        invariant_except_break
            !found,
        invariant
            av == arg_views(args@),
            p <= args@.len(),
            first_index(av, "--rustc"@, 0) == first_index(av, "--rustc"@, p as int),
        ensures
            found ==> first_index(av, "--rustc"@, 0) == Some(p as int) && p < args@.len(),
            !found ==> first_index(av, "--rustc"@, 0) is None,
        decreases args@.len() - p,
    {
        assert(args@[p as int]@ == av[p as int]);
        if text_eq(args[p].as_str(), "--rustc") {
            found = true;
            break;
        }
        p = p + 1;
    }
    let mut a = args;
    let plain = found;
    if found {
        a.remove(p);
        a.set(0, String::from_str("rustc"));
        assert(arg_views(a@) =~= av.remove(p as int).update(0, "rustc"@));
    } else {
        if a.len() > 1 {
            let stem = file_stem(a[1].as_str());
            let wrapper = match stem {
                Some(s) => text_eq(s.as_str(), "rustc"),
                None => false,
            };
            assert(wrapper == (path_file_stem(av[1]) == Some("rustc"@)));
            if wrapper {
                a.remove(1);
                assert(arg_views(a@) =~= av.remove(1));
            }
        }
    }
    let ghost before = arg_views(a@);
    if !have {
        a.push(String::from_str("--sysroot"));
        a.push(root);
        assert(arg_views(a@) =~= before + seq!["--sysroot"@, root@]);
    }
    Some((plain, a))
}

/// The arguments a rustc wrapper passes on to the driver: its own
/// arguments without a leading `rustc` (by file stem, as cargo passes it),
/// then `--sysroot <sysroot>`.
pub open spec fn wrapper_arguments(args: Seq<Seq<char>>, sysroot: Seq<char>) -> Seq<Seq<char>> {
    let rest = if args.len() > 0 && path_file_stem(args[0]) == Some("rustc"@) { args.drop_first() } else { args };
    rest + seq!["--sysroot"@, sysroot]
}

/// The arguments a rustc wrapper passes on to the driver (see `wrapper_arguments`).
pub fn wrapper_args(args: Vec<String>, sysroot: String) -> (r: Vec<String>)
    ensures
        arg_views(r@) == wrapper_arguments(arg_views(args@), sysroot@),
{
    let ghost av = arg_views(args@);
    let mut a = args;
    if a.len() > 0 {
        let wrapped = match file_stem(a[0].as_str()) {
            Some(s) => text_eq(s.as_str(), "rustc"),
            None => false,
        };
        if wrapped {
            a.remove(0);
            assert(arg_views(a@) =~= av.drop_first());
        }
    }
    let ghost before = arg_views(a@);
    a.push(String::from_str("--sysroot"));
    a.push(sysroot);
    assert(arg_views(a@) =~= before + seq!["--sysroot"@, sysroot@]);
    a
}

/// The path `part` pushed onto `base` (`PathBuf::push`).
pub uninterp spec fn path_joined(base: Seq<char>, part: Seq<char>) -> Seq<char>;

/// `PathBuf::push`: `part` pushed onto the path `base`, as text; the result
/// is named, not stated.
#[verifier::external_body]
fn join_path(base: &str, part: &str) -> (r: String)
    ensures
        r@ == path_joined(base@, part@),
{
    let mut p = std::path::PathBuf::from(base);
    p.push(part);
    p.to_string_lossy().into_owned()
}

/// The toolchain directory of a rustup home: `<home>/toolchains/<toolchain>`
/// when both are known.
pub fn toolchain_path(home: Option<String>, toolchain: Option<String>) -> (r: Option<String>)
    ensures
        match (home, toolchain) {
            (Some(h), Some(t)) => r matches Some(p) && p@ == path_joined(path_joined(h@, "toolchains"@), t@),
            _ => r is None,
        },
{
    match (home, toolchain) {
        (Some(h), Some(t)) => {
            let dir = join_path(h.as_str(), "toolchains");
            Some(join_path(dir.as_str(), t.as_str()))
        },
        _ => None,
    }
}

} // verus!
