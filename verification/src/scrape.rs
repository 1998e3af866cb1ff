use vstd::prelude::*;
use vstd::string::{StrSliceExecFns, StringExecFns};
use crate::driver::{arg_views, text_eq};
use crate::launch::{parent, path_parent};

verus! {

/// The text of capture group 1 of the first match of the regular expression
/// `pattern` in `text` (`Regex::captures`); none when the pattern does not
/// compile, does not match, or the group takes no part in the match.
pub uninterp spec fn regex_group1(pattern: Seq<char>, text: Seq<char>) -> Option<Seq<char>>;

/// `Regex::new(pattern)` then `Regex::captures(text)`: the text of capture
/// group 1 of the first match; the result is named, not stated.
#[verifier::external_body]
fn capture_group1(pattern: &str, text: &str) -> (r: Option<String>)
    ensures
        match r {
            Some(s) => regex_group1(pattern@, text@) == Some(s@),
            None => regex_group1(pattern@, text@) is None,
        },
{
    let re = match regex::Regex::new(pattern) {
        Ok(re) => re,
        Err(_) => { return None; },
    };
    match re.captures(text) {
        Some(caps) => match caps.get(1) {
            Some(m) => Some(m.as_str().to_string()),
            None => None,
        },
        None => None,
    }
}

/// The pieces of `s` between the occurrences of `c`, in order, empty pieces
/// included (`str::split`).
pub open spec fn split_char(s: Seq<char>, c: char) -> Seq<Seq<char>>
    decreases s.len(),
{
    if s.len() == 0 {
        seq![Seq::<char>::empty()]
    } else {
        let r = split_char(s.drop_last(), c);
        if s.last() == c {
            r.push(Seq::empty())
        } else {
            r.update(r.len() - 1, r.last().push(s.last()))
        }
    }
}

proof fn lemma_split_char_nonempty(s: Seq<char>, c: char)
    ensures
        split_char(s, c).len() >= 1,
    decreases s.len(),
{
    if s.len() > 0 {
        lemma_split_char_nonempty(s.drop_last(), c);
    }
}

/// The pieces of `s` between the occurrences of `c` (see `split_char`).
pub fn split_at(s: &str, c: char) -> (r: Vec<String>)
    ensures
        arg_views(r@) == split_char(s@, c),
{
    let n = s.unicode_len();
    let mut pieces: Vec<String> = Vec::new();
    let mut start: usize = 0;
    let mut i: usize = 0;
    assert(s@.take(0) =~= Seq::<char>::empty());
    assert(arg_views(pieces@).push(s@.subrange(0, 0)) =~= seq![Seq::<char>::empty()]);
    while i < n
        invariant
            n == s@.len(),
            start <= i <= n,
            arg_views(pieces@).push(s@.subrange(start as int, i as int)) == split_char(s@.take(i as int), c),
        decreases n - i,
    {
        let ghost before = arg_views(pieces@);
        proof {
            assert(s@.take(i + 1).drop_last() =~= s@.take(i as int));
            assert(s@.take(i + 1).last() == s@[i as int]);
            lemma_split_char_nonempty(s@.take(i as int), c);
        }
        if s.get_char(i) == c {
            let piece = String::from_str(s.substring_char(start, i));
            let ghost old_start = start;
            pieces.push(piece);
            start = i + 1;
            assert(arg_views(pieces@) =~= before.push(s@.subrange(old_start as int, i as int)));
            assert(s@.subrange(start as int, i + 1) =~= Seq::<char>::empty());
            assert(arg_views(pieces@).push(s@.subrange(start as int, i + 1)) =~= split_char(s@.take(i + 1), c));
        } else {
            let ghost r = split_char(s@.take(i as int), c);
            assert(s@.subrange(start as int, i + 1) =~= s@.subrange(start as int, i as int).push(s@[i as int]));
            assert(before.push(s@.subrange(start as int, i + 1)) =~= r.update(r.len() - 1, r.last().push(s@[i as int])));
        }
        i = i + 1;
    }
    let last = String::from_str(s.substring_char(start, n));
    pieces.push(last);
    assert(s@.take(n as int) =~= s@);
    pieces
}

/// The regular expression of the lines in which cargo shows a command it runs.
pub open spec fn running_pattern() -> Seq<char> {
    "^\\s*Running `(.*)`"@
}

/// The first command shown among the lines `i..` (see `running_pattern`).
pub open spec fn first_capture(lines: Seq<Seq<char>>, i: int) -> Option<Seq<char>>
    decreases lines.len() - i,
{
    if i < 0 || i >= lines.len() {
        None
    } else {
        match regex_group1(running_pattern(), lines[i]) {
            Some(cmd) => Some(cmd),
            None => first_capture(lines, i + 1),
        }
    }
}

/// The first command that cargo's output `out` shows it runs, if any.
pub open spec fn first_running(out: Seq<char>) -> Option<Seq<char>> {
    first_capture(split_char(out, '\n'), 0)
}

/// A flag that asks rustc for JSON diagnostics.
pub open spec fn is_json_flag(a: Seq<char>) -> bool {
    a == "--error-format=json"@ || a == "--json=diagnostic-rendered-ansi"@
}

/// The arguments without the JSON diagnostics flags, in order.
pub open spec fn without_json_flags(a: Seq<Seq<char>>) -> Seq<Seq<char>>
    decreases a.len(),
{
    if a.len() == 0 {
        Seq::empty()
    } else {
        let r = without_json_flags(a.drop_last());
        if is_json_flag(a.last()) { r } else { r.push(a.last()) }
    }
}

/// A flag that is dropped with its value.
pub open spec fn is_dropped_flag(a: Seq<char>) -> bool {
    a == "--cfg"@ || a == "--crate-type"@
}

/// The positions among the first `n` arguments that hold a dropped flag, in order.
pub open spec fn flag_positions(a: Seq<Seq<char>>, n: int) -> Seq<int>
    decreases n,
{
    if n <= 0 {
        Seq::empty()
    } else {
        let r = flag_positions(a, n - 1);
        if is_dropped_flag(a[n - 1]) { r.push(n - 1) } else { r }
    }
}

/// The arguments after removing, for each position from the last to the
/// first, the argument after it and then the argument there; none when a
/// position has no argument after it.
pub open spec fn remove_pairs(a: Seq<Seq<char>>, idx: Seq<int>) -> Option<Seq<Seq<char>>>
    decreases idx.len(),
{
    if idx.len() == 0 {
        Some(a)
    } else {
        let i = idx.last();
        if 0 <= i && i + 1 < a.len() {
            remove_pairs(a.remove(i + 1).remove(i), idx.drop_last())
        } else {
            None
        }
    }
}

/// The rustc arguments of the slicer from cargo's command `cmd`: its words
/// (split at spaces) without the JSON diagnostics flags, then `--sysroot
/// <sysroot>`; every `--cfg` and `--crate-type` removed with the argument
/// after it; then `--crate-type lib`. None when a removed flag has no
/// argument after it.
pub open spec fn slicer_args(cmd: Seq<char>, sysroot: Seq<char>) -> Option<Seq<Seq<char>>> {
    let a = without_json_flags(split_char(cmd, ' ')) + seq!["--sysroot"@, sysroot];
    match remove_pairs(a, flag_positions(a, a.len() as int)) {
        Some(r) => Some(r + seq!["--crate-type"@, "lib"@]),
        None => None,
    }
}

/// Why the slicer's rustc arguments could not be found.
#[derive(Debug, Clone, Copy, PartialEq, Eq)]
pub enum ScrapeError {
    /// Cargo's output shows no command it runs.
    NoRustcCommand,
    /// A `--cfg` or `--crate-type` flag is the last argument.
    FlagWithoutValue,
}

fn text(s: &str) -> (r: String)
    ensures
        r@ == s@,
{
    String::from_str(s)
}

/// The first command that cargo's output shows it runs (see `first_running`).
fn find_running(cargo_stderr: &str) -> (r: Option<String>)
    ensures
        match r {
            Some(c) => first_running(cargo_stderr@) == Some(c@),
            None => first_running(cargo_stderr@) is None,
        },
{
    let lines = split_at(cargo_stderr, '\n');
    let ghost lv = arg_views(lines@);
    let mut i: usize = 0;
    while i < lines.len()
        invariant
            lv == arg_views(lines@),
            lv == split_char(cargo_stderr@, '\n'),
            i <= lines@.len(),
            first_capture(lv, 0) == first_capture(lv, i as int),
        decreases lines@.len() - i,
    {
        assert(lines@[i as int]@ == lv[i as int]);
        let cap = capture_group1("^\\s*Running `(.*)`", lines[i].as_str());
        match cap {
            Some(c) => { return Some(c); },
            None => {},
        }
        i = i + 1;
    }
    None
}

/// The rustc arguments of the slicer from cargo's verbose output: the first
/// command cargo shows it runs, rewritten as `slicer_args` says.
pub fn slicer_rustc_args(cargo_stderr: &str, sysroot: &str) -> (r: Result<Vec<String>, ScrapeError>)
    ensures
        match r {
            Ok(a) => first_running(cargo_stderr@) matches Some(cmd) && slicer_args(cmd, sysroot@) == Some(arg_views(a@)),
            Err(ScrapeError::NoRustcCommand) => first_running(cargo_stderr@) is None,
            Err(ScrapeError::FlagWithoutValue) => first_running(cargo_stderr@) matches Some(cmd) && slicer_args(cmd, sysroot@) is None,
        },
{
    proof {
        reveal_strlit("--cfg");
        reveal_strlit("--crate-type");
        reveal_strlit("--error-format=json");
        reveal_strlit("--json=diagnostic-rendered-ansi");
    }
    let cmd = match find_running(cargo_stderr) {
        Some(c) => c,
        None => { return Err(ScrapeError::NoRustcCommand); },
    };
    let words = split_at(cmd.as_str(), ' ');
    let ghost wv = arg_views(words@);
    // without the JSON diagnostics flags
    let mut args: Vec<String> = Vec::new();
    let mut k: usize = 0;
    while k < words.len()
        invariant
            wv == arg_views(words@),
            k <= words@.len(),
            arg_views(args@) == without_json_flags(wv.take(k as int)),
        decreases words@.len() - k,
    {
        assert(wv.take(k + 1).drop_last() =~= wv.take(k as int));
        assert(words@[k as int]@ == wv[k as int]);
        let w = words[k].as_str();
        let json = text_eq(w, "--error-format=json") || text_eq(w, "--json=diagnostic-rendered-ansi");
        if !json {
            let ghost prev = arg_views(args@);
            args.push(text(w));
            assert(arg_views(args@) =~= prev.push(w@));
        }
        k = k + 1;
    }
    assert(wv.take(wv.len() as int) =~= wv);
    let ghost before_root = arg_views(args@);
    args.push(text("--sysroot"));
    args.push(text(sysroot));
    let ghost a0 = arg_views(args@);
    assert(a0 =~= before_root + seq!["--sysroot"@, sysroot@]);
    assert(a0 == without_json_flags(split_char(cmd@, ' ')) + seq!["--sysroot"@, sysroot@]);
    // the positions of the dropped flags
    let mut pos: Vec<usize> = Vec::new();
    let mut j: usize = 0;
    while j < args.len()
        invariant
            a0 == arg_views(args@),
            j <= args@.len(),
            pos@.map_values(|x: usize| x as int) == flag_positions(a0, j as int),
            forall|t: int| 0 <= t < pos@.len() ==> #[trigger] pos@[t] < j,
        decreases args@.len() - j,
    {
        assert(args@[j as int]@ == a0[j as int]);
        let w = args[j].as_str();
        if text_eq(w, "--cfg") || text_eq(w, "--crate-type") {
            let ghost prev = pos@;
            pos.push(j);
            assert(pos@.map_values(|x: usize| x as int) =~= prev.map_values(|x: usize| x as int).push(j as int));
        }
        j = j + 1;
    }
    let ghost pv = pos@.map_values(|x: usize| x as int);
    assert(pv == flag_positions(a0, a0.len() as int));
    // remove each flag and the argument after it, from the last to the first
    let mut m = pos.len();
    assert(pv.take(m as int) =~= pv);
    while m > 0
        invariant
            m <= pos@.len(),
            pv == pos@.map_values(|x: usize| x as int),
            remove_pairs(a0, pv) == remove_pairs(arg_views(args@), pv.take(m as int)),
            pv == flag_positions(a0, a0.len() as int),
            a0 == without_json_flags(split_char(cmd@, ' ')) + seq!["--sysroot"@, sysroot@],
            first_running(cargo_stderr@) == Some(cmd@),
        decreases m,
    {
        let i = pos[m - 1];
        let ghost cur = arg_views(args@);
        let ghost idx = pv.take(m as int);
        assert(idx.last() == i as int);
        assert(idx.drop_last() =~= pv.take(m - 1));
        if i < args.len() && i + 1 < args.len() {
            args.remove(i + 1);
            args.remove(i);
            assert(arg_views(args@) =~= cur.remove(i + 1).remove(i as int));
        } else {
            assert(remove_pairs(cur, idx) is None);
            assert(slicer_args(cmd@, sysroot@) is None);
            return Err(ScrapeError::FlagWithoutValue);
        }
        m = m - 1;
    }
    assert(pv.take(0) =~= Seq::<int>::empty());
    let ghost removed = arg_views(args@);
    args.push(text("--crate-type"));
    args.push(text("lib"));
    assert(arg_views(args@) =~= removed + seq!["--crate-type"@, "lib"@]);
    Ok(args)
}

/// The regular expression of the file names of crate metadata: the crate
/// name is its capture group 1.
pub open spec fn rmeta_pattern() -> Seq<char> {
    "lib(.+)-[\\w\\d]+.rmeta"@
}

/// The `(crate name, path)` pairs of the first `n` files whose name is that of
/// crate metadata, in order; `files` holds each file's name and path.
pub open spec fn rmeta_entries(files: Seq<(Seq<char>, Seq<char>)>, n: int) -> Seq<(Seq<char>, Seq<char>)>
    decreases n,
{
    if n <= 0 {
        Seq::empty()
    } else {
        let r = rmeta_entries(files, n - 1);
        match regex_group1(rmeta_pattern(), files[n - 1].0) {
            Some(name) => r.push((name, files[n - 1].1)),
            None => r,
        }
    }
}

/// The views of pairs of texts.
pub open spec fn pair_views(v: Seq<(String, String)>) -> Seq<(Seq<char>, Seq<char>)> {
    v.map_values(|p: (String, String)| (p.0@, p.1@))
}

/// The crate metadata among `files` (each a file name and its path): the
/// crate name each file's name gives, with the path, in order (see
/// `rmeta_entries`). Where a name occurs twice, the later path is the one
/// that counts (see `rmeta_for`).
pub fn rmeta_paths(files: Vec<(String, String)>) -> (r: Vec<(String, String)>)
    ensures
        pair_views(r@) == rmeta_entries(pair_views(files@), files@.len() as int),
{
    let ghost fv = pair_views(files@);
    let mut r: Vec<(String, String)> = Vec::new();
    let mut i: usize = 0;
    while i < files.len()
        invariant
            fv == pair_views(files@),
            i <= files@.len(),
            pair_views(r@) == rmeta_entries(fv, i as int),
        decreases files@.len() - i,
    {
        assert(fv[i as int] == (files@[i as int].0@, files@[i as int].1@));
        match capture_group1("lib(.+)-[\\w\\d]+.rmeta", files[i].0.as_str()) {
            Some(name) => {
                let ghost prev = pair_views(r@);
                let path = text(files[i].1.as_str());
                r.push((name, path));
                assert(pair_views(r@) =~= prev.push((name@, files@[i as int].1@)));
            },
            None => {},
        }
        i = i + 1;
    }
    r
}


/// A compilation unit of cargo's unit graph: its target's name, crate
/// types, edition and root source file, the units it depends on (positions
/// in the graph) and its features.
pub struct Unit {
    pub name: String,
    pub crate_types: Vec<String>,
    pub edition: String,
    pub src_path: String,
    pub dependencies: Vec<usize>,
    pub features: Vec<String>,
}

/// The ancestors of a path (`Path::ancestors`): the path itself, its
/// parent, the parent of that, and so on.
pub uninterp spec fn path_ancestors(path: Seq<char>) -> Seq<Seq<char>>;

/// Two paths are equal, compared component by component (`==` on `Path`).
pub uninterp spec fn path_equal(a: Seq<char>, b: Seq<char>) -> bool;

/// `Path::ancestors`: the ancestors of `path`, in order, as texts; the
/// result is named, not stated.
#[verifier::external_body]
fn ancestors(path: &str) -> (r: Vec<String>)
    ensures
        arg_views(r@) == path_ancestors(path@),
{
    std::path::Path::new(path).ancestors().map(|a| a.to_string_lossy().into_owned()).collect()
}

/// `==` on `Path`: whether the two paths have the same components; the
/// result is named, not stated.
#[verifier::external_body]
fn same_path(a: &str, b: &str) -> (r: bool)
    ensures
        r == path_equal(a@, b@),
{
    std::path::Path::new(a) == std::path::Path::new(b)
}

/// The directory of unit `u`'s root source file is `path` or one of its
/// ancestors.
pub open spec fn unit_holds(path: Seq<char>, u: Unit) -> bool {
    path_parent(u.src_path@) matches Some(d)
        && exists|k: int| 0 <= k < path_ancestors(path).len() && path_equal(#[trigger] path_ancestors(path)[k], d)
}

/// The first unit from `i` on whose directory holds `path`.
pub open spec fn first_unit(path: Seq<char>, units: Seq<Unit>, i: int) -> Option<int>
    decreases units.len() - i,
{
    if i < 0 || i >= units.len() {
        None
    } else if unit_holds(path, units[i]) {
        Some(i)
    } else {
        first_unit(path, units, i + 1)
    }
}

/// Whether `d` is one of the `ancestors`.
fn is_one_of(ancestors: &Vec<String>, d: &str) -> (r: bool)
    ensures
        r == exists|k: int| 0 <= k < ancestors@.len() && path_equal(#[trigger] arg_views(ancestors@)[k], d@),
{
    let ghost av = arg_views(ancestors@);
    let mut k: usize = 0;
    while k < ancestors.len()
        invariant
            av == arg_views(ancestors@),
            k <= ancestors@.len(),
            forall|k2: int| 0 <= k2 < k ==> !path_equal(#[trigger] av[k2], d@),
        decreases ancestors@.len() - k,
    {
        assert(ancestors@[k as int]@ == av[k as int]);
        if same_path(ancestors[k].as_str(), d) {
            return true;
        }
        k = k + 1;
    }
    false
}

/// The first unit whose directory holds `target_path` (see `first_unit`).
pub fn find_unit_containing(units: &Vec<Unit>, target_path: &str) -> (r: Option<usize>)
    ensures
        match r {
            Some(i) => first_unit(target_path@, units@, 0) == Some(i as int),
            None => first_unit(target_path@, units@, 0) is None,
        },
{
    let ancestors = ancestors(target_path);
    let mut i: usize = 0;
    while i < units.len()
        invariant
            i <= units@.len(),
            arg_views(ancestors@) == path_ancestors(target_path@),
            first_unit(target_path@, units@, 0) == first_unit(target_path@, units@, i as int),
        decreases units@.len() - i,
    {
        let holds = match parent(units[i].src_path.as_str()) {
            Some(d) => is_one_of(&ancestors, d.as_str()),
            None => false,
        };
        assert(holds == unit_holds(target_path@, units@[i as int]));
        if holds {
            return Some(i);
        }
        i = i + 1;
    }
    None
}

/// The text with every `-` made `_` (a package name as a crate name).
pub open spec fn underscored(s: Seq<char>) -> Seq<char> {
    s.map_values(|c: char| if c == '-' { '_' } else { c })
}

fn underscore(s: &str) -> (r: String)
    ensures
        r@ == underscored(s@),
{
    let n = s.unicode_len();
    let mut r = String::new();
    let mut i: usize = 0;
    while i < n
        invariant
            n == s@.len(),
            i <= n,
            r@ == underscored(s@.take(i as int)),
        decreases n - i,
    {
        let ghost prev = r@;
        if s.get_char(i) == '-' {
            proof { reveal_strlit("_"); }
            r.append("_");
        } else {
            r.append(s.substring_char(i, i + 1));
        }
        assert(r@ =~= underscored(s@.take(i + 1)));
        i = i + 1;
    }
    assert(s@.take(n as int) =~= s@);
    r
}

/// The metadata path that counts for crate `name` among `entries`: that of
/// the last entry with the name.
pub open spec fn rmeta_for(entries: Seq<(Seq<char>, Seq<char>)>, name: Seq<char>, n: int) -> Option<Seq<char>>
    decreases n,
{
    if n <= 0 {
        None
    } else if entries[n - 1].0 == name {
        Some(entries[n - 1].1)
    } else {
        rmeta_for(entries, name, n - 1)
    }
}

fn find_rmeta(entries: &Vec<(String, String)>, name: &str) -> (r: Option<String>)
    ensures
        match r {
            Some(p) => rmeta_for(pair_views(entries@), name@, entries@.len() as int) == Some(p@),
            None => rmeta_for(pair_views(entries@), name@, entries@.len() as int) is None,
        },
{
    let ghost ev = pair_views(entries@);
    let mut k = entries.len();
    while k > 0
        invariant
            ev == pair_views(entries@),
            k <= entries@.len(),
            rmeta_for(ev, name@, entries@.len() as int) == rmeta_for(ev, name@, k as int),
        decreases k,
    {
        assert(ev[k - 1] == (entries@[k - 1].0@, entries@[k - 1].1@));
        if text_eq(entries[k - 1].0.as_str(), name) {
            return Some(text(entries[k - 1].1.as_str()));
        }
        k = k - 1;
    }
    None
}

/// The flags that enable the features `fs`: `--cfg feature="<f>"` for each, in order.
pub open spec fn feature_flags(fs: Seq<Seq<char>>) -> Seq<Seq<char>>
    decreases fs.len(),
{
    if fs.len() == 0 {
        Seq::empty()
    } else {
        feature_flags(fs.drop_last()) + seq!["--cfg"@, "feature=\""@ + fs.last() + "\""@]
    }
}

/// The flags that make the first `n` dependencies `deps` of a unit
/// available: `--extern <crate>=<metadata path>` for each, where the crate
/// name is the dependency's name with `-` made `_`; none when a crate has
/// no metadata among `entries`.
pub open spec fn extern_flags(units: Seq<Unit>, deps: Seq<usize>, entries: Seq<(Seq<char>, Seq<char>)>, n: int) -> Option<Seq<Seq<char>>>
    decreases n,
{
    if n <= 0 {
        Some(Seq::empty())
    } else {
        match extern_flags(units, deps, entries, n - 1) {
            Some(r) => {
                let name = underscored(units[deps[n - 1] as int].name@);
                match rmeta_for(entries, name, entries.len() as int) {
                    Some(p) => Some(r + seq!["--extern"@, name + "="@ + p]),
                    None => None,
                }
            },
            None => None,
        }
    }
}

/// The rustc flags that check unit `u` alone: `rustc --crate-name <name>
/// --crate-type <first crate type> <root file> --edition=<edition> -L
/// dependency=target/debug/deps --emit=dep-info,metadata`, then the
/// feature flags and the `--extern` flags of its dependencies.
pub open spec fn unit_flags(units: Seq<Unit>, u: Unit, entries: Seq<(Seq<char>, Seq<char>)>) -> Option<Seq<Seq<char>>> {
    let head = seq!["rustc"@, "--crate-name"@, u.name@, "--crate-type"@, u.crate_types@[0]@, u.src_path@,
        "--edition="@ + u.edition@, "-L"@, "dependency=target/debug/deps"@, "--emit=dep-info,metadata"@];
    match extern_flags(units, u.dependencies@, entries, u.dependencies@.len() as int) {
        Some(ext) => Some(head + feature_flags(arg_views(u.features@)) + ext),
        None => None,
    }
}

/// Every dependency of unit `t` has crate metadata among `entries`.
pub open spec fn rmeta_known(units: Seq<Unit>, t: int, entries: Seq<(Seq<char>, Seq<char>)>) -> bool {
    forall|k: int| 0 <= k < units[t].dependencies@.len()
        ==> (#[trigger] rmeta_for(entries, underscored(units[units[t].dependencies@[k] as int].name@), entries.len() as int)) is Some
}

/// The crate name of the first dependency of unit `t` without crate
/// metadata among `entries`, if there is one (see `rmeta_known`).
pub fn missing_rmeta(units: &Vec<Unit>, t: usize, entries: &Vec<(String, String)>) -> (r: Option<String>)
    requires
        t < units@.len(),
        forall|k: int| 0 <= k < units@[t as int].dependencies@.len() ==> #[trigger] units@[t as int].dependencies@[k] < units@.len(),
    ensures
        r is None <==> rmeta_known(units@, t as int, pair_views(entries@)),
        r matches Some(name) ==> exists|k: int| 0 <= k < units@[t as int].dependencies@.len()
            && name@ == underscored(units@[units@[t as int].dependencies@[k] as int].name@)
            && (#[trigger] rmeta_for(pair_views(entries@), name@, entries@.len() as int)) is None
            && forall|j: int| 0 <= j < k ==> (#[trigger] rmeta_for(pair_views(entries@),
                underscored(units@[units@[t as int].dependencies@[j] as int].name@), entries@.len() as int)) is Some,
{
    let u = &units[t];
    let mut j: usize = 0;
    while j < u.dependencies.len()
        invariant
            t < units@.len(),
            u == &units@[t as int],
            forall|k: int| 0 <= k < u.dependencies@.len() ==> #[trigger] u.dependencies@[k] < units@.len(),
            j <= u.dependencies@.len(),
            forall|k: int| 0 <= k < j ==> (#[trigger] rmeta_for(pair_views(entries@),
                underscored(units@[u.dependencies@[k] as int].name@), entries@.len() as int)) is Some,
        decreases u.dependencies@.len() - j,
    {
        let name = underscore(units[u.dependencies[j]].name.as_str());
        if find_rmeta(entries, name.as_str()).is_none() {
            return Some(name);
        }
        j = j + 1;
    }
    None
}

/// The rustc flags that check unit `t` of the graph `units` alone, with the
/// crate metadata `entries` (see `rmeta_paths` and `unit_flags`); every
/// dependency must have its metadata (see `missing_rmeta`).
pub fn get_flags(units: &Vec<Unit>, t: usize, entries: &Vec<(String, String)>) -> (flags: Vec<String>)
    requires
        t < units@.len(),
        units@[t as int].crate_types@.len() > 0,
        forall|k: int| 0 <= k < units@[t as int].dependencies@.len() ==> #[trigger] units@[t as int].dependencies@[k] < units@.len(),
        rmeta_known(units@, t as int, pair_views(entries@)),
    ensures
        unit_flags(units@, units@[t as int], pair_views(entries@)) == Some(arg_views(flags@)),
{
    let u = &units[t];
    let mut flags: Vec<String> = Vec::new();
    flags.push(text("rustc"));
    flags.push(text("--crate-name"));
    flags.push(text(u.name.as_str()));
    flags.push(text("--crate-type"));
    flags.push(text(u.crate_types[0].as_str()));
    flags.push(text(u.src_path.as_str()));
    let mut ed = text("--edition=");
    ed.append(u.edition.as_str());
    flags.push(ed);
    flags.push(text("-L"));
    flags.push(text("dependency=target/debug/deps"));
    flags.push(text("--emit=dep-info,metadata"));
    let ghost head = arg_views(flags@);
    assert(head =~= seq!["rustc"@, "--crate-name"@, u.name@, "--crate-type"@, u.crate_types@[0]@, u.src_path@,
        "--edition="@ + u.edition@, "-L"@, "dependency=target/debug/deps"@, "--emit=dep-info,metadata"@]);
    let ghost fv = arg_views(u.features@);
    let mut i: usize = 0;
    while i < u.features.len()
        invariant
            fv == arg_views(u.features@),
            i <= u.features@.len(),
            arg_views(flags@) == head + feature_flags(fv.take(i as int)),
        decreases u.features@.len() - i,
    {
        assert(fv.take(i + 1).drop_last() =~= fv.take(i as int));
        assert(u.features@[i as int]@ == fv[i as int]);
        let ghost prev = arg_views(flags@);
        flags.push(text("--cfg"));
        let mut f = text("feature=\"");
        f.append(u.features[i].as_str());
        f.append("\"");
        assert(f@ == "feature=\""@ + fv[i as int] + "\""@);
        assert(fv.take(i + 1).last() == fv[i as int]);
        assert(feature_flags(fv.take(i + 1)) == feature_flags(fv.take(i as int)) + seq!["--cfg"@, "feature=\""@ + fv[i as int] + "\""@]);
        flags.push(f);
        assert(arg_views(flags@) =~= prev + seq!["--cfg"@, "feature=\""@ + fv[i as int] + "\""@]);
        assert(arg_views(flags@) =~= head + feature_flags(fv.take(i + 1)));
        i = i + 1;
    }
    assert(fv.take(fv.len() as int) =~= fv);
    let ghost mid = arg_views(flags@);
    let ghost ev = pair_views(entries@);
    let ghost deps = u.dependencies@;
    let mut j: usize = 0;
    while j < u.dependencies.len()
        invariant
            t < units@.len(),
            u == &units@[t as int],
            deps == u.dependencies@,
            ev == pair_views(entries@),
            forall|k: int| 0 <= k < deps.len() ==> #[trigger] deps[k] < units@.len(),
            rmeta_known(units@, t as int, ev),
            j <= deps.len(),
            extern_flags(units@, deps, ev, j as int) matches Some(ext) && arg_views(flags@) == mid + ext,
        decreases deps.len() - j,
    {
        let d = u.dependencies[j];
        let name = underscore(units[d].name.as_str());
        match find_rmeta(entries, name.as_str()) {
            Some(p) => {
                let ghost prev = arg_views(flags@);
                flags.push(text("--extern"));
                let mut e = text(name.as_str());
                e.append("=");
                e.append(p.as_str());
                flags.push(e);
                assert(arg_views(flags@) =~= prev + seq!["--extern"@, name@ + "="@ + p@]);
            },
            None => {
                assert(rmeta_for(ev, underscored(units@[deps[j as int] as int].name@), ev.len() as int) is Some);
                assert(false);
            },
        }
        j = j + 1;
    }
    flags
}

} // verus!
