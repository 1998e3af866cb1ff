use vstd::prelude::*;
use vstd::string::StringSliceAdditionalSpecFns;
use vstd::utf8::{decode_utf8, valid_utf8};
use crate::body::Span;

verus! {

/// A byte range `start..end` of the file `filename`.
#[derive(Debug, Clone, PartialEq, Eq, Hash)]
pub struct Range {
    pub start: usize,
    pub end: usize,
    pub filename: String,
}

impl View for Range {
    type V = (usize, usize, Seq<char>);

    open spec fn view(&self) -> (usize, usize, Seq<char>) {
        (self.start, self.end, self.filename@)
    }
}

/// The views of a list of ranges.
pub open spec fn range_views(v: Seq<Range>) -> Seq<(usize, usize, Seq<char>)> {
    v.map_values(|r: Range| r@)
}

/// The bytes `start..end` of `bytes`, clipped to its length.
pub open spec fn range_bytes(bytes: Seq<u8>, start: int, end: int) -> Seq<u8> {
    let lo = if start < bytes.len() { start } else { bytes.len() as int };
    let hi = if end < bytes.len() { end } else { bytes.len() as int };
    bytes.subrange(lo, hi)
}

/// `String::from_utf8`: the bytes as a string, when they are valid UTF-8.
#[verifier::external_body]
pub(crate) fn string_from_utf8(bytes: Vec<u8>) -> (r: Option<String>)
    ensures
        r is Some <==> valid_utf8(bytes@),
        r matches Some(s) ==> s@ == decode_utf8(bytes@),
{
    String::from_utf8(bytes).ok()
}

/// The name of a source file: a path on the local disk, or anything else
/// (a macro expansion, an anonymous input...).
#[derive(Debug, Clone)]
pub enum FileName {
    Real(String),
    Other(String),
}

/// A source file, positioned in the global byte space of all source files.
#[derive(Debug, Clone)]
pub struct SourceFile {
    pub name: FileName,
    pub start_pos: usize,
}

/// Why a span could not be turned into a range, or a range into a span.
#[derive(Debug, Clone, Copy, PartialEq, Eq, Structural)]
pub enum RangeError {
    /// The file of the span is not a file on the local disk.
    UnsupportedFile,
    /// No source file has the range's file name.
    NoSourceFile,
}

/// Whether path `child` is a suffix of path `path`, comparing whole components.
pub uninterp spec fn path_ends_with(path: Seq<char>, child: Seq<char>) -> bool;

/// `Path::ends_with`: whether `child` is a suffix of `path`, comparing
/// whole path components; the result is named, not stated.
#[verifier::external_body]
fn path_suffix(path: &str, child: &str) -> (b: bool)
    ensures
        b == path_ends_with(path@, child@),
{
    std::path::Path::new(path).ends_with(child)
}

/// The position of the first of `files` that is on the local disk and whose
/// path is a suffix of `filename`, among the first `n`.
pub open spec fn first_source_file(files: Seq<SourceFile>, filename: Seq<char>, n: int) -> Option<int>
    decreases n,
{
    if n <= 0 {
        None
    } else {
        match first_source_file(files, filename, n - 1) {
            Some(k) => Some(k),
            None => match files[n - 1].name {
                FileName::Real(other) => if path_ends_with(filename, other@) { Some(n - 1) } else { None },
                FileName::Other(_) => None,
            },
        }
    }
}

impl Range {
    /// A copy of the range.
    pub fn copy(&self) -> (r: Range)
        ensures
            r@ == self@,
    {
        Range { start: self.start, end: self.end, filename: self.filename.clone() }
    }

    /// The range with no bytes and no file.
    pub fn empty() -> (r: Range)
        ensures
            r.start == 0,
            r.end == 0,
            r.filename@ == Seq::<char>::empty(),
    {
        Range { start: 0, end: 0, filename: String::new() }
    }

    /// The text of the range in `s`: its bytes (clipped to the end of `s`),
    /// which must form valid UTF-8.
    pub fn substr(&self, s: &str) -> (r: String)
        requires
            self.start <= self.end,
            valid_utf8(range_bytes(s.spec_bytes(), self.start as int, self.end as int)),
        ensures
            r@ == decode_utf8(range_bytes(s.spec_bytes(), self.start as int, self.end as int)),
    {
        let bytes = s.as_bytes();
        let n = bytes.len();
        let lo = if self.start < n { self.start } else { n };
        let hi = if self.end < n { self.end } else { n };
        let mut v: Vec<u8> = Vec::new();
        let mut i = lo;
        while i < hi
            invariant
                lo <= i <= hi,
                hi <= n,
                n == bytes@.len(),
                bytes@ == s.spec_bytes(),
                v@ == bytes@.subrange(lo as int, i as int),
            decreases hi - i,
        {
            v.push(bytes[i]);
            assert(v@ =~= bytes@.subrange(lo as int, i + 1));
            i = i + 1;
        }
        assert(v@ == range_bytes(s.spec_bytes(), self.start as int, self.end as int));
        match string_from_utf8(v) {
            Some(t) => t,
            None => String::new(),
        }
    }

    /// The range of a span of `file` (the file that holds the span), with
    /// positions relative to the start of the file; an error when the file
    /// is not on the local disk.
    pub fn from_span(span: Span, file: &SourceFile) -> (r: Result<Range, RangeError>)
        requires
            file.start_pos <= span.lo,
            file.start_pos <= span.hi,
        ensures
            match file.name {
                FileName::Real(name) => r matches Ok(range) && range.start == span.lo - file.start_pos
                    && range.end == span.hi - file.start_pos && range.filename@ == name@,
                FileName::Other(_) => r == Err::<Range, RangeError>(RangeError::UnsupportedFile),
            },
    {
        match &file.name {
            FileName::Real(name) => Ok(Range {
                start: span.lo - file.start_pos,
                end: span.hi - file.start_pos,
                filename: name.clone(),
            }),
            FileName::Other(_) => Err(RangeError::UnsupportedFile),
        }
    }

    /// The position among `files` of the file of the range: the first on the
    /// local disk whose path is a suffix of the range's file name (the
    /// compiler may keep relative paths).
    pub fn source_file(&self, files: &Vec<SourceFile>) -> (r: Result<usize, RangeError>)
        ensures
            match r {
                Ok(k) => first_source_file(files@, self.filename@, files@.len() as int) == Some(k as int),
                Err(e) => e == RangeError::NoSourceFile && first_source_file(files@, self.filename@, files@.len() as int) is None,
            },
    {
        let mut k: usize = 0;
        while k < files.len()
            invariant
                k <= files@.len(),
                first_source_file(files@, self.filename@, k as int) is None,
            decreases files@.len() - k,
        {
            match &files[k].name {
                FileName::Real(other) => {
                    if path_suffix(self.filename.as_str(), other.as_str()) {
                        proof { lemma_first_source_file_stable(files@, self.filename@, k + 1, files@.len() as int); }
                        return Ok(k);
                    }
                },
                FileName::Other(_) => {},
            }
            k = k + 1;
        }
        Err(RangeError::NoSourceFile)
    }

    /// The span of the range in `file`.
    pub fn to_span(&self, file: &SourceFile) -> (s: Span)
        requires
            file.start_pos + self.end <= usize::MAX,
            file.start_pos + self.start <= usize::MAX,
        ensures
            s.lo == file.start_pos + self.start,
            s.hi == file.start_pos + self.end,
    {
        Span { lo: file.start_pos + self.start, hi: file.start_pos + self.end }
    }
}

proof fn lemma_first_source_file_stable(files: Seq<SourceFile>, filename: Seq<char>, m: int, n: int)
    requires
        m <= n,
        first_source_file(files, filename, m) is Some,
    ensures
        first_source_file(files, filename, n) == first_source_file(files, filename, m),
    decreases n - m,
{
    if m < n {
        lemma_first_source_file_stable(files, filename, m, n - 1);
    }
}

/// Whether the analysis tells mutable from shared references apart.
#[derive(Debug, PartialEq, Eq, Clone, Copy, Hash, Structural)]
pub enum MutabilityMode {
    DistinguishMut,
    IgnoreMut,
}

/// Whether a call is summarised by its signature or analysed by recursing
/// into the callee.
#[derive(Debug, PartialEq, Eq, Clone, Copy, Hash, Structural)]
pub enum ContextMode {
    SigOnly,
    Recurse,
}

/// Whether references of the same type may be assumed to alias.
#[derive(Debug, PartialEq, Eq, Clone, Copy, Hash, Structural)]
pub enum PointerMode {
    Precise,
    Conservative,
}

/// The modes of an analysis run.
#[derive(Debug, PartialEq, Eq, Clone, Copy, Hash, Structural)]
pub struct EvalMode {
    pub mutability_mode: MutabilityMode,
    pub context_mode: ContextMode,
    pub pointer_mode: PointerMode,
}

impl Default for EvalMode {
    fn default() -> (m: EvalMode)
        ensures
            m == (EvalMode {
                mutability_mode: MutabilityMode::DistinguishMut,
                context_mode: ContextMode::SigOnly,
                pointer_mode: PointerMode::Precise,
            }),
    {
        EvalMode {
            mutability_mode: MutabilityMode::DistinguishMut,
            context_mode: ContextMode::SigOnly,
            pointer_mode: PointerMode::Precise,
        }
    }
}

/// The configuration of a slice: the selected range, a debug flag, the
/// modes and an optional local.
#[derive(Debug, Clone)]
pub struct Config {
    pub range: Range,
    pub debug: bool,
    pub eval_mode: EvalMode,
    pub local: Option<usize>,
}

impl Default for Config {
    fn default() -> (c: Config)
        ensures
            c.range.start == 0,
            c.range.end == 0,
            c.range.filename@ == Seq::<char>::empty(),
            !c.debug,
            c.eval_mode == (EvalMode {
                mutability_mode: MutabilityMode::DistinguishMut,
                context_mode: ContextMode::SigOnly,
                pointer_mode: PointerMode::Precise,
            }),
            c.local is None,
    {
        Config { range: Range::empty(), debug: false, eval_mode: EvalMode::default(), local: None }
    }
}

/// Whether an extension is active: `f` holds of the current mode, when a
/// mode is set (`mode` is the mode of the current run, if any).
pub fn is_extension_active<F: Fn(EvalMode) -> bool>(mode: Option<EvalMode>, f: F) -> (r: bool)
    requires
        forall|m: EvalMode| #[trigger] f.requires((m,)),
    ensures
        match mode {
            Some(m) => f.ensures((m,), r),
            None => !r,
        },
{
    match mode {
        Some(m) => f(m),
        None => false,
    }
}

/// Errors of an analysis run.
#[derive(Debug)]
pub enum FlowistryError {
    /// The compiler could not build the program.
    BuildError,
    /// The analysis failed, with the reason.
    AnalysisError(String),
}

/// What an analysis produces for each analysed function; outputs of several
/// functions are merged.
pub trait FlowistryOutput: Sized {
    /// The output of no function.
    fn empty() -> Self;
    /// Adds the output of another function.
    fn merge(&mut self, other: Self);
}

} // verus!
