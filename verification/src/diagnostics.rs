//! Error values and source spans shared by every stage of the pipeline.

use vstd::prelude::*;
use vstd::std_specs::cmp::PartialEqSpecImpl;

verus! {

/// A located slice of source text. Line and column are 1-based (columns count
/// characters); `byte_start` is inclusive and `byte_end` exclusive.
///
/// A span is metadata attached to syntax for diagnostics: two spans always
/// compare equal, so syntax trees that differ only in where they were read
/// from are equal.
#[derive(Debug, Clone, Copy)]
pub struct Span {
    pub byte_start: usize,
    pub byte_end: usize,
    pub start_line: usize,
    pub start_col: usize,
    pub end_line: usize,
    pub end_col: usize,
}

impl PartialEq for Span {
    fn eq(&self, other: &Self) -> (r: bool) {
        true
    }
}

impl Eq for Span {}

impl PartialEqSpecImpl for Span {
    open spec fn obeys_eq_spec() -> bool {
        true
    }

    open spec fn eq_spec(&self, other: &Self) -> bool {
        true
    }
}

/// The stages of the pipeline that can fail; each maps to one exit code.
#[derive(Debug)]
pub enum CaelumError {
    ReadFile { path: String, message: String },
    InvalidExtension { path: String },
    Import { message: String },
    Parse { path: String, message: String, span: Option<Span> },
    Semantic { message: String, span: Option<Span> },
    Model { message: String },
    Unsupported { message: String },
}

/// Older name of [`CaelumError`].
pub type TplError = CaelumError;

pub type Result<T> = core::result::Result<T, CaelumError>;

pub assume_specification[ String::push ](s: &mut String, ch: char)
    ensures
        final(s)@ == old(s)@.push(ch),
;

/// The text of an error as a user reads it: the stage, then the message.
pub open spec fn error_text(err: &CaelumError) -> Seq<char> {
    match err {
        CaelumError::ReadFile { path, message } =>
            "failed to read "@ + path@ + ": "@ + message@,
        CaelumError::InvalidExtension { path } => "expected a .lum file, got "@ + path@,
        CaelumError::Import { message } => "import error: "@ + message@,
        CaelumError::Parse { path, message, .. } =>
            "parse error in "@ + path@ + ": "@ + message@,
        CaelumError::Semantic { message, .. } => "semantic error: "@ + message@,
        CaelumError::Model { message } => "model construction error: "@ + message@,
        CaelumError::Unsupported { message } => "unsupported operation: "@ + message@,
    }
}

/// Whether a result is a failure of model construction.
pub open spec fn is_model_err<T>(r: Result<T>) -> bool {
    match r {
        Err(CaelumError::Model { .. }) => true,
        _ => false,
    }
}

/// Whether a result is a semantic failure.
pub open spec fn is_semantic_err<T>(r: Result<T>) -> bool {
    match r {
        Err(CaelumError::Semantic { .. }) => true,
        _ => false,
    }
}

/// Whether a result is a parse failure.
pub open spec fn is_parse_err<T>(r: Result<T>) -> bool {
    match r {
        Err(CaelumError::Parse { span: Some(sp), .. }) => sp.start_line >= 1 && sp.start_col >= 1,
        _ => false,
    }
}

/// The process exit code a stage's failure maps to.
pub open spec fn spec_exit_code(err: &CaelumError) -> u8 {
    match err {
        CaelumError::Parse { .. } => 2,
        CaelumError::Semantic { .. } => 3,
        CaelumError::ReadFile { .. } | CaelumError::InvalidExtension { .. }
        | CaelumError::Import { .. } => 4,
        CaelumError::Model { .. } => 5,
        CaelumError::Unsupported { .. } => 6,
    }
}

/// Concatenates `parts` into a fresh string.
pub fn concat_strs(parts: &[&str]) -> (r: String)
    ensures
        r@ == concat_views(parts@),
{
    let mut out = String::new();
    let mut i: usize = 0;
    while i < parts.len()
        invariant
            i <= parts@.len(),
            out@ == concat_views(parts@.take(i as int)),
        decreases parts@.len() - i,
    {
        out.append(parts[i]);
        proof {
            assert(parts@.take(i as int + 1).drop_last() == parts@.take(i as int));
        }
        i = i + 1;
    }
    proof {
        assert(parts@.take(parts@.len() as int) == parts@);
    }
    out
}

/// The concatenation of the views of a sequence of string slices.
pub open spec fn concat_views(parts: Seq<&str>) -> Seq<char>
    decreases parts.len(),
{
    if parts.len() == 0 {
        Seq::empty()
    } else {
        concat_views(parts.drop_last()) + parts.last()@
    }
}

impl CaelumError {
    /// The text of the error, as `Display` would render it.
    pub fn to_string(&self) -> (r: String)
        ensures
            r@ == error_text(self),
    {
        match self {
            CaelumError::ReadFile { path, message } => {
                let r = concat_strs(&["failed to read ", path.as_str(), ": ", message.as_str()]);
                proof { reveal_with_fuel(concat_views, 5); }
                r
            },
            CaelumError::InvalidExtension { path } => {
                let r = concat_strs(&["expected a .lum file, got ", path.as_str()]);
                proof { reveal_with_fuel(concat_views, 3); }
                r
            },
            CaelumError::Import { message } => {
                let r = concat_strs(&["import error: ", message.as_str()]);
                proof { reveal_with_fuel(concat_views, 3); }
                r
            },
            CaelumError::Parse { path, message, .. } => {
                let r = concat_strs(&["parse error in ", path.as_str(), ": ", message.as_str()]);
                proof { reveal_with_fuel(concat_views, 5); }
                r
            },
            CaelumError::Semantic { message, .. } => {
                let r = concat_strs(&["semantic error: ", message.as_str()]);
                proof { reveal_with_fuel(concat_views, 3); }
                r
            },
            CaelumError::Model { message } => {
                let r = concat_strs(&["model construction error: ", message.as_str()]);
                proof { reveal_with_fuel(concat_views, 3); }
                r
            },
            CaelumError::Unsupported { message } => {
                let r = concat_strs(&["unsupported operation: ", message.as_str()]);
                proof { reveal_with_fuel(concat_views, 3); }
                r
            },
        }
    }

    /// The exit code of the pipeline stage that failed.
    pub fn exit_code(&self) -> (r: u8)
        ensures
            r == spec_exit_code(self),
    {
        match self {
            CaelumError::Parse { .. } => 2,
            CaelumError::Semantic { .. } => 3,
            CaelumError::ReadFile { .. } | CaelumError::InvalidExtension { .. }
            | CaelumError::Import { .. } => 4,
            CaelumError::Model { .. } => 5,
            CaelumError::Unsupported { .. } => 6,
        }
    }
}


/// The decimal digit character for `d`.
pub open spec fn digit_char(d: nat) -> char {
    ((d + 48) as u8) as char
}

/// The decimal digits of a natural number, most significant first, without
/// leading zeros.
pub open spec fn nat_digits(n: nat) -> Seq<char>
    decreases n,
{
    if n < 10 {
        seq![digit_char(n)]
    } else {
        nat_digits(n / 10) + seq![digit_char(n % 10)]
    }
}

/// The decimal text of an integer, with a leading `-` when it is negative.
pub open spec fn int_text(i: int) -> Seq<char> {
    if i < 0 {
        seq!['-'] + nat_digits((-i) as nat)
    } else {
        nat_digits(i as nat)
    }
}

fn push_digits(out: &mut String, n: u64)
    ensures
        final(out)@ == old(out)@ + nat_digits(n as nat),
    decreases n,
{
    if n >= 10 {
        push_digits(out, n / 10);
    }
    let d: u8 = (n % 10) as u8;
    out.push((d + 48u8) as char);
}

/// The decimal text of an unsigned count.
pub fn usize_text(n: usize) -> (r: String)
    ensures
        r@ == nat_digits(n as nat),
{
    let mut out = String::new();
    push_digits(&mut out, n as u64);
    out
}

/// The decimal text of a signed integer.
pub fn i64_text(i: i64) -> (r: String)
    ensures
        r@ == int_text(i as int),
{
    let mut out = String::new();
    if i < 0 {
        out.push('-');
        let m: u64 = (-(i as i128)) as u64;
        push_digits(&mut out, m);
    } else {
        push_digits(&mut out, i as u64);
    }
    out
}

} // verus!
