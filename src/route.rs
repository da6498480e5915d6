//! Routes, their patterns, and how a pattern matches a request path.
use vstd::prelude::*;
use vstd::string::*;
use crate::path::{split_path, path_segments, views_of};

verus! {

/// An HTTP request method.
#[derive(PartialEq, Eq, Structural, Clone, Copy, Debug)]
pub enum Method {
    Get,
    Post,
    Put,
    Delete,
    Patch,
    Head,
    Options,
}

/// One unit of a route pattern: a literal that must equal the path segment,
/// or a named parameter that matches any non-empty segment and binds it.
#[derive(Debug)]
pub enum Segment {
    Literal(String),
    Param(String),
}

/// Why a textual pattern was refused at registration.
#[derive(PartialEq, Eq, Structural, Clone, Copy, Debug)]
pub enum PatternError {
    /// The pattern is the empty string.
    Empty,
    /// The pattern does not begin with `/`.
    NoLeadingSlash,
    /// A segment is `{}`: a parameter without a name.
    EmptyParamName,
    /// A segment holds a brace but is not a whole `{name}`, or the name
    /// itself holds a brace.
    MalformedParam,
}

pub open spec fn is_literal(seg: Segment) -> bool {
    seg is Literal
}

/// Whether a pattern segment accepts the path segment `x`.
pub open spec fn segment_matches(seg: Segment, x: Seq<char>) -> bool {
    match seg {
        Segment::Literal(l) => l@ == x,
        Segment::Param(_) => x.len() > 0,
    }
}

/// Whether a pattern accepts a path: same number of segments, each accepted.
pub open spec fn pattern_matches(pat: Seq<Segment>, path: Seq<Seq<char>>) -> bool {
    &&& pat.len() == path.len()
    &&& forall|k: int| 0 <= k < pat.len() ==> segment_matches(#[trigger] pat[k], path[k])
}

/// Two segments have the same shape: both parameters (whatever their names),
/// or both literals with the same text.
pub open spec fn same_segment_shape(a: Segment, b: Segment) -> bool {
    match (a, b) {
        (Segment::Literal(x), Segment::Literal(y)) => x@ == y@,
        (Segment::Param(_), Segment::Param(_)) => true,
        _ => false,
    }
}

/// Two patterns have the same shape, segment by segment.
pub open spec fn same_shape(p: Seq<Segment>, q: Seq<Segment>) -> bool {
    &&& p.len() == q.len()
    &&& forall|k: int| 0 <= k < p.len() ==> same_segment_shape(#[trigger] p[k], q[k])
}

/// Literal and parameter positions agree up to (not including) `k`.
pub open spec fn kinds_agree_before(p: Seq<Segment>, q: Seq<Segment>, k: int) -> bool {
    forall|m: int| 0 <= m < k ==> is_literal(#[trigger] p[m]) == is_literal(q[m])
}

/// `p` is more specific than `q`: at the earliest position where one has a
/// literal and the other a parameter, `p` has the literal.
pub open spec fn more_specific(p: Seq<Segment>, q: Seq<Segment>) -> bool {
    exists|k: int|
        0 <= k < p.len() && k < q.len() && kinds_agree_before(p, q, k) && is_literal(
            #[trigger] p[k],
        ) && !is_literal(q[k])
}

/// `p` and `q` have literals and parameters at the same positions.
pub open spec fn same_kinds(p: Seq<Segment>, q: Seq<Segment>) -> bool {
    p.len() == q.len() && kinds_agree_before(p, q, p.len() as int)
}

/// `seg` is what the text `x` denotes in a pattern: `{name}` is a parameter,
/// anything else a literal.
pub open spec fn denotes(seg: Segment, x: Seq<char>) -> bool {
    if is_braced(x) {
        seg is Param && seg->Param_0@ == x.subrange(1, x.len() - 1)
    } else {
        seg is Literal && seg->Literal_0@ == x
    }
}

pub open spec fn is_braced(x: Seq<char>) -> bool {
    x.len() >= 2 && x[0] == '{' && x.last() == '}'
}

pub open spec fn is_brace(c: char) -> bool {
    c == '{' || c == '}'
}

/// `x` holds a brace at some position in `[from, to)`.
pub open spec fn brace_in(x: Seq<char>, from: int, to: int) -> bool {
    exists|i: int| from <= i < to && is_brace(#[trigger] x[i])
}

/// The error that one piece of a textual pattern gives, if any: `{}` names
/// no parameter, and a brace anywhere but around a whole `{name}` whose name
/// holds no brace is malformed.
pub open spec fn piece_error(x: Seq<char>) -> Option<PatternError> {
    if x == seq!['{', '}'] {
        Some(PatternError::EmptyParamName)
    } else if brace_in(x, 0, x.len() as int) && !(is_braced(x) && !brace_in(
        x,
        1,
        x.len() - 1,
    )) {
        Some(PatternError::MalformedParam)
    } else {
        None
    }
}

/// Some piece of a textual pattern gives an error.
pub open spec fn has_bad_piece(pieces: Seq<Seq<char>>) -> bool {
    exists|k: int| 0 <= k < pieces.len() && #[trigger] piece_error(pieces[k]) is Some
}

/// What parsing a textual pattern gives: the first error, in the order
/// empty, missing leading slash, then the first piece that is in error; or
/// else the segment that each piece denotes.
pub open spec fn parse_outcome(s: Seq<char>, r: Result<Vec<Segment>, PatternError>) -> bool {
    let pieces = path_segments(s);
    if s.len() == 0 {
        r == Err::<Vec<Segment>, PatternError>(PatternError::Empty)
    } else if s[0] != '/' {
        r == Err::<Vec<Segment>, PatternError>(PatternError::NoLeadingSlash)
    } else if has_bad_piece(pieces) {
        r is Err && exists|k: int|
            0 <= k < pieces.len() && #[trigger] piece_error(pieces[k]) == Some(r->Err_0) && forall|
                m: int,
            | 0 <= m < k ==> piece_error(#[trigger] pieces[m]) is None
    } else {
        r is Ok && r->Ok_0@.len() == pieces.len() && forall|k: int|
            0 <= k < pieces.len() ==> denotes(#[trigger] r->Ok_0@[k], pieces[k])
    }
}

/// Whether `x` holds a brace at some position in `[from, to)`.
fn has_brace_between(x: &str, from: usize, to: usize) -> (r: bool)
    requires
        from <= to <= x@.len(),
    ensures
        r == brace_in(x@, from as int, to as int),
{
    let mut i: usize = from;
    while i < to
        invariant
            from <= i <= to <= x@.len(),
            forall|m: int| from <= m < i ==> !is_brace(#[trigger] x@[m]),
        decreases to - i,
    {
        let c = x.get_char(i);
        if c == '{' || c == '}' {
            return true;
        }
        i = i + 1;
    }
    false
}

/// The error that one piece of a textual pattern gives, if any.
fn piece_error_of(x: &String) -> (r: Option<PatternError>)
    ensures
        r == piece_error(x@),
{
    let s = x.as_str();
    let n = s.unicode_len();
    let opens = n >= 2 && s.get_char(0) == '{';
    let closes = n >= 2 && s.get_char(n - 1) == '}';
    if n == 2 && opens && closes {
        assert(s@ =~= seq!['{', '}']);
        return Some(PatternError::EmptyParamName);
    }
    if !has_brace_between(s, 0, n) {
        return None;
    }
    if opens && closes && !has_brace_between(s, 1, n - 1) {
        return None;
    }
    Some(PatternError::MalformedParam)
}

/// Reads one piece of a pattern: `{name}` is a parameter, anything else a literal.
fn parse_segment(x: String) -> (r: Segment)
    ensures
        denotes(r, x@),
{
    let n = x.as_str().unicode_len();
    if n >= 2 && x.as_str().get_char(0) == '{' && x.as_str().get_char(n - 1) == '}' {
        let name = String::from_str(x.as_str().substring_char(1, n - 1));
        Segment::Param(name)
    } else {
        Segment::Literal(x)
    }
}

/// Parses a textual pattern such as `/_n/{name}` into its segments.
pub fn parse_pattern(s: &str) -> (r: Result<Vec<Segment>, PatternError>)
    ensures
        parse_outcome(s@, r),
{
    let n = s.unicode_len();
    if n == 0 {
        return Err(PatternError::Empty);
    }
    let first = s.get_char(0);
    if first != '/' {
        return Err(PatternError::NoLeadingSlash);
    }
    let pieces = split_path(s);
    let ghost views = views_of(pieces@);
    let mut out: Vec<Segment> = Vec::new();
    let mut i: usize = 0;
    while i < pieces.len()
        invariant
            views == views_of(pieces@),
            views == path_segments(s@),
            s@.len() != 0 && s@[0] == '/',
            i <= pieces.len(),
            out@.len() == i,
            forall|k: int| 0 <= k < i ==> denotes(#[trigger] out@[k], views[k]),
            forall|k: int| 0 <= k < i ==> piece_error(#[trigger] views[k]) is None,
        decreases pieces.len() - i,
    {
        if let Some(e) = piece_error_of(&pieces[i]) {
            proof {
                assert(piece_error(views[i as int]) == Some(e));
                assert(has_bad_piece(views));
            }
            return Err(e);
        }
        let piece = pieces[i].clone();
        assert(piece@ == views[i as int]);
        let seg = parse_segment(piece);
        out.push(seg);
        i = i + 1;
    }
    Ok(out)
}

} // verus!
