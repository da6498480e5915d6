//! Deciding whether a pattern accepts a path, comparing patterns by
//! specificity, and binding parameter values.
use vstd::prelude::*;
use vstd::string::*;
use crate::path::views_of;
use crate::route::{
    Segment, is_literal, segment_matches, pattern_matches, same_segment_shape, same_shape,
    kinds_agree_before, more_specific, same_kinds,
};

verus! {

/// The name and value of each parameter segment of `pat`, in pattern order,
/// paired with the path segment at the same position.
pub open spec fn bindings(pat: Seq<Segment>, path: Seq<Seq<char>>) -> Seq<(Seq<char>, Seq<char>)>
    decreases pat.len(),
{
    if pat.len() == 0 {
        Seq::empty()
    } else {
        let prev = bindings(pat.drop_last(), path);
        match pat.last() {
            Segment::Param(name) => prev.push((name@, path[pat.len() - 1])),
            Segment::Literal(_) => prev,
        }
    }
}

/// The character views of bound parameters.
pub open spec fn binding_views(v: Seq<(String, String)>) -> Seq<(Seq<char>, Seq<char>)> {
    v.map_values(|b: (String, String)| (b.0@, b.1@))
}

/// The value bound to the first parameter named `name`, if any.
pub open spec fn lookup(bs: Seq<(Seq<char>, Seq<char>)>, name: Seq<char>) -> Option<Seq<char>>
    decreases bs.len(),
{
    if bs.len() == 0 {
        None
    } else if bs[0].0 == name {
        Some(bs[0].1)
    } else {
        lookup(bs.drop_first(), name)
    }
}

/// Whether the pattern segment `seg` accepts the path segment `x`.
pub fn segment_accepts(seg: &Segment, x: &String) -> (r: bool)
    ensures
        r == segment_matches(*seg, x@),
{
    match seg {
        Segment::Literal(l) => *l == *x,
        Segment::Param(_) => x.as_str().unicode_len() > 0,
    }
}

/// Whether `pat` accepts the segmented path `path`.
pub fn pattern_accepts(pat: &Vec<Segment>, path: &Vec<String>) -> (r: bool)
    ensures
        r == pattern_matches(pat@, views_of(path@)),
{
    if pat.len() != path.len() {
        return false;
    }
    let mut k: usize = 0;
    while k < pat.len()
        invariant
            pat@.len() == path@.len(),
            k <= pat@.len(),
            forall|m: int| 0 <= m < k ==> segment_matches(#[trigger] pat@[m], views_of(path@)[m]),
        decreases pat.len() - k,
    {
        if !segment_accepts(&pat[k], &path[k]) {
            return false;
        }
        k = k + 1;
    }
    true
}

/// Whether two segments have the same shape.
fn segment_shapes_equal(a: &Segment, b: &Segment) -> (r: bool)
    ensures
        r == same_segment_shape(*a, *b),
{
    match (a, b) {
        (Segment::Literal(x), Segment::Literal(y)) => *x == *y,
        (Segment::Param(_), Segment::Param(_)) => true,
        _ => false,
    }
}

/// Whether two patterns have the same shape.
pub fn shapes_equal(p: &Vec<Segment>, q: &Vec<Segment>) -> (r: bool)
    ensures
        r == same_shape(p@, q@),
{
    if p.len() != q.len() {
        return false;
    }
    let mut k: usize = 0;
    while k < p.len()
        invariant
            p@.len() == q@.len(),
            k <= p@.len(),
            forall|m: int| 0 <= m < k ==> same_segment_shape(#[trigger] p@[m], q@[m]),
        decreases p.len() - k,
    {
        if !segment_shapes_equal(&p[k], &q[k]) {
            return false;
        }
        k = k + 1;
    }
    true
}

fn segment_is_literal(seg: &Segment) -> (r: bool)
    ensures
        r == is_literal(*seg),
{
    match seg {
        Segment::Literal(_) => true,
        Segment::Param(_) => false,
    }
}

/// Compares two patterns of equal length by specificity: `None` where their
/// literals and parameters stand at the same positions, `Some(true)` where `p`
/// is more specific, `Some(false)` where `q` is.
pub fn compare_specificity(p: &Vec<Segment>, q: &Vec<Segment>) -> (r: Option<bool>)
    requires
        p@.len() == q@.len(),
    ensures
        (r is None) == same_kinds(p@, q@),
        (r == Some(true)) == more_specific(p@, q@),
        (r == Some(false)) == more_specific(q@, p@),
{
    let mut k: usize = 0;
    while k < p.len()
        invariant
            p@.len() == q@.len(),
            k <= p@.len(),
            kinds_agree_before(p@, q@, k as int),
        decreases p.len() - k,
    {
        let lp = segment_is_literal(&p[k]);
        let lq = segment_is_literal(&q[k]);
        if lp != lq {
            proof {
                lemma_first_difference_decides(p@, q@, k as int);
                lemma_first_difference_decides(q@, p@, k as int);
            }
            return Some(lp);
        }
        k = k + 1;
    }
    proof {
        lemma_same_kinds_not_more_specific(p@, q@);
        lemma_same_kinds_not_more_specific(q@, p@);
    }
    None
}

proof fn lemma_first_difference_decides(p: Seq<Segment>, q: Seq<Segment>, k: int)
    requires
        p.len() == q.len(),
        0 <= k < p.len(),
        kinds_agree_before(p, q, k),
        is_literal(p[k]) != is_literal(q[k]),
    ensures
        more_specific(p, q) == is_literal(p[k]),
        !same_kinds(p, q),
{
    if more_specific(p, q) {
        let j = choose|j: int|
            0 <= j < p.len() && j < q.len() && kinds_agree_before(p, q, j) && is_literal(
                #[trigger] p[j],
            ) && !is_literal(q[j]);
        if j < k {
            assert(is_literal(p[j]) == is_literal(q[j]));
        } else if j > k {
            assert(is_literal(p[k]) == is_literal(q[k]));
        }
    }
    if is_literal(p[k]) {
        assert(more_specific(p, q));
    }
    assert(is_literal(p[k]) != is_literal(q[k]));
}

proof fn lemma_same_kinds_not_more_specific(p: Seq<Segment>, q: Seq<Segment>)
    requires
        same_kinds(p, q),
    ensures
        !more_specific(p, q),
{
    if more_specific(p, q) {
        let j = choose|j: int|
            0 <= j < p.len() && j < q.len() && kinds_agree_before(p, q, j) && is_literal(
                #[trigger] p[j],
            ) && !is_literal(q[j]);
        assert(is_literal(p[j]) == is_literal(q[j]));
    }
}

/// Binds the value of each parameter segment of `pat` from `path`.
pub fn bind_params(pat: &Vec<Segment>, path: &Vec<String>) -> (r: Vec<(String, String)>)
    requires
        pat@.len() == path@.len(),
    ensures
        binding_views(r@) == bindings(pat@, views_of(path@)),
{
    let ghost views = views_of(path@);
    let mut out: Vec<(String, String)> = Vec::new();
    let mut k: usize = 0;
    proof {
        assert(pat@.take(0) =~= Seq::<Segment>::empty());
        assert(binding_views(out@) =~= Seq::<(Seq<char>, Seq<char>)>::empty());
    }
    while k < pat.len()
        invariant
            pat@.len() == path@.len(),
            views == views_of(path@),
            k <= pat@.len(),
            binding_views(out@) == bindings(pat@.take(k as int), views),
        decreases pat.len() - k,
    {
        let ghost before = out@;
        proof {
            assert(pat@.take(k + 1).drop_last() =~= pat@.take(k as int));
        }
        match &pat[k] {
            Segment::Param(name) => {
                out.push((name.clone(), path[k].clone()));
                proof {
                    assert(binding_views(out@) =~= binding_views(before).push(
                        (name@, views[k as int]),
                    ));
                }
            },
            Segment::Literal(_) => {},
        }
        k = k + 1;
    }
    proof {
        assert(pat@.take(pat@.len() as int) =~= pat@);
    }
    out
}

/// The value bound to the first parameter named `name`, if any.
pub fn find_param(params: &Vec<(String, String)>, name: &String) -> (r: Option<String>)
    ensures
        (r is None) == (lookup(binding_views(params@), name@) is None),
        r is Some ==> lookup(binding_views(params@), name@) == Some(r->Some_0@),
{
    let ghost bs = binding_views(params@);
    let mut i: usize = 0;
    proof {
        assert(bs.skip(0) =~= bs);
    }
    while i < params.len()
        invariant
            bs == binding_views(params@),
            i <= params@.len(),
            lookup(bs, name@) == lookup(bs.skip(i as int), name@),
        decreases params.len() - i,
    {
        proof {
            assert(bs.skip(i as int).drop_first() =~= bs.skip(i + 1));
            assert(bs.skip(i as int)[0] == bs[i as int]);
        }
        if params[i].0 == *name {
            return Some(params[i].1.clone());
        }
        i = i + 1;
    }
    None
}

proof fn lemma_kinds_totality_from(p: Seq<Segment>, q: Seq<Segment>, k: int)
    requires
        p.len() == q.len(),
        0 <= k <= p.len(),
        kinds_agree_before(p, q, k),
    ensures
        more_specific(p, q) || more_specific(q, p) || same_kinds(p, q),
    decreases p.len() - k,
{
    if k < p.len() {
        if is_literal(p[k]) != is_literal(q[k]) {
            lemma_first_difference_decides(p, q, k);
            lemma_first_difference_decides(q, p, k);
        } else {
            assert(kinds_agree_before(p, q, k + 1));
            lemma_kinds_totality_from(p, q, k + 1);
        }
    }
}

/// Of two patterns of equal length, one is more specific than the other, or
/// they have the same kinds at every position.
pub proof fn lemma_specificity_total(p: Seq<Segment>, q: Seq<Segment>)
    requires
        p.len() == q.len(),
    ensures
        more_specific(p, q) || more_specific(q, p) || same_kinds(p, q),
{
    lemma_kinds_totality_from(p, q, 0);
}

/// Being more specific excludes the converse and equal kinds.
pub proof fn lemma_specificity_asymmetric(p: Seq<Segment>, q: Seq<Segment>)
    requires
        p.len() == q.len(),
        more_specific(p, q),
    ensures
        !more_specific(q, p),
        !same_kinds(p, q),
        !same_kinds(q, p),
{
    let j = choose|j: int|
        0 <= j < p.len() && j < q.len() && kinds_agree_before(p, q, j) && is_literal(
            #[trigger] p[j],
        ) && !is_literal(q[j]);
    lemma_first_difference_decides(p, q, j);
    assert(kinds_agree_before(q, p, j));
    lemma_first_difference_decides(q, p, j);
}

/// Specificity composes with itself and with equal kinds.
pub proof fn lemma_specificity_transitive(a: Seq<Segment>, b: Seq<Segment>, c: Seq<Segment>)
    requires
        a.len() == b.len() && b.len() == c.len(),
        more_specific(a, b) || same_kinds(a, b),
        more_specific(b, c) || same_kinds(b, c),
        more_specific(a, b) || more_specific(b, c),
    ensures
        more_specific(a, c),
{
    let n = a.len() as int;
    let i = if more_specific(a, b) {
        choose|i: int|
            0 <= i < a.len() && i < b.len() && kinds_agree_before(a, b, i) && is_literal(
                #[trigger] a[i],
            ) && !is_literal(b[i])
    } else {
        n
    };
    let j = if more_specific(b, c) {
        choose|j: int|
            0 <= j < b.len() && j < c.len() && kinds_agree_before(b, c, j) && is_literal(
                #[trigger] b[j],
            ) && !is_literal(c[j])
    } else {
        n
    };
    let w = if i < j { i } else { j };
    assert(kinds_agree_before(a, b, w));
    assert(kinds_agree_before(b, c, w));
    assert(kinds_agree_before(a, c, w));
    assert(w < n);
    if i < j {
        assert(is_literal(b[w]) == is_literal(c[w]));
    } else if j < i {
        assert(is_literal(a[w]) == is_literal(b[w]));
    }
    assert(is_literal(a[w]) && !is_literal(c[w]));
}

} // verus!
