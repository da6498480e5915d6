//! Splitting a URL path into its slash-delimited segments.
use vstd::prelude::*;
use vstd::string::*;

verus! {

/// The pieces of `s` between its `'/'` characters, in order. A string with
/// `k` slashes has `k + 1` pieces, some of which may be empty.
pub open spec fn split_on_slash(s: Seq<char>) -> Seq<Seq<char>>
    decreases s.len(),
{
    if s.len() == 0 {
        seq![Seq::empty()]
    } else {
        let prev = split_on_slash(s.drop_last());
        if s.last() == '/' {
            prev.push(Seq::empty())
        } else {
            prev.update(prev.len() - 1, prev.last().push(s.last()))
        }
    }
}

/// The segments of a path: the empty path and the root `/` have none;
/// otherwise one leading `'/'` is dropped and the rest is split at each `'/'`.
pub open spec fn path_segments(s: Seq<char>) -> Seq<Seq<char>> {
    if s.len() == 0 || s == seq!['/'] {
        Seq::empty()
    } else if s[0] == '/' {
        split_on_slash(s.drop_first())
    } else {
        split_on_slash(s)
    }
}

/// The character views of a sequence of strings.
pub open spec fn views_of(v: Seq<String>) -> Seq<Seq<char>> {
    v.map_values(|x: String| x@)
}

proof fn lemma_split_nonempty(s: Seq<char>)
    ensures
        split_on_slash(s).len() >= 1,
    decreases s.len(),
{
    if s.len() > 0 {
        lemma_split_nonempty(s.drop_last());
    }
}

/// Splits `s` at every `'/'`.
fn split_slashes(s: &str) -> (r: Vec<String>)
    ensures
        views_of(r@) == split_on_slash(s@),
{
    let n = s.unicode_len();
    let mut segs: Vec<String> = Vec::new();
    let mut start: usize = 0;
    let mut i: usize = 0;
    proof {
        assert(s@.subrange(0, 0) =~= Seq::<char>::empty());
        assert(views_of(segs@).push(s@.subrange(0, 0)) =~= split_on_slash(s@.subrange(0, 0)));
    }
    while i < n
        invariant
            n == s@.len(),
            start <= i <= n,
            views_of(segs@).push(s@.subrange(start as int, i as int)) == split_on_slash(
                s@.subrange(0, i as int),
            ),
        decreases n - i,
    {
        let c = s.get_char(i);
        let ghost prev_segs = segs@;
        let ghost prev_start = start;
        proof {
            lemma_split_nonempty(s@.subrange(0, i as int));
            assert(s@.subrange(0, i + 1).drop_last() =~= s@.subrange(0, i as int));
        }
        if c == '/' {
            let piece = String::from_str(s.substring_char(start, i));
            segs.push(piece);
            start = i + 1;
            proof {
                assert(views_of(segs@) =~= views_of(prev_segs).push(
                    s@.subrange(prev_start as int, i as int),
                ));
                assert(s@.subrange(start as int, i + 1) =~= Seq::<char>::empty());
                assert(views_of(segs@).push(s@.subrange(start as int, i + 1)) =~= split_on_slash(
                    s@.subrange(0, i + 1),
                ));
            }
        } else {
            proof {
                assert(s@.subrange(start as int, i + 1) =~= s@.subrange(
                    start as int,
                    i as int,
                ).push(c));
                assert(views_of(segs@).push(s@.subrange(start as int, i + 1)) =~= split_on_slash(
                    s@.subrange(0, i + 1),
                ));
            }
        }
        i = i + 1;
    }
    let last = String::from_str(s.substring_char(start, n));
    let ghost before = segs@;
    segs.push(last);
    proof {
        assert(s@.subrange(0, n as int) =~= s@);
        assert(views_of(segs@) =~= views_of(before).push(s@.subrange(start as int, n as int)));
    }
    segs
}

/// Splits a request or pattern path into its segments.
pub fn split_path(path: &str) -> (r: Vec<String>)
    ensures
        views_of(r@) == path_segments(path@),
{
    let n = path.unicode_len();
    if n == 0 {
        proof {
            assert(views_of(Seq::<String>::empty()) =~= Seq::<Seq<char>>::empty());
        }
        return Vec::new();
    }
    let first = path.get_char(0);
    if n == 1 && first == '/' {
        proof {
            assert(path@ =~= seq!['/']);
            assert(views_of(Seq::<String>::empty()) =~= Seq::<Seq<char>>::empty());
        }
        return Vec::new();
    }
    proof {
        if path@ == seq!['/'] {
            assert(path@.len() == 1);
        }
    }
    if first == '/' {
        let rest = path.substring_char(1, n);
        assert(rest@ =~= path@.drop_first());
        split_slashes(rest)
    } else {
        split_slashes(path)
    }
}

} // verus!
