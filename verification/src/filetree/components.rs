//! Tokenization of `/`-delimited path strings into normalized components,
//! yielded basename-first.
//!
//! Normalization resolves `.` and `..` segments purely textually: a `.` is
//! dropped, a `..` cancels the next ordinary segment to its left, and `..`
//! segments with nothing left to cancel are silently ignored.  Empty segments
//! (from leading, trailing or repeated separators) are ordinary components.

use vstd::prelude::*;
use vstd::string::StrSliceExecFns;

verus! {

/// The character sequence of the current-directory marker `.`.
pub open spec fn dot() -> Seq<char> {
    seq!['.']
}

/// The character sequence of the parent-directory marker `..`.
pub open spec fn dot_dot() -> Seq<char> {
    seq!['.', '.']
}

/// The views of a sequence of strings.
pub open spec fn views_of(v: Seq<String>) -> Seq<Seq<char>> {
    v.map_values(|s: String| s@)
}

/// Splits `s` on `'/'`.  The result always has at least one segment, and
/// empty segments are kept.
pub open spec fn split_segments(s: Seq<char>) -> Seq<Seq<char>>
    decreases s.len(),
{
    if s.len() == 0 {
        seq![Seq::<char>::empty()]
    } else if s.last() == '/' {
        split_segments(s.drop_last()).push(Seq::<char>::empty())
    } else {
        let r = split_segments(s.drop_last());
        r.update(r.len() - 1, r.last().push(s.last()))
    }
}

/// Processes `segs` from its last segment leftwards with `skip` pending
/// parent markers: `.` is dropped, `..` increments the pending count, and any
/// other segment is either consumed by a pending `..` or yielded next.
pub open spec fn normalize_rev(segs: Seq<Seq<char>>, skip: nat) -> Seq<Seq<char>>
    decreases segs.len(),
{
    if segs.len() == 0 {
        Seq::empty()
    } else {
        let seg = segs.last();
        let rest = segs.drop_last();
        if seg == dot() {
            normalize_rev(rest, skip)
        } else if seg == dot_dot() {
            normalize_rev(rest, skip + 1)
        } else if skip > 0 {
            normalize_rev(rest, (skip - 1) as nat)
        } else {
            seq![seg] + normalize_rev(rest, 0)
        }
    }
}

/// The normalized components of `path`, basename first.
pub open spec fn rev_components(path: Seq<char>) -> Seq<Seq<char>> {
    normalize_rev(split_segments(path), 0)
}

/// `split_segments` never yields an empty list of segments.
proof fn lemma_split_segments_len(s: Seq<char>)
    ensures
        split_segments(s).len() > 0,
    decreases s.len(),
{
    if s.len() > 0 {
        lemma_split_segments_len(s.drop_last());
    }
}

/// Splits `path` on `'/'`, keeping empty segments.
fn split_path(path: &str) -> (segs: Vec<String>)
    ensures
        views_of(segs@) == split_segments(path@),
{
    let len = path.unicode_len();
    let mut segs: Vec<String> = Vec::new();
    let mut start: usize = 0;
    let mut i: usize = 0;
    proof {
        assert(path@.take(0) =~= Seq::<char>::empty());
        assert(path@.subrange(0, 0) =~= Seq::<char>::empty());
        assert(views_of(segs@).push(path@.subrange(0, 0)) =~= split_segments(path@.take(0)));
    }
    while i < len
        invariant
            start <= i <= len,
            len == path@.len(),
            views_of(segs@).push(path@.subrange(start as int, i as int))
                == split_segments(path@.take(i as int)),
        decreases len - i,
    {
        proof {
            assert(path@.take(i + 1).drop_last() =~= path@.take(i as int));
        }
        if path.get_char(i) == '/' {
            let seg = path.substring_char(start, i);
            let ghost segs_pre = segs@;
            segs.push(seg.to_owned());
            proof {
                assert(views_of(segs@) =~= views_of(segs_pre).push(path@.subrange(
                    start as int,
                    i as int,
                )));
                assert(path@.subrange(i + 1, i + 1) =~= Seq::<char>::empty());
                assert(views_of(segs@).push(path@.subrange(i + 1, i + 1))
                    =~= split_segments(path@.take(i + 1)));
            }
            start = i + 1;
        } else {
            proof {
                let prev = split_segments(path@.take(i as int));
                lemma_split_segments_len(path@.take(i as int));
                assert(prev.last() == path@.subrange(start as int, i as int));
                assert(path@.subrange(start as int, i + 1) =~= path@.subrange(
                    start as int,
                    i as int,
                ).push(path@[i as int]));
                assert(views_of(segs@).push(path@.subrange(start as int, i + 1))
                    =~= split_segments(path@.take(i + 1)));
            }
        }
        i = i + 1;
    }
    let seg = path.substring_char(start, len);
    let ghost segs_pre = segs@;
    segs.push(seg.to_owned());
    proof {
        assert(path@.take(len as int) =~= path@);
        assert(views_of(segs@) =~= views_of(segs_pre).push(path@.subrange(
            start as int,
            len as int,
        )));
    }
    segs
}

/// Tests whether `s` is the one-character segment `.`.
fn is_dot(s: &String) -> (r: bool)
    ensures
        r == (s@ == dot()),
{
    let st = s.as_str();
    if st.unicode_len() == 1 {
        let r = st.get_char(0) == '.';
        proof {
            if r {
                assert(s@ =~= dot());
            }
        }
        r
    } else {
        false
    }
}

/// Tests whether `s` is the two-character segment `..`.
fn is_dot_dot(s: &String) -> (r: bool)
    ensures
        r == (s@ == dot_dot()),
{
    let st = s.as_str();
    if st.unicode_len() == 2 {
        let r = st.get_char(0) == '.' && st.get_char(1) == '.';
        proof {
            if r {
                assert(s@ =~= dot_dot());
            }
        }
        r
    } else {
        false
    }
}

/// Yields `path`'s components in reverse order (basename first), resolving
/// `.` and `..` segments and silently dropping `..` segments that would climb
/// past the start of the path.
pub fn reverse_components(path: &str) -> (components: Vec<String>)
    ensures
        views_of(components@) == rev_components(path@),
{
    let segs = split_path(path);
    let mut out: Vec<String> = Vec::new();
    let mut skip: usize = 0;
    let mut i: usize = segs.len();
    proof {
        assert(views_of(segs@).take(i as int) =~= views_of(segs@));
        assert(views_of(out@) + normalize_rev(views_of(segs@), 0) =~= normalize_rev(
            views_of(segs@),
            0,
        ));
    }
    while i > 0
        invariant
            i <= segs.len(),
            skip <= segs.len() - i,
            views_of(out@) + normalize_rev(views_of(segs@).take(i as int), skip as nat)
                == rev_components(path@),
        decreases i,
    {
        i = i - 1;
        proof {
            assert(views_of(segs@).take(i + 1).drop_last() =~= views_of(segs@).take(i as int));
            assert(views_of(segs@).take(i + 1).last() == segs@[i as int]@);
        }
        let seg = &segs[i];
        if is_dot(seg) {
            // dropped without effect
        } else if is_dot_dot(seg) {
            skip = skip + 1;
        } else if skip > 0 {
            skip = skip - 1;
        } else {
            let ghost out_pre = out@;
            out.push(seg.clone());
            proof {
                assert(views_of(out@) =~= views_of(out_pre).push(seg@));
                assert(views_of(out_pre) + (seq![seg@] + normalize_rev(
                    views_of(segs@).take(i as int),
                    0,
                )) =~= views_of(out@) + normalize_rev(views_of(segs@).take(i as int), 0));
            }
        }
    }
    proof {
        assert(views_of(segs@).take(0) =~= Seq::<Seq<char>>::empty());
        assert(views_of(out@) + normalize_rev(Seq::<Seq<char>>::empty(), skip as nat) =~= views_of(
            out@,
        ));
    }
    out
}

} // verus!
