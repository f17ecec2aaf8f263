//! Splitting a slash-separated path into its segments.
use vstd::prelude::*;
use crate::tree::names_view;

verus! {

/// The segments of `s[start..]`, where the segment being read began at
/// `start` and the next character to read is `s[i]`: the maximal runs of
/// characters other than `/`, empty runs left out.
pub open spec fn split_from(s: Seq<char>, start: int, i: int) -> Seq<Seq<char>>
    decreases s.len() - i,
{
    if i >= s.len() {
        if start < s.len() {
            seq![s.subrange(start, s.len() as int)]
        } else {
            Seq::empty()
        }
    } else if s[i] == '/' {
        (if start < i {
            seq![s.subrange(start, i)]
        } else {
            Seq::empty()
        }) + split_from(s, i + 1, i + 1)
    } else {
        split_from(s, start, i + 1)
    }
}

/// The segments of a path: its maximal runs of characters other than `/`,
/// root-most first. Empty components (a leading, trailing or doubled `/`)
/// give no segment.
pub open spec fn path_segments(s: Seq<char>) -> Seq<Seq<char>> {
    split_from(s, 0, 0)
}

/// Splits `path` on `/` into its nonempty segments, root-most first.
pub fn split_path(path: &str) -> (segs: Vec<String>)
    ensures
        names_view(segs@) == path_segments(path@),
{
    let n = path.unicode_len();
    let mut out: Vec<String> = Vec::new();
    let mut start: usize = 0;
    let mut i: usize = 0;
    assert(names_view(out@) =~= Seq::empty());
    while i < n
        invariant
            n == path@.len(),
            start <= i <= n,
            names_view(out@) + split_from(path@, start as int, i as int) == path_segments(path@),
        decreases n - i,
    {
        let ghost before = names_view(out@);
        if path.get_char(i) == '/' {
            if start < i {
                let seg = path.substring_char(start, i).to_owned();
                out.push(seg);
                assert(names_view(out@) =~= before.push(seg@));
                assert(names_view(out@) + split_from(path@, i + 1, i + 1) =~= before + (seq![
                    seg@,
                ] + split_from(path@, i + 1, i + 1)));
            } else {
                assert(split_from(path@, start as int, i as int) =~= split_from(
                    path@,
                    i + 1,
                    i + 1,
                ));
            }
            start = i + 1;
        }
        i = i + 1;
    }
    if start < n {
        let ghost before = names_view(out@);
        let seg = path.substring_char(start, n).to_owned();
        out.push(seg);
        assert(names_view(out@) =~= before + seq![seg@]);
    } else {
        assert(names_view(out@) + Seq::<Seq<char>>::empty() =~= names_view(out@));
    }
    out
}

} // verus!
