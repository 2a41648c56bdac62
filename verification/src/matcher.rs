use vstd::prelude::*;

verus! {

/// The `/`-delimited segments of a path or pattern, in order.
///
/// Splitting is purely structural: there is no decoding, no normalization and
/// no coalescing of slashes, so `"/a/"` has three segments (two of them empty)
/// while `"/a"` has two. Every string has at least one segment; the empty
/// string has exactly one, itself empty.
pub open spec fn segments(s: Seq<char>) -> Seq<Seq<char>>
    decreases s.len(),
{
    if s.len() == 0 {
        seq![Seq::<char>::empty()]
    } else if s[0] == '/' {
        seq![Seq::<char>::empty()] + segments(s.drop_first())
    } else {
        let rest = segments(s.drop_first());
        seq![seq![s[0]] + rest[0]] + rest.drop_first()
    }
}

/// A wildcard segment is a pattern segment beginning with `:`.
pub open spec fn is_wildcard(seg: Seq<char>) -> bool {
    seg.len() > 0 && seg[0] == ':'
}

/// One pattern segment against one path segment: a wildcard matches
/// unconditionally, any other segment only its exact self.
pub open spec fn seg_matches(pat: Seq<char>, seg: Seq<char>) -> bool {
    is_wildcard(pat) || pat == seg
}

/// Structural match of a whole pattern against a whole path: the segment
/// counts agree and every pattern segment matches the path segment at the
/// same position.
pub open spec fn pattern_matches(pattern: Seq<char>, path: Seq<char>) -> bool {
    &&& segments(pattern).len() == segments(path).len()
    &&& forall|i: int|
        0 <= i < segments(pattern).len() ==> seg_matches(
            #[trigger] segments(pattern)[i],
            segments(path)[i],
        )
}

/// A pattern always matches its own text: every segment matches itself.
pub proof fn lemma_pattern_matches_self(p: Seq<char>)
    ensures
        pattern_matches(p, p),
{
}

/// Two strings can match structurally only when they split into the same
/// number of segments; differing segment counts rule a match out for every
/// pair of strings.
pub proof fn lemma_match_needs_equal_segments(pattern: Seq<char>, path: Seq<char>)
    ensures
        segments(pattern).len() != segments(path).len() ==> !pattern_matches(pattern, path),
{
}

proof fn lemma_segments_no_slash(s: Seq<char>)
    requires
        forall|k: int| 0 <= k < s.len() ==> s[k] != '/',
    ensures
        segments(s) == seq![s],
    decreases s.len(),
{
    if s.len() == 0 {
        assert(segments(s) =~~= seq![s]);
    } else {
        lemma_segments_no_slash(s.drop_first());
        assert(seq![s[0]] + s.drop_first() =~= s);
        assert(segments(s) =~~= seq![s]);
    }
}

proof fn lemma_segments_split_at(s: Seq<char>, k: int)
    requires
        0 <= k < s.len(),
        s[k] == '/',
        forall|j: int| 0 <= j < k ==> s[j] != '/',
    ensures
        segments(s) == seq![s.take(k)] + segments(s.skip(k + 1)),
    decreases k,
{
    if k == 0 {
        assert(s.take(0) =~= Seq::<char>::empty());
        assert(s.skip(1) =~= s.drop_first());
        assert(segments(s) =~~= seq![s.take(0)] + segments(s.skip(1)));
    } else {
        let t = s.drop_first();
        assert(t[k - 1] == '/');
        assert(forall|j: int| 0 <= j < k - 1 ==> t[j] != '/');
        lemma_segments_split_at(t, k - 1);
        assert(t.skip(k) =~= s.skip(k + 1));
        let rest = segments(t);
        assert(rest == seq![t.take(k - 1)] + segments(t.skip(k)));
        assert(rest[0] == t.take(k - 1));
        assert(rest.drop_first() =~= segments(t.skip(k)));
        assert(seq![s[0]] + t.take(k - 1) =~= s.take(k));
        assert(segments(s) =~~= seq![s.take(k)] + segments(s.skip(k + 1)));
    }
}

/// Splits a path or pattern into its `/`-delimited segments.
pub fn split_segments(s: &str) -> (segs: Vec<String>)
    ensures
        segs.deep_view() == segments(s@),
{
    let n = s.unicode_len();
    let mut segs: Vec<String> = Vec::new();
    let mut start: usize = 0;
    let mut i: usize = 0;
    proof {
        assert(s@.skip(0) =~= s@);
        assert(segs.deep_view() + segments(s@) =~~= segments(s@));
    }
    while i < n
        invariant
            start <= i <= n,
            n == s@.len(),
            forall|j: int| start <= j < i ==> s@[j] != '/',
            segments(s@) == segs.deep_view() + segments(s@.skip(start as int)),
        decreases n - i,
    {
        if s.get_char(i) == '/' {
            let seg = s.substring_char(start, i).to_owned();
            proof {
                let tail = s@.skip(start as int);
                lemma_segments_split_at(tail, i - start);
                assert(tail.take(i - start) =~= s@.subrange(start as int, i as int));
                assert(tail.skip(i - start + 1) =~= s@.skip(i + 1));
                assert(segs.deep_view().push(seg@) =~~= segs.deep_view() + seq![seg@]);
                assert(segments(s@) =~~= segs.deep_view().push(seg@) + segments(
                    s@.skip(i + 1),
                ));
            }
            let ghost old_segs = segs.deep_view();
            segs.push(seg);
            proof {
                assert(segs.deep_view() =~~= old_segs.push(seg@));
            }
            start = i + 1;
        }
        i += 1;
    }
    let last = s.substring_char(start, n).to_owned();
    proof {
        lemma_segments_no_slash(s@.skip(start as int));
        assert(s@.subrange(start as int, n as int) =~= s@.skip(start as int));
    }
    let ghost old_segs = segs.deep_view();
    segs.push(last);
    proof {
        assert(segs.deep_view() =~~= old_segs.push(last@));
        assert(segs.deep_view() =~~= segments(s@));
    }
    segs
}

/// Counts the `/`-delimited segments of a path or pattern.
pub fn count_segments(s: &str) -> (n: usize)
    ensures
        n == segments(s@).len(),
{
    let segs = split_segments(s);
    segs.len()
}

/// Decides whether a pattern matches a path, segment by segment.
///
/// Both strings are split on `/`; the match fails outright when the segment
/// counts differ, and otherwise every pattern segment must either begin with
/// `:` or equal the path segment at the same position.
pub fn matches(pattern: &str, path: &str) -> (r: bool)
    ensures
        r == pattern_matches(pattern@, path@),
{
    let pat_segs = split_segments(pattern);
    let path_segs = split_segments(path);
    if pat_segs.len() != path_segs.len() {
        return false;
    }
    let n = pat_segs.len();
    let mut i: usize = 0;
    while i < n
        invariant
            i <= n,
            n == pat_segs@.len() == path_segs@.len(),
            pat_segs.deep_view() == segments(pattern@),
            path_segs.deep_view() == segments(path@),
            segments(pattern@).len() == n,
            segments(path@).len() == n,
            forall|j: int|
                0 <= j < i ==> seg_matches(#[trigger] segments(pattern@)[j], segments(path@)[j]),
        decreases n - i,
    {
        let pat_seg: &String = &pat_segs[i];
        assert(pat_seg@ == segments(pattern@)[i as int]);
        assert(path_segs@[i as int]@ == segments(path@)[i as int]);
        let wildcard = pat_seg.as_str().unicode_len() > 0 && pat_seg.as_str().get_char(0) == ':';
        assert(wildcard == is_wildcard(segments(pattern@)[i as int]));
        if !wildcard && !(pat_segs[i] == path_segs[i]) {
            assert(!seg_matches(segments(pattern@)[i as int], segments(path@)[i as int]));
            return false;
        }
        i += 1;
    }
    true
}

} // verus!
