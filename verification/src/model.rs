//! The mathematical model of splitting: where the separator occurs, which
//! runs a scan produces, and how the runs joined with the separator give
//! back the input.

use vstd::prelude::*;

use crate::splitter::SplitType;

verus! {

/// The separator `sep` occurs in `s` at position `i`.
pub open spec fn match_at(s: Seq<u8>, sep: Seq<u8>, i: int) -> bool {
    &&& 0 <= i
    &&& i + sep.len() <= s.len()
    &&& s.subrange(i, i + sep.len() as int) == sep
}

/// The position of the leftmost occurrence of `sep` in `s` at or after
/// position `p`, or `-1` when there is none.
pub open spec fn first_match(s: Seq<u8>, sep: Seq<u8>, p: int) -> int
    decreases s.len() - p
        when 0 <= p && sep.len() >= 1
{
    if p + sep.len() > s.len() {
        -1
    } else if match_at(s, sep, p) {
        p
    } else {
        first_match(s, sep, p + 1)
    }
}

/// `first_match` really is the leftmost occurrence: it lies at or after `p`,
/// it is an occurrence, nothing before it (from `p`) is one, and when it is
/// `-1` there is no occurrence at or after `p` at all.
pub proof fn lemma_first_match(s: Seq<u8>, sep: Seq<u8>, p: int)
    requires
        0 <= p,
        sep.len() >= 1,
    ensures
        first_match(s, sep, p) == -1 || first_match(s, sep, p) >= p,
        first_match(s, sep, p) >= 0 ==> match_at(s, sep, first_match(s, sep, p)),
        forall|j: int| p <= j < first_match(s, sep, p) ==> !match_at(s, sep, j),
        first_match(s, sep, p) == -1 ==> forall|j: int| p <= j ==> !match_at(s, sep, j),
    decreases s.len() - p,
{
    if p + sep.len() > s.len() {
        assert forall|j: int| p <= j implies !match_at(s, sep, j) by {}
    } else if match_at(s, sep, p) {
    } else {
        lemma_first_match(s, sep, p + 1);
    }
}

/// Skipping positions that hold no occurrence does not move the leftmost
/// occurrence.
proof fn lemma_first_match_skip(s: Seq<u8>, sep: Seq<u8>, p: int, q: int)
    requires
        0 <= p <= q,
        sep.len() >= 1,
        forall|j: int| p <= j < q ==> !match_at(s, sep, j),
    ensures
        first_match(s, sep, p) == first_match(s, sep, q),
    decreases q - p,
{
    if p < q {
        lemma_first_match_skip(s, sep, p + 1, q);
    }
}

/// A position whose byte is not the separator's first byte cannot open an
/// occurrence, so skipping such positions does not move the leftmost one.
pub(crate) proof fn lemma_skipped_bytes_no_match(s: Seq<u8>, sep: Seq<u8>, p: int, q: int)
    requires
        0 <= p <= q <= s.len(),
        sep.len() >= 1,
        forall|j: int| p <= j < q ==> s[j] != sep[0],
    ensures
        first_match(s, sep, p) == first_match(s, sep, q),
{
    assert forall|j: int| p <= j < q implies !match_at(s, sep, j) by {
        if match_at(s, sep, j) {
            assert(s.subrange(j, j + sep.len() as int)[0] == s[j]);
        }
    }
    lemma_first_match_skip(s, sep, p, q);
}

/// Adjacent subranges concatenate to the enclosing subrange.
pub(crate) proof fn lemma_subrange_concat(s: Seq<u8>, a: int, b: int, c: int)
    requires
        0 <= a <= b <= c <= s.len(),
    ensures
        s.subrange(a, b) + s.subrange(b, c) == s.subrange(a, c),
{
    assert(s.subrange(a, b) + s.subrange(b, c) =~= s.subrange(a, c));
}

/// The content of the run a scan at position `p` produces: the bytes up to
/// the leftmost separator occurrence, or the rest of the input when there
/// is none.
pub open spec fn run_content(s: Seq<u8>, sep: Seq<u8>, p: int) -> Seq<u8> {
    if first_match(s, sep, p) < 0 {
        s.subrange(p, s.len() as int)
    } else {
        s.subrange(p, first_match(s, sep, p))
    }
}

/// Where the scan stands after producing the run at position `p`: just past
/// the consumed occurrence, or at the end of the input.
pub open spec fn next_scan_pos(s: Seq<u8>, sep: Seq<u8>, p: int) -> int {
    if first_match(s, sep, p) < 0 {
        s.len() as int
    } else {
        first_match(s, sep, p) + sep.len()
    }
}

/// All runs a scan from position `p` produces, in emission order.
pub open spec fn split_runs(s: Seq<u8>, sep: Seq<u8>, p: int) -> Seq<Seq<u8>>
    decreases s.len() - p
        when 0 <= p <= s.len() && sep.len() >= 1
{
    if first_match(s, sep, p) < 0 {
        seq![s.subrange(p, s.len() as int)]
    } else {
        proof {
            lemma_first_match(s, sep, p);
        }
        seq![s.subrange(p, first_match(s, sep, p))] + split_runs(
            s,
            sep,
            first_match(s, sep, p) + sep.len() as int,
        )
    }
}

/// The labels a scan from position `p` attaches to its runs, in emission
/// order; `started` says whether an earlier call already consumed an
/// occurrence.
pub open spec fn scan_classes(s: Seq<u8>, sep: Seq<u8>, p: int, started: bool) -> Seq<SplitType>
    decreases s.len() - p
        when 0 <= p <= s.len() && sep.len() >= 1
{
    if first_match(s, sep, p) < 0 {
        seq![SplitType::Suffix]
    } else {
        proof {
            lemma_first_match(s, sep, p);
        }
        seq![
            if started {
                SplitType::FullMatch
            } else {
                SplitType::Prefix
            },
        ] + scan_classes(s, sep, first_match(s, sep, p) + sep.len() as int, true)
    }
}

/// The runs joined back together with the separator between them.
pub open spec fn join_runs(runs: Seq<Seq<u8>>, sep: Seq<u8>) -> Seq<u8>
    decreases runs.len(),
{
    if runs.len() == 0 {
        Seq::empty()
    } else if runs.len() == 1 {
        runs[0]
    } else {
        runs[0] + sep + join_runs(runs.subrange(1, runs.len() as int), sep)
    }
}

/// A scan always produces at least one run, and the first one holds the
/// bytes up to the leftmost occurrence.
pub proof fn lemma_split_runs_first(s: Seq<u8>, sep: Seq<u8>, p: int)
    requires
        sep.len() >= 1,
        0 <= p <= s.len(),
    ensures
        split_runs(s, sep, p).len() >= 1,
        split_runs(s, sep, p)[0] == run_content(s, sep, p),
        scan_classes(s, sep, p, false).len() == split_runs(s, sep, p).len(),
        scan_classes(s, sep, p, true).len() == split_runs(s, sep, p).len(),
    decreases s.len() - p,
{
    lemma_first_match(s, sep, p);
    if first_match(s, sep, p) >= 0 {
        lemma_split_runs_first(s, sep, first_match(s, sep, p) + sep.len() as int);
    }
}

proof fn lemma_join_reconstructs(s: Seq<u8>, sep: Seq<u8>, p: int)
    requires
        sep.len() >= 1,
        0 <= p <= s.len(),
    ensures
        join_runs(split_runs(s, sep, p), sep) == s.subrange(p, s.len() as int),
    decreases s.len() - p,
{
    let fm: int = first_match(s, sep, p);
    lemma_first_match(s, sep, p);
    if fm >= 0 {
        let q: int = fm + sep.len() as int;
        let rest = split_runs(s, sep, q);
        let runs = split_runs(s, sep, p);
        lemma_split_runs_first(s, sep, q);
        lemma_join_reconstructs(s, sep, q);
        assert(runs.subrange(1, runs.len() as int) =~= rest);
        lemma_subrange_concat(s, p, fm, q);
        lemma_subrange_concat(s, p, q, s.len() as int);
        assert(s.subrange(fm, q) == sep);
    }
}

/// The split loses nothing: for every input and every non-empty separator,
/// concatenating the runs in emission order with one separator occurrence
/// between each adjacent pair reconstructs the input exactly: no byte is
/// duplicated, dropped or reordered, and only the consumed occurrences are
/// elided.
pub proof fn lemma_lossless(s: Seq<u8>, sep: Seq<u8>)
    requires
        sep.len() >= 1,
    ensures
        join_runs(split_runs(s, sep, 0), sep) == s,
{
    lemma_join_reconstructs(s, sep, 0);
    assert(s.subrange(0, s.len() as int) =~= s);
}

proof fn lemma_classes_shape(s: Seq<u8>, sep: Seq<u8>, p: int, started: bool)
    requires
        sep.len() >= 1,
        0 <= p <= s.len(),
    ensures
        ({
            let cs = scan_classes(s, sep, p, started);
            &&& cs.len() >= 1
            &&& cs[cs.len() - 1] == SplitType::Suffix
            &&& forall|i: int| 0 <= i < cs.len() - 1 ==> cs[i] != SplitType::Suffix
            &&& forall|i: int| 1 <= i < cs.len() - 1 ==> cs[i] == SplitType::FullMatch
            &&& (started ==> forall|i: int|
                0 <= i < cs.len() - 1 ==> cs[i] == SplitType::FullMatch)
            &&& (started ==> forall|i: int| 0 <= i < cs.len() ==> cs[i] != SplitType::Prefix)
            &&& forall|i: int| 1 <= i < cs.len() ==> cs[i] != SplitType::Prefix
            &&& (!started && cs.len() > 1 ==> cs[0] == SplitType::Prefix)
            &&& (first_match(s, sep, p) < 0 <==> cs.len() == 1)
            &&& (cs.len() == 1 ==> cs[0] == SplitType::Suffix)
        }),
    decreases s.len() - p,
{
    lemma_first_match(s, sep, p);
    if first_match(s, sep, p) >= 0 {
        lemma_classes_shape(s, sep, first_match(s, sep, p) + sep.len() as int, true);
    }
}

/// How the labels of a complete scan fall: they end with exactly
/// one `Suffix` and hold no other; when the separator never occurs the
/// scan is that single `Suffix` run and no `Prefix` is produced; otherwise
/// the first label is the one `Prefix`, no later run carries it, and every
/// run between the `Prefix` and the `Suffix` is a `FullMatch`.
pub proof fn lemma_classification(s: Seq<u8>, sep: Seq<u8>)
    requires
        sep.len() >= 1,
    ensures
        ({
            let cs = scan_classes(s, sep, 0, false);
            &&& cs.len() >= 1
            &&& cs[cs.len() - 1] == SplitType::Suffix
            &&& forall|i: int| 0 <= i < cs.len() - 1 ==> cs[i] != SplitType::Suffix
            &&& (first_match(s, sep, 0) < 0 <==> cs.len() == 1)
            &&& (cs.len() == 1 ==> cs[0] == SplitType::Suffix)
            &&& (cs.len() > 1 ==> cs[0] == SplitType::Prefix)
            &&& forall|i: int| 1 <= i < cs.len() ==> cs[i] != SplitType::Prefix
            &&& forall|i: int| 1 <= i < cs.len() - 1 ==> cs[i] == SplitType::FullMatch
        }),
{
    lemma_classes_shape(s, sep, 0, false);
}

/// A separator occurrence immediately followed by an
/// extra byte equal to the separator's first byte — but not by a full
/// second occurrence — is consumed exactly once: the run before it is
/// empty, the scan resumes right after the occurrence, and the extra byte
/// is neither swallowed nor skipped: it stands as data at the head of the
/// following run.
pub proof fn lemma_overlap_correctness(s: Seq<u8>, sep: Seq<u8>, p: int)
    requires
        sep.len() >= 1,
        match_at(s, sep, p),
        p + sep.len() < s.len(),
        s[p + sep.len()] == sep[0],
        !match_at(s, sep, p + sep.len()),
    ensures
        ({
            let runs = split_runs(s, sep, p);
            &&& first_match(s, sep, p) == p
            &&& runs.len() >= 2
            &&& runs[0] == Seq::<u8>::empty()
            &&& runs[1].len() >= 1
            &&& runs[1][0] == sep[0]
        }),
{
    let q: int = p + sep.len() as int;
    lemma_first_match(s, sep, q);
    lemma_split_runs_first(s, sep, q);
    assert(split_runs(s, sep, p)[0] =~= Seq::<u8>::empty());
    let fm2: int = first_match(s, sep, q);
    if fm2 >= 0 {
        assert(fm2 != q);
        assert(s.subrange(q, fm2)[0] == s[q]);
    } else {
        assert(s.subrange(q, s.len() as int)[0] == s[q]);
    }
}

} // verus!
