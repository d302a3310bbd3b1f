use vstd::prelude::*;
use crate::matching::{
    matches_at, accepted, accepted_from, occurrence_count, count_accepted, lemma_accepted_from_shape,
    lemma_prefix_accepted_twice, lemma_first_accepted,
};

verus! {

/// `w` is worth collapsing in `s`: at least two symbols long, with at least
/// two accepted (non-overlapping) occurrences.
pub open spec fn is_candidate(s: Seq<usize>, w: Seq<usize>) -> bool {
    w.len() >= 2 && occurrence_count(s, w) >= 2
}

/// The gain of collapsing `w` in `s`: its length times its accepted
/// occurrence count.
pub open spec fn score(s: Seq<usize>, w: Seq<usize>) -> nat {
    w.len() * occurrence_count(s, w)
}

/// Some substring of `s` is worth collapsing.
pub open spec fn has_candidate(s: Seq<usize>) -> bool {
    exists|w: Seq<usize>| is_candidate(s, w)
}

/// Where the first accepted occurrence of `w` in `s` starts.
pub open spec fn first_occurrence(s: Seq<usize>, w: Seq<usize>) -> int {
    accepted(s, w)[0]
}

/// The window of `s` of length `l` at offset `p`.
pub open spec fn window(s: Seq<usize>, p: int, l: int) -> Seq<usize> {
    s.subrange(p, p + l)
}

/// The accepted occurrences of `w` from `i` cover no more than the rest of
/// `s`.
proof fn lemma_count_bound(s: Seq<usize>, w: Seq<usize>, i: int)
    requires
        0 <= i <= s.len(),
        w.len() > 0,
    ensures
        accepted_from(s, w, i).len() * w.len() <= s.len() - i,
    decreases s.len() - i,
{
    if i + w.len() > s.len() {
    } else if matches_at(s, w, i) {
        lemma_count_bound(s, w, i + w.len());
        let c = accepted_from(s, w, i + w.len()).len();
        assert((c + 1) * w.len() == c * w.len() + w.len()) by (nonlinear_arith);
    } else {
        lemma_count_bound(s, w, i + 1);
    }
}

/// A candidate is the window at its first accepted occurrence.
pub proof fn lemma_candidate_is_window(s: Seq<usize>, w: Seq<usize>) -> (p: int)
    requires
        is_candidate(s, w),
    ensures
        p == first_occurrence(s, w),
        0 <= p,
        p + w.len() <= s.len(),
        w == window(s, p, w.len() as int),
        2 * w.len() <= s.len(),
{
    lemma_accepted_from_shape(s, w, 0);
    lemma_count_bound(s, w, 0);
    assert(occurrence_count(s, w) * w.len() >= 2 * w.len()) by (nonlinear_arith)
        requires
            occurrence_count(s, w) >= 2,
    ;
    accepted(s, w)[0]
}

/// Copy of the window of `seq` of length `l` at offset `p`.
fn copy_window(seq: &[usize], p: usize, l: usize) -> (r: Vec<usize>)
    requires
        p + l <= seq@.len(),
    ensures
        r@ == window(seq@, p as int, l as int),
{
    let n = seq.len();
    let mut r: Vec<usize> = Vec::new();
    for k in 0..l
        invariant
            n == seq@.len(),
            p + l <= n,
            r@ == seq@.subrange(p as int, p + k),
    {
        r.push(seq[p + k]);
        assert(seq@.subrange(p as int, p + k + 1) == seq@.subrange(p as int, p + k).push(
            seq@[p + k],
        ));
    }
    r
}

/// The substring of `seq` whose collapse gains most (largest length times
/// accepted occurrence count), or `None` when no substring of length two or
/// more has two non-overlapping occurrences. Of several with the best score,
/// the shortest wins, and of those the one whose first occurrence comes
/// first.
///
/// Lengths are tried from two up to and including half the sequence's
/// length, since a substring of exactly half the length can still occur
/// twice. An occurrence counts when it starts at or after the end of the last
/// counted one (`start >= last + len`). The search stops at the first length
/// with no candidate; this never loses a result, because a longer substring
/// with two non-overlapping occurrences has a prefix of that length with two.
pub fn find_max_compressable_seq(seq: &[usize]) -> (r: Option<Vec<usize>>)
    ensures
        r is None <==> !has_candidate(seq@),
        r matches Some(w) ==> is_candidate(seq@, w@),
        r matches Some(w) ==> forall|v: Seq<usize>|
            #[trigger] is_candidate(seq@, v) ==> score(seq@, v) <= score(seq@, w@),
        r matches Some(w) ==> forall|v: Seq<usize>|
            #[trigger] is_candidate(seq@, v) && v.len() < w@.len() ==> score(seq@, v) < score(
                seq@,
                w@,
            ),
        r matches Some(w) ==> forall|v: Seq<usize>|
            #[trigger] is_candidate(seq@, v) && v.len() == w@.len() && score(seq@, v) == score(
                seq@,
                w@,
            ) ==> first_occurrence(seq@, w@) <= first_occurrence(seq@, v),
{
    let ghost s = seq@;
    let n = seq.len();
    let mut best: Option<Vec<usize>> = None;
    let mut best_score: usize = 0;
    let mut l: usize = 2;
    let mut exhausted = false;
    let ghost mut best_start: int = 0;
    loop
        invariant_except_break
            !exhausted,
        invariant
            s == seq@,
            n == s.len(),
            2 <= l,
            best is None ==> best_score == 0,
            exhausted ==> 2 * l <= n,
            exhausted ==> forall|p: int|
                0 <= p && p + l <= n ==> !#[trigger] is_candidate(s, window(s, p, l as int)),
            forall|l2: int, p: int|
                2 <= l2 < l && 0 <= p && p + l2 <= n && #[trigger] is_candidate(s, window(s, p, l2))
                    ==> score(s, window(s, p, l2)) <= best_score,
            best is None ==> forall|l2: int, p: int|
                2 <= l2 < l && 0 <= p && p + l2 <= n ==> !#[trigger] is_candidate(
                    s,
                    window(s, p, l2),
                ),
            best matches Some(b) ==> is_candidate(s, b@) && score(s, b@) == best_score && b@.len()
                < l,
            best matches Some(b) ==> forall|l2: int, p: int|
                2 <= l2 < b@.len() && 0 <= p && p + l2 <= n && #[trigger] is_candidate(
                    s,
                    window(s, p, l2),
                ) ==> score(s, window(s, p, l2)) < best_score,
            best matches Some(b) ==> 0 <= best_start && best_start + b@.len() <= n && b@ == window(
                s,
                best_start,
                b@.len() as int,
            ) && forall|p: int|
                0 <= p < best_start && #[trigger] is_candidate(s, window(s, p, b@.len() as int))
                    ==> score(s, window(s, p, b@.len() as int)) < best_score,
        ensures
            exhausted || l > n / 2,
        decreases n - l,
    {
        if l > n / 2 {
            break;
        }
        let ghost old_score = best_score;
        let ghost old_best = best;
        let mut found = false;
        let mut start: usize = 0;
        while start <= n - l
            invariant
                s == seq@,
                n == s.len(),
                2 <= l,
                2 * l <= n,
                start <= n - l + 1,
                old_score <= best_score,
                best is None ==> best_score == 0,
                old_best is None ==> old_score == 0,
                !found ==> best == old_best && best_score == old_score,
                best is None ==> forall|p: int|
                    0 <= p < start ==> !#[trigger] is_candidate(s, window(s, p, l as int)),
                !found ==> forall|p: int|
                    0 <= p < start ==> !#[trigger] is_candidate(s, window(s, p, l as int)),
                forall|p: int|
                    0 <= p < start && #[trigger] is_candidate(s, window(s, p, l as int)) ==> score(
                        s,
                        window(s, p, l as int),
                    ) <= best_score,
                forall|l2: int, p: int|
                    2 <= l2 < l && 0 <= p && p + l2 <= n && #[trigger] is_candidate(
                        s,
                        window(s, p, l2),
                    ) ==> score(s, window(s, p, l2)) <= old_score,
                old_best is None ==> forall|l2: int, p: int|
                    2 <= l2 < l && 0 <= p && p + l2 <= n ==> !#[trigger] is_candidate(
                        s,
                        window(s, p, l2),
                    ),
                old_best matches Some(b) ==> is_candidate(s, b@) && score(s, b@) == old_score
                    && b@.len() < l,
                old_best matches Some(b) ==> forall|l2: int, p: int|
                    2 <= l2 < b@.len() && 0 <= p && p + l2 <= n && #[trigger] is_candidate(
                        s,
                        window(s, p, l2),
                    ) ==> score(s, window(s, p, l2)) < old_score,
                best is None ==> old_best is None,
                best matches Some(b) ==> is_candidate(s, b@) && score(s, b@) == best_score
                    && b@.len() <= l,
                best matches Some(b) ==> forall|l2: int, p: int|
                    2 <= l2 < b@.len() && 0 <= p && p + l2 <= n && #[trigger] is_candidate(
                        s,
                        window(s, p, l2),
                    ) ==> score(s, window(s, p, l2)) < best_score,
                best matches Some(b) ==> 0 <= best_start && best_start + b@.len() <= n && b@ == window(
                    s,
                    best_start,
                    b@.len() as int,
                ) && forall|p: int|
                    0 <= p < best_start && #[trigger] is_candidate(s, window(s, p, b@.len() as int))
                        ==> score(s, window(s, p, b@.len() as int)) < best_score,
            decreases n - l + 1 - start,
        {
            let w = copy_window(seq, start, l);
            let c = count_accepted(seq, w.as_slice());
            if c >= 2 {
                found = true;
                proof {
                    lemma_count_bound(s, w@, 0);
                    assert(c * l <= n);
                    assert(l * c == c * l) by (nonlinear_arith);
                }
                let sc = l * c;
                assert(score(s, w@) == sc);
                if best.is_none() || sc > best_score {
                        best = Some(w);
                    best_score = sc;
                    proof {
                        best_start = start as int;
                    }
                }
            }
            start = start + 1;
        }
        if !found {
            exhausted = true;
            break;
        }
        l = l + 1;
    }
    proof {
        assert forall|v: Seq<usize>| #[trigger] is_candidate(s, v) implies best is Some && score(s, v)
            <= best_score && (v.len() < best->0@.len() ==> score(s, v) < best_score) by {
            let p = lemma_candidate_is_window(s, v);
            let lv = v.len() as int;
            if lv >= l {
                lemma_prefix_accepted_twice(s, v, l as int);
                let u = v.subrange(0, l as int);
                assert(u == window(s, p, l as int));
                assert(is_candidate(s, u));
                assert(exhausted);
                assert(!is_candidate(s, window(s, p, l as int)));
            }
            assert(lv < l);
            assert(is_candidate(s, window(s, p, lv)));
            assert(score(s, window(s, p, lv)) <= best_score);
        }
        if best is Some {
            let b = best->0@;
            assert forall|v: Seq<usize>|
                #[trigger] is_candidate(s, v) && v.len() == b.len() && score(s, v) == score(s, b)
                    implies first_occurrence(s, b) <= first_occurrence(s, v) by {
                let p = lemma_candidate_is_window(s, v);
                assert(is_candidate(s, window(s, p, b.len() as int)));
                assert(p >= best_start);
                assert(s.subrange(best_start, best_start + b.len()) == b);
                lemma_first_accepted(s, b, 0, best_start);
            }
        }
    }
    best
}

} // verus!
