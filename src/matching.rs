use vstd::prelude::*;

verus! {

/// `w` occurs in `s` starting at offset `i`.
pub open spec fn matches_at(s: Seq<usize>, w: Seq<usize>, i: int) -> bool {
    0 <= i && i + w.len() <= s.len() && s.subrange(i, i + w.len()) == w
}

/// The start offsets of the occurrences of `w` in `s` accepted by a left to
/// right scan from offset `i`: an occurrence is accepted when it starts at or
/// after the end of the previously accepted one.
pub open spec fn accepted_from(s: Seq<usize>, w: Seq<usize>, i: int) -> Seq<int>
    decreases s.len() - i,
{
    if w.len() == 0 || i < 0 || i + w.len() > s.len() {
        Seq::empty()
    } else if matches_at(s, w, i) {
        seq![i].add(accepted_from(s, w, i + w.len()))
    } else {
        accepted_from(s, w, i + 1)
    }
}

/// The accepted (non-overlapping, left to right) occurrences of `w` in `s`.
pub open spec fn accepted(s: Seq<usize>, w: Seq<usize>) -> Seq<int> {
    accepted_from(s, w, 0)
}

/// The number of accepted occurrences of `w` in `s`.
pub open spec fn occurrence_count(s: Seq<usize>, w: Seq<usize>) -> nat {
    accepted(s, w).len()
}

/// The suffix of `s` from offset `i` with every accepted occurrence of `w`
/// replaced by the single index `t`.
pub open spec fn collapse_from(s: Seq<usize>, w: Seq<usize>, t: usize, i: int) -> Seq<usize>
    decreases s.len() - i,
{
    if i < 0 || i >= s.len() {
        Seq::empty()
    } else if w.len() > 0 && matches_at(s, w, i) {
        seq![t].add(collapse_from(s, w, t, i + w.len()))
    } else {
        seq![s[i]].add(collapse_from(s, w, t, i + 1))
    }
}

/// `s` with every accepted occurrence of `w` replaced by the index `t`.
pub open spec fn collapse_seq(s: Seq<usize>, w: Seq<usize>, t: usize) -> Seq<usize> {
    collapse_from(s, w, t, 0)
}

/// Every accepted offset is an occurrence at or after `i`, and each one starts
/// at least `w.len()` past the one before it.
pub proof fn lemma_accepted_from_shape(s: Seq<usize>, w: Seq<usize>, i: int)
    requires
        i >= 0,
    ensures
        forall|k: int|
            0 <= k < accepted_from(s, w, i).len() ==> #[trigger] accepted_from(s, w, i)[k] >= i
                && matches_at(s, w, accepted_from(s, w, i)[k]),
        forall|j: int, k: int|
            0 <= j < k < accepted_from(s, w, i).len() ==> #[trigger] accepted_from(s, w, i)[k]
                >= #[trigger] accepted_from(s, w, i)[j] + w.len(),
    decreases s.len() - i,
{
    if w.len() == 0 || i + w.len() > s.len() {
    } else if matches_at(s, w, i) {
        lemma_accepted_from_shape(s, w, i + w.len());
        let rest = accepted_from(s, w, i + w.len());
        let a = accepted_from(s, w, i);
        assert(a == seq![i].add(rest));
        assert forall|j: int, k: int| 0 <= j < k < a.len() implies #[trigger] a[k] >= #[trigger] a[j]
            + w.len() by {
            if j == 0 {
                assert(a[k] == rest[k - 1]);
            } else {
                assert(a[k] == rest[k - 1] && a[j] == rest[j - 1]);
            }
        }
        assert forall|k: int| 0 <= k < a.len() implies #[trigger] a[k] >= i && matches_at(s, w, a[k]) by {
            if k > 0 {
                assert(a[k] == rest[k - 1]);
            }
        }
    } else {
        lemma_accepted_from_shape(s, w, i + 1);
        assert(accepted_from(s, w, i) == accepted_from(s, w, i + 1));
    }
}

/// Where no occurrence starts in `[i, p)`, the scan from `i` accepts what the
/// scan from `p` accepts.
pub proof fn lemma_accepted_skip(s: Seq<usize>, w: Seq<usize>, i: int, p: int)
    requires
        0 <= i <= p,
        forall|q: int| i <= q < p ==> !matches_at(s, w, q),
    ensures
        accepted_from(s, w, i) == accepted_from(s, w, p),
    decreases p - i,
{
    if i < p {
        lemma_accepted_skip(s, w, i + 1, p);
        if w.len() == 0 || i + w.len() > s.len() {
            assert(p + w.len() > s.len() || w.len() == 0);
        } else {
            assert(!matches_at(s, w, i));
        }
    }
}

/// An occurrence at or after `i` makes the scan from `i` accept at least one.
pub proof fn lemma_accepted_nonempty(s: Seq<usize>, w: Seq<usize>, i: int, q: int)
    requires
        0 <= i <= q,
        w.len() > 0,
        matches_at(s, w, q),
    ensures
        accepted_from(s, w, i).len() >= 1,
    decreases q - i,
{
    if !matches_at(s, w, i) {
        lemma_accepted_nonempty(s, w, i + 1, q);
    }
}

/// The first offset accepted from `i` is the first occurrence at or after
/// `i`.
pub proof fn lemma_first_accepted(s: Seq<usize>, w: Seq<usize>, i: int, q: int)
    requires
        0 <= i <= q,
        w.len() > 0,
        matches_at(s, w, q),
    ensures
        accepted_from(s, w, i).len() >= 1,
        accepted_from(s, w, i)[0] <= q,
    decreases q - i,
{
    if !matches_at(s, w, i) {
        lemma_first_accepted(s, w, i + 1, q);
    }
}

/// Two non-overlapping occurrences at or after `i` make the scan from `i`
/// accept at least two.
pub proof fn lemma_accepted_two(s: Seq<usize>, w: Seq<usize>, i: int, p: int, q: int)
    requires
        0 <= i <= p,
        w.len() > 0,
        q >= p + w.len(),
        matches_at(s, w, p),
        matches_at(s, w, q),
    ensures
        accepted_from(s, w, i).len() >= 2,
    decreases p - i,
{
    if matches_at(s, w, i) {
        lemma_accepted_nonempty(s, w, i + w.len(), q);
    } else {
        lemma_accepted_two(s, w, i + 1, p, q);
    }
}

/// A sequence accepted twice has a prefix of any positive length that is
/// accepted twice as well.
pub proof fn lemma_prefix_accepted_twice(s: Seq<usize>, w: Seq<usize>, l: int)
    requires
        0 < l <= w.len(),
        occurrence_count(s, w) >= 2,
    ensures
        occurrence_count(s, w.subrange(0, l)) >= 2,
{
    lemma_accepted_from_shape(s, w, 0);
    let a = accepted(s, w);
    let v = w.subrange(0, l);
    let p = a[0];
    let q = a[1];
    assert(s.subrange(p, p + l) == s.subrange(p, p + w.len()).subrange(0, l));
    assert(s.subrange(q, q + l) == s.subrange(q, q + w.len()).subrange(0, l));
    lemma_accepted_two(s, v, 0, p, q);
}

/// The occurrences of `w` that a collapse accepts are genuine occurrences,
/// in increasing order, and any two of them start at least `w.len()` apart,
/// so no two overlap.
pub proof fn accepted_occurrences_do_not_overlap(s: Seq<usize>, w: Seq<usize>)
    requires
        w.len() > 0,
    ensures
        forall|k: int| 0 <= k < accepted(s, w).len() ==> matches_at(s, w, #[trigger] accepted(s, w)[k]),
        forall|j: int, k: int|
            0 <= j < k < accepted(s, w).len() ==> #[trigger] accepted(s, w)[k] >= #[trigger] accepted(
                s,
                w,
            )[j] + w.len(),
{
    lemma_accepted_from_shape(s, w, 0);
}

/// Position of the first occurrence of `w` in `s` at or after `from`.
pub fn next_match(s: &[usize], w: &[usize], from: usize) -> (r: Option<usize>)
    requires
        w@.len() > 0,
    ensures
        match r {
            Some(p) => from <= p && matches_at(s@, w@, p as int) && forall|q: int|
                from <= q < p ==> !matches_at(s@, w@, q),
            None => forall|q: int| from <= q ==> !matches_at(s@, w@, q),
        },
{
    let n = s.len();
    let l = w.len();
    if l > n {
        return None;
    }
    let mut p = from;
    while p <= n - l
        invariant
            n == s@.len(),
            l == w@.len(),
            0 < l <= n,
            from <= p,
            forall|q: int| from <= q < p ==> !matches_at(s@, w@, q),
        decreases n - p,
    {
        let mut k: usize = 0;
        while k < l && s[p + k] == w[k]
            invariant
                p + l <= n,
                k <= l,
                l == w@.len(),
                n == s@.len(),
                forall|j: int| 0 <= j < k ==> s@[p + j] == w@[j],
            decreases l - k,
        {
            k = k + 1;
        }
        if k == l {
            assert(s@.subrange(p as int, p + l) == w@);
            return Some(p);
        }
        assert(s@.subrange(p as int, p + l)[k as int] != w@[k as int]);
        p = p + 1;
    }
    None
}

/// The number of accepted occurrences of `w` in `s`.
pub fn count_accepted(s: &[usize], w: &[usize]) -> (r: usize)
    requires
        w@.len() > 0,
    ensures
        r == occurrence_count(s@, w@),
{
    let n = s.len();
    let mut count: usize = 0;
    let mut pos: usize = 0;
    proof {
        lemma_accepted_from_shape(s@, w@, 0);
    }
    loop
        invariant
            w@.len() > 0,
            n == s@.len(),
            pos <= n,
            count + accepted_from(s@, w@, pos as int).len() == occurrence_count(s@, w@),
            count <= pos,
        decreases s@.len() - pos,
    {
        match next_match(s, w, pos) {
            Some(p) => {
                proof {
                    lemma_accepted_skip(s@, w@, pos as int, p as int);
                    assert(p + w@.len() <= s@.len());
                }
                count = count + 1;
                pos = p + w.len();
            },
            None => {
                proof {
                    if accepted_from(s@, w@, pos as int).len() > 0 {
                        lemma_accepted_from_shape(s@, w@, pos as int);
                        assert(matches_at(s@, w@, accepted_from(s@, w@, pos as int)[0]));
                    }
                }
                return count;
            },
        }
    }
}

} // verus!
