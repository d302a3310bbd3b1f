use vstd::prelude::*;
use crate::encoding::{Encoding, collapse_encoding, null_encoding, first_seen, null_table, null_sequence};
use crate::expand::{expand, lemma_collapse_len};
use crate::matching::{accepted, occurrence_count, collapse_seq, lemma_accepted_from_shape};
use crate::selector::{
    is_candidate, score, has_candidate, first_occurrence, find_max_compressable_seq,
    lemma_candidate_is_window,
};
use crate::token::TokenIter;

verus! {

/// `w` is the substring that the selector picks in `s`: a candidate of the
/// highest score, of those the shortest, and of those the one whose first
/// occurrence comes first.
pub open spec fn is_best(s: Seq<usize>, w: Seq<usize>) -> bool {
    &&& is_candidate(s, w)
    &&& forall|v: Seq<usize>| #[trigger] is_candidate(s, v) ==> score(s, v) <= score(s, w)
    &&& forall|v: Seq<usize>|
        #[trigger] is_candidate(s, v) && v.len() < w.len() ==> score(s, v) < score(s, w)
    &&& forall|v: Seq<usize>|
        #[trigger] is_candidate(s, v) && v.len() == w.len() && score(s, v) == score(s, w)
            ==> first_occurrence(s, w) <= first_occurrence(s, v)
}

/// The substring that the selector picks in `s`, where there is one.
pub open spec fn best_substring(s: Seq<usize>) -> Seq<usize> {
    choose|w: Seq<usize>| is_best(s, w)
}

/// At most one substring is the best: the score, then the length, then the
/// place of the first occurrence decide.
pub proof fn best_is_unique(s: Seq<usize>, w1: Seq<usize>, w2: Seq<usize>)
    requires
        is_best(s, w1),
        is_best(s, w2),
    ensures
        w1 == w2,
{
    let p1 = lemma_candidate_is_window(s, w1);
    let p2 = lemma_candidate_is_window(s, w2);
    assert(score(s, w1) == score(s, w2));
    assert(w1.len() == w2.len());
    assert(p1 == p2);
}

/// Collapsing a best substring shortens the sequence by at least two.
pub proof fn lemma_best_shrinks(s: Seq<usize>, w: Seq<usize>, t: usize)
    requires
        is_best(s, w),
    ensures
        collapse_seq(s, w, t).len() + 2 <= s.len(),
{
    lemma_collapse_len(s, w, t, 0);
    let c = occurrence_count(s, w);
    assert(c * (w.len() - 1) >= 2) by (nonlinear_arith)
        requires
            c >= 2,
            w.len() >= 2,
    ;
}

/// The table and the sequence reached from `table` and `s` by collapsing the
/// best substring, appending its symbols to the table, until no substring is
/// worth collapsing.
pub open spec fn compressed<A>(table: Seq<Seq<A>>, s: Seq<usize>) -> (Seq<Seq<A>>, Seq<usize>)
    decreases s.len(),
{
    if exists|w: Seq<usize>| is_best(s, w) {
        let w = best_substring(s);
        proof {
            lemma_best_shrinks(s, w, table.len() as usize);
        }
        compressed(table.push(expand(table, w)), collapse_seq(s, w, table.len() as usize))
    } else {
        (table, s)
    }
}

/// One step of compression: collapses the best substring of the index
/// sequence into a new token and returns `true`, or returns `false` and
/// leaves the encoding as it is when no substring is worth collapsing.
pub fn encode_with_run_compression(encoding: &mut Encoding<String>) -> (r: bool)
    requires
        old(encoding).wf(),
    ensures
        r == has_candidate(old(encoding).encoding@),
        !r ==> *final(encoding) == *old(encoding),
        r ==> is_best(old(encoding).encoding@, best_substring(old(encoding).encoding@)),
        r ==> final(encoding).encoding@ == collapse_seq(
            old(encoding).encoding@,
            best_substring(old(encoding).encoding@),
            old(encoding).tokens@.len() as usize,
        ),
        r ==> final(encoding).table() == old(encoding).table().push(
            expand(old(encoding).table(), best_substring(old(encoding).encoding@)),
        ),
        r ==> final(encoding).tokens@.len() == old(encoding).tokens@.len() + 1,
        r ==> final(encoding).encoding@.len() + 2 <= old(encoding).encoding@.len(),
        final(encoding).tokens@.subrange(0, old(encoding).tokens@.len() as int)
            == old(encoding).tokens@,
        final(encoding).wf(),
        final(encoding).expansion() == old(encoding).expansion(),
{
    let to_encode = match find_max_compressable_seq(encoding.encoding.as_slice()) {
        Some(w) => w,
        None => {
            assert(encoding.tokens@.subrange(0, encoding.tokens@.len() as int) == encoding.tokens@);
            return false;
        },
    };
    let ghost s = encoding.encoding@;
    let ghost w = to_encode@;
    proof {
        lemma_accepted_from_shape(s, w, 0);
        assert forall|i: int| 0 <= i < w.len() implies #[trigger] w[i] < encoding.tokens@.len() by {
            let p = accepted(s, w)[0];
            assert(w[i] == s.subrange(p, p + w.len())[i]);
            assert(s[p + i] < encoding.tokens@.len());
        }
        let c = occurrence_count(s, w);
        assert(c * (w.len() - 1) >= 2) by (nonlinear_arith)
            requires
                c >= 2,
                w.len() >= 2,
        ;
        assert(is_best(s, w));
        best_is_unique(s, w, best_substring(s));
    }
    collapse_encoding(encoding, to_encode.as_slice());
    true
}

/// Repeats compression steps until none applies, and returns how many were
/// made.
pub fn compress(encoding: &mut Encoding<String>) -> (rounds: usize)
    requires
        old(encoding).wf(),
    ensures
        final(encoding).wf(),
        final(encoding).expansion() == old(encoding).expansion(),
        final(encoding).tokens@.len() == old(encoding).tokens@.len() + rounds,
        final(encoding).tokens@.subrange(0, old(encoding).tokens@.len() as int)
            == old(encoding).tokens@,
        2 * rounds + final(encoding).encoding@.len() <= old(encoding).encoding@.len(),
        !has_candidate(final(encoding).encoding@),
        !has_candidate(old(encoding).encoding@) ==> rounds == 0 && *final(encoding)
            == *old(encoding),
        (final(encoding).table(), final(encoding).encoding@) == compressed(
            old(encoding).table(),
            old(encoding).encoding@,
        ),
{
    let ghost start = *encoding;
    let n = encoding.encoding.len();
    let mut rounds: usize = 0;
    loop
        invariant
            n == start.encoding@.len(),
            encoding.wf(),
            encoding.expansion() == start.expansion(),
            encoding.tokens@.len() == start.tokens@.len() + rounds,
            encoding.tokens@.subrange(0, start.tokens@.len() as int) == start.tokens@,
            2 * rounds + encoding.encoding@.len() <= start.encoding@.len(),
            rounds == 0 ==> *encoding == start,
            rounds > 0 ==> has_candidate(start.encoding@),
            compressed(encoding.table(), encoding.encoding@) == compressed(
                start.table(),
                start.encoding@,
            ),
        ensures
            !has_candidate(encoding.encoding@),
        decreases encoding.encoding@.len(),
    {
        let ghost before = *encoding;
        if !encode_with_run_compression(encoding) {
            proof {
                assert(!exists|w: Seq<usize>| is_best(encoding.encoding@, w));
            }
            break;
        }
        proof {
            let s = before.encoding@;
            assert(exists|w: Seq<usize>| is_best(s, w));
            assert(before.table().len() == before.tokens@.len());
            assert(compressed(before.table(), s) == compressed(encoding.table(), encoding.encoding@));
            assert(encoding.tokens@.subrange(0, start.tokens@.len() as int)
                == encoding.tokens@.subrange(0, before.tokens@.len() as int).subrange(
                0,
                start.tokens@.len() as int,
            ));
        }
        rounds = rounds + 1;
    }
    rounds
}

/// Tokenizes `text` and compresses the result until no substring is worth
/// collapsing.
pub fn encode_with_iterative_run_compression(text: &str) -> (r: Encoding<String>)
    ensures
        r.wf(),
        r.expansion() == text@,
        !has_candidate(r.encoding@),
        (r.table(), r.encoding@) == compressed(null_table(text@), null_sequence(text@)),
        r.tokens@.len() <= first_seen(text@).len() + text@.len() / 2,
        r.encoding@.len() <= text@.len(),
        r.tokens@.len() > first_seen(text@).len() ==> r.encoding@.len() + 2 <= text@.len(),
        r.tokens@.len() >= first_seen(text@).len(),
        forall|j: int|
            0 <= j < first_seen(text@).len() ==> (#[trigger] r.tokens@[j])@ == seq![
                first_seen(text@)[j],
            ],
{
    let mut encoding = null_encoding(text);
    let ghost start = encoding;
    compress(&mut encoding);
    proof {
        assert forall|j: int| 0 <= j < first_seen(text@).len() implies (
        #[trigger] encoding.tokens@[j])@ == seq![first_seen(text@)[j]] by {
            assert(encoding.tokens@[j] == encoding.tokens@.subrange(
                0,
                start.tokens@.len() as int,
            )[j]);
        }
    }
    encoding
}

} // verus!
