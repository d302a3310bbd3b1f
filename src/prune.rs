use vstd::prelude::*;
use crate::encoding::Encoding;
use crate::expand::{indices_below, expand, lemma_expand_push, lemma_expand_extend};
use crate::token::TokenIter;

verus! {

/// The number of places at which `x` stands in `s`.
pub open spec fn occurrences(s: Seq<usize>, x: usize) -> nat
    decreases s.len(),
{
    if s.len() == 0 {
        0
    } else {
        occurrences(s.drop_last(), x) + if s.last() == x {
            1nat
        } else {
            0nat
        }
    }
}

/// The number of adjacent pairs of `s` that end in `x`.
pub open spec fn in_degree(s: Seq<usize>, x: usize) -> nat {
    if s.len() == 0 {
        0
    } else {
        occurrences(s.drop_first(), x)
    }
}

/// The number of adjacent pairs of `s` that start with `x`.
pub open spec fn out_degree(s: Seq<usize>, x: usize) -> nat {
    if s.len() == 0 {
        0
    } else {
        occurrences(s.drop_last(), x)
    }
}

/// The pair at offset `i` is a chain link: its first index has no other
/// successor and its second no other predecessor.
pub open spec fn mergeable(s: Seq<usize>, i: int) -> bool {
    0 <= i && i + 1 < s.len() && in_degree(s, s[i + 1]) == 1 && out_degree(s, s[i]) == 1
}

/// How one pruning pass groups the sequence from offset `i`: scanning left
/// to right, a chain link becomes a group of two, any other index a group of
/// one.
pub open spec fn merge_groups(s: Seq<usize>, i: int) -> Seq<Seq<usize>>
    decreases s.len() - i,
{
    if i < 0 || i >= s.len() {
        Seq::empty()
    } else if mergeable(s, i) {
        seq![seq![s[i], s[i + 1]]] + merge_groups(s, i + 2)
    } else {
        seq![seq![s[i]]] + merge_groups(s, i + 1)
    }
}

proof fn lemma_occurrences_push(s: Seq<usize>, y: usize, x: usize)
    ensures
        occurrences(s.push(y), x) == occurrences(s, x) + if y == x {
            1nat
        } else {
            0nat
        },
{
    assert(s.push(y).drop_last() == s);
}

proof fn lemma_occurrences_bound(s: Seq<usize>, x: usize)
    ensures
        occurrences(s, x) <= s.len(),
    decreases s.len(),
{
    if s.len() > 0 {
        lemma_occurrences_bound(s.drop_last(), x);
    }
}

/// For each index below `k`, how many adjacent pairs of `s` start with it,
/// and how many end in it.
fn degrees(s: &Vec<usize>, k: usize) -> (r: (Vec<usize>, Vec<usize>))
    requires
        indices_below(s@, k as nat),
    ensures
        r.0@.len() == k,
        r.1@.len() == k,
        forall|x: int| 0 <= x < k ==> #[trigger] r.0@[x] == out_degree(s@, x as usize),
        forall|x: int| 0 <= x < k ==> #[trigger] r.1@[x] == in_degree(s@, x as usize),
{
    let n = s.len();
    let mut outs: Vec<usize> = Vec::new();
    let mut ins: Vec<usize> = Vec::new();
    for j in 0..k
        invariant
            outs@.len() == j,
            ins@.len() == j,
            forall|x: int| 0 <= x < j ==> outs@[x] == 0 && ins@[x] == 0,
    {
        outs.push(0);
        ins.push(0);
    }
    if n == 0 {
        return (outs, ins);
    }
    for i in 0..n - 1
        invariant
            n == s@.len(),
            n > 0,
            indices_below(s@, k as nat),
            outs@.len() == k,
            ins@.len() == k,
            forall|x: int|
                0 <= x < k ==> #[trigger] outs@[x] == occurrences(s@.subrange(0, i as int), x as usize),
            forall|x: int|
                0 <= x < k ==> #[trigger] ins@[x] == occurrences(s@.subrange(1, i + 1), x as usize),
    {
        let a = s[i];
        let b = s[i + 1];
        let ghost old_outs = outs@;
        let ghost old_ins = ins@;
        proof {
            lemma_occurrences_bound(s@.subrange(0, i as int), a);
            lemma_occurrences_bound(s@.subrange(1, i + 1), b);
        }
        let oa = outs[a];
        outs.set(a, oa + 1);
        let ib = ins[b];
        ins.set(b, ib + 1);
        proof {
            assert(s@.subrange(0, i + 1) == s@.subrange(0, i as int).push(a));
            assert(s@.subrange(1, i + 2) == s@.subrange(1, i + 1).push(b));
            assert forall|x: int| 0 <= x < k implies #[trigger] outs@[x] == occurrences(
                s@.subrange(0, i + 1),
                x as usize,
            ) by {
                assert(old_outs[x] == occurrences(s@.subrange(0, i as int), x as usize));
                lemma_occurrences_push(s@.subrange(0, i as int), a, x as usize);
            }
            assert forall|x: int| 0 <= x < k implies #[trigger] ins@[x] == occurrences(
                s@.subrange(1, i + 2),
                x as usize,
            ) by {
                assert(old_ins[x] == occurrences(s@.subrange(1, i + 1), x as usize));
                lemma_occurrences_push(s@.subrange(1, i + 1), b, x as usize);
            }
        }
    }
    proof {
        assert(s@.subrange(0, n - 1) == s@.drop_last());
        assert(s@.subrange(1, n as int) == s@.drop_first());
    }
    (outs, ins)
}

/// The index of the last token of `tokens` equal to `t`, if any.
fn find_last_token(tokens: &Vec<String>, t: &String) -> (r: Option<usize>)
    ensures
        match r {
            Some(j) => j < tokens@.len() && tokens@[j as int]@ == t@ && forall|m: int|
                j < m < tokens@.len() ==> tokens@[m]@ != t@,
            None => forall|m: int| 0 <= m < tokens@.len() ==> tokens@[m]@ != t@,
        },
{
    let mut j = tokens.len();
    while j > 0
        invariant
            j <= tokens@.len(),
            forall|m: int| j <= m < tokens@.len() ==> tokens@[m]@ != t@,
        decreases j,
    {
        if tokens[j - 1] == *t {
            return Some(j - 1);
        }
        j = j - 1;
    }
    None
}

/// The last place of `x` in `table`, where `x` occurs there.
pub open spec fn last_entry<A>(table: Seq<Seq<A>>, x: Seq<A>) -> int {
    choose|m: int|
        0 <= m < table.len() && table[m] == x && forall|m2: int| m < m2 < table.len() ==> table[m2] != x
}

/// One pruning pass over `s` from offset `i`, with `table` the token table
/// so far: the final table, and the indices produced from offset `i` on. A
/// chain link becomes the last entry spelling its two tokens, appended to the
/// table when there is none; any other index is kept.
pub open spec fn pass_from(table: Seq<Seq<char>>, s: Seq<usize>, i: int) -> (
    Seq<Seq<char>>,
    Seq<usize>,
)
    decreases s.len() - i,
{
    if i < 0 || i >= s.len() {
        (table, Seq::empty())
    } else if mergeable(s, i) {
        let x = table[s[i] as int] + table[s[i + 1] as int];
        if exists|m: int| 0 <= m < table.len() && table[m] == x {
            let r = pass_from(table, s, i + 2);
            (r.0, seq![last_entry(table, x) as usize] + r.1)
        } else {
            let r = pass_from(table.push(x), s, i + 2);
            (r.0, seq![table.len() as usize] + r.1)
        }
    } else {
        let r = pass_from(table, s, i + 1);
        (r.0, seq![s[i]] + r.1)
    }
}

/// The table and sequence reached by pruning passes over `table` and `s`
/// until a pass replaces nothing.
pub open spec fn pruned_fully(table: Seq<Seq<char>>, s: Seq<usize>) -> (Seq<Seq<char>>, Seq<usize>)
    decreases s.len(),
{
    let r = pass_from(table, s, 0);
    if r.1.len() < s.len() {
        pruned_fully(r.0, r.1)
    } else {
        (table, s)
    }
}

/// Entry `m` of `tokens` is the joined token of a pair that the pass over `s`
/// merged: some group of two of `s` became index `m` in `out`, and the entry
/// spells the group's two tokens of `t0` one after the other.
pub open spec fn joined_entry(
    s: Seq<usize>,
    t0: Seq<String>,
    tokens: Seq<String>,
    out: Seq<usize>,
    m: int,
) -> bool {
    exists|g: int|
        0 <= g < out.len() && (#[trigger] merge_groups(s, 0)[g]).len() == 2 && out[g] == m
            && tokens[m]@ == t0[merge_groups(s, 0)[g][0] as int]@ + t0[merge_groups(s, 0)[g][1] as int]@
}

/// One pruning pass: every chain link met in a left to right scan, a pair
/// whose first index has no other successor and whose second no other
/// predecessor, is replaced by one index of the token that spells the two
/// tokens' symbols one after the other. That token is the last equal entry
/// of the table, appended when there is none. Returns the number of links
/// replaced.
pub fn prune_pass(encoding: &mut Encoding<String>) -> (pruned: usize)
    requires
        old(encoding).wf(),
    ensures
        final(encoding).wf(),
        final(encoding).expansion() == old(encoding).expansion(),
        final(encoding).tokens@.subrange(0, old(encoding).tokens@.len() as int)
            == old(encoding).tokens@,
        old(encoding).tokens@.len() <= final(encoding).tokens@.len() <= old(encoding).tokens@.len()
            + pruned,
        final(encoding).encoding@.len() + pruned == old(encoding).encoding@.len(),
        final(encoding).encoding@.len() == merge_groups(old(encoding).encoding@, 0).len(),
        forall|g: int|
            0 <= g < final(encoding).encoding@.len() && (#[trigger] merge_groups(
                old(encoding).encoding@,
                0,
            )[g]).len() == 1 ==> final(encoding).encoding@[g] == merge_groups(
                old(encoding).encoding@,
                0,
            )[g][0],
        forall|g: int|
            0 <= g < final(encoding).encoding@.len() && (#[trigger] merge_groups(
                old(encoding).encoding@,
                0,
            )[g]).len() == 2 ==> {
                let pair = merge_groups(old(encoding).encoding@, 0)[g];
                let joined = old(encoding).tokens@[pair[0] as int]@ + old(
                    encoding,
                ).tokens@[pair[1] as int]@;
                &&& final(encoding).tokens@[final(encoding).encoding@[g] as int]@ == joined
                &&& forall|m: int|
                    final(encoding).encoding@[g] < m < final(encoding).tokens@.len()
                        ==> final(encoding).tokens@[m]@ != joined
            },
        forall|m: int|
            old(encoding).tokens@.len() <= m < final(encoding).tokens@.len() ==> #[trigger] joined_entry(
                old(encoding).encoding@,
                old(encoding).tokens@,
                final(encoding).tokens@,
                final(encoding).encoding@,
                m,
            ),
        (final(encoding).table(), final(encoding).encoding@) == pass_from(
            old(encoding).table(),
            old(encoding).encoding@,
            0,
        ),
        pruned == 0 <==> forall|i: int| !mergeable(old(encoding).encoding@, i),
        pruned == 0 ==> *final(encoding) == *old(encoding),
{
    let ghost s = encoding.encoding@;
    let ghost t0 = encoding.tokens@;
    let ghost table0 = encoding.table();
    let ghost orig = *encoding;
    let n = encoding.encoding.len();
    let k = encoding.tokens.len();
    let (outs, ins) = degrees(&encoding.encoding, k);
    let mut out: Vec<usize> = Vec::new();
    let mut pruned: usize = 0;
    let mut i: usize = 0;
    let ghost mut done: Seq<Seq<usize>> = Seq::empty();
    let ghost mut source: Seq<int> = Seq::empty();
    while i < n
        invariant
            s == encoding.encoding@,
            s == orig.encoding@,
            encoding.encoding == orig.encoding,
            n == s.len(),
            k == t0.len(),
            t0 == orig.tokens@,
            table0 == t0.map_values(|t: String| t.atoms()),
            indices_below(s, k as nat),
            outs@.len() == k,
            ins@.len() == k,
            forall|x: int| 0 <= x < k ==> #[trigger] outs@[x] == out_degree(s, x as usize),
            forall|x: int| 0 <= x < k ==> #[trigger] ins@[x] == in_degree(s, x as usize),
            i <= n,
            out@.len() + pruned == i,
            k <= encoding.tokens@.len() <= k + pruned,
            encoding.tokens@.subrange(0, k as int) == t0,
            indices_below(out@, encoding.tokens@.len()),
            expand(encoding.table(), out@) == expand(table0, s.subrange(0, i as int)),
            merge_groups(s, 0) == done + merge_groups(s, i as int),
            done.len() == out@.len(),
            forall|g: int| 0 <= g < done.len() && (#[trigger] done[g]).len() == 1 ==> out@[g] == done[g][0],
            forall|g: int|
                0 <= g < done.len() && (#[trigger] done[g]).len() == 2 ==> {
                    let joined = t0[done[g][0] as int]@ + t0[done[g][1] as int]@;
                    &&& encoding.tokens@[out@[g] as int]@ == joined
                    &&& forall|m: int|
                        out@[g] < m < encoding.tokens@.len() ==> encoding.tokens@[m]@ != joined
                },
            pruned == 0 ==> forall|j: int| 0 <= j < i ==> !mergeable(s, j),
            pruned == 0 ==> encoding.tokens == orig.tokens && out@ == s.subrange(0, i as int),
            pruned > 0 ==> exists|j: int| mergeable(s, j),
            source.len() + k == encoding.tokens@.len(),
            forall|m: int|
                k <= m < encoding.tokens@.len() ==> 0 <= #[trigger] source[m - k] < done.len()
                    && done[source[m - k]].len() == 2 && out@[source[m - k]] == m,
            pass_from(table0, s, 0) == (
                pass_from(encoding.table(), s, i as int).0,
                out@ + pass_from(encoding.table(), s, i as int).1,
            ),
        decreases n - i,
    {
        let ghost cur = encoding.table();
        let ghost rest = pass_from(cur, s, i as int);
        let ghost old_out = out@;
        let ghost old_done = done;
        if i + 1 < n && outs[encoding.encoding[i]] == 1 && ins[encoding.encoding[i + 1]] == 1 {
            let a = encoding.encoding[i];
            let b = encoding.encoding[i + 1];
            let mut joined = encoding.tokens[a].clone();
            joined.append(encoding.tokens[b].as_str());
            let ghost jv = joined@;
            assert(jv == t0[a as int]@ + t0[b as int]@) by {
                assert(encoding.tokens@[a as int] == t0[a as int]);
                assert(encoding.tokens@[b as int] == t0[b as int]);
            }
            let ghost before = encoding.tokens@;
            let e = match find_last_token(&encoding.tokens, &joined) {
                Some(j) => j,
                None => {
                    let m = encoding.tokens.len();
                    encoding.tokens.push(joined);
                    proof {
                        source = source.push(done.len() as int);
                    }
                    proof {
                        assert(encoding.tokens@.subrange(0, k as int) == before.subrange(0, k as int));
                        assert(before.map_values(|t: String| t.atoms()) == encoding.table().subrange(
                            0,
                            before.len() as int,
                        ));
                        lemma_expand_extend(
                            before.map_values(|t: String| t.atoms()),
                            encoding.table(),
                            out@,
                        );
                    }
                    m
                },
            };
            proof {
                assert(mergeable(s, i as int));
                assert(merge_groups(s, i as int) == seq![seq![a, b]] + merge_groups(s, i + 2));
                done = done.push(seq![a, b]);
                assert(old_done + (seq![seq![a, b]] + merge_groups(s, i + 2)) == done + merge_groups(
                    s,
                    i + 2,
                ));
            }
            out.push(e);
            proof {
                lemma_expand_push(encoding.table(), old_out, e);
                assert(encoding.tokens@[e as int]@ == jv);
                assert(s.subrange(0, i + 2) == s.subrange(0, i as int).push(a).push(b));
                lemma_expand_push(table0, s.subrange(0, i as int), a);
                lemma_expand_push(table0, s.subrange(0, i as int).push(a), b);
                assert(table0[a as int] == t0[a as int]@);
                assert(table0[b as int] == t0[b as int]@);
                let x = expand(table0, s.subrange(0, i as int));
                assert(x + jv == x + t0[a as int]@ + t0[b as int]@);
                assert forall|g: int| 0 <= g < out@.len() implies #[trigger] out@[g]
                    < encoding.tokens@.len() by {
                    if g < old_out.len() {
                        assert(out@[g] == old_out[g]);
                    }
                }
                assert forall|g: int|
                    0 <= g < done.len() && (#[trigger] done[g]).len() == 2 implies {
                        let jg = t0[done[g][0] as int]@ + t0[done[g][1] as int]@;
                        &&& encoding.tokens@[out@[g] as int]@ == jg
                        &&& forall|m: int|
                            out@[g] < m < encoding.tokens@.len() ==> encoding.tokens@[m]@ != jg
                    } by {
                    if g < old_done.len() {
                        assert(done[g] == old_done[g]);
                        assert(out@[g] == old_out[g]);
                        let jg = t0[done[g][0] as int]@ + t0[done[g][1] as int]@;
                        assert(before[old_out[g] as int]@ == jg);
                        if encoding.tokens@.len() > before.len() {
                            assert(encoding.tokens@[before.len() as int]@ == jv);
                            assert(jv != jg);
                            assert forall|m: int|
                                out@[g] < m < encoding.tokens@.len() implies encoding.tokens@[m]@
                                != jg by {
                                if m < before.len() {
                                    assert(encoding.tokens@[m] == before[m]);
                                }
                            }
                        }
                    } else {
                        assert(done[g] == seq![a, b]);
                    }
                }
                assert forall|g: int| 0 <= g < done.len() && (#[trigger] done[g]).len() == 1 implies out@[g]
                    == done[g][0] by {
                    assert(g < old_done.len());
                    assert(done[g] == old_done[g]);
                    assert(out@[g] == old_out[g]);
                }
            }
            proof {
                let x = cur[a as int] + cur[b as int];
                assert(cur[a as int] == t0[a as int]@ && cur[b as int] == t0[b as int]@) by {
                    assert(before[a as int] == t0[a as int]);
                    assert(before[b as int] == t0[b as int]);
                }
                assert(x == jv);
                let r = pass_from(encoding.table(), s, i + 2);
                if encoding.tokens@.len() == before.len() {
                    assert(encoding.tokens@ == before);
                    assert(encoding.table() == cur);
                    assert(cur[e as int] == x);
                    let c = last_entry(cur, x);
                    assert(0 <= c < cur.len() && cur[c] == x && forall|m2: int|
                        c < m2 < cur.len() ==> cur[m2] != x);
                    if c < e {
                    } else if c > e {
                        assert(cur[c] == before[c]@);
                    }
                    assert(c == e);
                    assert(rest == (r.0, seq![e] + r.1));
                } else {
                    assert(forall|m: int| 0 <= m < cur.len() ==> cur[m] != x) by {
                        assert forall|m: int| 0 <= m < cur.len() implies cur[m] != x by {
                            assert(cur[m] == before[m]@);
                        }
                    }
                    assert(encoding.table() == cur.push(x));
                    assert(e == cur.len());
                    assert(rest == (r.0, seq![e] + r.1));
                }
                assert(old_out + (seq![e] + r.1) == out@ + r.1);
            }
            pruned = pruned + 1;
            i = i + 2;
        } else {
            let x = encoding.encoding[i];
            proof {
                assert(!mergeable(s, i as int));
                assert(merge_groups(s, i as int) == seq![seq![x]] + merge_groups(s, i + 1));
                done = done.push(seq![x]);
                assert(old_done + (seq![seq![x]] + merge_groups(s, i + 1)) == done + merge_groups(
                    s,
                    i + 1,
                ));
            }
            out.push(x);
            proof {
                lemma_expand_push(encoding.table(), old_out, x);
                assert(s.subrange(0, i + 1) == s.subrange(0, i as int).push(x));
                lemma_expand_push(table0, s.subrange(0, i as int), x);
                assert(rest == (pass_from(cur, s, i + 1).0, seq![x] + pass_from(cur, s, i + 1).1));
                assert(old_out + (seq![x] + pass_from(cur, s, i + 1).1) == out@ + pass_from(
                    cur,
                    s,
                    i + 1,
                ).1);
                assert(encoding.table()[x as int] == table0[x as int]) by {
                    assert(encoding.tokens@[x as int] == t0[x as int]);
                }
                assert forall|g: int| 0 <= g < out@.len() implies #[trigger] out@[g]
                    < encoding.tokens@.len() by {
                    if g < old_out.len() {
                        assert(out@[g] == old_out[g]);
                    }
                }
                assert forall|g: int| 0 <= g < done.len() && (#[trigger] done[g]).len() == 1 implies out@[g]
                    == done[g][0] by {
                    if g < old_done.len() {
                        assert(done[g] == old_done[g]);
                        assert(out@[g] == old_out[g]);
                    }
                }
                assert forall|g: int|
                    0 <= g < done.len() && (#[trigger] done[g]).len() == 2 implies {
                        let jg = t0[done[g][0] as int]@ + t0[done[g][1] as int]@;
                        &&& encoding.tokens@[out@[g] as int]@ == jg
                        &&& forall|m: int|
                            out@[g] < m < encoding.tokens@.len() ==> encoding.tokens@[m]@ != jg
                    } by {
                    assert(g < old_done.len());
                    assert(done[g] == old_done[g]);
                    assert(out@[g] == old_out[g]);
                }
            }
            i = i + 1;
        }
    }
    proof {
        assert(s.subrange(0, n as int) == s);
        assert(merge_groups(s, n as int).len() == 0);
        assert(done + merge_groups(s, n as int) == done);
        if pruned == 0 {
            assert forall|j: int| !mergeable(s, j) by {
                if 0 <= j < n {
                }
            }
        }
    }
    if pruned > 0 {
        encoding.encoding = out;
    } else {
        assert(*encoding == orig);
    }
    proof {
        assert(out@ + Seq::<usize>::empty() == out@);
        let groups = merge_groups(s, 0);
        assert(groups == done);
        assert forall|m: int| k <= m < encoding.tokens@.len() implies #[trigger] joined_entry(
            s,
            t0,
            encoding.tokens@,
            encoding.encoding@,
            m,
        ) by {
            let g = source[m - k];
            assert(pruned > 0);
            assert(out@[g] == m);
            assert(encoding.encoding@[g] == m);
            assert(groups[g] == done[g]);
            assert(encoding.tokens@[out@[g] as int]@ == t0[done[g][0] as int]@ + t0[done[g][1] as int]@);
            assert(0 <= g < encoding.encoding@.len() && merge_groups(s, 0)[g].len() == 2
                && encoding.encoding@[g] == m && encoding.tokens@[m]@ == t0[merge_groups(s, 0)[g][0] as int]@
                + t0[merge_groups(s, 0)[g][1] as int]@);
        }
    }
    pruned
}

/// Repeats pruning passes until one replaces nothing: afterwards no
/// adjacent pair of the sequence is a chain link.
pub fn prune_chains(encoding: &mut Encoding<String>)
    requires
        old(encoding).wf(),
    ensures
        final(encoding).wf(),
        final(encoding).expansion() == old(encoding).expansion(),
        final(encoding).tokens@.subrange(0, old(encoding).tokens@.len() as int)
            == old(encoding).tokens@,
        final(encoding).encoding@.len() <= old(encoding).encoding@.len(),
        forall|i: int| !mergeable(final(encoding).encoding@, i),
        (forall|i: int| !mergeable(old(encoding).encoding@, i)) ==> *final(encoding) == *old(
            encoding,
        ),
        (final(encoding).table(), final(encoding).encoding@) == pruned_fully(
            old(encoding).table(),
            old(encoding).encoding@,
        ),
{
    let ghost start = *encoding;
    loop
        invariant
            encoding.wf(),
            encoding.expansion() == start.expansion(),
            start.tokens@.len() <= encoding.tokens@.len(),
            encoding.tokens@.subrange(0, start.tokens@.len() as int) == start.tokens@,
            encoding.encoding@.len() <= start.encoding@.len(),
            encoding.tokens@.len() + encoding.encoding@.len() <= start.tokens@.len()
                + start.encoding@.len(),
            (forall|i: int| !mergeable(start.encoding@, i)) ==> *encoding == start,
            pruned_fully(encoding.table(), encoding.encoding@) == pruned_fully(
                start.table(),
                start.encoding@,
            ),
        ensures
            (encoding.table(), encoding.encoding@) == pruned_fully(start.table(), start.encoding@),
            forall|i: int| !mergeable(encoding.encoding@, i),
        decreases encoding.encoding@.len(),
    {
        let ghost before = *encoding;
        let pruned = prune_pass(encoding);
        if pruned == 0 {
            proof {
                let r = pass_from(before.table(), before.encoding@, 0);
                assert(r.1.len() == before.encoding@.len());
            }
            break;
        }
        proof {
            assert(pass_from(before.table(), before.encoding@, 0).1.len() < before.encoding@.len());
            assert(encoding.tokens@.subrange(0, start.tokens@.len() as int)
                == encoding.tokens@.subrange(0, before.tokens@.len() as int).subrange(
                0,
                start.tokens@.len() as int,
            ));
        }
    }
}

} // verus!
