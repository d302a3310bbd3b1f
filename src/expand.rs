use vstd::prelude::*;
use crate::matching::{matches_at, accepted_from, collapse_from};

verus! {

/// Every index of `enc` is below `n`.
pub open spec fn indices_below(enc: Seq<usize>, n: nat) -> bool {
    forall|i: int| 0 <= i < enc.len() ==> #[trigger] enc[i] < n
}

/// The atomic symbols of the index sequence `enc` over the token table
/// `table`: the symbols of each referenced token, concatenated in order.
pub open spec fn expand<A>(table: Seq<Seq<A>>, enc: Seq<usize>) -> Seq<A>
    decreases enc.len(),
{
    if enc.len() == 0 {
        Seq::empty()
    } else {
        table[enc[0] as int] + expand(table, enc.drop_first())
    }
}

pub proof fn lemma_expand_cons<A>(table: Seq<Seq<A>>, x: usize, r: Seq<usize>)
    ensures
        expand(table, seq![x] + r) == table[x as int] + expand(table, r),
{
    assert((seq![x] + r).drop_first() == r);
}

/// Expansion distributes over concatenation.
pub proof fn lemma_expand_append<A>(table: Seq<Seq<A>>, a: Seq<usize>, b: Seq<usize>)
    ensures
        expand(table, a + b) == expand(table, a) + expand(table, b),
    decreases a.len(),
{
    if a.len() == 0 {
        assert(a + b == b);
        assert(expand(table, a) + expand(table, b) == expand(table, b));
    } else {
        lemma_expand_append(table, a.drop_first(), b);
        assert((a + b).drop_first() == a.drop_first() + b);
        assert(table[a[0] as int] + (expand(table, a.drop_first()) + expand(table, b))
            == (table[a[0] as int] + expand(table, a.drop_first())) + expand(table, b));
    }
}

pub proof fn lemma_expand_push<A>(table: Seq<Seq<A>>, enc: Seq<usize>, x: usize)
    ensures
        expand(table, enc.push(x)) == expand(table, enc) + table[x as int],
{
    lemma_expand_append(table, enc, seq![x]);
    assert(enc + seq![x] == enc.push(x));
    assert(seq![x].drop_first() == Seq::<usize>::empty());
    assert(expand(table, seq![x]) == table[x as int] + expand(table, Seq::<usize>::empty()));
    assert(table[x as int] + Seq::<A>::empty() == table[x as int]);
}

/// Appending entries to the table leaves the expansion of indices into the
/// old part unchanged.
pub proof fn lemma_expand_extend<A>(table: Seq<Seq<A>>, bigger: Seq<Seq<A>>, enc: Seq<usize>)
    requires
        table.len() <= bigger.len(),
        bigger.subrange(0, table.len() as int) == table,
        indices_below(enc, table.len()),
    ensures
        expand(bigger, enc) == expand(table, enc),
    decreases enc.len(),
{
    if enc.len() > 0 {
        assert(bigger[enc[0] as int] == bigger.subrange(0, table.len() as int)[enc[0] as int]);
        assert(indices_below(enc.drop_first(), table.len())) by {
            assert forall|i: int| 0 <= i < enc.drop_first().len() implies #[trigger] enc.drop_first()[i]
                < table.len() by {
                assert(enc.drop_first()[i] == enc[i + 1]);
            }
        }
        lemma_expand_extend(table, bigger, enc.drop_first());
    }
}

/// A sequence whose every index names the one-symbol token of the symbol at
/// the same place expands to that symbol sequence.
pub proof fn lemma_expand_singletons<A>(table: Seq<Seq<A>>, enc: Seq<usize>, s: Seq<A>)
    requires
        enc.len() == s.len(),
        forall|i: int| 0 <= i < enc.len() ==> table[#[trigger] enc[i] as int] == seq![s[i]],
    ensures
        expand(table, enc) == s,
    decreases enc.len(),
{
    if enc.len() > 0 {
        assert forall|i: int| 0 <= i < enc.drop_first().len() implies table[
            #[trigger] enc.drop_first()[i] as int] == seq![s.drop_first()[i]] by {
            assert(enc.drop_first()[i] == enc[i + 1]);
        }
        lemma_expand_singletons(table, enc.drop_first(), s.drop_first());
        assert(table[enc[0] as int] == seq![s[0]]);
        assert(seq![s[0]] + s.drop_first() == s);
    }
}

/// Collapsing from offset `i` keeps the symbols that the suffix of `s` from
/// `i` expands to, once the table has the new token appended.
pub proof fn lemma_collapse_expand<A>(
    table: Seq<Seq<A>>,
    s: Seq<usize>,
    w: Seq<usize>,
    i: int,
)
    requires
        0 <= i <= s.len(),
        w.len() > 0,
        indices_below(s, table.len()),
        table.len() <= usize::MAX,
    ensures
        expand(table.push(expand(table, w)), collapse_from(s, w, table.len() as usize, i)) == expand(
            table,
            s.subrange(i, s.len() as int),
        ),
    decreases s.len() - i,
{
    let t = table.len() as usize;
    let bigger = table.push(expand(table, w));
    let suffix = s.subrange(i, s.len() as int);
    if i == s.len() {
        assert(suffix.len() == 0);
    } else if matches_at(s, w, i) {
        lemma_collapse_expand(table, s, w, i + w.len());
        let rest = s.subrange(i + w.len(), s.len() as int);
        lemma_expand_cons(bigger, t, collapse_from(s, w, t, i + w.len()));
        assert(suffix == w + rest);
        lemma_expand_append(table, w, rest);
    } else {
        lemma_collapse_expand(table, s, w, i + 1);
        lemma_expand_cons(bigger, s[i], collapse_from(s, w, t, i + 1));
        assert(s[i] < table.len());
        assert(bigger[s[i] as int] == table[s[i] as int]);
        assert(suffix == seq![s[i]] + s.subrange(i + 1, s.len() as int));
        lemma_expand_cons(table, s[i], s.subrange(i + 1, s.len() as int));
    }
}

/// Where no occurrence starts in `[i, p)`, collapsing from `i` copies that
/// stretch and goes on from `p`.
pub proof fn lemma_collapse_skip(s: Seq<usize>, w: Seq<usize>, t: usize, i: int, p: int)
    requires
        0 <= i <= p <= s.len(),
        w.len() > 0,
        forall|q: int| i <= q < p ==> !matches_at(s, w, q),
    ensures
        collapse_from(s, w, t, i) == s.subrange(i, p) + collapse_from(s, w, t, p),
    decreases p - i,
{
    if i < p {
        lemma_collapse_skip(s, w, t, i + 1, p);
        assert(s.subrange(i, p) == seq![s[i]] + s.subrange(i + 1, p));
    } else {
        assert(s.subrange(i, p).len() == 0);
        assert(s.subrange(i, p) + collapse_from(s, w, t, p) == collapse_from(s, w, t, p));
    }
}

/// Collapsing from `i` shortens the suffix by `l - 1` for each accepted
/// occurrence, `l` being the length of `w`.
pub proof fn lemma_collapse_len(s: Seq<usize>, w: Seq<usize>, t: usize, i: int)
    requires
        0 <= i <= s.len(),
        w.len() > 0,
    ensures
        collapse_from(s, w, t, i).len() == (s.len() - i) - accepted_from(s, w, i).len() * (w.len()
            - 1),
    decreases s.len() - i,
{
    if i == s.len() {
    } else if matches_at(s, w, i) {
        lemma_collapse_len(s, w, t, i + w.len());
        let c = accepted_from(s, w, i + w.len()).len();
        let l = w.len() as int;
        assert((c + 1) * (l - 1) == c * (l - 1) + (l - 1)) by (nonlinear_arith);
    } else {
        lemma_collapse_len(s, w, t, i + 1);
        if i + w.len() > s.len() {
            assert(accepted_from(s, w, i + 1).len() == 0);
        }
    }
}

} // verus!
