use vstd::prelude::*;
use crate::expand::{
    indices_below, expand, lemma_expand_push, lemma_collapse_expand, lemma_collapse_skip,
    lemma_collapse_len, lemma_expand_singletons,
};
use crate::matching::{occurrence_count, collapse_from, collapse_seq, next_match};
use crate::token::{TokenIter, push_char};
use std::collections::HashMap;

verus! {

broadcast use {vstd::string::group_string_axioms, vstd::std_specs::hash::group_hash_axioms};

/// A compressed form of a symbol sequence: an index sequence over a token
/// table whose entries are sequences of atomic symbols.
pub struct Encoding<T: TokenIter> {
    pub encoding: Vec<usize>,
    pub tokens: Vec<T>,
}

impl<T: TokenIter> Encoding<T> {
    /// The token table, each token seen as its atomic symbols.
    pub open spec fn table(&self) -> Seq<Seq<T::Item>> {
        self.tokens@.map_values(|t: T| t.atoms())
    }

    /// Every index of the sequence names an entry of the table.
    pub open spec fn wf(&self) -> bool {
        indices_below(self.encoding@, self.tokens@.len())
    }

    /// The atomic symbols that the encoding stands for.
    pub open spec fn expansion(&self) -> Seq<T::Item> {
        expand(self.table(), self.encoding@)
    }

    /// The token whose symbols are those of the tokens named by `to_encode`,
    /// concatenated in order.
    pub fn collapse_tokens(&self, to_encode: &[usize]) -> (r: T)
        requires
            indices_below(to_encode@, self.tokens@.len()),
        ensures
            r.atoms() == expand(self.table(), to_encode@),
    {
        let mut items: Vec<T::Item> = Vec::new();
        for k in 0..to_encode.len()
            invariant
                indices_below(to_encode@, self.tokens@.len()),
                items@ == expand(self.table(), to_encode@.subrange(0, k as int)),
        {
            let mut part = self.tokens[to_encode[k]].token_iter();
            proof {
                let pre = to_encode@.subrange(0, k as int);
                assert(to_encode@.subrange(0, k + 1) == pre.push(to_encode@[k as int]));
                lemma_expand_push(self.table(), pre, to_encode@[k as int]);
            }
            items.append(&mut part);
        }
        assert(to_encode@.subrange(0, to_encode@.len() as int) == to_encode@);
        T::from_atoms(items)
    }
}

/// Replaces every occurrence of `to_encode` in the index sequence, scanning
/// left to right and skipping occurrences that overlap one already replaced,
/// by one new index, and appends the token that index names: the symbols of
/// `to_encode`'s tokens, concatenated.
pub fn collapse_encoding<T: TokenIter>(encoding: &mut Encoding<T>, to_encode: &[usize])
    requires
        old(encoding).wf(),
        to_encode@.len() > 0,
        indices_below(to_encode@, old(encoding).tokens@.len()),
    ensures
        final(encoding).wf(),
        final(encoding).tokens@.len() == old(encoding).tokens@.len() + 1,
        final(encoding).tokens@.subrange(0, old(encoding).tokens@.len() as int)
            == old(encoding).tokens@,
        final(encoding).tokens@.last().atoms() == expand(old(encoding).table(), to_encode@),
        final(encoding).table() == old(encoding).table().push(expand(old(encoding).table(), to_encode@)),
        final(encoding).encoding@ == collapse_seq(
            old(encoding).encoding@,
            to_encode@,
            old(encoding).tokens@.len() as usize,
        ),
        final(encoding).encoding@.len() == old(encoding).encoding@.len() - occurrence_count(
            old(encoding).encoding@,
            to_encode@,
        ) * (to_encode@.len() - 1),
        final(encoding).expansion() == old(encoding).expansion(),
{
    let ghost s = encoding.encoding@;
    let ghost w = to_encode@;
    let ghost table = encoding.table();
    let e = encoding.tokens.len();
    let token = encoding.collapse_tokens(to_encode);
    let l = to_encode.len();
    let n = encoding.encoding.len();

    let mut out: Vec<usize> = Vec::new();
    let mut prev: usize = 0;
    loop
        invariant_except_break
            collapse_from(s, w, e, 0) == out@ + collapse_from(s, w, e, prev as int),
        invariant
            s == encoding.encoding@,
            w == to_encode@,
            n == s.len(),
            l == w.len(),
            l > 0,
            prev <= n,
            indices_below(s, e as nat),
            indices_below(out@, (e + 1) as nat),
        ensures
            collapse_from(s, w, e, 0) == out@,
        decreases n - prev,
    {
        let found = next_match(encoding.encoding.as_slice(), to_encode, prev);
        let stop = match found {
            Some(p) => p,
            None => n,
        };
        proof {
            lemma_collapse_skip(s, w, e, prev as int, stop as int);
        }
        let ghost before = out@;
        for k in prev..stop
            invariant
                s == encoding.encoding@,
                n == s.len(),
                prev <= stop <= n,
                out@ == before + s.subrange(prev as int, k as int),
                indices_below(s, e as nat),
                indices_below(before, (e + 1) as nat),
        {
            out.push(encoding.encoding[k]);
            assert(s.subrange(prev as int, k + 1) == s.subrange(prev as int, k as int).push(s[k as int]));
        }
        assert(indices_below(out@, (e + 1) as nat)) by {
            assert forall|i: int| 0 <= i < out@.len() implies #[trigger] out@[i] < e + 1 by {
                if i >= before.len() {
                    assert(out@[i] == s[prev + i - before.len()]);
                }
            }
        }
        match found {
            Some(p) => {
                out.push(e);
                proof {
                    assert(collapse_from(s, w, e, p as int) == seq![e] + collapse_from(
                        s,
                        w,
                        e,
                        p + l,
                    ));
                    assert(out@ == before + s.subrange(prev as int, p as int) + seq![e]);
                }
                prev = p + l;
            },
            None => {
                assert(collapse_from(s, w, e, n as int).len() == 0);
                assert(out@ + collapse_from(s, w, e, n as int) == out@);
                break ;
            },
        }
    }
    proof {
        lemma_collapse_len(s, w, e, 0);
        lemma_collapse_expand(table, s, w, 0);
        assert(s.subrange(0, n as int) == s);
    }
    encoding.tokens.push(token);
    encoding.encoding = out;
    proof {
        let bigger = encoding.table();
        assert(bigger == table.push(expand(table, w)));
    }
}

/// Distinct characters have distinct codes.
proof fn lemma_char_code_injective(a: char, b: char)
    requires
        a as u32 == b as u32,
    ensures
        a == b,
{
}

/// The distinct symbols of `s`, in order of first occurrence.
pub open spec fn first_seen<A>(s: Seq<A>) -> Seq<A>
    decreases s.len(),
{
    if s.len() == 0 {
        Seq::empty()
    } else {
        let p = first_seen(s.drop_last());
        if p.contains(s.last()) {
            p
        } else {
            p.push(s.last())
        }
    }
}

/// The table of the null encoding of `text`: one single-symbol token per
/// distinct symbol, in order of first occurrence.
pub open spec fn null_table(text: Seq<char>) -> Seq<Seq<char>> {
    first_seen(text).map_values(|c: char| seq![c])
}

/// The sequence of the null encoding of `text`: each symbol as its place
/// among the distinct symbols.
pub open spec fn null_sequence(text: Seq<char>) -> Seq<usize> {
    Seq::new(
        text.len(),
        |i: int| (choose|j: int| 0 <= j < first_seen(text).len() && first_seen(text)[j] == text[i]) as usize,
    )
}

/// The encoding with one single-symbol token per distinct character of
/// `text`, in order of first occurrence, and the characters of `text` as
/// indices into that table.
pub fn null_encoding(text: &str) -> (r: Encoding<String>)
    ensures
        r.wf(),
        r.tokens@.len() == first_seen(text@).len(),
        forall|j: int| 0 <= j < r.tokens@.len() ==> (#[trigger] r.tokens@[j])@ == seq![first_seen(text@)[j]],
        r.encoding@.len() == text@.len(),
        forall|i: int|
            0 <= i < r.encoding@.len() ==> first_seen(text@)[#[trigger] r.encoding@[i] as int]
                == text@[i],
        first_seen(text@).no_duplicates(),
        r.table() == null_table(text@),
        r.encoding@ == null_sequence(text@),
        r.expansion() == text@,
{
    let mut encoding: Encoding<String> = Encoding { encoding: Vec::new(), tokens: Vec::new() };
    let mut symbols: Vec<char> = Vec::new();
    let mut index_of: HashMap<u32, usize> = HashMap::new();
    for c in it: text.chars()
        invariant
            it.seq() == text@,
            symbols@ == first_seen(text@.subrange(0, encoding.encoding@.len() as int)),
            symbols@.no_duplicates(),
            encoding.tokens@.len() == symbols@.len(),
            forall|j: int| 0 <= j < symbols@.len() ==> (#[trigger] encoding.tokens@[j])@ == seq![symbols@[j]],
            encoding.encoding@.len() == it.index(),
            forall|i: int|
                0 <= i < encoding.encoding@.len() ==> #[trigger] encoding.encoding@[i] < symbols@.len()
                    && symbols@[encoding.encoding@[i] as int] == text@[i],
            forall|j: int|
                0 <= j < symbols@.len() ==> index_of@.contains_key(#[trigger] symbols@[j] as u32)
                    && index_of@[symbols@[j] as u32] == j,
            forall|code: u32|
                #[trigger] index_of@.contains_key(code) ==> index_of@[code] < symbols@.len()
                    && symbols@[index_of@[code] as int] as u32 == code,
    {
        let ghost prefix = it.seq().subrange(0, it.index() as int);
        proof {
            let next = it.seq().subrange(0, it.index() + 1);
            assert(next.drop_last() == prefix);
            assert(next.last() == c);
        }
        proof {
            assert(vstd::std_specs::hash::obeys_key_model::<u32>());
            assert(vstd::std_specs::hash::builds_valid_hashers::<std::collections::hash_map::RandomState>());
        }
        let k = match index_of.get(&(c as u32)) {
            Some(k) => {
                let k = *k;
                proof {
                    assert(index_of@.contains_key(c as u32) && index_of@[c as u32] == k);
                    assert(symbols@[k as int] as u32 == c as u32);
                    lemma_char_code_injective(symbols@[k as int], c);
                    assert(symbols@.contains(c));
                }
                k
            },
            None => {
                proof {
                    assert forall|j: int| 0 <= j < symbols@.len() implies symbols@[j] != c by {
                        if symbols@[j] == c {
                            assert(index_of@.contains_key(symbols@[j] as u32));
                        }
                    }
                    assert(!symbols@.contains(c));
                }
                let k = symbols.len();
                symbols.push(c);
                index_of.insert(c as u32, k);
                let mut t = String::new();
                push_char(&mut t, c);
                encoding.tokens.push(t);
                proof {
                    assert(t@ == seq![c]);
                    assert forall|code: u32| #[trigger] index_of@.contains_key(code) implies index_of@[code]
                        < symbols@.len() && symbols@[index_of@[code] as int] as u32 == code by {
                        if code != c as u32 {
                            assert(symbols@[index_of@[code] as int] == symbols@.drop_last()[index_of@[code] as int]);
                        }
                    }
                    assert forall|j: int| 0 <= j < symbols@.len() implies index_of@.contains_key(
                        #[trigger] symbols@[j] as u32,
                    ) && index_of@[symbols@[j] as u32] == j by {
                        if j < k {
                            assert(symbols@[j] == symbols@.drop_last()[j]);
                            assert(symbols@[j] != c);
                        }
                    }
                }
                k
            },
        };
        encoding.encoding.push(k);
    }
    proof {
        assert(encoding.encoding@.len() == text@.len());
        assert(text@.subrange(0, text@.len() as int) == text@);
        let table = encoding.table();
        assert forall|i: int| 0 <= i < encoding.encoding@.len() implies table[
            #[trigger] encoding.encoding@[i] as int] == seq![text@[i]] by {
            assert(encoding.encoding@[i] < symbols@.len());
        }
        lemma_expand_singletons(table, encoding.encoding@, text@);
        assert(table == null_table(text@));
        let fs = first_seen(text@);
        assert forall|i: int| 0 <= i < text@.len() implies encoding.encoding@[i] == null_sequence(
            text@,
        )[i] by {
            let e = encoding.encoding@[i] as int;
            assert(0 <= e < fs.len() && fs[e] == text@[i]);
            let j = choose|j: int| 0 <= j < fs.len() && fs[j] == text@[i];
            assert(j == e);
        }
        assert(encoding.encoding@ == null_sequence(text@));
    }
    encoding
}

} // verus!
