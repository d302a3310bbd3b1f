use vstd::prelude::*;
use crate::encoding::Encoding;
use crate::token::TokenIter;

verus! {

/// The directed graph of an encoding: the token indices that occur in the
/// index sequence, and one edge per adjacent pair of that sequence.
pub struct EncodingGraph {
    pub nodes: Vec<usize>,
    pub edges: Vec<(usize, usize)>,
}

/// Computes the graph of `encoding`: its nodes are the indices of the tokens
/// that occur at least once in the sequence, in increasing order; its edges
/// are `(encoding[i], encoding[i + 1])` for each `i`, in order, self-edges
/// included.
pub fn encoding_graph<T: TokenIter>(encoding: &Encoding<T>) -> (g: EncodingGraph)
    requires
        encoding.wf(),
    ensures
        forall|a: int, b: int| 0 <= a < b < g.nodes@.len() ==> g.nodes@[a] < g.nodes@[b],
        forall|j: usize|
            g.nodes@.contains(j) <==> j < encoding.tokens@.len() && encoding.encoding@.contains(j),
        g.edges@.len() == if encoding.encoding@.len() == 0 {
            0
        } else {
            encoding.encoding@.len() - 1
        },
        forall|i: int|
            0 <= i < g.edges@.len() ==> #[trigger] g.edges@[i] == (
            encoding.encoding@[i],
            encoding.encoding@[i + 1],
            ),
{
    let k = encoding.tokens.len();
    let n = encoding.encoding.len();
    let mut seen: Vec<bool> = Vec::new();
    for j in 0..k
        invariant
            seen@.len() == j,
            forall|x: int| 0 <= x < j ==> !seen@[x],
    {
        seen.push(false);
    }
    for i in 0..n
        invariant
            n == encoding.encoding@.len(),
            k == encoding.tokens@.len(),
            encoding.wf(),
            seen@.len() == k,
            forall|x: int|
                0 <= x < k ==> (seen@[x] <==> encoding.encoding@.subrange(0, i as int).contains(
                    x as usize,
                )),
    {
        let x = encoding.encoding[i];
        seen.set(x, true);
        proof {
            let pre = encoding.encoding@.subrange(0, i as int);
            assert(encoding.encoding@.subrange(0, i + 1) == pre.push(x));
            assert forall|y: int| 0 <= y < k implies (seen@[y] <==> pre.push(x).contains(y as usize)) by {
                if pre.push(x).contains(y as usize) && y != x {
                    let q = choose|q: int| 0 <= q < pre.push(x).len() && pre.push(x)[q] == y as usize;
                    assert(q < pre.len());
                    assert(pre[q] == y);
                }
                if pre.contains(y as usize) {
                    let q = choose|q: int| 0 <= q < pre.len() && pre[q] == y as usize;
                    assert(pre.push(x)[q] == y);
                }
                if y == x {
                    assert(pre.push(x)[pre.len() as int] == x);
                }
            }
        }
    }
    let mut nodes: Vec<usize> = Vec::new();
    assert(encoding.encoding@.subrange(0, n as int) == encoding.encoding@);
    for j in 0..k
        invariant
            k == encoding.tokens@.len(),
            n == encoding.encoding@.len(),
            seen@.len() == k,
            encoding.encoding@.subrange(0, n as int) == encoding.encoding@,
            forall|x: int| 0 <= x < k ==> (seen@[x] <==> encoding.encoding@.contains(x as usize)),
            forall|a: int, b: int| 0 <= a < b < nodes@.len() ==> nodes@[a] < nodes@[b],
            forall|a: int| 0 <= a < nodes@.len() ==> nodes@[a] < j,
            forall|x: usize| nodes@.contains(x) <==> x < j && seen@[x as int],
    {
        if seen[j] {
            let ghost prev = nodes@;
            nodes.push(j);
            proof {
                assert forall|x: usize| nodes@.contains(x) <==> x < j + 1 && seen@[x as int] by {
                    if x == j {
                        assert(nodes@[nodes@.len() - 1] == j);
                    }
                    if nodes@.contains(x) && x != j {
                        let q = choose|q: int| 0 <= q < nodes@.len() && nodes@[q] == x;
                        assert(q < prev.len());
                        assert(prev[q] == x);
                        assert(prev.contains(x));
                    }
                    if x < j && seen@[x as int] {
                        assert(prev.contains(x));
                        let q = choose|q: int| 0 <= q < prev.len() && prev[q] == x;
                        assert(nodes@[q] == x);
                    }
                }
            }
        }
    }
    let mut edges: Vec<(usize, usize)> = Vec::new();
    if n > 0 {
        for i in 0..n - 1
            invariant
                n == encoding.encoding@.len(),
                n > 0,
                edges@.len() == i,
                forall|a: int|
                    0 <= a < i ==> #[trigger] edges@[a] == (
                    encoding.encoding@[a],
                    encoding.encoding@[a + 1],
                    ),
        {
            edges.push((encoding.encoding[i], encoding.encoding[i + 1]));
        }
    }
    EncodingGraph { nodes, edges }
}

} // verus!
