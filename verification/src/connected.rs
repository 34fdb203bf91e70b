//! Connectivity of a set of strokes, whatever the order in which it is listed.

use crate::intersect::{edge, induced, is_walk, linked, reaches};
use vstd::prelude::*;

verus! {

/// The matrix has as many columns as rows, and mirrors itself on the diagonal.
pub open spec fn is_symmetric(matrix: Seq<Seq<u8>>) -> bool {
    &&& forall|i: int| 0 <= i < matrix.len() ==> (#[trigger] matrix[i]).len() == matrix.len()
    &&& forall|i: int, j: int|
        0 <= i < matrix.len() && 0 <= j < matrix.len() ==> matrix[i][j] == matrix[j][i]
}

/// `chain` is a sequence of strokes of `s`, each touching the next.
pub open spec fn is_chain(matrix: Seq<Seq<u8>>, s: Set<usize>, chain: Seq<usize>) -> bool {
    &&& chain.len() > 0
    &&& forall|k: int| 0 <= k < chain.len() ==> s.contains(#[trigger] chain[k])
    &&& forall|k: int| 1 <= k < chain.len() ==> edge(matrix, chain[k - 1], #[trigger] chain[k])
}

/// A chain of strokes of `s` leads from `a` to `b`.
pub open spec fn joined(matrix: Seq<Seq<u8>>, s: Set<usize>, a: usize, b: usize) -> bool {
    exists|chain: Seq<usize>| #[trigger]
        is_chain(matrix, s, chain) && chain[0] == a && chain.last() == b
}

/// The set is not empty, and a chain of its strokes leads from each of them
/// to each other.
pub open spec fn connected(matrix: Seq<Seq<u8>>, s: Set<usize>) -> bool {
    &&& exists|a: usize| s.contains(a)
    &&& forall|a: usize, b: usize| s.contains(a) && s.contains(b) ==> joined(matrix, s, a, b)
}

/// A set of one stroke is connected, whatever the matrix says.
pub proof fn lemma_single_is_connected(matrix: Seq<Seq<u8>>, index: usize)
    ensures
        connected(matrix, set![index]),
{
    let s = set![index];
    assert(s.contains(index));
    assert(is_chain(matrix, s, seq![index]));
    assert(seq![index][0] == index && seq![index].last() == index);
}

/// The empty set is not connected.
pub proof fn lemma_empty_is_not_connected(matrix: Seq<Seq<u8>>)
    ensures
        !connected(matrix, Set::<usize>::empty()),
{
}

/// Where touching is mutual, a chain can be walked backwards.
proof fn lemma_joined_back(matrix: Seq<Seq<u8>>, s: Set<usize>, a: usize, b: usize)
    requires
        is_symmetric(matrix),
        joined(matrix, s, a, b),
    ensures
        joined(matrix, s, b, a),
{
    let chain = choose|chain: Seq<usize>| #[trigger]
        is_chain(matrix, s, chain) && chain[0] == a && chain.last() == b;
    let back = chain.reverse();
    assert forall|k: int| 1 <= k < back.len() implies edge(matrix, back[k - 1], #[trigger] back[k]) by {
        let j = chain.len() - k;
        assert(back[k] == chain[j - 1]);
        assert(back[k - 1] == chain[j]);
        assert(edge(matrix, chain[j - 1], chain[j]));
    }
    assert forall|k: int| 0 <= k < back.len() implies s.contains(#[trigger] back[k]) by {
        assert(back[k] == chain[chain.len() - 1 - k]);
    }
    assert(is_chain(matrix, s, back));
    assert(back[0] == b && back.last() == a);
}

/// Two chains that meet make one chain.
proof fn lemma_joined_through(matrix: Seq<Seq<u8>>, s: Set<usize>, a: usize, via: usize, b: usize)
    requires
        joined(matrix, s, a, via),
        joined(matrix, s, via, b),
    ensures
        joined(matrix, s, a, b),
{
    let first = choose|chain: Seq<usize>| #[trigger]
        is_chain(matrix, s, chain) && chain[0] == a && chain.last() == via;
    let second = choose|chain: Seq<usize>| #[trigger]
        is_chain(matrix, s, chain) && chain[0] == via && chain.last() == b;
    let whole = first.drop_last() + second;
    let cut = first.len() - 1;
    assert forall|k: int| 0 <= k < whole.len() implies s.contains(#[trigger] whole[k]) by {
        if k < cut {
            assert(whole[k] == first[k]);
        } else {
            assert(whole[k] == second[k - cut]);
        }
    }
    assert forall|k: int| 1 <= k < whole.len() implies edge(
        matrix,
        whole[k - 1],
        #[trigger] whole[k],
    ) by {
        if k < cut {
            assert(whole[k] == first[k] && whole[k - 1] == first[k - 1]);
        } else if k == cut {
            assert(whole[k] == second[0] && whole[k - 1] == first[k - 1]);
            assert(second[0] == first[cut]);
            assert(edge(matrix, first[cut - 1], first[cut]));
        } else {
            assert(whole[k] == second[k - cut] && whole[k - 1] == second[k - cut - 1]);
        }
    }
    assert(is_chain(matrix, s, whole));
    assert(whole[0] == a && whole.last() == b);
}

/// A walk over the positions of a list is a chain of the strokes listed.
proof fn lemma_walk_is_chain(strokes: Seq<usize>, matrix: Seq<Seq<u8>>, to: usize)
    requires
        reaches(induced(strokes, matrix), 0, to),
        forall|i: int| 0 <= i < strokes.len() ==> (#[trigger] strokes[i]) < matrix.len(),
        is_symmetric(matrix),
    ensures
        to < strokes.len(),
        joined(matrix, strokes.to_set(), strokes[0], strokes[to as int]),
{
    let graph = induced(strokes, matrix);
    let walk = choose|walk: Seq<usize>| #[trigger]
        is_walk(graph, walk, Set::empty()) && walk[0] == 0 && walk.last() == to;
    assert forall|k: int| 0 <= k < walk.len() implies (#[trigger] walk[k]) < strokes.len() by {
        if k > 0 {
            assert(edge(graph, walk[k - 1], walk[k]));
        }
    }
    let chain = Seq::new(walk.len(), |k: int| strokes[walk[k] as int]);
    assert forall|k: int| 0 <= k < chain.len() implies strokes.to_set().contains(
        #[trigger] chain[k],
    ) by {
        assert(strokes.contains(strokes[walk[k] as int]));
    }
    assert forall|k: int| 1 <= k < chain.len() implies edge(
        matrix,
        chain[k - 1],
        #[trigger] chain[k],
    ) by {
        assert(edge(graph, walk[k - 1], walk[k]));
    }
    assert(is_chain(matrix, strokes.to_set(), chain));
    assert(chain[0] == strokes[0] && chain.last() == strokes[to as int]);
}

/// A chain of the strokes listed is a walk over their positions.
proof fn lemma_chain_is_walk(strokes: Seq<usize>, matrix: Seq<Seq<u8>>, from: usize, to: usize)
    requires
        strokes.no_duplicates(),
        strokes.len() <= usize::MAX,
        from < strokes.len(),
        to < strokes.len(),
        joined(matrix, strokes.to_set(), strokes[from as int], strokes[to as int]),
        forall|i: int| 0 <= i < strokes.len() ==> (#[trigger] strokes[i]) < matrix.len(),
        is_symmetric(matrix),
    ensures
        reaches(induced(strokes, matrix), from, to),
{
    let graph = induced(strokes, matrix);
    let chain = choose|chain: Seq<usize>| #[trigger]
        is_chain(matrix, strokes.to_set(), chain) && chain[0] == strokes[from as int]
            && chain.last() == strokes[to as int];
    let place = |v: usize| choose|p: int| 0 <= p < strokes.len() && strokes[p] == v;
    let walk = Seq::new(chain.len(), |k: int| place(chain[k]) as usize);
    assert forall|k: int| 0 <= k < chain.len() implies (#[trigger] walk[k]) < strokes.len()
        && strokes[walk[k] as int] == chain[k] by {
        assert(strokes.to_set().contains(chain[k]));
        assert(strokes.contains(chain[k]));
        let p = place(chain[k]);
        assert(0 <= p < strokes.len() && strokes[p] == chain[k]);
        assert(walk[k] == p as usize);
    }
    assert forall|k: int| 1 <= k < walk.len() implies edge(graph, walk[k - 1], #[trigger] walk[k])
        && !Set::<usize>::empty().contains(walk[k]) by {
        assert(edge(matrix, chain[k - 1], chain[k]));
        assert(strokes[walk[k - 1] as int] == chain[k - 1]);
        assert(strokes[walk[k] as int] == chain[k]);
    }
    assert(is_walk(graph, walk, Set::empty()));
    assert(strokes[walk[0] as int] == strokes[from as int]);
    assert(strokes[walk.last() as int] == strokes[to as int]);
    assert(walk[0] == from && walk.last() == to);
}

/// A list without repetition is linked exactly when the set of its strokes
/// is connected, where touching is mutual: neither the order of the list nor
/// the stroke from which the search starts matters.
pub proof fn lemma_linked_iff_connected(strokes: Seq<usize>, matrix: Seq<Seq<u8>>)
    requires
        strokes.no_duplicates(),
        strokes.len() <= usize::MAX,
        forall|i: int| 0 <= i < strokes.len() ==> (#[trigger] strokes[i]) < matrix.len(),
        is_symmetric(matrix),
    ensures
        linked(strokes, matrix) <==> connected(matrix, strokes.to_set()),
{
    let s = strokes.to_set();
    if linked(strokes, matrix) {
        assert(s.contains(strokes[0])) by {
            assert(strokes.contains(strokes[0]));
        }
        assert forall|a: usize, b: usize| s.contains(a) && s.contains(b) implies joined(
            matrix,
            s,
            a,
            b,
        ) by {
            assert(strokes.contains(a) && strokes.contains(b));
            let p = choose|p: int| 0 <= p < strokes.len() && strokes[p] == a;
            let q = choose|q: int| 0 <= q < strokes.len() && strokes[q] == b;
            lemma_walk_is_chain(strokes, matrix, p as usize);
            lemma_walk_is_chain(strokes, matrix, q as usize);
            lemma_joined_back(matrix, s, strokes[0], a);
            lemma_joined_through(matrix, s, a, strokes[0], b);
        }
    }
    if connected(matrix, s) {
        let a = choose|a: usize| s.contains(a);
        assert(strokes.contains(a));
        assert forall|j: usize| j < strokes.len() implies reaches(
            induced(strokes, matrix),
            0,
            j,
        ) by {
            assert(strokes.contains(strokes[0]) && strokes.contains(strokes[j as int]));
            lemma_chain_is_walk(strokes, matrix, 0, j);
        }
    }
}

} // verus!
