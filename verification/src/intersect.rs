//! Connectivity of a set of strokes under the "touching" relation.

use std::collections::HashSet;
use vstd::prelude::*;

verus! {

broadcast use vstd::std_specs::hash::group_hash_axioms;

/// The rows of a matrix, each as a sequence of its entries.
pub open spec fn rows(matrix: &Vec<Vec<u8>>) -> Seq<Seq<u8>> {
    Seq::new(matrix@.len(), |i: int| matrix@[i]@)
}

/// A matrix describes a graph on the nodes `0..graph.len()` when no row
/// names a node beyond them.
pub open spec fn is_graph(graph: Seq<Seq<u8>>) -> bool {
    forall|i: int| 0 <= i < graph.len() ==> (#[trigger] graph[i]).len() <= graph.len()
}

/// The graph has an edge from `a` to `b`: the entry in row `a`, column `b` is 1.
pub open spec fn edge(graph: Seq<Seq<u8>>, a: usize, b: usize) -> bool {
    a < graph.len() && b < graph[a as int].len() && graph[a as int][b as int] == 1
}

/// `walk` starts at a node of the graph, follows an edge at every step, and
/// enters no node of `blocked` after its start.
pub open spec fn is_walk(graph: Seq<Seq<u8>>, walk: Seq<usize>, blocked: Set<usize>) -> bool {
    &&& walk.len() > 0
    &&& walk[0] < graph.len()
    &&& forall|i: int|
        1 <= i < walk.len() ==> edge(graph, walk[i - 1], #[trigger] walk[i]) && !blocked.contains(
            walk[i],
        )
}

/// Some walk leads from `from` to `to` without entering `blocked` after its start.
pub open spec fn reaches_avoiding(
    graph: Seq<Seq<u8>>,
    from: usize,
    to: usize,
    blocked: Set<usize>,
) -> bool {
    exists|walk: Seq<usize>| #[trigger]
        is_walk(graph, walk, blocked) && walk[0] == from && walk.last() == to
}

/// Some walk leads from `from` to `to`.
pub open spec fn reaches(graph: Seq<Seq<u8>>, from: usize, to: usize) -> bool {
    reaches_avoiding(graph, from, to, Set::empty())
}

/// The nodes `0..k`.
pub open spec fn nodes(k: nat) -> Set<usize> {
    Set::new(|v: usize| v < k)
}

/// There are exactly `k` nodes below `k`.
pub proof fn lemma_nodes_len(k: nat)
    requires
        k <= usize::MAX + 1,
    ensures
        nodes(k).finite(),
        nodes(k).len() == k,
    decreases k,
{
    if k == 0 {
        assert(nodes(k) =~= Set::empty());
    } else {
        lemma_nodes_len((k - 1) as nat);
        assert(nodes(k) =~= nodes((k - 1) as nat).insert((k - 1) as usize));
    }
}

/// A walk can be continued along an edge into a node that is not blocked.
proof fn lemma_walk_extend(
    graph: Seq<Seq<u8>>,
    from: usize,
    via: usize,
    to: usize,
    blocked: Set<usize>,
)
    requires
        reaches_avoiding(graph, from, via, blocked),
        edge(graph, via, to),
        !blocked.contains(to),
    ensures
        reaches_avoiding(graph, from, to, blocked),
{
    let walk = choose|walk: Seq<usize>| #[trigger]
        is_walk(graph, walk, blocked) && walk[0] == from && walk.last() == via;
    let longer = walk.push(to);
    assert(is_walk(graph, longer, blocked));
    assert(longer[0] == from && longer.last() == to);
}

/// A walk from `via` that avoids `blocked` becomes, after an edge from
/// `from` into `via`, a walk from `from` that avoids any part of `blocked`.
proof fn lemma_walk_prepend(
    graph: Seq<Seq<u8>>,
    from: usize,
    via: usize,
    to: usize,
    blocked: Set<usize>,
    fewer: Set<usize>,
)
    requires
        edge(graph, from, via),
        !blocked.contains(via),
        fewer.subset_of(blocked),
        reaches_avoiding(graph, via, to, blocked),
    ensures
        reaches_avoiding(graph, from, to, fewer),
{
    let walk = choose|walk: Seq<usize>| #[trigger]
        is_walk(graph, walk, blocked) && walk[0] == via && walk.last() == to;
    let longer = seq![from] + walk;
    assert forall|i: int| 1 <= i < longer.len() implies edge(graph, longer[i - 1], #[trigger] longer[i])
        && !fewer.contains(longer[i]) by {
        if i >= 2 {
            assert(longer[i] == walk[i - 1]);
            assert(longer[i - 1] == walk[i - 2]);
        }
    }
    assert(is_walk(graph, longer, fewer));
    assert(longer[0] == from && longer.last() == to);
}

/// A set that holds the start of a walk, and with every node the walk may
/// enter also that node's successors, holds the whole walk.
proof fn lemma_walk_stays_inside(
    graph: Seq<Seq<u8>>,
    walk: Seq<usize>,
    blocked: Set<usize>,
    inside: Set<usize>,
    i: int,
)
    requires
        is_walk(graph, walk, blocked),
        0 <= i < walk.len(),
        inside.contains(walk[0]),
        forall|u: usize, w: usize|
            inside.contains(u) && (u == walk[0] || !blocked.contains(u)) && #[trigger] edge(
                graph,
                u,
                w,
            ) ==> inside.contains(w),
    ensures
        inside.contains(walk[i]),
    decreases i,
{
    if i > 0 {
        lemma_walk_stays_inside(graph, walk, blocked, inside, i - 1);
        assert(edge(graph, walk[i - 1], walk[i]));
        if i - 1 > 0 {
            assert(!blocked.contains(walk[i - 1]));
        }
    }
}

/// Depth-first traversal from `node`: adds to `visited` every node that a
/// walk from `node` reaches without entering a node visited before.
pub fn dfs(node: usize, visited: &mut HashSet<usize>, subgraph: &Vec<Vec<u8>>)
    requires
        is_graph(rows(subgraph)),
        node < subgraph.len(),
    ensures
        final(visited)@ == old(visited)@.union(
            Set::new(|v: usize| reaches_avoiding(rows(subgraph), node, v, old(visited)@)),
        ),
    decreases
        nodes(subgraph.len() as nat).difference(old(visited)@).len(),
        (if old(visited)@.contains(node) {
            1int
        } else {
            0int
        }),
{
    let ghost graph = rows(subgraph);
    let ghost before = visited@;
    let ghost all = nodes(subgraph.len() as nat);
    proof {
        lemma_nodes_len(subgraph.len() as nat);
    }
    visited.insert(node);
    let row = &subgraph[node];
    proof {
        assert(row@ == graph[node as int]);
        assert(is_walk(graph, seq![node], before));
    }
    let mut neighbor: usize = 0;
    while neighbor < row.len()
        invariant
            graph == rows(subgraph),
            is_graph(graph),
            node < subgraph.len(),
            row@ == graph[node as int],
            neighbor <= row.len(),
            all == nodes(subgraph.len() as nat),
            all.finite(),
            before == old(visited)@,
            before.subset_of(visited@),
            visited@.contains(node),
            forall|v: usize|
                visited@.contains(v) && !before.contains(v) ==> reaches_avoiding(
                    graph,
                    node,
                    v,
                    before,
                ),
            forall|u: usize, w: usize|
                visited@.contains(u) && !before.contains(u) && u != node && #[trigger] edge(
                    graph,
                    u,
                    w,
                ) ==> visited@.contains(w),
            forall|w: usize| w < neighbor && edge(graph, node, w) ==> visited@.contains(w),
        decreases row.len() - neighbor,
    {
        if row[neighbor] == 1 && !visited.contains(&neighbor) {
            let ghost reached = visited@;
            proof {
                assert(graph[node as int].len() <= graph.len());
                let rest_before = all.difference(before);
                let rest_now = all.difference(reached);
                assert(rest_before.finite());
                assert(rest_now.subset_of(rest_before));
                assert(all.contains(node));
                vstd::set_lib::lemma_len_subset(rest_now, rest_before);
                if !before.contains(node) {
                    rest_now.lemma_subset_not_in_lt(rest_before, node);
                }
            }
            dfs(neighbor, visited, subgraph);
            proof {
                assert(edge(graph, node, neighbor));
                assert forall|v: usize|
                    visited@.contains(v) && !before.contains(v) implies reaches_avoiding(
                    graph,
                    node,
                    v,
                    before,
                ) by {
                    if !reached.contains(v) {
                        lemma_walk_prepend(graph, node, neighbor, v, reached, before);
                    }
                }
                assert forall|u: usize, w: usize|
                    visited@.contains(u) && !before.contains(u) && u != node && #[trigger] edge(
                        graph,
                        u,
                        w,
                    ) implies visited@.contains(w) by {
                    if !reached.contains(u) && !reached.contains(w) {
                        lemma_walk_extend(graph, neighbor, u, w, reached);
                    }
                }
                assert(is_walk(graph, seq![neighbor], reached));
                assert(reaches_avoiding(graph, neighbor, neighbor, reached));
            }
        }
        neighbor += 1;
    }
    proof {
        let grown = before.union(Set::new(|v: usize| reaches_avoiding(graph, node, v, before)));
        assert(is_walk(graph, seq![node], before));
        assert forall|v: usize| grown.contains(v) implies visited@.contains(v) by {
            if !before.contains(v) {
                let walk = choose|walk: Seq<usize>| #[trigger]
                    is_walk(graph, walk, before) && walk[0] == node && walk.last() == v;
                lemma_walk_stays_inside(graph, walk, before, visited@, walk.len() - 1);
            }
        }
        assert(visited@ =~= grown);
    }
}

/// Every stroke of the list names a row of the matrix, and a column of each
/// row that the list names.
pub open spec fn within(strokes: Seq<usize>, matrix: Seq<Seq<u8>>) -> bool {
    forall|i: int, j: int|
        0 <= i < strokes.len() && 0 <= j < strokes.len() ==> (#[trigger] strokes[i])
            < matrix.len() && (#[trigger] strokes[j]) < matrix[strokes[i] as int].len()
}

/// The graph on the positions of a list of strokes: position `i` has an
/// edge to position `j` when the matrix marks stroke `i` as touching stroke `j`.
pub open spec fn induced(strokes: Seq<usize>, matrix: Seq<Seq<u8>>) -> Seq<Seq<u8>> {
    Seq::new(
        strokes.len(),
        |i: int| Seq::new(strokes.len(), |j: int| matrix[strokes[i] as int][strokes[j] as int]),
    )
}

/// The strokes hang together: there is at least one, and from the first a
/// walk over touching strokes of the list leads to every other.
pub open spec fn linked(strokes: Seq<usize>, matrix: Seq<Seq<u8>>) -> bool {
    strokes.len() > 0 && forall|j: usize|
        j < strokes.len() ==> reaches(induced(strokes, matrix), 0, j)
}

/// A single stroke is linked, whatever the matrix says.
pub proof fn lemma_single_stroke_is_linked(strokes: Seq<usize>, matrix: Seq<Seq<u8>>)
    requires
        strokes.len() == 1,
    ensures
        linked(strokes, matrix),
{
    assert(is_walk(induced(strokes, matrix), seq![0usize], Set::empty()));
}

/// No strokes at all are never linked.
pub proof fn lemma_no_stroke_is_linked(strokes: Seq<usize>, matrix: Seq<Seq<u8>>)
    requires
        strokes.len() == 0,
    ensures
        !linked(strokes, matrix),
{
}

/// A walk never leaves the nodes of the graph.
proof fn lemma_reached_is_node(graph: Seq<Seq<u8>>, from: usize, to: usize)
    requires
        is_graph(graph),
        reaches(graph, from, to),
    ensures
        to < graph.len(),
{
    let walk = choose|walk: Seq<usize>| #[trigger]
        is_walk(graph, walk, Set::empty()) && walk[0] == from && walk.last() == to;
    if walk.len() > 1 {
        assert(edge(graph, walk[walk.len() - 2], walk[walk.len() - 1]));
    }
}

/// Copies out of the matrix the entries that relate the listed strokes.
fn induced_subgraph(strokes: &Vec<usize>, intersection_matrix: &Vec<Vec<u8>>) -> (subgraph: Vec<
    Vec<u8>,
>)
    requires
        within(strokes@, rows(intersection_matrix)),
    ensures
        rows(&subgraph) == induced(strokes@, rows(intersection_matrix)),
{
    let ghost matrix = rows(intersection_matrix);
    let mut subgraph: Vec<Vec<u8>> = Vec::new();
    let mut i: usize = 0;
    while i < strokes.len()
        invariant
            i <= strokes.len(),
            matrix == rows(intersection_matrix),
            within(strokes@, matrix),
            subgraph.len() == i,
            forall|a: int|
                0 <= a < i ==> (#[trigger] subgraph@[a])@ == induced(strokes@, matrix)[a],
        decreases strokes.len() - i,
    {
        let mut row: Vec<u8> = Vec::new();
        let mut j: usize = 0;
        while j < strokes.len()
            invariant
                i < strokes.len(),
                j <= strokes.len(),
                matrix == rows(intersection_matrix),
                within(strokes@, matrix),
                row.len() == j,
                forall|b: int|
                    0 <= b < j ==> #[trigger] row@[b] == matrix[strokes@[i as int] as int][strokes@[b] as int],
            decreases strokes.len() - j,
        {
            proof {
                let _ = strokes@[i as int];
                let _ = strokes@[j as int];
            }
            row.push(intersection_matrix[strokes[i]][strokes[j]]);
            j += 1;
        }
        assert(row@ =~= induced(strokes@, matrix)[i as int]);
        subgraph.push(row);
        i += 1;
    }
    assert(rows(&subgraph) =~= induced(strokes@, matrix));
    subgraph
}

/// Tells whether the listed strokes hang together under the matrix: whether
/// every one of them can be reached from the first over strokes of the list
/// that touch. An empty list is not linked.
pub fn are_strokes_linked(strokes: &Vec<usize>, intersection_matrix: &Vec<Vec<u8>>) -> (res: bool)
    requires
        within(strokes@, rows(intersection_matrix)),
    ensures
        res == linked(strokes@, rows(intersection_matrix)),
        strokes.len() == 0 ==> !res,
        strokes.len() == 1 ==> res,
{
    if strokes.len() == 0 {
        return false;
    }
    let subgraph = induced_subgraph(strokes, intersection_matrix);
    let ghost graph = rows(&subgraph);
    assert(subgraph.len() == graph.len() == strokes.len());
    let mut visited: HashSet<usize> = HashSet::new();
    dfs(0, &mut visited, &subgraph);
    proof {
        let all = nodes(strokes.len() as nat);
        lemma_nodes_len(strokes.len() as nat);
        assert forall|v: usize| visited@.contains(v) implies all.contains(v) by {
            lemma_reached_is_node(graph, 0, v);
        }
        vstd::set_lib::lemma_len_subset(visited@, all);
        if visited@.len() == strokes.len() {
            vstd::set_lib::lemma_subset_equality(visited@, all);
            assert forall|j: usize| j < strokes.len() implies reaches(graph, 0, j) by {
                assert(all.contains(j));
            }
        }
        if linked(strokes@, rows(intersection_matrix)) {
            assert forall|v: usize| all.contains(v) implies visited@.contains(v) by {
                assert(reaches(graph, 0, v));
            }
            assert(visited@ =~= all);
        }
        if strokes.len() == 1 {
            lemma_single_stroke_is_linked(strokes@, rows(intersection_matrix));
        }
    }
    visited.len() == strokes.len()
}

} // verus!
