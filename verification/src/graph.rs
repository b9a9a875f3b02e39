//! Reachability in a graph of references. A graph maps every object to the
//! references it holds, in slot order; a reference that is no object of the
//! graph, such as null, leads nowhere.

use vstd::prelude::*;

verus! {

pub type Graph = Map<u64, Seq<u64>>;

/// Object `a` holds a reference to `b`.
pub open spec fn edge(g: Graph, a: u64, b: u64) -> bool {
    g.dom().contains(a) && g[a].contains(b)
}

/// Every reference held by an object is null or refers to an object.
pub open spec fn references_valid(g: Graph) -> bool {
    forall|a: u64, k: int|
        g.dom().contains(a) && 0 <= k < g[a].len() ==> (#[trigger] g[a][k]) == 0
            || g.dom().contains(g[a][k])
}

/// The object at position `i` of `path` holds a reference to the next one.
pub open spec fn step(g: Graph, path: Seq<u64>, i: int) -> bool {
    edge(g, path[i], path[i + 1])
}

/// `path` is a non-empty chain of objects, each holding a reference to the
/// next.
pub open spec fn is_path(g: Graph, path: Seq<u64>) -> bool {
    &&& path.len() >= 1
    &&& forall|i: int| 0 <= i < path.len() ==> g.dom().contains(#[trigger] path[i])
    &&& forall|i: int| 0 <= i < path.len() - 1 ==> #[trigger] step(g, path, i)
}

/// `path` leads from a root to `r`.
pub open spec fn reaches(g: Graph, roots: Set<u64>, r: u64, path: Seq<u64>) -> bool {
    is_path(g, path) && roots.contains(path[0]) && path.last() == r
}

/// Object `r` can be reached from a root through zero or more references.
pub open spec fn reachable(g: Graph, roots: Set<u64>, r: u64) -> bool {
    exists|path: Seq<u64>| #[trigger] reaches(g, roots, r, path)
}

/// The objects that can be reached from the roots.
pub open spec fn reachable_set(g: Graph, roots: Set<u64>) -> Set<u64> {
    Set::new(|r: u64| reachable(g, roots, r))
}

/// The graph `small` is part of the graph `large`: its objects are objects
/// of `large` and hold the same references there.
pub open spec fn subgraph(small: Graph, large: Graph) -> bool {
    forall|a: u64| #[trigger]
        small.dom().contains(a) ==> large.dom().contains(a) && large[a] == small[a]
}

/// A root that is an object is reachable.
pub proof fn lemma_root_reachable(g: Graph, roots: Set<u64>, r: u64)
    requires
        roots.contains(r),
        g.dom().contains(r),
    ensures
        reachable(g, roots, r),
{
    assert(reaches(g, roots, r, seq![r]));
}

/// Reachable objects are objects.
pub proof fn lemma_reachable_is_object(g: Graph, roots: Set<u64>, r: u64)
    requires
        reachable(g, roots, r),
    ensures
        g.dom().contains(r),
{
    let path = choose|path: Seq<u64>| #[trigger] reaches(g, roots, r, path);
    assert(g.dom().contains(path[path.len() - 1]));
}

/// What a reachable object refers to is reachable.
pub proof fn lemma_reachable_step(g: Graph, roots: Set<u64>, a: u64, b: u64)
    requires
        reachable(g, roots, a),
        edge(g, a, b),
        g.dom().contains(b),
    ensures
        reachable(g, roots, b),
{
    let path = choose|path: Seq<u64>| #[trigger] reaches(g, roots, a, path);
    let longer = path.push(b);
    assert forall|i: int| 0 <= i < longer.len() - 1 implies #[trigger] step(g, longer, i) by {
        if i < path.len() - 1 {
            assert(step(g, path, i));
        }
    }
    assert(reaches(g, roots, b, longer));
}

/// More roots reach at least as much.
pub proof fn lemma_reachable_monotone(g: Graph, small: Set<u64>, large: Set<u64>, r: u64)
    requires
        small.subset_of(large),
        reachable(g, small, r),
    ensures
        reachable(g, large, r),
{
    let path = choose|path: Seq<u64>| #[trigger] reaches(g, small, r, path);
    assert(reaches(g, large, r, path));
}

/// What is reachable in a part of a graph is reachable in the graph.
pub proof fn lemma_reachable_subgraph(small: Graph, large: Graph, roots: Set<u64>, r: u64)
    requires
        subgraph(small, large),
        reachable(small, roots, r),
    ensures
        reachable(large, roots, r),
{
    let path = choose|path: Seq<u64>| #[trigger] reaches(small, roots, r, path);
    assert forall|i: int| 0 <= i < path.len() - 1 implies #[trigger] step(large, path, i) by {
        assert(step(small, path, i));
        assert(small.dom().contains(path[i]));
    }
    assert forall|i: int| 0 <= i < path.len() implies large.dom().contains(
        #[trigger] path[i],
    ) by {
        assert(small.dom().contains(path[i]));
    }
    assert(reaches(large, roots, r, path));
}

/// The part of a path from position `from` on is a path.
proof fn lemma_path_suffix(g: Graph, path: Seq<u64>, from: int)
    requires
        is_path(g, path),
        0 <= from < path.len(),
    ensures
        is_path(g, path.skip(from)),
        path.skip(from)[0] == path[from],
        path.skip(from).last() == path.last(),
{
    let rest = path.skip(from);
    assert forall|i: int| 0 <= i < rest.len() - 1 implies #[trigger] step(g, rest, i) by {
        assert(step(g, path, from + i));
    }
    assert forall|i: int| 0 <= i < rest.len() implies g.dom().contains(#[trigger] rest[i]) by {
        assert(g.dom().contains(path[from + i]));
    }
}

/// What is reachable from a reachable object is reachable.
pub proof fn lemma_reachable_transitive(g: Graph, roots: Set<u64>, via: u64, r: u64)
    requires
        reachable(g, roots, via),
        reachable(g, set![via], r),
    ensures
        reachable(g, roots, r),
{
    let head = choose|path: Seq<u64>| #[trigger] reaches(g, roots, via, path);
    let tail = choose|path: Seq<u64>| #[trigger] reaches(g, set![via], r, path);
    let path = head + tail.skip(1);
    assert forall|i: int| 0 <= i < path.len() - 1 implies #[trigger] step(g, path, i) by {
        if i < head.len() - 1 {
            assert(step(g, head, i));
        } else {
            assert(step(g, tail, i - head.len() + 1));
        }
    }
    assert forall|i: int| 0 <= i < path.len() implies g.dom().contains(#[trigger] path[i]) by {
        if i < head.len() {
            assert(g.dom().contains(head[i]));
        } else {
            assert(g.dom().contains(tail[i - head.len() + 1]));
        }
    }
    assert(reaches(g, roots, r, path));
}

/// A path that keeps clear of a set of objects is a path in the graph
/// without them.
proof fn lemma_path_avoiding(g: Graph, gone: Set<u64>, path: Seq<u64>)
    requires
        is_path(g, path),
        forall|i: int| 0 <= i < path.len() ==> !gone.contains(#[trigger] path[i]),
    ensures
        is_path(g.remove_keys(gone), path),
{
    let h = g.remove_keys(gone);
    assert forall|i: int| 0 <= i < path.len() - 1 implies #[trigger] step(h, path, i) by {
        assert(step(g, path, i));
        assert(h.dom().contains(path[i]));
    }
    assert forall|i: int| 0 <= i < path.len() implies h.dom().contains(#[trigger] path[i]) by {
        assert(g.dom().contains(path[i]));
    }
}

/// Whatever `v` reaches, besides itself, is reached from what `v` refers
/// to without going through `v` again.
proof fn lemma_reachable_past_node(g: Graph, v: u64, r: u64, path: Seq<u64>)
    requires
        reaches(g, set![v], r, path),
        r != v,
    ensures
        reachable(g.remove(v), g[v].to_set(), r),
    decreases path.len(),
{
    let rest = path.skip(1);
    assert(path.len() >= 2);
    lemma_path_suffix(g, path, 1);
    assert(step(g, path, 0));
    assert(g[v].to_set().contains(rest[0]));
    if exists|i: int| 0 <= i < rest.len() && rest[i] == v {
        let i = choose|i: int| 0 <= i < rest.len() && rest[i] == v;
        lemma_path_suffix(g, rest, i);
        lemma_reachable_past_node(g, v, r, rest.skip(i));
    } else {
        lemma_path_avoiding(g, set![v], rest);
        assert(g.remove_keys(set![v]) =~= g.remove(v));
        assert(reaches(g.remove(v), g[v].to_set(), r, rest));
    }
}

/// What an object reaches is itself and what its references reach without
/// going through it.
pub proof fn lemma_reachable_through_node(g: Graph, v: u64, r: u64)
    requires
        g.dom().contains(v),
    ensures
        reachable(g, set![v], r) <==> r == v || reachable(g.remove(v), g[v].to_set(), r),
{
    if reachable(g, set![v], r) && r != v {
        let path = choose|path: Seq<u64>| #[trigger] reaches(g, set![v], r, path);
        lemma_reachable_past_node(g, v, r, path);
    }
    if r == v {
        lemma_root_reachable(g, set![v], v);
    }
    if reachable(g.remove(v), g[v].to_set(), r) {
        let h = g.remove(v);
        let tail = choose|path: Seq<u64>| #[trigger] reaches(h, g[v].to_set(), r, path);
        let path = seq![v] + tail;
        assert forall|i: int| 0 <= i < path.len() - 1 implies #[trigger] step(g, path, i) by {
            if i > 0 {
                assert(step(h, tail, i - 1));
                assert(h.dom().contains(tail[i - 1]));
            }
        }
        assert forall|i: int| 0 <= i < path.len() implies g.dom().contains(
            #[trigger] path[i],
        ) by {
            if i > 0 {
                assert(h.dom().contains(tail[i - 1]));
            }
        }
        assert(reaches(g, set![v], r, path));
    }
}

/// What two sets of roots reach together is what the first set reaches
/// and what the second set reaches in the rest of the graph.
pub proof fn lemma_reachable_in_two_rounds(g: Graph, first: Set<u64>, second: Set<u64>, r: u64)
    ensures
        reachable(g, first + second, r) <==> reachable(g, first, r) || reachable(
            g.remove_keys(reachable_set(g, first)),
            second,
            r,
        ),
{
    let gone = reachable_set(g, first);
    let rest = g.remove_keys(gone);
    if reachable(g, first, r) {
        lemma_reachable_monotone(g, first, first + second, r);
    }
    if reachable(rest, second, r) {
        lemma_reachable_subgraph(rest, g, second, r);
        lemma_reachable_monotone(g, second, first + second, r);
    }
    if reachable(g, first + second, r) && !reachable(g, first, r) {
        let path = choose|path: Seq<u64>| #[trigger] reaches(g, first + second, r, path);
        if exists|i: int| 0 <= i < path.len() && gone.contains(path[i]) {
            let i = choose|i: int| 0 <= i < path.len() && gone.contains(path[i]);
            lemma_path_suffix(g, path, i);
            assert(reaches(g, set![path[i]], r, path.skip(i)));
            lemma_reachable_transitive(g, first, path[i], r);
        } else {
            lemma_path_avoiding(g, gone, path);
            if first.contains(path[0]) {
                lemma_root_reachable(g, first, path[0]);
                assert(gone.contains(path[0]));
            }
            assert(reaches(rest, second, r, path));
        }
    }
}

} // verus!
