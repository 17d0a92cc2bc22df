//! Connected components of the (undirected) fuzzy neighbour graph, computed
//! with a union-find forest (union by rank, path compression).
use vstd::prelude::*;

verus! {

/// The edge `e` joins `a` and `b`, in either orientation.
pub open spec fn edge_joins(e: (usize, usize), a: int, b: int) -> bool {
    (e.0 == a && e.1 == b) || (e.0 == b && e.1 == a)
}

/// Some edge of `edges` joins `a` and `b`.
pub open spec fn edge_links(edges: Seq<(usize, usize)>, a: int, b: int) -> bool {
    exists|k: int| 0 <= k < edges.len() && #[trigger] edge_joins(edges[k], a, b)
}

/// Step `i` of the walk `p` follows an edge.
pub open spec fn walk_step(edges: Seq<(usize, usize)>, p: Seq<int>, i: int) -> bool {
    edge_links(edges, p[i], p[i + 1])
}

/// `p` is a non-empty walk along the undirected edges.
pub open spec fn is_walk(edges: Seq<(usize, usize)>, p: Seq<int>) -> bool {
    &&& p.len() >= 1
    &&& forall|i: int| 0 <= i < p.len() - 1 ==> #[trigger] walk_step(edges, p, i)
}

/// `a` and `b` are connected: some walk along the edges leads from `a` to `b`.
pub open spec fn connected(edges: Seq<(usize, usize)>, a: int, b: int) -> bool {
    exists|p: Seq<int>| #[trigger] is_walk(edges, p) && p[0] == a && p[p.len() - 1] == b
}

pub proof fn lemma_connected_refl(edges: Seq<(usize, usize)>, a: int)
    ensures
        connected(edges, a, a),
{
    let p = seq![a];
    assert(is_walk(edges, p));
}

pub proof fn lemma_connected_edge(edges: Seq<(usize, usize)>, a: int, b: int)
    requires
        edge_links(edges, a, b),
    ensures
        connected(edges, a, b),
{
    let p = seq![a, b];
    assert(walk_step(edges, p, 0));
    assert(is_walk(edges, p));
}

pub proof fn lemma_connected_sym(edges: Seq<(usize, usize)>, a: int, b: int)
    requires
        connected(edges, a, b),
    ensures
        connected(edges, b, a),
{
    let p = choose|p: Seq<int>| #[trigger] is_walk(edges, p) && p[0] == a && p[p.len() - 1] == b;
    let q = Seq::new(p.len(), |i: int| p[p.len() - 1 - i]);
    assert forall|i: int| 0 <= i < q.len() - 1 implies #[trigger] walk_step(edges, q, i) by {
        let j = p.len() - 2 - i;
        assert(walk_step(edges, p, j));
        let k = choose|k: int| 0 <= k < edges.len() && #[trigger] edge_joins(edges[k], p[j], p[j + 1]);
        assert(edge_joins(edges[k], q[i], q[i + 1]));
    }
    assert(is_walk(edges, q));
}

pub proof fn lemma_connected_trans(edges: Seq<(usize, usize)>, a: int, b: int, c: int)
    requires
        connected(edges, a, b),
        connected(edges, b, c),
    ensures
        connected(edges, a, c),
{
    let p = choose|p: Seq<int>| #[trigger] is_walk(edges, p) && p[0] == a && p[p.len() - 1] == b;
    let q = choose|q: Seq<int>| #[trigger] is_walk(edges, q) && q[0] == b && q[q.len() - 1] == c;
    let r = p + q.drop_first();
    assert forall|i: int| 0 <= i < r.len() - 1 implies #[trigger] walk_step(edges, r, i) by {
        if i < p.len() - 1 {
            assert(walk_step(edges, p, i));
        } else {
            let j = i - (p.len() - 1);
            assert(walk_step(edges, q, j));
            assert(r[i] == q[j]);
            assert(r[i + 1] == q[j + 1]);
        }
    }
    assert(is_walk(edges, r));
}

/// Node `v` occurs in one of the lists of `comps`.
pub open spec fn node_listed(comps: Seq<Vec<usize>>, v: int) -> bool {
    exists|c: int, j: int| 0 <= c < comps.len() && 0 <= j < comps[c].len() && #[trigger] comps[c][j] == v
}

/// A union-find forest: parents are in range and ranks strictly grow along
/// every parent link.
pub open spec fn uf_wf(parent: Seq<usize>, rank: Seq<usize>) -> bool {
    &&& parent.len() == rank.len()
    &&& forall|x: int| 0 <= x < parent.len() ==> #[trigger] parent[x] < parent.len()
    &&& forall|x: int|
        0 <= x < parent.len() && #[trigger] parent[x] != x ==> rank[x] < rank[parent[x] as int]
}

/// The root that `x` reaches by following parent links.
pub open spec fn uf_root(parent: Seq<usize>, rank: Seq<usize>, x: int) -> int
    decreases usize::MAX - rank[x],
    when uf_wf(parent, rank) && 0 <= x < parent.len()
{
    if parent[x] == x {
        x
    } else {
        uf_root(parent, rank, parent[x] as int)
    }
}

proof fn lemma_root_props(parent: Seq<usize>, rank: Seq<usize>, x: int)
    requires
        uf_wf(parent, rank),
        0 <= x < parent.len(),
    ensures
        0 <= uf_root(parent, rank, x) < parent.len(),
        parent[uf_root(parent, rank, x)] == uf_root(parent, rank, x),
        parent[x] != x ==> rank[x] < rank[uf_root(parent, rank, x)],
        parent[x] == x ==> uf_root(parent, rank, x) == x,
    decreases usize::MAX - rank[x],
{
    if parent[x] != x {
        lemma_root_props(parent, rank, parent[x] as int);
    }
}

/// Pointing `x` straight at its root keeps the forest and every root.
proof fn lemma_compress(parent: Seq<usize>, rank: Seq<usize>, x: int, y: int)
    requires
        uf_wf(parent, rank),
        0 <= x < parent.len(),
        0 <= y < parent.len(),
    ensures
        uf_wf(parent.update(x, uf_root(parent, rank, x) as usize), rank),
        uf_root(parent.update(x, uf_root(parent, rank, x) as usize), rank, y) == uf_root(
            parent,
            rank,
            y,
        ),
    decreases usize::MAX - rank[y],
{
    let r = uf_root(parent, rank, x);
    lemma_root_props(parent, rank, x);
    let p2 = parent.update(x, r as usize);
    assert forall|z: int| 0 <= z < p2.len() && #[trigger] p2[z] != z implies rank[z] < rank[
        p2[z] as int
    ] by {
        if z == x {
            lemma_root_props(parent, rank, x);
        }
    }
    assert(uf_wf(p2, rank));
    if y == x {
        if r != x {
            assert(p2[r] == r);
            assert(uf_root(p2, rank, r) == r);
        }
    } else if parent[y] != y {
        lemma_compress(parent, rank, x, parent[y] as int);
    }
}

/// Linking root `c` under root `p` (optionally raising the rank of `p`)
/// merges the class of `c` into that of `p`.
proof fn lemma_link(
    parent: Seq<usize>,
    rank: Seq<usize>,
    rank2: Seq<usize>,
    c: int,
    p: int,
    y: int,
)
    requires
        uf_wf(parent, rank),
        0 <= c < parent.len(),
        0 <= p < parent.len(),
        0 <= y < parent.len(),
        c != p,
        parent[c] == c,
        parent[p] == p,
        rank2.len() == rank.len(),
        forall|z: int| 0 <= z < rank.len() && z != p ==> rank2[z] == rank[z],
        rank[p] <= rank2[p],
        rank2[c] < rank2[p],
    ensures
        uf_wf(parent.update(c, p as usize), rank2),
        uf_root(parent.update(c, p as usize), rank2, y) == if uf_root(parent, rank, y) == c {
            p
        } else {
            uf_root(parent, rank, y)
        },
    decreases usize::MAX - rank[y],
{
    let p2 = parent.update(c, p as usize);
    assert forall|z: int| 0 <= z < p2.len() && #[trigger] p2[z] != z implies rank2[z] < rank2[
        p2[z] as int
    ] by {
        if z != c {
            assert(parent[z] != z);
            assert(z != p);
        }
    }
    assert(uf_wf(p2, rank2));
    if y == c {
        assert(p2[p] == p);
        assert(uf_root(p2, rank2, p) == p);
    } else if parent[y] != y {
        lemma_link(parent, rank, rank2, c, p, parent[y] as int);
    }
}

/// Finds the root of `x`, compressing the path from `x` to it.
fn uf_find(parent: &mut Vec<usize>, Ghost(rank): Ghost<Seq<usize>>, x: usize) -> (r: usize)
    requires
        uf_wf(old(parent)@, rank),
        x < old(parent).len(),
    ensures
        r == uf_root(old(parent)@, rank, x as int),
        uf_wf(final(parent)@, rank),
        final(parent).len() == old(parent).len(),
        forall|y: int|
            0 <= y < old(parent).len() ==> #[trigger] uf_root(final(parent)@, rank, y) == uf_root(
                old(parent)@,
                rank,
                y,
            ),
{
    let ghost orig = parent@;
    let mut root = x;
    proof {
        lemma_root_props(orig, rank, x as int);
    }
    while parent[root] != root
        invariant
            parent@ == orig,
            uf_wf(orig, rank),
            root < orig.len(),
            uf_root(orig, rank, root as int) == uf_root(orig, rank, x as int),
        decreases usize::MAX - rank[root as int],
    {
        root = parent[root];
    }
    let mut node = x;
    while parent[node] != root
        invariant
            uf_wf(parent@, rank),
            parent.len() == orig.len(),
            node < parent.len(),
            root < parent.len(),
            parent[root as int] == root,
            root as int == uf_root(orig, rank, x as int),
            uf_root(parent@, rank, node as int) == root,
            forall|y: int|
                0 <= y < orig.len() ==> #[trigger] uf_root(parent@, rank, y) == uf_root(
                    orig,
                    rank,
                    y,
                ),
        decreases usize::MAX - rank[node as int],
    {
        let next = parent[node];
        proof {
            lemma_root_props(parent@, rank, node as int);
            assert forall|y: int| 0 <= y < orig.len() implies #[trigger] uf_root(
                parent@.update(node as int, root),
                rank,
                y,
            ) == uf_root(orig, rank, y) by {
                lemma_compress(parent@, rank, node as int, y);
            }
            lemma_compress(parent@, rank, node as int, next as int);
        }
        parent.set(node, root);
        node = next;
    }
    root
}

/// Merges the classes of `a` and `b` (union by rank).
fn uf_union(parent: &mut Vec<usize>, rank: &mut Vec<usize>, a: usize, b: usize, Ghost(
    bound,
): Ghost<int>)
    requires
        uf_wf(old(parent)@, old(rank)@),
        a < old(parent).len(),
        b < old(parent).len(),
        bound < usize::MAX,
        forall|z: int| 0 <= z < old(rank).len() ==> #[trigger] old(rank)[z] <= bound,
    ensures
        uf_wf(final(parent)@, final(rank)@),
        final(parent).len() == old(parent).len(),
        forall|z: int| 0 <= z < final(rank).len() ==> #[trigger] final(rank)[z] <= bound + 1,
        uf_root(final(parent)@, final(rank)@, a as int) == uf_root(
            final(parent)@,
            final(rank)@,
            b as int,
        ),
        forall|y: int|
            0 <= y < old(parent).len() ==> #[trigger] uf_root(final(parent)@, final(rank)@, y) == (
            if uf_root(old(parent)@, old(rank)@, y) == uf_root(old(parent)@, old(rank)@, b as int)
                || uf_root(old(parent)@, old(rank)@, y) == uf_root(
                old(parent)@,
                old(rank)@,
                a as int,
            ) {
                uf_root(final(parent)@, final(rank)@, a as int)
            } else {
                uf_root(old(parent)@, old(rank)@, y)
            }),
        uf_root(final(parent)@, final(rank)@, a as int) == uf_root(old(parent)@, old(rank)@, a as int)
            || uf_root(final(parent)@, final(rank)@, a as int) == uf_root(
            old(parent)@,
            old(rank)@,
            b as int,
        ),
{
    let ghost p0 = parent@;
    let ghost r0 = rank@;
    let root_a = uf_find(parent, Ghost(rank@), a);
    let root_b = uf_find(parent, Ghost(rank@), b);
    let ghost p1 = parent@;
    proof {
        lemma_root_props(p0, r0, a as int);
        lemma_root_props(p0, r0, b as int);
        lemma_root_props(p1, r0, root_a as int);
        lemma_root_props(p1, r0, root_b as int);
        assert(uf_root(p1, r0, root_a as int) == uf_root(p0, r0, root_a as int));
        assert(uf_root(p1, r0, root_b as int) == uf_root(p0, r0, root_b as int));
    }
    if root_a == root_b {
        return;
    }
    if rank[root_a] < rank[root_b] {
        proof {
            assert forall|y: int| 0 <= y < p1.len() implies #[trigger] uf_root(
                p1.update(root_a as int, root_b),
                r0,
                y,
            ) == (if uf_root(p1, r0, y) == root_a {
                root_b as int
            } else {
                uf_root(p1, r0, y)
            }) by {
                lemma_link(p1, r0, r0, root_a as int, root_b as int, y);
            }
            lemma_link(p1, r0, r0, root_a as int, root_b as int, a as int);
        }
        parent.set(root_a, root_b);
    } else if rank[root_a] > rank[root_b] {
        proof {
            assert forall|y: int| 0 <= y < p1.len() implies #[trigger] uf_root(
                p1.update(root_b as int, root_a),
                r0,
                y,
            ) == (if uf_root(p1, r0, y) == root_b {
                root_a as int
            } else {
                uf_root(p1, r0, y)
            }) by {
                lemma_link(p1, r0, r0, root_b as int, root_a as int, y);
            }
            lemma_link(p1, r0, r0, root_b as int, root_a as int, a as int);
        }
        parent.set(root_b, root_a);
    } else {
        let new_rank = rank[root_a] + 1;
        let ghost r1 = r0.update(root_a as int, new_rank);
        proof {
            assert forall|y: int| 0 <= y < p1.len() implies #[trigger] uf_root(
                p1.update(root_b as int, root_a),
                r1,
                y,
            ) == (if uf_root(p1, r0, y) == root_b {
                root_a as int
            } else {
                uf_root(p1, r0, y)
            }) by {
                lemma_link(p1, r0, r1, root_b as int, root_a as int, y);
            }
            lemma_link(p1, r0, r1, root_b as int, root_a as int, a as int);
        }
        parent.set(root_b, root_a);
        rank.set(root_a, new_rank);
    }
}

/// Walks only link nodes of one class: if every edge joins nodes of one
/// class, so does every walk.
proof fn lemma_walk_same_root(
    edges: Seq<(usize, usize)>,
    parent: Seq<usize>,
    rank: Seq<usize>,
    p: Seq<int>,
)
    requires
        uf_wf(parent, rank),
        is_walk(edges, p),
        forall|k: int|
            0 <= k < edges.len() ==> (#[trigger] edges[k]).0 < parent.len() && edges[k].1
                < parent.len(),
        forall|k: int|
            0 <= k < edges.len() ==> uf_root(parent, rank, (#[trigger] edges[k]).0 as int)
                == uf_root(parent, rank, edges[k].1 as int),
        0 <= p[0] < parent.len(),
    ensures
        0 <= p[p.len() - 1] < parent.len(),
        uf_root(parent, rank, p[0]) == uf_root(parent, rank, p[p.len() - 1]),
    decreases p.len(),
{
    if p.len() > 1 {
        let q = p.drop_last();
        assert forall|i: int| 0 <= i < q.len() - 1 implies #[trigger] walk_step(edges, q, i) by {
            assert(walk_step(edges, p, i));
        }
        lemma_walk_same_root(edges, parent, rank, q);
        let i = p.len() - 2;
        assert(walk_step(edges, p, i));
        let k = choose|k: int| 0 <= k < edges.len() && #[trigger] edge_joins(edges[k], p[i], p[i + 1]);
        assert(edge_joins(edges[k], p[i], p[i + 1]));
    }
}

/// The connected components of the undirected graph on the nodes
/// `0..n_samples` given by `edges` (self loops allowed). Each component is
/// listed in increasing order, and the components are ordered by their
/// smallest node.
#[verifier::loop_isolation(false)]
pub fn connected_components_from_edges(n_samples: usize, edges: &[(usize, usize)]) -> (comps: Vec<
    Vec<usize>,
>)
    requires
        forall|k: int|
            0 <= k < edges.len() ==> (#[trigger] edges[k]).0 < n_samples && edges[k].1 < n_samples,
    ensures
        forall|c: int| 0 <= c < comps.len() ==> (#[trigger] comps[c]).len() > 0,
        forall|c: int, j: int|
            0 <= c < comps.len() && 0 <= j < comps[c].len() ==> #[trigger] comps[c][j] < n_samples,
        forall|c: int, j: int|
            0 <= c < comps.len() && 0 <= j < comps[c].len() - 1 ==> #[trigger] comps[c][j]
                < comps[c][j + 1],
        forall|c: int| 0 <= c < comps.len() - 1 ==> #[trigger] comps[c][0] < comps[c + 1][0],
        forall|v: int| 0 <= v < n_samples ==> #[trigger] node_listed(comps@, v),
        forall|c1: int, j1: int, c2: int, j2: int|
            0 <= c1 < comps.len() && 0 <= j1 < comps[c1].len() && 0 <= c2 < comps.len() && 0 <= j2
                < comps[c2].len() ==> (connected(edges@, #[trigger] comps[c1][j1] as int, #[trigger] comps[c2][j2] as int)
                <==> c1 == c2),
{
    let n = n_samples;
    let mut parent: Vec<usize> = Vec::with_capacity(n);
    let mut rank: Vec<usize> = Vec::with_capacity(n);
    let mut i: usize = 0;
    while i < n
        invariant
            i <= n,
            parent.len() == i,
            rank.len() == i,
            forall|x: int| 0 <= x < i ==> #[trigger] parent[x] == x,
            forall|x: int| 0 <= x < i ==> #[trigger] rank[x] == 0,
        decreases n - i,
    {
        parent.push(i);
        rank.push(0);
        i = i + 1;
    }
    proof {
        assert forall|x: int| 0 <= x < n implies #[trigger] connected(
            edges@,
            x,
            uf_root(parent@, rank@, x),
        ) by {
            lemma_connected_refl(edges@, x);
        }
    }
    let mut k: usize = 0;
    while k < edges.len()
        invariant
            k <= edges.len(),
            uf_wf(parent@, rank@),
            parent.len() == n,
            forall|e: int|
                0 <= e < edges.len() ==> (#[trigger] edges[e]).0 < n && edges[e].1 < n,
            forall|x: int| 0 <= x < n ==> #[trigger] rank[x] <= k,
            forall|x: int|
                0 <= x < n ==> #[trigger] connected(edges@, x, uf_root(parent@, rank@, x)),
            forall|e: int|
                0 <= e < k ==> uf_root(parent@, rank@, (#[trigger] edges[e]).0 as int) == uf_root(
                    parent@,
                    rank@,
                    edges[e].1 as int,
                ),
        decreases edges.len() - k,
    {
        let (head, tail) = edges[k];
        if head != tail {
            let ghost p0 = parent@;
            let ghost r0 = rank@;
            uf_union(&mut parent, &mut rank, head, tail, Ghost(k as int));
            proof {
                let ra = uf_root(p0, r0, head as int);
                let rb = uf_root(p0, r0, tail as int);
                let nr = uf_root(parent@, rank@, head as int);
                assert(edge_joins(edges@[k as int], head as int, tail as int));
                lemma_connected_edge(edges@, head as int, tail as int);
                assert(connected(edges@, head as int, ra));
                assert(connected(edges@, tail as int, rb));
                lemma_connected_sym(edges@, head as int, ra);
                lemma_connected_trans(edges@, ra, head as int, tail as int);
                lemma_connected_trans(edges@, ra, tail as int, rb);
                lemma_connected_sym(edges@, ra, rb);
                assert forall|x: int| 0 <= x < n implies #[trigger] connected(
                    edges@,
                    x,
                    uf_root(parent@, rank@, x),
                ) by {
                    let rx = uf_root(p0, r0, x);
                    assert(connected(edges@, x, rx));
                    if rx == ra || rx == rb {
                        if nr == ra && rx == rb {
                            lemma_connected_trans(edges@, x, rb, ra);
                        } else if nr == rb && rx == ra {
                            lemma_connected_trans(edges@, x, ra, rb);
                        }
                    }
                }
                assert forall|e: int| 0 <= e < k + 1 implies uf_root(
                    parent@,
                    rank@,
                    (#[trigger] edges[e]).0 as int,
                ) == uf_root(parent@, rank@, edges[e].1 as int) by {
                    if e < k {
                        assert(uf_root(p0, r0, edges[e].0 as int) == uf_root(
                            p0,
                            r0,
                            edges[e].1 as int,
                        ));
                        assert(uf_root(parent@, rank@, edges[e].0 as int) == uf_root(
                            parent@,
                            rank@,
                            edges[e].1 as int,
                        ));
                    }
                }
            }
        }
        k = k + 1;
    }
    // Group the nodes by root, in increasing node order.
    let ghost fp = parent@;
    let ghost fr = rank@;
    let mut slot: Vec<usize> = Vec::with_capacity(n);
    let mut s: usize = 0;
    while s < n
        invariant
            s <= n,
            slot.len() == s,
            forall|x: int| 0 <= x < s ==> #[trigger] slot[x] == usize::MAX,
        decreases n - s,
    {
        slot.push(usize::MAX);
        s = s + 1;
    }
    let mut comps: Vec<Vec<usize>> = Vec::new();
    let ghost mut comp_root: Seq<int> = Seq::empty();
    let mut node: usize = 0;
    while node < n
        invariant
            node <= n,
            uf_wf(parent@, fr),
            rank@ == fr,
            parent.len() == n,
            slot.len() == n,
            forall|y: int|
                0 <= y < n ==> #[trigger] uf_root(parent@, fr, y) == uf_root(fp, fr, y),
            comps.len() == comp_root.len(),
            comps.len() <= node,
            forall|c: int| 0 <= c < comps.len() ==> (#[trigger] comps[c]).len() > 0,
            forall|c: int, j: int|
                0 <= c < comps.len() && 0 <= j < comps[c].len() ==> #[trigger] comps[c][j] < node,
            forall|c: int, j: int|
                0 <= c < comps.len() && 0 <= j < comps[c].len() ==> uf_root(
                    fp,
                    fr,
                    #[trigger] comps[c][j] as int,
                ) == comp_root[c],
            forall|c: int, j: int|
                0 <= c < comps.len() && 0 <= j < comps[c].len() - 1 ==> #[trigger] comps[c][j]
                    < comps[c][j + 1],
            forall|c: int| 0 <= c < comps.len() - 1 ==> #[trigger] comps[c][0] < comps[c + 1][0],
            forall|v: int| 0 <= v < node ==> #[trigger] node_listed(comps@, v),
            forall|c1: int, c2: int|
                0 <= c1 < comps.len() && 0 <= c2 < comps.len() && c1 != c2 ==> comp_root[c1]
                    != comp_root[c2],
            forall|c: int| 0 <= c < comps.len() ==> 0 <= #[trigger] comp_root[c] < n,
            forall|r: int|
                0 <= r < n ==> (#[trigger] slot[r] == usize::MAX <==> forall|c: int|
                    0 <= c < comps.len() ==> comp_root[c] != r),
            forall|r: int|
                0 <= r < n && #[trigger] slot[r] != usize::MAX ==> slot[r] < comps.len()
                    && comp_root[slot[r] as int] == r,
        decreases n - node,
    {
        let r = uf_find(&mut parent, Ghost(fr), node);
        proof {
            lemma_root_props(fp, fr, node as int);
        }
        if slot[r] == usize::MAX {
            let c = comps.len();
            let ghost old_comps = comps@;
            let mut fresh: Vec<usize> = Vec::new();
            fresh.push(node);
            comps.push(fresh);
            slot.set(r, c);
            proof {
                let old_root = comp_root;
                comp_root = comp_root.push(r as int);
                assert forall|r2: int| 0 <= r2 < n implies (#[trigger] slot[r2] == usize::MAX
                    <==> forall|c2: int| 0 <= c2 < comps.len() ==> comp_root[c2] != r2) by {
                    if r2 != r {
                        assert forall|c2: int| 0 <= c2 < comps.len() && comp_root[c2] == r2 implies c2 < old_root.len() && old_root[c2] == r2 by {}
                    } else {
                        assert(comp_root[c as int] == r2);
                    }
                }
                assert forall|v: int| 0 <= v < node + 1 implies #[trigger] node_listed(comps@, v) by {
                    if v == node {
                        assert(comps@[c as int][0] == v);
                    } else {
                        assert(node_listed(old_comps, v));
                        let (c3, j3) = choose|c3: int, j3: int|
                            0 <= c3 < old_comps.len() && 0 <= j3 < old_comps[c3].len()
                                && #[trigger] old_comps[c3][j3] == v;
                        assert(comps@[c3][j3] == v);
                    }
                }
                if c > 0 {
                    assert(comps[c - 1][0] < node);
                }
            }
        } else {
            let c = slot[r];
            let ghost old_comps = comps@;
            comps[c].push(node);
            proof {
                assert forall|c2: int| 0 <= c2 < comps.len() implies (#[trigger] comps[c2]).len()
                    > 0 by {
                    if c2 != c {
                        assert(comps[c2] == old_comps[c2]);
                    }
                }
                assert forall|c2: int, j: int|
                    0 <= c2 < comps.len() && 0 <= j < comps[c2].len() implies #[trigger] comps[c2][j]
                    < node + 1 by {
                    if c2 != c {
                        assert(comps[c2] == old_comps[c2]);
                    }
                }
                assert forall|c2: int, j: int|
                    0 <= c2 < comps.len() && 0 <= j < comps[c2].len() implies uf_root(
                    fp,
                    fr,
                    #[trigger] comps[c2][j] as int,
                ) == comp_root[c2] by {
                    if c2 != c {
                        assert(comps[c2] == old_comps[c2]);
                    }
                }
                assert forall|c2: int, j: int|
                    0 <= c2 < comps.len() && 0 <= j < comps[c2].len() - 1 implies #[trigger] comps[c2][j]
                    < comps[c2][j + 1] by {
                    if c2 != c {
                        assert(comps[c2] == old_comps[c2]);
                    }
                }
                assert forall|c2: int| 0 <= c2 < comps.len() - 1 implies #[trigger] comps[c2][0]
                    < comps[c2 + 1][0] by {
                    assert(comps[c2][0] == old_comps[c2][0]);
                    assert(comps[c2 + 1][0] == old_comps[c2 + 1][0]);
                }
                assert forall|v: int| 0 <= v < node + 1 implies #[trigger] node_listed(comps@, v) by {
                    if v == node {
                        assert(comps@[c as int][comps[c as int].len() - 1] == v);
                    } else {
                        assert(node_listed(old_comps, v));
                        let (c3, j3) = choose|c3: int, j3: int|
                            0 <= c3 < old_comps.len() && 0 <= j3 < old_comps[c3].len()
                                && #[trigger] old_comps[c3][j3] == v;
                        assert(comps@[c3][j3] == v);
                    }
                }
            }
        }
        node = node + 1;
    }
    proof {
        assert forall|c1: int, j1: int, c2: int, j2: int|
            0 <= c1 < comps.len() && 0 <= j1 < comps[c1].len() && 0 <= c2 < comps.len() && 0 <= j2
                < comps[c2].len() implies (connected(
            edges@,
            #[trigger] comps[c1][j1] as int,
            #[trigger] comps[c2][j2] as int,
        ) <==> c1 == c2) by {
            let a = comps[c1][j1] as int;
            let b = comps[c2][j2] as int;
            if c1 == c2 {
                assert(connected(edges@, a, uf_root(fp, fr, a)));
                assert(connected(edges@, b, uf_root(fp, fr, b)));
                lemma_connected_sym(edges@, b, uf_root(fp, fr, b));
                lemma_connected_trans(edges@, a, uf_root(fp, fr, a), b);
            } else if connected(edges@, a, b) {
                let p = choose|p: Seq<int>| #[trigger] is_walk(edges@, p) && p[0] == a && p[p.len()
                    - 1] == b;
                assert forall|e: int| 0 <= e < edges.len() implies uf_root(
                    fp,
                    fr,
                    (#[trigger] edges@[e]).0 as int,
                ) == uf_root(fp, fr, edges@[e].1 as int) by {
                    assert(edges@[e] == edges[e]);
                }
                lemma_walk_same_root(edges@, fp, fr, p);
            }
        }
    }
    comps
}

/// The index of `x` within `component` (its last position), or
/// `usize::MAX` when `x` does not occur.
pub open spec fn local_index(component: Seq<usize>, x: int) -> usize
    decreases component.len(),
{
    if component.len() == 0 {
        usize::MAX
    } else if component.last() == x {
        (component.len() - 1) as usize
    } else {
        local_index(component.drop_last(), x)
    }
}

/// The edges of `edges` whose two ends carry the label `id`, in order, with
/// both ends renumbered by their index within `component`.
pub open spec fn remapped_edges<W>(
    component: Seq<usize>,
    labels: Seq<usize>,
    id: usize,
    edges: Seq<(usize, usize, W)>,
) -> Seq<(usize, usize, W)>
    decreases edges.len(),
{
    if edges.len() == 0 {
        Seq::empty()
    } else {
        let head = remapped_edges(component, labels, id, edges.drop_last());
        let e = edges.last();
        if labels[e.0 as int] == id && labels[e.1 as int] == id {
            head.push((local_index(component, e.0 as int), local_index(component, e.1 as int), e.2))
        } else {
            head
        }
    }
}

/// The edges inside component `component_id` (both ends labelled with
/// it), renumbered by the points' positions in `component`, the list of
/// that component's points.
pub fn remap_component_edges<W: Copy>(
    component: &[usize],
    component_labels: &[usize],
    component_id: usize,
    edges: &[(usize, usize, W)],
) -> (out: Vec<(usize, usize, W)>)
    requires
        forall|t: int| 0 <= t < component.len() ==> #[trigger] component[t] < component_labels.len(),
        forall|t: int|
            0 <= t < edges.len() ==> (#[trigger] edges[t]).0 < component_labels.len() && edges[t].1
                < component_labels.len(),
    ensures
        out@ == remapped_edges(component@, component_labels@, component_id, edges@),
{
    let n = component_labels.len();
    let mut mapping: Vec<usize> = Vec::new();
    while mapping.len() < n
        invariant
            mapping.len() <= n,
            forall|x: int| 0 <= x < mapping.len() ==> #[trigger] mapping@[x] == usize::MAX,
        decreases n - mapping.len(),
    {
        mapping.push(usize::MAX);
    }
    let mut local: usize = 0;
    while local < component.len()
        invariant
            n == component_labels.len(),
            mapping.len() == n,
            local <= component.len(),
            forall|t: int| 0 <= t < component.len() ==> #[trigger] component[t] < n,
            forall|x: int| 0 <= x < n ==> #[trigger] mapping@[x] == local_index(component@.take(local as int), x),
        decreases component.len() - local,
    {
        let global = component[local];
        mapping.set(global, local);
        proof {
            let c1 = component@.take(local + 1);
            assert(c1.drop_last() == component@.take(local as int));
            assert(c1.last() == global);
        }
        local = local + 1;
    }
    proof {
        assert(component@.take(component.len() as int) == component@);
    }
    let mut out: Vec<(usize, usize, W)> = Vec::new();
    let mut t: usize = 0;
    while t < edges.len()
        invariant
            n == component_labels.len(),
            mapping.len() == n,
            t <= edges.len(),
            forall|x: int| 0 <= x < n ==> #[trigger] mapping@[x] == local_index(component@, x),
            forall|u: int|
                0 <= u < edges.len() ==> (#[trigger] edges[u]).0 < n && edges[u].1 < n,
            out@ == remapped_edges(component@, component_labels@, component_id, edges@.take(t as int)),
        decreases edges.len() - t,
    {
        let (head, tail, weight) = edges[t];
        proof {
            let e1 = edges@.take(t + 1);
            assert(e1.drop_last() == edges@.take(t as int));
            assert(e1.last() == edges@[t as int]);
        }
        if component_labels[head] == component_id && component_labels[tail] == component_id {
            out.push((mapping[head], mapping[tail], weight));
        }
        t = t + 1;
    }
    proof {
        assert(edges@.take(edges.len() as int) == edges@);
    }
    out
}

} // verus!
