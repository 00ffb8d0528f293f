//! Ghost model of the prefix tree that the arena stores.
//!
//! Nodes are modelled by index into a sequence; an ordinary node carries a
//! map from key to successor index, a terminal node carries a value.  All
//! reasoning about `add` and `excite` is done against this model.

use vstd::prelude::*;

verus! {

/// Model of one automaton node: an ordinary state with its outgoing edges
/// (key to node index), or a terminal state holding a value.
#[verifier::reject_recursive_types(K)]
pub ghost enum NodeModel<K, V> {
    Ordinary { edges: Map<K, int> },
    End { value: V },
}

/// The node index that `k` leads to from node `n`, if any.
/// A terminal node has no outgoing edges, whatever the key.
pub open spec fn edge_target<K, V>(n: NodeModel<K, V>, k: K) -> Option<int> {
    match n {
        NodeModel::Ordinary { edges } => if edges.contains_key(k) {
            Some(edges[k])
        } else {
            None
        },
        NodeModel::End { .. } => None,
    }
}

/// `n` with its edge for `k` pointing at `t`; meaningful for ordinary nodes.
pub open spec fn with_edge<K, V>(n: NodeModel<K, V>, k: K, t: int) -> NodeModel<K, V> {
    NodeModel::Ordinary { edges: n->edges.insert(k, t) }
}

/// Follow the keys of `p` through `nodes`, starting at node `n`; `None` when
/// some key has no edge.
pub open spec fn walk_from<K, V>(nodes: Seq<NodeModel<K, V>>, n: int, p: Seq<K>) -> Option<int>
    decreases p.len(),
{
    if p.len() == 0 {
        Some(n)
    } else {
        match edge_target(nodes[n], p[0]) {
            Some(t) => walk_from(nodes, t, p.drop_first()),
            None => None,
        }
    }
}

/// `p` leads from node `n` to a terminal node holding `v`.
pub open spec fn accepts_from<K, V>(nodes: Seq<NodeModel<K, V>>, n: int, p: Seq<K>, v: V) -> bool {
    &&& p.len() > 0
    &&& match walk_from(nodes, n, p) {
        Some(t) => nodes[t] == (NodeModel::<K, V>::End { value: v }),
        None => false,
    }
}

/// Every edge points forward, to a strictly larger index that is in range.
/// Nodes are only ever linked to freshly created ones, so this holds of the
/// arena throughout its life; it rules out cycles.
pub open spec fn edges_closed<K, V>(nodes: Seq<NodeModel<K, V>>) -> bool {
    forall|i: int, k: K|
        #![trigger edge_target(nodes[i], k)]
        0 <= i < nodes.len() && edge_target(nodes[i], k) is Some ==> i < edge_target(
            nodes[i],
            k,
        )->Some_0 < nodes.len()
}

/// No two edges share a target: every node has at most one incoming edge,
/// so the reachable structure is a tree.
pub open spec fn edges_injective<K, V>(nodes: Seq<NodeModel<K, V>>) -> bool {
    forall|i1: int, k1: K, i2: int, k2: K|
        #![trigger edge_target(nodes[i1], k1), edge_target(nodes[i2], k2)]
        0 <= i1 < nodes.len() && 0 <= i2 < nodes.len() && edge_target(nodes[i1], k1) is Some
            && edge_target(nodes[i1], k1) == edge_target(nodes[i2], k2) ==> i1 == i2 && k1 == k2
}

pub open spec fn trie_inv<K, V>(nodes: Seq<NodeModel<K, V>>) -> bool {
    &&& edges_closed(nodes)
    &&& edges_injective(nodes)
}

/// The effect on the arena of registering path `p` with value `v`, walking
/// from node `n`: existing edges are followed, missing ones are filled with
/// fresh ordinary nodes, and the last key is linked to a fresh terminal node,
/// overwriting any edge it had.  `None` when the walk runs into a terminal
/// node, i.e. the path would extend past an already completed one.
pub open spec fn add_model<K, V>(nodes: Seq<NodeModel<K, V>>, n: int, p: Seq<K>, v: V) -> Option<
    Seq<NodeModel<K, V>>,
>
    decreases p.len(),
{
    if nodes[n] is End {
        None
    } else if p.len() <= 1 {
        Some(
            nodes.push(NodeModel::End { value: v }).update(
                n,
                with_edge(nodes[n], p[0], nodes.len() as int),
            ),
        )
    } else {
        match edge_target(nodes[n], p[0]) {
            Some(t) => add_model(nodes, t, p.drop_first(), v),
            None => add_model(
                nodes.push(NodeModel::Ordinary { edges: Map::empty() }).update(
                    n,
                    with_edge(nodes[n], p[0], nodes.len() as int),
                ),
                nodes.len() as int,
                p.drop_first(),
                v,
            ),
        }
    }
}

/// The walk of the first `i` keys of `p` from `n` ends on a terminal node.
pub open spec fn end_on_walk<K, V>(
    nodes: Seq<NodeModel<K, V>>,
    n: int,
    p: Seq<K>,
    i: int,
) -> bool {
    match walk_from(nodes, n, p.take(i)) {
        Some(t) => nodes[t] is End,
        None => false,
    }
}

/// How a successful registration changed the pre-existing nodes: exactly one
/// of them, the ordinary node `m` reached by the first `j` keys of `p`, got a
/// new target for key `p[j]`, pointing into the freshly added region.
pub open spec fn grown_at<K, V>(
    nodes: Seq<NodeModel<K, V>>,
    nodes2: Seq<NodeModel<K, V>>,
    n: int,
    p: Seq<K>,
    m: int,
    j: int,
) -> bool {
    &&& n <= m < nodes.len()
    &&& nodes.len() < nodes2.len()
    &&& nodes[m] is Ordinary
    &&& nodes2[m] is Ordinary
    &&& (forall|jj: int| 0 <= jj < nodes.len() && jj != m ==> nodes2[jj] == nodes[jj])
    &&& 0 <= j < p.len()
    &&& walk_from(nodes, n, p.take(j)) == Some(m)
    &&& (forall|k: K|
        k != p[j] ==> #[trigger] edge_target(nodes2[m], k) == edge_target(nodes[m], k))
    &&& edge_target(nodes2[m], p[j]) is Some
    &&& edge_target(nodes2[m], p[j])->Some_0 >= nodes.len()
}

/// A one-key walk is exactly one edge lookup.
pub proof fn lemma_walk_one<K, V>(nodes: Seq<NodeModel<K, V>>, n: int, k: K)
    ensures
        walk_from(nodes, n, seq![k]) == edge_target(nodes[n], k),
{
    let s = seq![k];
    assert(s[0] == k);
    assert(s.drop_first() =~= Seq::<K>::empty());
    match edge_target(nodes[n], k) {
        Some(t) => {
            assert(walk_from(nodes, t, Seq::<K>::empty()) == Some(t));
        },
        None => {
        },
    }
}

/// Walking `a + b` is walking `a`, then walking `b` from where that ended.
pub proof fn lemma_walk_append<K, V>(nodes: Seq<NodeModel<K, V>>, n: int, a: Seq<K>, b: Seq<K>)
    ensures
        walk_from(nodes, n, a + b) == (match walk_from(nodes, n, a) {
            Some(x) => walk_from(nodes, x, b),
            None => None,
        }),
    decreases a.len(),
{
    if a.len() == 0 {
        assert(a + b =~= b);
    } else {
        assert((a + b)[0] == a[0]);
        match edge_target(nodes[n], a[0]) {
            Some(t) => {
                assert((a + b).drop_first() =~= a.drop_first() + b);
                lemma_walk_append(nodes, t, a.drop_first(), b);
            },
            None => {
            },
        }
    }
}

/// With forward edges, a walk never leaves the arena and a nonempty walk
/// strictly increases the index.
pub proof fn lemma_walk_bounds<K, V>(nodes: Seq<NodeModel<K, V>>, n: int, a: Seq<K>)
    requires
        edges_closed(nodes),
        0 <= n < nodes.len(),
        walk_from(nodes, n, a) is Some,
    ensures
        n <= walk_from(nodes, n, a)->Some_0 < nodes.len(),
        a.len() > 0 ==> n < walk_from(nodes, n, a)->Some_0,
    decreases a.len(),
{
    if a.len() > 0 {
        let e = edge_target(nodes[n], a[0]);
        assert(e is Some);
        lemma_walk_bounds(nodes, e->Some_0, a.drop_first());
    }
}

/// In a tree with forward edges, at most one key sequence leads from `n` to
/// any given node: two walks with the same endpoint are the same sequence.
pub proof fn lemma_walk_unique<K, V>(nodes: Seq<NodeModel<K, V>>, n: int, a: Seq<K>, b: Seq<K>)
    requires
        trie_inv(nodes),
        0 <= n < nodes.len(),
        walk_from(nodes, n, a) is Some,
        walk_from(nodes, n, a) == walk_from(nodes, n, b),
    ensures
        a == b,
    decreases a.len(),
{
    if a.len() == 0 {
        if b.len() > 0 {
            lemma_walk_bounds(nodes, n, b);
        }
        assert(a =~= b);
    } else {
        lemma_walk_bounds(nodes, n, a);
        if b.len() == 0 {
            assert(false);
        } else {
            assert(a =~= a.drop_last() + seq![a.last()]);
            assert(b =~= b.drop_last() + seq![b.last()]);
            lemma_walk_append(nodes, n, a.drop_last(), seq![a.last()]);
            lemma_walk_append(nodes, n, b.drop_last(), seq![b.last()]);
            let xa = walk_from(nodes, n, a.drop_last())->Some_0;
            let xb = walk_from(nodes, n, b.drop_last())->Some_0;
            lemma_walk_one(nodes, xa, a.last());
            lemma_walk_one(nodes, xb, b.last());
            assert(edge_target(nodes[xa], a.last()) == walk_from(nodes, n, a));
            assert(edge_target(nodes[xb], b.last()) == walk_from(nodes, n, b));
            lemma_walk_bounds(nodes, n, a.drop_last());
            lemma_walk_bounds(nodes, n, b.drop_last());
            assert(xa == xb && a.last() == b.last());
            lemma_walk_unique(nodes, n, a.drop_last(), b.drop_last());
            assert(a =~= b);
        }
    }
}

/// Frame rule: if at most one pre-existing node changed between `nodes` and
/// `nodes2` (node `m`, and only its edge for `k0`), then a walk that is never
/// about to take key `k0` at node `m` proceeds identically in both arenas,
/// and acceptance along it agrees.
pub proof fn lemma_walk_frame<K, V>(
    nodes: Seq<NodeModel<K, V>>,
    nodes2: Seq<NodeModel<K, V>>,
    u: int,
    q: Seq<K>,
    m: int,
    k0: K,
)
    requires
        edges_closed(nodes),
        0 <= u < nodes.len(),
        nodes2.len() >= nodes.len(),
        forall|j: int| 0 <= j < nodes.len() && j != m ==> nodes2[j] == nodes[j],
        0 <= m < nodes.len() ==> {
            &&& nodes[m] is Ordinary
            &&& nodes2[m] is Ordinary
            &&& forall|k: K|
                k != k0 ==> #[trigger] edge_target(nodes2[m], k) == edge_target(nodes[m], k)
        },
        forall|i: int|
            0 <= i < q.len() ==> !(#[trigger] walk_from(nodes, u, q.take(i)) == Some(m) && q[i]
                == k0),
    ensures
        walk_from(nodes2, u, q) == walk_from(nodes, u, q),
        forall|w: V| accepts_from(nodes2, u, q, w) == accepts_from(nodes, u, q, w),
    decreases q.len(),
{
    if q.len() > 0 {
        assert(q.take(0) =~= Seq::<K>::empty());
        assert(walk_from(nodes, u, q.take(0)) == Some(u));
        assert(!(u == m && q[0] == k0));
        assert(edge_target(nodes2[u], q[0]) == edge_target(nodes[u], q[0]));
        match edge_target(nodes[u], q[0]) {
            Some(t) => {
                let qr = q.drop_first();
                assert forall|i: int|
                    0 <= i < qr.len() implies !(#[trigger] walk_from(nodes, t, qr.take(i)) == Some(
                    m,
                ) && qr[i] == k0) by {
                    lemma_walk_append(nodes, u, seq![q[0]], qr.take(i));
                    lemma_walk_one(nodes, u, q[0]);
                    assert(walk_from(nodes, u, seq![q[0]]) == Some(t));
                    assert(q.take(i + 1) =~= seq![q[0]] + qr.take(i));
                    assert(walk_from(nodes, u, q.take(i + 1)) == walk_from(nodes, t, qr.take(i)));
                }
                lemma_walk_frame(nodes, nodes2, t, qr, m, k0);
            },
            None => {
            },
        }
    }
    assert forall|w: V| accepts_from(nodes2, u, q, w) == accepts_from(nodes, u, q, w) by {
        match walk_from(nodes, u, q) {
            Some(x) => {
                lemma_walk_bounds(nodes, u, q);
                if x == m {
                    assert(!(nodes[x] is End) && !(nodes2[x] is End));
                } else {
                    assert(nodes2[x] == nodes[x]);
                }
            },
            None => {
            },
        }
    }
}

/// Keeping the invariants while linking node `n` to a brand-new, edgeless
/// node appended at the end of the arena.
pub proof fn lemma_link_fresh_inv<K, V>(
    nodes: Seq<NodeModel<K, V>>,
    n: int,
    k: K,
    fresh: NodeModel<K, V>,
)
    requires
        trie_inv(nodes),
        0 <= n < nodes.len(),
        nodes[n] is Ordinary,
        forall|k2: K| #[trigger] edge_target(fresh, k2) is None,
    ensures
        trie_inv(nodes.push(fresh).update(n, with_edge(nodes[n], k, nodes.len() as int))),
{
    let len = nodes.len() as int;
    let nodes2 = nodes.push(fresh).update(n, with_edge(nodes[n], k, len));
    assert forall|i: int, k2: K|
        #![trigger edge_target(nodes2[i], k2)]
        0 <= i < nodes2.len() && edge_target(nodes2[i], k2) is Some implies i < edge_target(
        nodes2[i],
        k2,
    )->Some_0 < nodes2.len() by {
        if i == n {
            if k2 != k {
                assert(edge_target(nodes2[i], k2) == edge_target(nodes[i], k2));
            }
        } else if i < len {
            assert(nodes2[i] == nodes[i]);
            assert(edge_target(nodes2[i], k2) == edge_target(nodes[i], k2));
        } else {
            assert(nodes2[i] == fresh);
        }
    }
    assert forall|i1: int, k1: K, i2: int, k2: K|
        #![trigger edge_target(nodes2[i1], k1), edge_target(nodes2[i2], k2)]
        0 <= i1 < nodes2.len() && 0 <= i2 < nodes2.len() && edge_target(nodes2[i1], k1) is Some
        && edge_target(nodes2[i1], k1) == edge_target(nodes2[i2], k2) implies i1 == i2 && k1
        == k2 by {
        let new1 = edge_target(nodes2[i1], k1);
        if i1 == n && k1 == k {
            assert(new1 == Some(len));
            if !(i2 == n && k2 == k) {
                if i2 < len {
                    assert(edge_target(nodes2[i2], k2) == edge_target(nodes[i2], k2));
                }
                assert(false);
            }
        } else {
            if i1 < len {
                assert(new1 == edge_target(nodes[i1], k1));
            }
            assert(new1->Some_0 < len);
            if i2 == n && k2 == k {
                assert(false);
            } else if i2 < len {
                assert(edge_target(nodes2[i2], k2) == edge_target(nodes[i2], k2));
            }
        }
    }
}

/// Registering any path from an edgeless ordinary node always succeeds: the
/// walk only ever meets freshly created ordinary nodes.
pub proof fn lemma_add_model_from_edgeless<K, V>(
    nodes: Seq<NodeModel<K, V>>,
    n: int,
    p: Seq<K>,
    v: V,
)
    requires
        0 <= n < nodes.len(),
        nodes[n] == (NodeModel::<K, V>::Ordinary { edges: Map::empty() }),
        p.len() >= 1,
    ensures
        add_model(nodes, n, p, v) is Some,
    decreases p.len(),
{
    if p.len() > 1 {
        assert(edge_target(nodes[n], p[0]) is None);
        let len = nodes.len() as int;
        let nodes2 = nodes.push(NodeModel::Ordinary { edges: Map::empty() }).update(
            n,
            with_edge(nodes[n], p[0], len),
        );
        assert(nodes2[len] == (NodeModel::<K, V>::Ordinary { edges: Map::empty() }));
        lemma_add_model_from_edgeless(nodes2, len, p.drop_first(), v);
    }
}

/// Appending a node changes no walk and no acceptance among the old nodes:
/// no old edge can reach it.
pub proof fn lemma_accepts_push<K, V>(
    nodes: Seq<NodeModel<K, V>>,
    x: NodeModel<K, V>,
    u: int,
    q: Seq<K>,
)
    requires
        edges_closed(nodes),
        0 <= u < nodes.len(),
    ensures
        walk_from(nodes.push(x), u, q) == walk_from(nodes, u, q),
        forall|w: V| accepts_from(nodes.push(x), u, q, w) == accepts_from(nodes, u, q, w),
    decreases q.len(),
{
    let nodes2 = nodes.push(x);
    if q.len() > 0 {
        assert(nodes2[u] == nodes[u]);
        match edge_target(nodes[u], q[0]) {
            Some(t) => {
                lemma_accepts_push(nodes, x, t, q.drop_first());
            },
            None => {
            },
        }
    }
    assert forall|w: V| accepts_from(nodes2, u, q, w) == accepts_from(nodes, u, q, w) by {
        match walk_from(nodes, u, q) {
            Some(xx) => {
                lemma_walk_bounds(nodes, u, q);
                assert(nodes2[xx] == nodes[xx]);
            },
            None => {
            },
        }
    }
}

/// Appending an edgeless node keeps the invariants.
pub proof fn lemma_push_edgeless_inv<K, V>(nodes: Seq<NodeModel<K, V>>, x: NodeModel<K, V>)
    requires
        trie_inv(nodes),
        forall|k: K| #[trigger] edge_target(x, k) is None,
    ensures
        trie_inv(nodes.push(x)),
{
    let nodes2 = nodes.push(x);
    assert forall|i: int, k: K|
        #![trigger edge_target(nodes2[i], k)]
        0 <= i < nodes2.len() && edge_target(nodes2[i], k) is Some implies i < edge_target(
        nodes2[i],
        k,
    )->Some_0 < nodes2.len() by {
        if i < nodes.len() {
            assert(edge_target(nodes2[i], k) == edge_target(nodes[i], k));
        } else {
            assert(nodes2[i] == x);
        }
    }
    assert forall|i1: int, k1: K, i2: int, k2: K|
        #![trigger edge_target(nodes2[i1], k1), edge_target(nodes2[i2], k2)]
        0 <= i1 < nodes2.len() && 0 <= i2 < nodes2.len() && edge_target(nodes2[i1], k1) is Some
        && edge_target(nodes2[i1], k1) == edge_target(nodes2[i2], k2) implies i1 == i2 && k1
        == k2 by {
        if i1 < nodes.len() {
            assert(edge_target(nodes2[i1], k1) == edge_target(nodes[i1], k1));
        } else {
            assert(nodes2[i1] == x);
        }
        if i2 < nodes.len() {
            assert(edge_target(nodes2[i2], k2) == edge_target(nodes[i2], k2));
        } else {
            assert(nodes2[i2] == x);
        }
    }
}

/// Unfold one step of acceptance: the first key's edge, then the rest.
pub proof fn lemma_accepts_step<K, V>(nodes: Seq<NodeModel<K, V>>, n: int, q: Seq<K>, w: V)
    requires
        q.len() >= 1,
    ensures
        accepts_from(nodes, n, q, w) == (match edge_target(nodes[n], q[0]) {
            Some(t) => if q.len() == 1 {
                nodes[t] == (NodeModel::<K, V>::End { value: w })
            } else {
                accepts_from(nodes, t, q.drop_first(), w)
            },
            None => false,
        }),
{
    match edge_target(nodes[n], q[0]) {
        Some(t) => {
            if q.len() == 1 {
                assert(q.drop_first() =~= Seq::<K>::empty());
                assert(walk_from(nodes, t, Seq::<K>::empty()) == Some(t));
            }
        },
        None => {
        },
    }
}

/// Effect of registering a single-key path at an ordinary node `n`: a fresh
/// terminal node is linked from `n`, shadowing whatever the key led to.
proof fn lemma_add_effect_last<K, V>(nodes: Seq<NodeModel<K, V>>, n: int, p: Seq<K>, v: V)
    requires
        trie_inv(nodes),
        0 <= n < nodes.len(),
        nodes[n] is Ordinary,
        p.len() == 1,
    ensures
        add_model(nodes, n, p, v) matches Some(nodes2) && {
            &&& trie_inv(nodes2)
            &&& grown_at(nodes, nodes2, n, p, n, 0)
            &&& nodes2.len() <= nodes.len() + p.len()
            &&& accepts_from(nodes2, n, p, v)
            &&& (forall|q: Seq<K>|
                #![trigger walk_from(nodes2, n, q)]
                walk_from(nodes2, n, q) is Some <==> (q.is_prefix_of(p) || (walk_from(
                    nodes,
                    n,
                    q,
                ) is Some && (p.is_prefix_of(q) ==> q == p))))
            &&& (forall|q: Seq<K>, w: V|
                #![trigger accepts_from(nodes2, n, q, w)]
                #![trigger accepts_from(nodes, n, q, w)]
                accepts_from(nodes2, n, q, w) <==> ((q == p && w == v) || (accepts_from(
                    nodes,
                    n,
                    q,
                    w,
                ) && !p.is_prefix_of(q))))
        },
{
    let len = nodes.len() as int;
    let endnode = NodeModel::<K, V>::End { value: v };
    let nodes2 = nodes.push(endnode).update(n, with_edge(nodes[n], p[0], len));
    assert(add_model(nodes, n, p, v) == Some(nodes2));
    lemma_link_fresh_inv(nodes, n, p[0], endnode);
    assert(p.take(0) =~= Seq::<K>::empty());
    assert(edge_target(nodes2[n], p[0]) == Some(len));
    assert(grown_at(nodes, nodes2, n, p, n, 0));
    lemma_accepts_step(nodes2, n, p, v);
    assert(nodes2[len] == endnode);
    assert(accepts_from(nodes2, n, p, v));
    assert forall|q: Seq<K>|
        walk_from(nodes2, n, q) is Some <==> (q.is_prefix_of(p) || (walk_from(nodes, n, q) is Some
            && (p.is_prefix_of(q) ==> q == p))) by {
        if q.len() == 0 {
            assert(q =~= p.subrange(0, 0));
            assert(q.is_prefix_of(p));
        } else if q[0] == p[0] {
            assert(edge_target(nodes2[n], q[0]) == Some(len));
            assert(p.is_prefix_of(q)) by {
                assert(p =~= q.subrange(0, 1));
            }
            if q.len() == 1 {
                assert(q =~= p);
                assert(q.drop_first() =~= Seq::<K>::empty());
                assert(walk_from(nodes2, len, q.drop_first()) == Some(len));
                assert(q.is_prefix_of(p)) by {
                    assert(q =~= p.subrange(0, 1));
                }
            } else {
                assert(q != p);
                assert(!q.is_prefix_of(p));
                assert(q.drop_first().len() > 0);
                assert(edge_target(nodes2[len], q.drop_first()[0]) is None);
                assert(walk_from(nodes2, n, q) is None);
            }
        } else {
            if q.is_prefix_of(p) {
                assert(p.subrange(0, q.len() as int)[0] == p[0]);
                assert(false);
            }
            if p.is_prefix_of(q) {
                assert(q.subrange(0, 1)[0] == q[0]);
                assert(false);
            }
            assert(edge_target(nodes2[n], q[0]) == edge_target(nodes[n], q[0]));
            match edge_target(nodes[n], q[0]) {
                Some(u) => {
                    assert(n < u < len);
                    let qr = q.drop_first();
                    assert forall|i: int|
                        0 <= i < qr.len() implies !(#[trigger] walk_from(nodes, u, qr.take(i))
                        == Some(n) && qr[i] == p[0]) by {
                        if walk_from(nodes, u, qr.take(i)) == Some(n) {
                            lemma_walk_bounds(nodes, u, qr.take(i));
                        }
                    }
                    lemma_walk_frame(nodes, nodes2, u, qr, n, p[0]);
                },
                None => {
                },
            }
        }
    }
    assert forall|q: Seq<K>, w: V|
        accepts_from(nodes2, n, q, w) <==> ((q == p && w == v) || (accepts_from(nodes, n, q, w)
            && !p.is_prefix_of(q))) by {
        if q.len() == 0 {
            assert(!accepts_from(nodes2, n, q, w));
            assert(!accepts_from(nodes, n, q, w));
            assert(q != p);
        } else {
            lemma_accepts_step(nodes2, n, q, w);
            lemma_accepts_step(nodes, n, q, w);
            if q[0] == p[0] {
                assert(edge_target(nodes2[n], q[0]) == Some(len));
                assert(p =~= q.subrange(0, 1));
                assert(p.is_prefix_of(q));
                if q.len() == 1 {
                    assert(q =~= p);
                } else {
                    let qr = q.drop_first();
                    lemma_accepts_step(nodes2, len, qr, w);
                    assert(!accepts_from(nodes2, len, qr, w));
                    assert(q != p);
                }
            } else {
                if p.is_prefix_of(q) {
                    assert(q.subrange(0, 1)[0] == q[0]);
                    assert(false);
                }
                assert(q != p);
                assert(edge_target(nodes2[n], q[0]) == edge_target(nodes[n], q[0]));
                match edge_target(nodes[n], q[0]) {
                    Some(u) => {
                        assert(n < u < len);
                        let qr = q.drop_first();
                        assert forall|i: int|
                            0 <= i < qr.len() implies !(#[trigger] walk_from(nodes, u, qr.take(i))
                            == Some(n) && qr[i] == p[0]) by {
                            if walk_from(nodes, u, qr.take(i)) == Some(n) {
                                lemma_walk_bounds(nodes, u, qr.take(i));
                            }
                        }
                        lemma_walk_frame(nodes, nodes2, u, qr, n, p[0]);
                        if q.len() == 1 {
                            assert(nodes2[u] == nodes[u]);
                        }
                    },
                    None => {
                    },
                }
            }
        }
    }
}

/// Sequences with equal heads and equal tails are equal.
proof fn lemma_head_tail_eq<K>(q: Seq<K>, p: Seq<K>)
    requires
        q.len() >= 1,
        p.len() >= 1,
        q[0] == p[0],
        q.drop_first() == p.drop_first(),
    ensures
        q == p,
{
    assert(q.drop_first().len() == q.len() - 1);
    assert(p.drop_first().len() == p.len() - 1);
    assert(q.len() == p.len());
    assert forall|ii: int| 0 <= ii < q.len() implies q[ii] == p[ii] by {
        if ii >= 1 {
            assert(q[ii] == q.drop_first()[ii - 1]);
            assert(p[ii] == p.drop_first()[ii - 1]);
        }
    }
    assert(q =~= p);
}

/// Being a prefix steps through a shared first key.
proof fn lemma_prefix_step<K>(p: Seq<K>, q: Seq<K>)
    requires
        p.len() >= 2,
        q.len() >= 1,
        q[0] == p[0],
    ensures
        p.is_prefix_of(q) <==> p.drop_first().is_prefix_of(q.drop_first()),
{
    let pr = p.drop_first();
    let qr = q.drop_first();
    if p.is_prefix_of(q) {
        assert forall|ii: int| 0 <= ii < pr.len() implies pr[ii] == qr.subrange(
            0,
            pr.len() as int,
        )[ii] by {
            assert(p[ii + 1] == q.subrange(0, p.len() as int)[ii + 1]);
        }
        assert(pr =~= qr.subrange(0, pr.len() as int));
        assert(pr.is_prefix_of(qr));
    }
    if pr.is_prefix_of(qr) {
        assert forall|ii: int| 0 <= ii < p.len() implies p[ii] == q.subrange(
            0,
            p.len() as int,
        )[ii] by {
            if ii >= 1 {
                assert(pr[ii - 1] == qr.subrange(0, pr.len() as int)[ii - 1]);
                assert(p[ii] == pr[ii - 1]);
                assert(q[ii] == qr[ii - 1]);
            }
        }
        assert(p =~= q.subrange(0, p.len() as int));
        assert(p.is_prefix_of(q));
    }
}

/// The full effect of registering path `p` with value `v` from node `n`.
/// Registration fails exactly when some stage of the walk sits on a terminal
/// node; on success the arena keeps its invariants, `p` itself is accepted
/// with `v`, and the accepted paths are exactly the old ones that `p` is not
/// a prefix of (those are shadowed), plus `p`.
pub proof fn lemma_add_model_effect<K, V>(nodes: Seq<NodeModel<K, V>>, n: int, p: Seq<K>, v: V)
    requires
        trie_inv(nodes),
        0 <= n < nodes.len(),
        p.len() >= 1,
    ensures
        (add_model(nodes, n, p, v) is None <==> exists|i: int|
            0 <= i < p.len() && #[trigger] end_on_walk(nodes, n, p, i)),
        add_model(nodes, n, p, v) matches Some(nodes2) ==> {
            &&& trie_inv(nodes2)
            &&& (exists|m: int, j: int| #[trigger] grown_at(nodes, nodes2, n, p, m, j))
            &&& nodes2.len() <= nodes.len() + p.len()
            &&& accepts_from(nodes2, n, p, v)
            &&& (forall|q: Seq<K>|
                #![trigger walk_from(nodes2, n, q)]
                walk_from(nodes2, n, q) is Some <==> (q.is_prefix_of(p) || (walk_from(
                    nodes,
                    n,
                    q,
                ) is Some && (p.is_prefix_of(q) ==> q == p))))
            &&& (forall|q: Seq<K>, w: V|
                #![trigger accepts_from(nodes2, n, q, w)]
                #![trigger accepts_from(nodes, n, q, w)]
                accepts_from(nodes2, n, q, w) <==> ((q == p && w == v) || (accepts_from(
                    nodes,
                    n,
                    q,
                    w,
                ) && !p.is_prefix_of(q))))
        },
    decreases p.len(),
{
    let len = nodes.len() as int;
    assert(p.take(0) =~= Seq::<K>::empty());
    if nodes[n] is End {
        assert(end_on_walk(nodes, n, p, 0));
    } else if p.len() == 1 {
        lemma_add_effect_last(nodes, n, p, v);
        let nodes2 = add_model(nodes, n, p, v)->Some_0;
        assert(grown_at(nodes, nodes2, n, p, 0 + n, 0));
        assert forall|i: int| 0 <= i < p.len() implies !(#[trigger] end_on_walk(
            nodes,
            n,
            p,
            i,
        )) by {
            assert(i == 0);
        }
    } else {
        let pr = p.drop_first();
        match edge_target(nodes[n], p[0]) {
            Some(t) => {
                assert(n < t < len);
                lemma_add_model_effect(nodes, t, pr, v);
                assert forall|i: int| 0 <= i <= pr.len() implies walk_from(nodes, n, p.take(i + 1))
                    == #[trigger] walk_from(nodes, t, pr.take(i)) by {
                    lemma_walk_one(nodes, n, p[0]);
                    lemma_walk_append(nodes, n, seq![p[0]], pr.take(i));
                    assert(p.take(i + 1) =~= seq![p[0]] + pr.take(i));
                }
                if add_model(nodes, t, pr, v) is None {
                    let i0 = choose|i: int|
                        0 <= i < pr.len() && #[trigger] end_on_walk(nodes, t, pr, i);
                    assert(walk_from(nodes, n, p.take(i0 + 1)) == walk_from(nodes, t, pr.take(i0)));
                    assert(end_on_walk(nodes, n, p, i0 + 1));
                } else {
                    assert(!(nodes[t] is End));
                    assert forall|i: int| 0 <= i < p.len() implies !(#[trigger] end_on_walk(
                        nodes,
                        n,
                        p,
                        i,
                    )) by {
                        if i >= 1 {
                            assert(walk_from(nodes, n, p.take(i)) == walk_from(
                                nodes,
                                t,
                                pr.take(i - 1),
                            ));
                            assert(!end_on_walk(nodes, t, pr, i - 1));
                        }
                    }
                    let nodes2 = add_model(nodes, n, p, v)->Some_0;
                    let (m, j) = choose|m: int, j: int|
                        #[trigger] grown_at(nodes, nodes2, t, pr, m, j);
                    assert(walk_from(nodes, n, p.take(j + 1)) == Some(m));
                    assert(grown_at(nodes, nodes2, n, p, m, j + 1));
                    assert(nodes2[n] == nodes[n]);
                    assert(edge_target(nodes2[n], p[0]) == Some(t));
                    lemma_accepts_step(nodes2, n, p, v);
                    assert(accepts_from(nodes2, n, p, v));
                    assert forall|q: Seq<K>|
                        walk_from(nodes2, n, q) is Some <==> (q.is_prefix_of(p) || (walk_from(
                            nodes,
                            n,
                            q,
                        ) is Some && (p.is_prefix_of(q) ==> q == p))) by {
                        if q.len() == 0 {
                            assert(q =~= p.subrange(0, 0));
                            assert(q.is_prefix_of(p));
                        } else {
                            let qr = q.drop_first();
                            assert(nodes2[n] == nodes[n]);
                            if q[0] == p[0] {
                                assert(edge_target(nodes2[n], q[0]) == Some(t));
                                assert(walk_from(nodes2, n, q) == walk_from(nodes2, t, qr));
                                assert(walk_from(nodes, n, q) == walk_from(nodes, t, qr));
                                if q.len() == 1 {
                                    assert(q =~= p.subrange(0, 1));
                                    assert(q.is_prefix_of(p));
                                    assert(qr =~= Seq::<K>::empty());
                                    assert(walk_from(nodes2, t, qr) == Some(t));
                                } else {
                                    lemma_prefix_step(q, p);
                                    lemma_prefix_step(p, q);
                                    if qr == pr {
                                        lemma_head_tail_eq(q, p);
                                    }
                                }
                            } else {
                                if q.is_prefix_of(p) {
                                    assert(p.subrange(0, q.len() as int)[0] == p[0]);
                                    assert(false);
                                }
                                if p.is_prefix_of(q) {
                                    assert(q.subrange(0, p.len() as int)[0] == q[0]);
                                    assert(false);
                                }
                                match edge_target(nodes[n], q[0]) {
                                    Some(u) => {
                                        assert(n < u < len);
                                        assert forall|i: int|
                                            0 <= i < qr.len() implies !(#[trigger] walk_from(
                                            nodes,
                                            u,
                                            qr.take(i),
                                        ) == Some(m) && qr[i] == pr[j]) by {
                                            if walk_from(nodes, u, qr.take(i)) == Some(m) {
                                                lemma_walk_one(nodes, n, q[0]);
                                                lemma_walk_append(nodes, n, seq![q[0]], qr.take(i));
                                                let aa = seq![q[0]] + qr.take(i);
                                                assert(walk_from(nodes, n, aa) == Some(m));
                                                lemma_walk_unique(nodes, n, aa, p.take(j + 1));
                                                assert(aa[0] == q[0]);
                                                assert(p.take(j + 1)[0] == p[0]);
                                                assert(false);
                                            }
                                        }
                                        lemma_walk_frame(nodes, nodes2, u, qr, m, pr[j]);
                                    },
                                    None => {
                                    },
                                }
                            }
                        }
                    }
                    assert forall|q: Seq<K>, w: V|
                        accepts_from(nodes2, n, q, w) <==> ((q == p && w == v) || (accepts_from(
                            nodes,
                            n,
                            q,
                            w,
                        ) && !p.is_prefix_of(q))) by {
                        if q.len() == 0 {
                            assert(!accepts_from(nodes2, n, q, w));
                            assert(!accepts_from(nodes, n, q, w));
                            assert(q != p);
                        } else {
                            lemma_accepts_step(nodes2, n, q, w);
                            lemma_accepts_step(nodes, n, q, w);
                            let qr = q.drop_first();
                            if q[0] == p[0] {
                                if q.len() == 1 {
                                    if t == m {
                                    } else {
                                        assert(nodes2[t] == nodes[t]);
                                    }
                                    assert(!(nodes2[t] is End));
                                    assert(q != p);
                                    if p.is_prefix_of(q) {
                                        assert(false);
                                    }
                                } else {
                                    if qr == pr {
                                        lemma_head_tail_eq(q, p);
                                    }
                                    lemma_prefix_step(p, q);
                                }
                            } else {
                                if p.is_prefix_of(q) {
                                    assert(q.subrange(0, p.len() as int)[0] == q[0]);
                                    assert(false);
                                }
                                assert(q != p);
                                match edge_target(nodes[n], q[0]) {
                                    Some(u) => {
                                        assert(n < u < len);
                                        assert forall|i: int|
                                            0 <= i < qr.len() implies !(#[trigger] walk_from(
                                            nodes,
                                            u,
                                            qr.take(i),
                                        ) == Some(m) && qr[i] == pr[j]) by {
                                            if walk_from(nodes, u, qr.take(i)) == Some(m) {
                                                lemma_walk_one(nodes, n, q[0]);
                                                lemma_walk_append(nodes, n, seq![q[0]], qr.take(i));
                                                let aa = seq![q[0]] + qr.take(i);
                                                assert(walk_from(nodes, n, aa) == Some(m));
                                                lemma_walk_unique(nodes, n, aa, p.take(j + 1));
                                                assert(aa[0] == q[0]);
                                                assert(p.take(j + 1)[0] == p[0]);
                                                assert(false);
                                            }
                                        }
                                        lemma_walk_frame(nodes, nodes2, u, qr, m, pr[j]);
                                        if q.len() == 1 {
                                            if u == m {
                                            } else {
                                                assert(nodes2[u] == nodes[u]);
                                            }
                                            assert(!(nodes2[u] is End) <==> !(nodes[u] is End));
                                        }
                                    },
                                    None => {
                                    },
                                }
                            }
                        }
                    }
                }
            },
            None => {
                let fresh = NodeModel::<K, V>::Ordinary { edges: Map::empty() };
                let nodes_a = nodes.push(fresh).update(n, with_edge(nodes[n], p[0], len));
                assert(add_model(nodes, n, p, v) == add_model(nodes_a, len, pr, v));
                lemma_link_fresh_inv(nodes, n, p[0], fresh);
                assert(nodes_a[len] == fresh);
                lemma_add_model_effect(nodes_a, len, pr, v);
                lemma_add_model_from_edgeless(nodes_a, len, pr, v);
                let nodes2 = add_model(nodes_a, len, pr, v)->Some_0;
                assert forall|i: int| 0 <= i < p.len() implies !(#[trigger] end_on_walk(
                    nodes,
                    n,
                    p,
                    i,
                )) by {
                    if i >= 1 {
                        assert(p.take(i)[0] == p[0]);
                        assert(walk_from(nodes, n, p.take(i)) is None);
                    }
                }
                let (ma, ja) = choose|m: int, j: int|
                    #[trigger] grown_at(nodes_a, nodes2, len, pr, m, j);
                assert(ma == len);
                assert forall|jj: int| 0 <= jj < len && jj != n implies nodes2[jj] == nodes[jj] by {
                    assert(nodes_a[jj] == nodes[jj]);
                    assert(nodes2[jj] == nodes_a[jj]);
                }
                assert(nodes2[n] == nodes_a[n]);
                assert forall|k: K| k != p[0] implies #[trigger] edge_target(nodes2[n], k)
                    == edge_target(nodes[n], k) by {
                    assert(edge_target(nodes_a[n], k) == edge_target(nodes[n], k));
                }
                assert(edge_target(nodes2[n], p[0]) == Some(len));
                assert(grown_at(nodes, nodes2, n, p, n, 0));
                lemma_accepts_step(nodes2, n, p, v);
                assert(accepts_from(nodes2, n, p, v));
                assert forall|q: Seq<K>|
                    walk_from(nodes2, n, q) is Some <==> (q.is_prefix_of(p) || (walk_from(
                        nodes,
                        n,
                        q,
                    ) is Some && (p.is_prefix_of(q) ==> q == p))) by {
                    if q.len() == 0 {
                        assert(q =~= p.subrange(0, 0));
                        assert(q.is_prefix_of(p));
                    } else {
                        let qr = q.drop_first();
                        if q[0] == p[0] {
                            assert(edge_target(nodes2[n], q[0]) == Some(len));
                            assert(walk_from(nodes2, n, q) == walk_from(nodes2, len, qr));
                            assert(edge_target(nodes[n], q[0]) is None);
                            assert(walk_from(nodes, n, q) is None);
                            if qr.len() == 0 {
                                assert(q =~= p.subrange(0, 1));
                                assert(q.is_prefix_of(p));
                                assert(walk_from(nodes2, len, qr) == Some(len));
                            } else {
                                assert(edge_target(nodes_a[len], qr[0]) is None);
                                assert(walk_from(nodes_a, len, qr) is None);
                                lemma_prefix_step(q, p);
                            }
                        } else {
                            if q.is_prefix_of(p) {
                                assert(p.subrange(0, q.len() as int)[0] == p[0]);
                                assert(false);
                            }
                            if p.is_prefix_of(q) {
                                assert(q.subrange(0, p.len() as int)[0] == q[0]);
                                assert(false);
                            }
                            assert(edge_target(nodes2[n], q[0]) == edge_target(nodes[n], q[0]));
                            match edge_target(nodes[n], q[0]) {
                                Some(u) => {
                                    assert(n < u < len);
                                    assert forall|i: int|
                                        0 <= i < qr.len() implies !(#[trigger] walk_from(
                                        nodes,
                                        u,
                                        qr.take(i),
                                    ) == Some(n) && qr[i] == p[0]) by {
                                        if walk_from(nodes, u, qr.take(i)) == Some(n) {
                                            lemma_walk_bounds(nodes, u, qr.take(i));
                                        }
                                    }
                                    lemma_walk_frame(nodes, nodes2, u, qr, n, p[0]);
                                },
                                None => {
                                },
                            }
                        }
                    }
                }
                assert forall|q: Seq<K>, w: V|
                    accepts_from(nodes2, n, q, w) <==> ((q == p && w == v) || (accepts_from(
                        nodes,
                        n,
                        q,
                        w,
                    ) && !p.is_prefix_of(q))) by {
                    if q.len() == 0 {
                        assert(!accepts_from(nodes2, n, q, w));
                        assert(!accepts_from(nodes, n, q, w));
                        assert(q != p);
                    } else {
                        lemma_accepts_step(nodes2, n, q, w);
                        lemma_accepts_step(nodes, n, q, w);
                        let qr = q.drop_first();
                        if q[0] == p[0] {
                            assert(edge_target(nodes[n], q[0]) is None);
                            assert(!accepts_from(nodes, n, q, w));
                            if q.len() == 1 {
                                assert(nodes2[len] is Ordinary);
                                assert(q != p);
                            } else {
                                lemma_accepts_step(nodes_a, len, qr, w);
                                assert(!accepts_from(nodes_a, len, qr, w));
                                if qr == pr {
                                    lemma_head_tail_eq(q, p);
                                }
                            }
                        } else {
                            if p.is_prefix_of(q) {
                                assert(q.subrange(0, p.len() as int)[0] == q[0]);
                                assert(false);
                            }
                            assert(q != p);
                            assert(edge_target(nodes2[n], q[0]) == edge_target(nodes[n], q[0]));
                            match edge_target(nodes[n], q[0]) {
                                Some(u) => {
                                    assert(n < u < len);
                                    assert forall|i: int|
                                        0 <= i < qr.len() implies !(#[trigger] walk_from(
                                        nodes,
                                        u,
                                        qr.take(i),
                                    ) == Some(n) && qr[i] == p[0]) by {
                                        if walk_from(nodes, u, qr.take(i)) == Some(n) {
                                            lemma_walk_bounds(nodes, u, qr.take(i));
                                        }
                                    }
                                    lemma_walk_frame(nodes, nodes2, u, qr, n, p[0]);
                                    if q.len() == 1 {
                                        assert(nodes2[u] == nodes[u]);
                                    }
                                },
                                None => {
                                },
                            }
                        }
                    }
                }
            },
        }
    }
}

} // verus!
