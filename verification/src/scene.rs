//! The depth-order resolver: builds the directed occlusion graph over a
//! frame's triangles and produces a paint order by depth-first postorder
//! traversal, then projects and serializes the ordered triangles.

use vstd::prelude::*;
use crate::g2d::Triangle2;
use crate::g3d::{Triagnle3, is_above_m, proj_degenerate, proj_tri};

verus! {

/// Every triangle of the frame has in-range coordinates.
pub open spec fn tris_in_range(ts: Seq<Triagnle3>) -> bool {
    forall|i: int| 0 <= i < ts.len() ==> (#[trigger] ts[i]).in_range_spec()
}

/// The occlusion relation over triangle indices: `i` must be painted
/// after `j`.
pub open spec fn occludes(ts: Seq<Triagnle3>, i: int, j: int) -> bool {
    &&& 0 <= i < ts.len()
    &&& 0 <= j < ts.len()
    &&& i != j
    &&& is_above_m(ts[i], ts[j])
}

/// The view of an adjacency-list graph.
pub open spec fn gview(g: Vec<Vec<usize>>) -> Seq<Seq<usize>> {
    g@.map_values(|row: Vec<usize>| row@)
}

/// A directed edge `i -> j` of the graph: `j` occurs in row `i`.
pub open spec fn adj(g: Seq<Seq<usize>>, i: int, j: int) -> bool {
    &&& 0 <= i < g.len()
    &&& 0 <= j < g.len()
    &&& exists|k: int| 0 <= k < g[i].len() && g[i][k] == j
}

/// Well-formed adjacency lists: targets within bounds and no self-edges.
pub open spec fn wf_graph(g: Seq<Seq<usize>>) -> bool {
    forall|i: int, k: int|
        0 <= i < g.len() && 0 <= k < g[i].len() ==> (#[trigger] g[i][k]) < g.len() && g[i][k] != i
}

/// A rank function that strictly decreases along every edge; one exists
/// exactly when the graph is acyclic.
pub open spec fn rank_orders(g: Seq<Seq<usize>>, r: spec_fn(int) -> int) -> bool {
    forall|i: int, j: int| #[trigger] adj(g, i, j) ==> r(j) < r(i)
}

/// Acyclicity, witnessed by a rank function.
pub open spec fn acyclic(g: Seq<Seq<usize>>) -> bool {
    exists|r: spec_fn(int) -> int| rank_orders(g, r)
}

/// The paint order respects the graph: whenever the triangle at output
/// position `a` occludes the one at position `b`, `b` was painted first.
pub open spec fn respects_graph(g: Seq<Seq<usize>>, order: Seq<usize>) -> bool {
    forall|a: int, b: int|
        0 <= a < order.len() && 0 <= b < order.len() && #[trigger] adj(
            g,
            order[a] as int,
            order[b] as int,
        ) ==> b < a
}

/// How many entries of `s` are still false.
pub open spec fn count_false(s: Seq<bool>) -> nat
    decreases s.len(),
{
    if s.len() == 0 {
        0
    } else {
        count_false(s.drop_last()) + if s.last() {
            0nat
        } else {
            1nat
        }
    }
}

proof fn lemma_count_false_update(s: Seq<bool>, k: int)
    requires
        0 <= k < s.len(),
        !s[k],
    ensures
        count_false(s.update(k, true)) + 1 == count_false(s),
    decreases s.len(),
{
    let t = s.update(k, true);
    if k == s.len() - 1 {
        assert(t.drop_last() =~= s.drop_last());
    } else {
        assert(t.drop_last() =~= s.drop_last().update(k, true));
        lemma_count_false_update(s.drop_last(), k);
    }
}

proof fn lemma_count_false_all_true(s: Seq<bool>)
    requires
        forall|k: int| 0 <= k < s.len() ==> s[k],
    ensures
        count_false(s) == 0,
    decreases s.len(),
{
    if s.len() > 0 {
        lemma_count_false_all_true(s.drop_last());
    }
}

/// Row `i` of the occlusion graph holds exactly the indices that triangle
/// `i` occludes.
pub open spec fn row_ok(ts: Seq<Triagnle3>, i: int, row: Seq<usize>) -> bool {
    &&& forall|k: int| 0 <= k < row.len() ==> (#[trigger] row[k]) < ts.len() && row[k] != i
    &&& forall|j: int| (exists|k: int| 0 <= k < row.len() && row[k] == j) <==> occludes(ts, i, j)
}

/// Builds the occlusion graph: row `i` lists, in ascending order, every
/// index `j != i` whose triangle `i` occludes.
pub fn build_graph(triangles: &Vec<Triagnle3>) -> (g: Vec<Vec<usize>>)
    requires
        tris_in_range(triangles@),
    ensures
        gview(g).len() == triangles@.len(),
        wf_graph(gview(g)),
        forall|i: int, j: int| adj(gview(g), i, j) <==> occludes(triangles@, i, j),
{
    let n = triangles.len();
    let mut g: Vec<Vec<usize>> = Vec::new();
    for i in 0..n
        invariant
            n == triangles@.len(),
            tris_in_range(triangles@),
            gview(g).len() == i,
            forall|i0: int| 0 <= i0 < i ==> row_ok(triangles@, i0, #[trigger] gview(g)[i0]),
    {
        let mut row: Vec<usize> = Vec::new();
        for j in 0..n
            invariant
                n == triangles@.len(),
                tris_in_range(triangles@),
                i < n,
                forall|k: int| 0 <= k < row@.len() ==> (#[trigger] row@[k]) < j && row@[k] != i,
                forall|j0: int|
                    (exists|k: int| 0 <= k < row@.len() && row@[k] == j0) <==> (0 <= j0 < j
                        && occludes(triangles@, i as int, j0)),
        {
            let ghost prev = row@;
            if i != j && triangles[i].is_above(&triangles[j]) {
                row.push(j);
                proof {
                    assert forall|j0: int|
                        (exists|k: int| 0 <= k < row@.len() && row@[k] == j0) <==> (0 <= j0 < j + 1
                            && occludes(triangles@, i as int, j0)) by {
                        if j0 == j {
                            assert(row@[row@.len() - 1] == j0);
                        } else {
                            assert forall|k: int| 0 <= k < prev.len() implies row@[k] == prev[k] by {}
                            if exists|k: int| 0 <= k < row@.len() && row@[k] == j0 {
                                let k = choose|k: int| 0 <= k < row@.len() && row@[k] == j0;
                                assert(k < prev.len() && prev[k] == j0);
                            }
                            if exists|k: int| 0 <= k < prev.len() && prev[k] == j0 {
                                let k = choose|k: int| 0 <= k < prev.len() && prev[k] == j0;
                                assert(row@[k] == j0);
                            }
                        }
                    }
                }
            } else {
                proof {
                    assert(!occludes(triangles@, i as int, j as int));
                }
            }
        }
        let ghost gprev = gview(g);
        g.push(row);
        proof {
            assert(row_ok(triangles@, i as int, row@));
            assert forall|i0: int| 0 <= i0 < i + 1 implies row_ok(
                triangles@,
                i0,
                #[trigger] gview(g)[i0],
            ) by {
                if i0 < i {
                    assert(gview(g)[i0] =~= gprev[i0]);
                } else {
                    assert(gview(g)[i0] =~= row@);
                }
            }
        }
    }
    proof {
        assert forall|i: int, j: int| adj(gview(g), i, j) <==> occludes(triangles@, i, j) by {
            if 0 <= i < gview(g).len() {
                assert(row_ok(triangles@, i, gview(g)[i]));
            }
        }
        assert forall|i: int, k: int|
            0 <= i < gview(g).len() && 0 <= k < gview(g)[i].len() implies (#[trigger] gview(
            g,
        )[i][k]) < gview(g).len() && gview(g)[i][k] != i by {
            assert(row_ok(triangles@, i, gview(g)[i]));
        }
    }
    g
}

/// `j` occurs in `order` strictly before position `a`.
pub open spec fn seq_before(order: Seq<usize>, a: int, j: usize) -> bool {
    exists|b: int| 0 <= b < a && order[b] == j
}

/// Edge target `k` of the node at output position `a`.
pub open spec fn tgt(g: Seq<Seq<usize>>, order: Seq<usize>, a: int, k: int) -> usize {
    g[order[a] as int][k]
}

/// Every edge leaving an already-ordered node points at a node that is
/// either still on the traversal stack (`gray`) or ordered earlier.
pub open spec fn post_closed(g: Seq<Seq<usize>>, order: Seq<usize>, gray: Seq<usize>) -> bool {
    forall|a: int, k: int|
        0 <= a < order.len() && 0 <= k < g[order[a] as int].len() ==> gray.contains(
            #[trigger] tgt(g, order, a, k),
        ) || seq_before(order, a, tgt(g, order, a, k))
}

/// The conditional ordering invariant: on an acyclic graph the output so
/// far is closed under edges, up to the gray stack.
pub open spec fn cinv(g: Seq<Seq<usize>>, order: Seq<usize>, gray: Seq<usize>) -> bool {
    acyclic(g) ==> post_closed(g, order, gray)
}

/// The traversal invariant tying together the visited flags, the output
/// order, and the gray stack of the depth-first search.
pub open spec fn dfs_inv(
    g: Seq<Seq<usize>>,
    vis: Seq<bool>,
    order: Seq<usize>,
    gray: Seq<usize>,
) -> bool {
    &&& vis.len() == g.len()
    &&& forall|a: int| 0 <= a < order.len() ==> (#[trigger] order[a]) < g.len()
    &&& order.no_duplicates()
    &&& forall|a: int| 0 <= a < gray.len() ==> (#[trigger] gray[a]) < g.len()
    &&& gray.no_duplicates()
    &&& forall|a: int| 0 <= a < order.len() ==> !gray.contains(#[trigger] order[a])
    &&& forall|k: int|
        0 <= k < g.len() ==> ((#[trigger] vis[k]) <==> (order.contains(k as usize)
            || gray.contains(k as usize)))
    &&& order.len() + gray.len() + count_false(vis) == vis.len()
}

/// On a ranked (hence acyclic) graph, every node the call newly visited
/// sits strictly below `node` in rank.
pub open spec fn ranked_below(
    g: Seq<Seq<usize>>,
    vis0: Seq<bool>,
    vis1: Seq<bool>,
    node: int,
) -> bool {
    forall|r: spec_fn(int) -> int, k: int|
        #![trigger rank_orders(g, r), vis1[k]]
        rank_orders(g, r) && 0 <= k < vis1.len() && !vis0[k] && vis1[k] && k != node ==> r(k) < r(
            node,
        )
}

proof fn lemma_push_contains(s: Seq<usize>, x: usize, y: usize)
    ensures
        s.push(x).contains(y) <==> (s.contains(y) || y == x),
{
    assert(s.push(x)[s.len() as int] == x);
    if s.push(x).contains(y) {
        let i = choose|i: int| 0 <= i < s.push(x).len() && s.push(x)[i] == y;
        if i < s.len() {
            assert(s[i] == y);
        }
    }
    if s.contains(y) {
        let i = choose|i: int| 0 <= i < s.len() && s[i] == y;
        assert(s.push(x)[i] == y);
    }
}

proof fn lemma_push_no_dup(s: Seq<usize>, x: usize)
    requires
        s.no_duplicates(),
        !s.contains(x),
    ensures
        s.push(x).no_duplicates(),
{
    let t = s.push(x);
    assert forall|i: int, j: int| 0 <= i < t.len() && 0 <= j < t.len() && i != j implies t[i]
        != t[j] by {
        if i < s.len() && j < s.len() {
            assert(s[i] == t[i] && s[j] == t[j]);
        } else if i < s.len() {
            assert(t[j] == x && t[i] == s[i] && s.contains(s[i]));
        } else {
            assert(t[i] == x && t[j] == s[j] && s.contains(s[j]));
        }
    }
}

/// Marks `node` visited, explores everything reachable from it depth
/// first, and appends `node` to the output once all of its out-neighbors
/// are settled.
fn dfs(
    g: &Vec<Vec<usize>>,
    order: &mut Vec<usize>,
    vis: &mut Vec<bool>,
    node: usize,
    Ghost(gray): Ghost<Seq<usize>>,
)
    requires
        wf_graph(gview(*g)),
        dfs_inv(gview(*g), old(vis)@, old(order)@, gray),
        cinv(gview(*g), old(order)@, gray),
        (node as int) < gview(*g).len(),
        !old(vis)@[node as int],
    ensures
        dfs_inv(gview(*g), final(vis)@, final(order)@, gray),
        cinv(gview(*g), final(order)@, gray),
        old(order)@.is_prefix_of(final(order)@),
        final(vis)@.len() == old(vis)@.len(),
        forall|k: int| 0 <= k < final(vis)@.len() && old(vis)@[k] ==> #[trigger] final(vis)@[k],
        forall|a: int|
            old(order)@.len() <= a < final(order)@.len() ==> !old(vis)@[(#[trigger] final(order)@[a]) as int],
        final(vis)@[node as int],
        count_false(final(vis)@) < count_false(old(vis)@),
        ranked_below(gview(*g), old(vis)@, final(vis)@, node as int),
    decreases count_false(old(vis)@), 0int, 0int,
{
    let ghost gv = gview(*g);
    let ghost vis0 = vis@;
    let ghost order0 = order@;
    let ghost n = gv.len();
    let n_exec = vis.len();
    proof {
        assert(n == n_exec as int);
        assert(!order0.contains(node) && !gray.contains(node));
    }
    vis[node] = true;
    proof {
        lemma_count_false_update(vis0, node as int);
    }
    let ghost gray2 = gray.push(node);
    proof {
        lemma_push_no_dup(gray, node);
        assert(gray2[gray.len() as int] == node);
        assert forall|a: int| 0 <= a < gray2.len() implies (#[trigger] gray2[a]) < n by {
            if a < gray.len() {
                assert(gray2[a] == gray[a]);
            }
        }
        assert forall|a: int| 0 <= a < order0.len() implies !gray2.contains(
            #[trigger] order0[a],
        ) by {
            lemma_push_contains(gray, node, order0[a]);
        }
        assert forall|k: int|
            0 <= k < n implies ((#[trigger] vis@[k]) <==> (order0.contains(k as usize)
            || gray2.contains(k as usize))) by {
            lemma_push_contains(gray, node, k as usize);
        }
        assert(dfs_inv(gv, vis@, order0, gray2));
        if acyclic(gv) {
            assert forall|a: int, k: int|
                0 <= a < order0.len() && 0 <= k < gv[order0[a] as int].len() implies gray2.contains(
                #[trigger] tgt(gv, order0, a, k),
            ) || seq_before(order0, a, tgt(gv, order0, a, k)) by {
                assert(gray.contains(tgt(gv, order0, a, k)) || seq_before(
                    order0,
                    a,
                    tgt(gv, order0, a, k),
                ));
                lemma_push_contains(gray, node, tgt(gv, order0, a, k));
            }
        }
    }
    dfs_kids(g, order, vis, node, 0, Ghost(gray2));
    let ghost vis2 = vis@;
    let ghost order2 = order@;
    order.push(node);
    proof {
        assert(order@ == order2.push(node));
        assert(order@[order2.len() as int] == node);
        // `node` is gray for the inner invariant, so it is not yet ordered.
        assert(!order2.contains(node));
        lemma_push_no_dup(order2, node);
        assert forall|a: int| 0 <= a < order@.len() implies (#[trigger] order@[a]) < n by {
            if a < order2.len() {
                assert(order@[a] == order2[a]);
            }
        }
        assert forall|a: int| 0 <= a < order@.len() implies !gray.contains(
            #[trigger] order@[a],
        ) by {
            if a < order2.len() {
                assert(order@[a] == order2[a]);
                assert(!gray2.contains(order2[a]));
                lemma_push_contains(gray, node, order2[a]);
            }
        }
        assert forall|k: int|
            0 <= k < n implies ((#[trigger] vis@[k]) <==> (order@.contains(k as usize)
            || gray.contains(k as usize))) by {
            lemma_push_contains(gray, node, k as usize);
            lemma_push_contains(order2, node, k as usize);
        }
        assert(dfs_inv(gv, vis@, order@, gray));
        // The newly appended entries were unvisited on entry.
        assert forall|a: int|
            order0.len() <= a < order@.len() implies !vis0[(#[trigger] order@[a]) as int] by {
            if a < order2.len() {
                assert(order@[a] == order2[a]);
            } else {
                assert(order@[a] == node);
            }
        }
        // Conditional ordering invariant.
        if acyclic(gv) {
            let r = choose|r: spec_fn(int) -> int| rank_orders(gv, r);
            assert forall|a: int, k: int|
                0 <= a < order@.len() && 0 <= k < gv[order@[a] as int].len() implies gray.contains(
                #[trigger] tgt(gv, order@, a, k),
            ) || seq_before(order@, a, tgt(gv, order@, a, k)) by {
                if a < order2.len() {
                    assert(order@[a] == order2[a]);
                    assert(tgt(gv, order@, a, k) == tgt(gv, order2, a, k));
                    let j = tgt(gv, order2, a, k);
                    assert(gray2.contains(j) || seq_before(order2, a, j));
                    if gray2.contains(j) {
                        lemma_push_contains(gray, node, j);
                        if j == node {
                            // An ordered node pointing back at the gray `node`
                            // would close a cycle; the rank rules it out.
                            let u = order2[a];
                            assert(adj(gv, u as int, node as int));
                            assert(r(node as int) < r(u as int));
                            if a < order0.len() {
                                // Entries of the entry order never point at
                                // `node`: it was neither gray nor ordered.
                                assert(order0[a] == order2[a]);
                                assert(tgt(gv, order0, a, k) == j);
                                assert(gray.contains(j) || seq_before(order0, a, j));
                                assert(order0.contains(node));
                                assert(false);
                            } else {
                                // A newly appended entry has rank below `node`.
                                assert(!vis0[u as int] && vis2[u as int]);
                                assert(u != node);
                                assert(r(u as int) < r(node as int));
                                assert(false);
                            }
                        } else {
                            assert(gray.contains(j));
                        }
                    } else {
                        let b = choose|b: int| 0 <= b < a && order2[b] == j;
                        assert(order@[b] == j);
                    }
                } else {
                    // Edges of `node` itself: every out-neighbor is visited,
                    // hence ordered earlier or still gray underneath.
                    assert(order@[a] == node);
                    let j = tgt(gv, order@, a, k);
                    assert(j == gv[node as int][k]);
                    assert(adj(gv, node as int, j as int));
                    assert(j != node);
                    assert(vis2[j as int]);
                    assert(order2.contains(j) || gray2.contains(j));
                    if order2.contains(j) {
                        let b = choose|b: int| 0 <= b < order2.len() && order2[b] == j;
                        assert(order@[b] == j);
                        assert(seq_before(order@, a, j));
                    } else {
                        lemma_push_contains(gray, node, j);
                        assert(gray.contains(j));
                    }
                }
            }
            assert(post_closed(gv, order@, gray));
        }
        // Rank bound for everything newly visited.
        assert forall|r: spec_fn(int) -> int, k: int|
            #![trigger rank_orders(gv, r), vis@[k]]
            rank_orders(gv, r) && 0 <= k < vis@.len() && !vis0[k] && vis@[k] && k != node
            implies r(k) < r(node as int) by {
            let vis1 = vis0.update(node as int, true);
            assert(!vis1[k]);
            assert(ranked_below(gv, vis1, vis2, node as int));
        }
    }
}

/// Processes the out-neighbors of `node` from index `i` on, launching a
/// depth-first visit for each one not yet visited.
fn dfs_kids(
    g: &Vec<Vec<usize>>,
    order: &mut Vec<usize>,
    vis: &mut Vec<bool>,
    node: usize,
    i: usize,
    Ghost(gray): Ghost<Seq<usize>>,
)
    requires
        wf_graph(gview(*g)),
        dfs_inv(gview(*g), old(vis)@, old(order)@, gray),
        cinv(gview(*g), old(order)@, gray),
        (node as int) < gview(*g).len(),
        i <= gview(*g)[node as int].len(),
        old(vis)@[node as int],
        gray.contains(node),
    ensures
        dfs_inv(gview(*g), final(vis)@, final(order)@, gray),
        cinv(gview(*g), final(order)@, gray),
        old(order)@.is_prefix_of(final(order)@),
        final(vis)@.len() == old(vis)@.len(),
        forall|k: int| 0 <= k < final(vis)@.len() && old(vis)@[k] ==> #[trigger] final(vis)@[k],
        forall|a: int|
            old(order)@.len() <= a < final(order)@.len() ==> !old(vis)@[(#[trigger] final(order)@[a]) as int],
        count_false(final(vis)@) <= count_false(old(vis)@),
        forall|k: int|
            i <= k < gview(*g)[node as int].len() ==> final(vis)@[(#[trigger] gview(*g)[node as int][k]) as int],
        ranked_below(gview(*g), old(vis)@, final(vis)@, node as int),
    decreases count_false(old(vis)@), 1int, gview(*g)[node as int].len() - i,
{
    let ghost gv = gview(*g);
    let ghost vis0 = vis@;
    let ghost order0 = order@;
    let row_len = g[node].len();
    if i < row_len {
        let c = g[node][i];
        proof {
            assert(gv[node as int][i as int] == c);
            assert(adj(gv, node as int, c as int));
            assert(c != node);
        }
        if !vis[c] {
            dfs(g, order, vis, c, Ghost(gray));
        }
        let ghost vis1 = vis@;
        let ghost order1 = order@;
        dfs_kids(g, order, vis, node, i + 1, Ghost(gray));
        proof {
            // Prefix composes.
            assert forall|a: int| 0 <= a < order0.len() implies order@[a] == order0[a] by {
                assert(order1[a] == order0[a]);
            }
            // Newly appended entries were unvisited on entry.
            assert forall|a: int|
                order0.len() <= a < order@.len() implies !vis0[(#[trigger] order@[a]) as int] by {
                if a < order1.len() {
                    assert(order@[a] == order1[a]);
                } else {
                    assert(!vis1[order@[a] as int]);
                }
            }
            // Neighbor `i` stays visited through the tail call.
            assert(vis1[c as int]);
            assert(vis@[c as int]);
            // Rank bound composes: what `dfs(c)` visited sits below `c`,
            // which sits below `node`; the tail call is below `node` already.
            assert forall|r: spec_fn(int) -> int, k: int|
                #![trigger rank_orders(gv, r), vis@[k]]
                rank_orders(gv, r) && 0 <= k < vis@.len() && !vis0[k] && vis@[k] && k != node
                implies r(k) < r(node as int) by {
                assert(r(c as int) < r(node as int));
                if vis1[k] {
                    assert(ranked_below(gv, vis0, vis1, c as int));
                    if k == c {
                    } else {
                        assert(r(k) < r(c as int));
                    }
                } else {
                    assert(ranked_below(gv, vis1, vis@, node as int));
                }
            }
        }
    }
}

proof fn lemma_count_false_all_false(s: Seq<bool>)
    requires
        forall|k: int| 0 <= k < s.len() ==> !s[k],
    ensures
        count_false(s) == s.len(),
    decreases s.len(),
{
    if s.len() > 0 {
        lemma_count_false_all_false(s.drop_last());
    }
}

/// Runs the depth-first postorder traversal over every node and returns
/// the paint order: a permutation of the node indices in which, for an
/// acyclic graph, every node comes after all of its out-neighbors.
pub fn paint_order(g: &Vec<Vec<usize>>) -> (order: Vec<usize>)
    requires
        wf_graph(gview(*g)),
    ensures
        order@.len() == gview(*g).len(),
        forall|a: int| 0 <= a < order@.len() ==> (#[trigger] order@[a]) < gview(*g).len(),
        order@.no_duplicates(),
        forall|k: usize| (k as int) < gview(*g).len() ==> order@.contains(k),
        acyclic(gview(*g)) ==> respects_graph(gview(*g), order@),
{
    let ghost gv = gview(*g);
    let n = g.len();
    let mut order: Vec<usize> = Vec::new();
    let mut vis: Vec<bool> = Vec::new();
    for idx in 0..n
        invariant
            vis@.len() == idx,
            forall|k: int| 0 <= k < idx ==> !(#[trigger] vis@[k]),
    {
        vis.push(false);
    }
    proof {
        assert(gv.len() == g@.len());
        lemma_count_false_all_false(vis@);
        assert(dfs_inv(gv, vis@, order@, Seq::<usize>::empty()));
    }
    for node in 0..n
        invariant
            n == gv.len(),
            gv == gview(*g),
            wf_graph(gv),
            vis@.len() == n,
            dfs_inv(gv, vis@, order@, Seq::<usize>::empty()),
            cinv(gv, order@, Seq::<usize>::empty()),
            forall|k: int| 0 <= k < node ==> #[trigger] vis@[k],
    {
        if !vis[node] {
            dfs(g, &mut order, &mut vis, node, Ghost(Seq::<usize>::empty()));
        }
    }
    proof {
        assert forall|k: int| 0 <= k < n implies #[trigger] vis@[k] by {}
        lemma_count_false_all_true(vis@);
        assert(order@.len() == n);
        assert forall|k: usize| (k as int) < gv.len() implies order@.contains(k) by {
            assert(vis@[k as int]);
        }
        if acyclic(gv) {
            assert forall|a: int, b: int|
                0 <= a < order@.len() && 0 <= b < order@.len() && #[trigger] adj(
                    gv,
                    order@[a] as int,
                    order@[b] as int,
                ) implies b < a by {
                let j = order@[b];
                let k = choose|k: int|
                    0 <= k < gv[order@[a] as int].len() && gv[order@[a] as int][k] == j as int;
                assert(tgt(gv, order@, a, k) == j);
                assert(Seq::<usize>::empty().contains(j) || seq_before(order@, a, j));
                let b2 = choose|b2: int| 0 <= b2 < a && order@[b2] == j;
                assert(b2 == b);
            }
        }
    }
    order
}

/// A rank function that strictly decreases from each triangle to the
/// ones it occludes.
pub open spec fn rank_orders_occl(ts: Seq<Triagnle3>, r: spec_fn(int) -> int) -> bool {
    forall|i: int, j: int| #[trigger] occludes(ts, i, j) ==> r(j) < r(i)
}

/// An acyclic occlusion relation, witnessed by a rank function.
pub open spec fn occl_acyclic(ts: Seq<Triagnle3>) -> bool {
    exists|r: spec_fn(int) -> int| rank_orders_occl(ts, r)
}

/// A paint order over the frame's triangles: a permutation of the indices
/// which, when the occlusion relation is acyclic, paints every triangle
/// only after all the triangles it occludes.
pub open spec fn valid_paint_order(ts: Seq<Triagnle3>, ord: Seq<usize>) -> bool {
    &&& ord.len() == ts.len()
    &&& forall|a: int| 0 <= a < ord.len() ==> (#[trigger] ord[a]) < ts.len()
    &&& ord.no_duplicates()
    &&& forall|k: usize| (k as int) < ts.len() ==> ord.contains(k)
    &&& occl_acyclic(ts) ==> forall|a: int, b: int|
        0 <= a < ord.len() && 0 <= b < ord.len() && #[trigger] occludes(
            ts,
            ord[a] as int,
            ord[b] as int,
        ) ==> b < a
}

/// The projections of the triangles selected by `ord`, in order, with the
/// degenerate (zero-area) ones dropped.
pub open spec fn project_seq(ts: Seq<Triagnle3>, ord: Seq<usize>) -> Seq<Triangle2>
    decreases ord.len(),
{
    if ord.len() == 0 {
        Seq::empty()
    } else {
        let init = project_seq(ts, ord.drop_last());
        if proj_degenerate(ts[ord.last() as int]) {
            init
        } else {
            init.push(proj_tri(ts[ord.last() as int]))
        }
    }
}

proof fn lemma_project_seq_len(ts: Seq<Triagnle3>, ord: Seq<usize>)
    ensures
        project_seq(ts, ord).len() <= ord.len(),
    decreases ord.len(),
{
    if ord.len() > 0 {
        lemma_project_seq_len(ts, ord.drop_last());
    }
}

/// Computes the frame's 2-D triangles in paint order: builds the
/// occlusion graph, resolves a depth order, projects each triangle, and
/// silently drops the ones with a degenerate projection.
pub fn get_ordered_projection(triangles: &Vec<Triagnle3>) -> (r: Vec<Triangle2>)
    requires
        tris_in_range(triangles@),
    ensures
        exists|ord: Seq<usize>|
            #[trigger] valid_paint_order(triangles@, ord) && r@ == project_seq(triangles@, ord),
{
    let ghost ts = triangles@;
    let graph = build_graph(triangles);
    let order = paint_order(&graph);
    proof {
        // The graph's edges are exactly the occlusion pairs, so a rank for
        // one relation ranks the other, and the orders agree.
        assert forall|r: spec_fn(int) -> int| #[trigger] rank_orders_occl(ts, r) implies
            #[trigger] rank_orders(gview(graph), r) by {
            assert forall|i: int, j: int| #[trigger] adj(gview(graph), i, j) implies r(j) < r(
                i,
            ) by {
                assert(occludes(ts, i, j));
            }
        }
        if occl_acyclic(ts) {
            let r = choose|r: spec_fn(int) -> int| rank_orders_occl(ts, r);
            assert(rank_orders(gview(graph), r));
            assert(acyclic(gview(graph)));
            assert forall|a: int, b: int|
                0 <= a < order@.len() && 0 <= b < order@.len() && #[trigger] occludes(
                    ts,
                    order@[a] as int,
                    order@[b] as int,
                ) implies b < a by {
                assert(adj(gview(graph), order@[a] as int, order@[b] as int));
            }
        }
        assert(valid_paint_order(ts, order@));
    }
    let mut out: Vec<Triangle2> = Vec::new();
    let order_len = order.len();
    for a in 0..order_len
        invariant
            order_len == order@.len(),
            ts == triangles@,
            tris_in_range(ts),
            forall|a0: int| 0 <= a0 < order@.len() ==> (#[trigger] order@[a0]) < ts.len(),
            out@ == project_seq(ts, order@.subrange(0, a as int)),
    {
        let idx = order[a];
        match triangles[idx].project() {
            Some(t2) => out.push(t2),
            None => {},
        }
        proof {
            let sub1 = order@.subrange(0, a + 1);
            assert(sub1.drop_last() =~= order@.subrange(0, a as int));
            assert(sub1.last() == order@[a as int]);
        }
    }
    proof {
        assert(order@.subrange(0, order@.len() as int) =~= order@);
    }
    out
}

/// `flat_m` lists six coordinates per triangle: both vertices' order and
/// the coordinate order within a triangle are fixed.
pub open spec fn flat_m(ps: Seq<Triangle2>) -> Seq<i64>
    decreases ps.len(),
{
    if ps.len() == 0 {
        Seq::empty()
    } else {
        flat_m(ps.drop_last()) + seq![
            ps.last().p1.x,
            ps.last().p1.y,
            ps.last().p2.x,
            ps.last().p2.y,
            ps.last().p3.x,
            ps.last().p3.y,
        ]
    }
}

/// The serialized form of a list of 2-D triangles: a leading count, then
/// six coordinates per triangle.
pub open spec fn serialize_m(ps: Seq<Triangle2>) -> Seq<i64> {
    seq![ps.len() as i64] + flat_m(ps)
}

/// Serializes the ordered 2-D triangles into the flat integer buffer the
/// renderer consumes.
pub fn serialize(tris: &Vec<Triangle2>) -> (buf: Vec<i64>)
    requires
        tris@.len() <= i64::MAX,
    ensures
        buf@ == serialize_m(tris@),
{
    let mut buf: Vec<i64> = Vec::new();
    let count = tris.len();
    buf.push(count as i64);
    proof {
        assert(buf@ =~= seq![tris@.len() as i64] + flat_m(tris@.subrange(0, 0)));
    }
    for a in 0..count
        invariant
            count == tris@.len(),
            tris@.len() <= i64::MAX,
            buf@ == seq![tris@.len() as i64] + flat_m(tris@.subrange(0, a as int)),
    {
        let t = tris[a];
        buf.push(t.p1.x);
        buf.push(t.p1.y);
        buf.push(t.p2.x);
        buf.push(t.p2.y);
        buf.push(t.p3.x);
        buf.push(t.p3.y);
        proof {
            let sub1 = tris@.subrange(0, a + 1);
            assert(sub1.drop_last() =~= tris@.subrange(0, a as int));
            assert(sub1.last() == tris@[a as int]);
            assert(buf@ =~= seq![tris@.len() as i64] + flat_m(sub1));
        }
    }
    proof {
        assert(tris@.subrange(0, tris@.len() as int) =~= tris@);
    }
    buf
}

/// Renders one frame: resolves the paint order of the given triangles and
/// serializes their projections as `[count, x1, y1, x2, y2, x3, y3, ...]`.
pub fn render(triangles: &Vec<Triagnle3>) -> (buf: Vec<i64>)
    requires
        tris_in_range(triangles@),
        triangles@.len() <= i64::MAX,
    ensures
        exists|ord: Seq<usize>|
            #[trigger] valid_paint_order(triangles@, ord) && buf@ == serialize_m(
                project_seq(triangles@, ord),
            ),
{
    let ordered = get_ordered_projection(triangles);
    proof {
        let ord = choose|ord: Seq<usize>|
            #[trigger] valid_paint_order(triangles@, ord) && ordered@ == project_seq(
                triangles@,
                ord,
            );
        lemma_project_seq_len(triangles@, ord);
    }
    serialize(&ordered)
}

} // verus!
