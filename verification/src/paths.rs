//! Reachability along child edges, and how tree surgery affects it.
//!
//! The lemmas here carry the acyclicity witness of [`crate::sink`] across
//! the arena's mutations: payload edits keep the structure, a detach only
//! removes edges, and attaching a parentless node under a parent outside its
//! subtree admits a rebuilt rank.

use vstd::prelude::*;

use crate::sink::{consistency, edge, is_path, rank_ok, reaches, valid_id, SlotV};

verus! {

/// Two tables with the same parent and child references everywhere.
pub open spec fn same_structure(s: Seq<SlotV>, t: Seq<SlotV>) -> bool {
    &&& s.len() == t.len()
    &&& forall|i: int|
        valid_id(s, i)
            ==> (#[trigger] t[i]).parent == s[i].parent && t[i].children == s[i].children
}

/// Every node lies in its own subtree.
pub proof fn lemma_reaches_self(slots: Seq<SlotV>, x: int)
    requires
        valid_id(slots, x),
    ensures
        reaches(slots, x, x),
{
    let p = seq![x];
    assert(is_path(slots, p) && p.first() == x && p.last() == x);
}

/// A child edge extends reachability by one step at the bottom.
pub proof fn lemma_reaches_step(slots: Seq<SlotV>, x: int, y: int, z: int)
    requires
        reaches(slots, x, y),
        edge(slots, y, z),
    ensures
        reaches(slots, x, z),
{
    let p = choose|p: Seq<int>| is_path(slots, p) && p.first() == x && p.last() == y;
    let q = p.push(z);
    assert forall|k: int| 0 <= k < q.len() - 1 implies edge(slots, #[trigger] q[k], q[k + 1]) by {
        if k < p.len() - 1 {
            assert(edge(slots, p[k], p[k + 1]));
        } else {
            assert(q[k] == p[p.len() - 1]);
        }
    }
    assert(is_path(slots, q) && q.first() == x && q.last() == z);
}

/// A child edge extends reachability by one step at the top.
pub proof fn lemma_reaches_prepend(slots: Seq<SlotV>, x: int, y: int, z: int)
    requires
        edge(slots, x, y),
        reaches(slots, y, z),
    ensures
        reaches(slots, x, z),
{
    let p = choose|p: Seq<int>| is_path(slots, p) && p.first() == y && p.last() == z;
    let q = seq![x] + p;
    assert forall|k: int| 0 <= k < q.len() - 1 implies edge(slots, #[trigger] q[k], q[k + 1]) by {
        if k == 0 {
            assert(q[0] == x && q[1] == p[0]);
        } else {
            assert(q[k] == p[k - 1] && q[k + 1] == p[k]);
            assert(edge(slots, p[k - 1], p[k]));
        }
    }
    assert(q.last() == p[p.len() - 1]);
    assert(is_path(slots, q) && q.first() == x && q.last() == z);
}

/// A node below `x` and distinct from it is a child of some node below `x`.
pub proof fn lemma_reaches_last_step(slots: Seq<SlotV>, x: int, y: int) -> (w: int)
    requires
        reaches(slots, x, y),
        x != y,
    ensures
        reaches(slots, x, w),
        edge(slots, w, y),
{
    let p = choose|p: Seq<int>| is_path(slots, p) && p.first() == x && p.last() == y;
    assert(p.len() >= 2);
    let q = p.drop_last();
    assert forall|k: int| 0 <= k < q.len() - 1 implies edge(slots, #[trigger] q[k], q[k + 1]) by {
        assert(edge(slots, p[k], p[k + 1]));
    }
    assert(is_path(slots, q) && q.first() == x && q.last() == p[p.len() - 2]);
    assert(edge(slots, p[p.len() - 2], p[p.len() - 1]));
    p[p.len() - 2]
}

/// Reachability is transitive.
pub proof fn lemma_reaches_trans(slots: Seq<SlotV>, a: int, b: int, c: int)
    requires
        reaches(slots, a, b),
        reaches(slots, b, c),
    ensures
        reaches(slots, a, c),
{
    let p1 = choose|p: Seq<int>| is_path(slots, p) && p.first() == a && p.last() == b;
    let p2 = choose|p: Seq<int>| is_path(slots, p) && p.first() == b && p.last() == c;
    if p2.len() == 1 {
        assert(b == c);
    } else {
        let q = p1 + p2.drop_first();
        assert forall|k: int| 0 <= k < q.len() - 1 implies edge(slots, #[trigger] q[k], q[k + 1]) by {
            if k < p1.len() - 1 {
                assert(q[k] == p1[k] && q[k + 1] == p1[k + 1]);
                assert(edge(slots, p1[k], p1[k + 1]));
            } else if k == p1.len() - 1 {
                assert(q[k] == b && q[k + 1] == p2[1]);
                assert(edge(slots, p2[0], p2[1]));
            } else {
                let m = k - p1.len();
                assert(q[k] == p2[m + 1] && q[k + 1] == p2[m + 2]);
                assert(edge(slots, p2[m + 1], p2[m + 2]));
            }
        }
        assert(q.last() == p2[p2.len() - 1]);
        assert(is_path(slots, q) && q.first() == a && q.last() == c);
    }
}

/// A parentless node other than `root` itself is unreachable from `root`.
pub proof fn lemma_parentless_unreachable(slots: Seq<SlotV>, root: int, n: int)
    requires
        consistency(slots),
        valid_id(slots, root),
        valid_id(slots, n),
        slots[n].parent is None,
        n != root,
    ensures
        !reaches(slots, root, n),
{
    if reaches(slots, root, n) {
        let w = lemma_reaches_last_step(slots, root, n);
        assert(slots[w].children.contains(n));
        let k = choose|k: int| 0 <= k < slots[w].children.len() && slots[w].children[k] == n;
        assert(slots[slots[w].children[k]].parent == Some(w));
    }
}

/// Removing edges cannot extend reachability.
pub proof fn lemma_fewer_edges_reaches(s: Seq<SlotV>, t: Seq<SlotV>, x: int, y: int)
    requires
        s.len() == t.len(),
        forall|p: int, c: int| edge(t, p, c) ==> edge(s, p, c),
        reaches(t, x, y),
    ensures
        reaches(s, x, y),
{
    let p = choose|p: Seq<int>| is_path(t, p) && p.first() == x && p.last() == y;
    assert forall|k: int| 0 <= k < p.len() - 1 implies edge(s, #[trigger] p[k], p[k + 1]) by {
        assert(edge(t, p[k], p[k + 1]));
    }
    assert(is_path(s, p));
}

/// Core of [`lemma_added_edge_unreach`]: a path in the extended graph from
/// `x` ends at a node that was already reachable from `x`, provided the one
/// new edge leaves from a node `q` that `x` could not reach.
proof fn lemma_added_edge_path(
    s: Seq<SlotV>,
    t: Seq<SlotV>,
    q: int,
    c: int,
    x: int,
    p: Seq<int>,
)
    requires
        s.len() == t.len(),
        forall|a: int, d: int| edge(t, a, d) ==> edge(s, a, d) || (a == q && d == c),
        !reaches(s, x, q),
        is_path(t, p),
        p.first() == x,
    ensures
        reaches(s, x, p.last()),
    decreases p.len(),
{
    if p.len() == 1 {
        assert(valid_id(s, x));
        lemma_reaches_self(s, x);
    } else {
        let p0 = p.drop_last();
        assert forall|k: int| 0 <= k < p0.len() - 1 implies edge(t, #[trigger] p0[k], p0[k + 1]) by {
            assert(edge(t, p[k], p[k + 1]));
        }
        assert(is_path(t, p0) && p0.first() == x);
        lemma_added_edge_path(s, t, q, c, x, p0);
        let w = p0.last();
        assert(edge(t, p[p.len() - 2], p[p.len() - 1]));
        assert(w == p[p.len() - 2]);
        if edge(s, w, p.last()) {
            lemma_reaches_step(s, x, w, p.last());
        } else {
            assert(w == q);
            assert(false);
        }
    }
}

/// Adding one edge out of an unreachable node `q` does not extend what `x`
/// reaches.
pub proof fn lemma_added_edge_unreach(s: Seq<SlotV>, t: Seq<SlotV>, q: int, c: int, x: int)
    requires
        s.len() == t.len(),
        forall|a: int, d: int| edge(t, a, d) ==> edge(s, a, d) || (a == q && d == c),
        !reaches(s, x, q),
    ensures
        forall|y: int| reaches(t, x, y) ==> reaches(s, x, y),
{
    assert forall|y: int| reaches(t, x, y) implies reaches(s, x, y) by {
        let p = choose|p: Seq<int>| is_path(t, p) && p.first() == x && p.last() == y;
        lemma_added_edge_path(s, t, q, c, x, p);
    }
}

/// Payload-only edits preserve consistency.
pub proof fn lemma_consistency_same_structure(s: Seq<SlotV>, t: Seq<SlotV>)
    requires
        same_structure(s, t),
        consistency(s),
    ensures
        consistency(t),
{
    assert forall|i: int, k: int|
        valid_id(t, i) && 0 <= k < t[i].children.len()
        implies valid_id(t, #[trigger] t[i].children[k])
            && t[t[i].children[k]].parent == Some(i) by {
        assert(t[i].children == s[i].children);
        assert(valid_id(s, s[i].children[k]));
        assert(s[s[i].children[k]].parent == Some(i));
        assert(t[s[i].children[k]].parent == s[s[i].children[k]].parent);
    }
    assert forall|i: int|
        valid_id(t, i) && (#[trigger] t[i].parent).is_some()
        implies valid_id(t, t[i].parent->0) && t[t[i].parent->0].children.contains(i) by {
        assert(t[i].parent == s[i].parent);
        let w = s[i].parent->0;
        assert(s[w].children.contains(i));
        assert(t[w].children == s[w].children);
    }
    assert forall|i: int, k1: int, k2: int|
        valid_id(t, i) && 0 <= k1 < t[i].children.len() && 0 <= k2 < t[i].children.len() && k1
        != k2 implies #[trigger] t[i].children[k1] != #[trigger] t[i].children[k2] by {
        assert(t[i].children == s[i].children);
    }
}

/// Structure-only edits preserve an acyclicity witness.
pub proof fn lemma_rank_same_structure(s: Seq<SlotV>, t: Seq<SlotV>, r: Map<int, nat>)
    requires
        same_structure(s, t),
        rank_ok(s, r),
    ensures
        rank_ok(t, r),
{
    assert forall|i: int, k: int|
        valid_id(t, i) && 0 <= k < t[i].children.len() implies r[#[trigger] t[i].children[k]]
        < r[i] by {
        assert(t[i].children == s[i].children);
        assert(r[s[i].children[k]] < r[i]);
    }
}

/// Removing edges preserves an acyclicity witness.
pub proof fn lemma_rank_fewer_edges(s: Seq<SlotV>, t: Seq<SlotV>, r: Map<int, nat>)
    requires
        s.len() == t.len(),
        rank_ok(s, r),
        forall|i: int|
            valid_id(t, i) ==> (forall|k: int|
                0 <= k < (#[trigger] t[i].children).len() ==> #[trigger] edge(
                    s,
                    i,
                    t[i].children[k],
                )),
    ensures
        rank_ok(t, r),
{
    assert forall|i: int, k: int|
        valid_id(t, i) && 0 <= k < t[i].children.len() implies r[#[trigger] t[i].children[k]]
        < r[i] by {
        assert(edge(s, i, t[i].children[k]));
        let j = choose|j: int|
            0 <= j < s[i].children.len() && s[i].children[j] == t[i].children[k];
        assert(r[s[i].children[j]] < r[i]);
    }
}

/// A node with no children reaches nothing but itself.
pub proof fn lemma_childless_unreach(slots: Seq<SlotV>, c: int, y: int)
    requires
        valid_id(slots, c),
        slots[c].children.len() == 0,
        y != c,
    ensures
        !reaches(slots, c, y),
{
    if reaches(slots, c, y) {
        let p = choose|p: Seq<int>| is_path(slots, p) && p.first() == c && p.last() == y;
        assert(p.len() >= 2);
        assert(edge(slots, p[0], p[1]));
        assert(slots[c].children.contains(p[1]));
    }
}

/// The rebuilt acyclicity witness after attaching the subtree of `c`: ranks
/// inside that subtree stay, every other rank moves up past them.
pub open spec fn attach_rank(s: Seq<SlotV>, c: int, r: Map<int, nat>) -> Map<int, nat> {
    Map::total(|x: int| if reaches(s, c, x) { r[x] } else { (r[x] + r[c] + 1) as nat })
}

/// Attaching a parentless node `c` under a node `q` outside the subtree of
/// `c` keeps the graph acyclic: the rebuilt rank witnesses it.  `t` must be
/// `s` with `c` inserted somewhere in the children of `q`, the parent of `c`
/// set to `q`, and no other structural change.
pub proof fn lemma_rank_attach(
    s: Seq<SlotV>,
    t: Seq<SlotV>,
    q: int,
    c: int,
    j: int,
    r: Map<int, nat>,
)
    requires
        consistency(s),
        rank_ok(s, r),
        s.len() == t.len(),
        valid_id(s, q),
        valid_id(s, c),
        s[c].parent is None,
        !reaches(s, c, q),
        0 <= j <= s[q].children.len(),
        t[q].children == s[q].children.insert(j, c),
        t[q].parent == s[q].parent,
        t[c].children == s[c].children,
        t[c].parent == Some(q),
        forall|i: int|
            valid_id(s, i) && i != q && i != c
                ==> (#[trigger] t[i]).parent == s[i].parent && t[i].children == s[i].children,
    ensures
        rank_ok(t, attach_rank(s, c, r)),
{
    assert(c != q) by {
        lemma_reaches_self(s, c);
    }
    let r2 = attach_rank(s, c, r);
    assert forall|i: int, k: int|
        valid_id(t, i) && 0 <= k < t[i].children.len() implies r2[#[trigger] t[i].children[k]]
        < r2[i] by {
        let d = t[i].children[k];
        if i == q && !s[q].children.contains(d) {
            // The one new edge: from q to c.
            assert(d == c) by {
                assert(s[q].children.insert(j, c)[k] == d);
                if k < j {
                    assert(s[q].children[k] == d);
                } else if k > j {
                    assert(s[q].children[k - 1] == d);
                }
            }
            lemma_reaches_self(s, c);
            assert(r2[c] == r[c]);
            assert(!reaches(s, c, q));
            assert(r2[q] == r[q] + r[c] + 1);
        } else {
            // An edge of s, from i to d.
            assert(edge(s, i, d)) by {
                if i == q {
                    assert(s[q].children.contains(d));
                } else if i == c {
                    assert(s[c].children.contains(d));
                } else {
                    assert(t[i].children == s[i].children);
                    assert(s[i].children.contains(d));
                }
            }
            let kk = choose|kk: int| 0 <= kk < s[i].children.len() && s[i].children[kk] == d;
            assert(r[d] < r[i]);
            if reaches(s, c, i) {
                lemma_reaches_step(s, c, i, d);
                assert(r2[i] == r[i] && r2[d] == r[d]);
            } else if reaches(s, c, d) {
                // An s-edge into the subtree of c from outside it: impossible.
                if d == c {
                    assert(s[c].parent == Some(i));
                    assert(false);
                } else {
                    let w = lemma_reaches_last_step(s, c, d);
                    assert(s[d].parent == Some(w));
                    assert(s[d].parent == Some(i));
                    assert(false);
                }
            } else {
                assert(r2[i] == r[i] + r[c] + 1);
                assert(r2[d] == r[d] + r[c] + 1);
            }
        }
    }
}

/// Below a node, ranks are no larger: a strictly smaller rank for a
/// strictly lower node.
pub proof fn lemma_reaches_rank(slots: Seq<SlotV>, r: Map<int, nat>, a: int, b: int)
    requires
        rank_ok(slots, r),
        reaches(slots, a, b),
        a != b,
    ensures
        r[b] < r[a],
{
    let p = choose|p: Seq<int>| is_path(slots, p) && p.first() == a && p.last() == b;
    assert(p.len() >= 2);
    crate::sink::lemma_path_rank(slots, r, p);
}

/// Two descent paths to the same node: one of their starting points lies
/// below the other, because every node has one parent.
proof fn lemma_updown_paths(slots: Seq<SlotV>, q1: Seq<int>, q2: Seq<int>)
    requires
        consistency(slots),
        is_path(slots, q1),
        is_path(slots, q2),
        q1.last() == q2.last(),
    ensures
        reaches(slots, q1.first(), q2.first()) || reaches(slots, q2.first(), q1.first()),
    decreases q1.len() + q2.len(),
{
    if q1.len() == 1 {
        assert(reaches(slots, q2.first(), q1.first())) by {
            assert(is_path(slots, q2) && q2.first() == q2.first() && q2.last() == q1.first());
        }
    } else if q2.len() == 1 {
        assert(reaches(slots, q1.first(), q2.first())) by {
            assert(is_path(slots, q1) && q1.last() == q2.first());
        }
    } else {
        let x = q1.last();
        let w1 = q1[q1.len() - 2];
        let w2 = q2[q2.len() - 2];
        assert(edge(slots, w1, x)) by {
            assert(edge(slots, q1[q1.len() - 2], q1[q1.len() - 2 + 1]));
        }
        assert(edge(slots, w2, x)) by {
            assert(edge(slots, q2[q2.len() - 2], q2[q2.len() - 2 + 1]));
        }
        assert(w1 == w2) by {
            let k1 = choose|k: int|
                0 <= k < slots[w1].children.len() && #[trigger] slots[w1].children[k] == x;
            let k2 = choose|k: int|
                0 <= k < slots[w2].children.len() && #[trigger] slots[w2].children[k] == x;
            assert(slots[slots[w1].children[k1]].parent == Some(w1));
            assert(slots[slots[w2].children[k2]].parent == Some(w2));
        }
        let p1 = q1.drop_last();
        let p2 = q2.drop_last();
        assert forall|k: int| 0 <= k < p1.len() - 1 implies edge(slots, #[trigger] p1[k], p1[k + 1]) by {
            assert(edge(slots, q1[k], q1[k + 1]));
        }
        assert forall|k: int| 0 <= k < p2.len() - 1 implies edge(slots, #[trigger] p2[k], p2[k + 1]) by {
            assert(edge(slots, q2[k], q2[k + 1]));
        }
        assert(is_path(slots, p1) && is_path(slots, p2));
        assert(p1.last() == w1 && p2.last() == w2);
        assert(p1.first() == q1.first() && p2.first() == q2.first());
        lemma_updown_paths(slots, p1, p2);
    }
}

/// The subtrees of two distinct children of one parent share no node.
pub proof fn lemma_sibling_subtrees_disjoint(
    slots: Seq<SlotV>,
    r: Map<int, nat>,
    p: int,
    c1: int,
    c2: int,
    x: int,
)
    requires
        consistency(slots),
        rank_ok(slots, r),
        edge(slots, p, c1),
        edge(slots, p, c2),
        c1 != c2,
        reaches(slots, c1, x),
    ensures
        !reaches(slots, c2, x),
{
    if reaches(slots, c2, x) {
        let q1 = choose|q: Seq<int>| is_path(slots, q) && q.first() == c1 && q.last() == x;
        let q2 = choose|q: Seq<int>| is_path(slots, q) && q.first() == c2 && q.last() == x;
        lemma_updown_paths(slots, q1, q2);
        if reaches(slots, c1, c2) {
            let w = lemma_reaches_last_step(slots, c1, c2);
            assert(w == p) by {
                let k1 = choose|k: int|
                    0 <= k < slots[w].children.len() && #[trigger] slots[w].children[k] == c2;
                let k2 = choose|k: int|
                    0 <= k < slots[p].children.len() && #[trigger] slots[p].children[k] == c2;
                assert(slots[slots[w].children[k1]].parent == Some(w));
                assert(slots[slots[p].children[k2]].parent == Some(p));
            }
            lemma_reaches_rank(slots, r, c1, p);
            assert(r[c1] < r[p]) by {
                let k = choose|k: int|
                    0 <= k < slots[p].children.len() && #[trigger] slots[p].children[k] == c1;
            }
        } else {
            let w = lemma_reaches_last_step(slots, c2, c1);
            assert(w == p) by {
                let k1 = choose|k: int|
                    0 <= k < slots[w].children.len() && #[trigger] slots[w].children[k] == c1;
                let k2 = choose|k: int|
                    0 <= k < slots[p].children.len() && #[trigger] slots[p].children[k] == c1;
                assert(slots[slots[w].children[k1]].parent == Some(w));
                assert(slots[slots[p].children[k2]].parent == Some(p));
            }
            lemma_reaches_rank(slots, r, c2, p);
            assert(r[c2] < r[p]) by {
                let k = choose|k: int|
                    0 <= k < slots[p].children.len() && #[trigger] slots[p].children[k] == c2;
            }
        }
    }
}

} // verus!
