//! The finalized, strictly-owned tree, and the finalizer that produces it.
//!
//! Finalization walks the arena from the document root and moves the
//! reachable subset into a tree with strict single ownership: payload plus
//! children, no parent reference of any kind.  Nodes that were detached
//! during parsing and never reattached are unreachable, never visited, and
//! dropped with the arena.

use vstd::prelude::*;

use crate::node::{NodeEnum, PayloadV, QuirksMode};
use crate::paths::{lemma_parentless_unreachable, lemma_reaches_last_step, lemma_reaches_prepend, lemma_reaches_rank, lemma_reaches_self, lemma_reaches_step, lemma_reaches_trans, lemma_sibling_subtrees_disjoint};
use crate::sink::{consistency, edge, rank_ok, reaches, tree_shape_ok, valid_id, Handle, Sink, SinkV, SlotV};

verus! {

/// A finalized node: payload plus exclusively-owned children, no parent
/// reference of any kind.
pub struct Node {
    pub node: NodeEnum,
    pub children: Vec<Node>,
}

/// Model of a [`Node`]: a payload and the models of the children, in order.
#[verifier::ext_equal]
pub struct TreeV {
    pub payload: PayloadV,
    pub children: Seq<TreeV>,
}

/// The model of a [`Node`], recursively.
pub open spec fn node_view(n: Node) -> TreeV
    decreases n,
{
    TreeV { payload: n.node@, children: nodes_view(n.children@) }
}

/// The models of a sequence of [`Node`]s, in order.
pub open spec fn nodes_view(s: Seq<Node>) -> Seq<TreeV>
    decreases s,
{
    if s.len() == 0 {
        Seq::empty()
    } else {
        seq![node_view(s[0])] + nodes_view(s.drop_first())
    }
}

/// `nodes_view` is the element-wise model of the sequence.
pub proof fn lemma_nodes_view(s: Seq<Node>)
    ensures
        nodes_view(s).len() == s.len(),
        forall|k: int| 0 <= k < s.len() ==> nodes_view(s)[k] == node_view(s[k]),
    decreases s.len(),
{
    if s.len() > 0 {
        lemma_nodes_view(s.drop_first());
    }
}

impl View for Node {
    type V = TreeV;

    open spec fn view(&self) -> TreeV {
        node_view(*self)
    }
}

/// The artifact of a finished parse: the owned document tree, the parse
/// error log in encounter order, and the frozen quirks mode.
pub struct OwnedDom {
    pub document: Box<Node>,
    pub errors: Vec<String>,
    pub quirks_mode: QuirksMode,
}

/// The conditions under which [`extract`] is meaningful: a consistent
/// table, a valid acyclicity witness, and a valid root.
pub open spec fn extract_ok(slots: Seq<SlotV>, r: Map<int, nat>, i: int) -> bool {
    consistency(slots) && rank_ok(slots, r) && valid_id(slots, i)
}

/// The owned tree that finalization produces for the subtree rooted at
/// slot `i`: the slot's payload, over the extractions of its children in
/// order.
pub open spec fn extract(slots: Seq<SlotV>, r: Map<int, nat>, i: int) -> TreeV
    decreases r[i], 1int, 0int,
        when extract_ok(slots, r, i)
{
    TreeV { payload: slots[i].payload, children: extract_list(slots, r, slots[i].children, r[i]) }
}

/// The extractions of the roots `cs`, each of rank below `bound`.
pub open spec fn extract_list(slots: Seq<SlotV>, r: Map<int, nat>, cs: Seq<int>, bound: nat) -> Seq<
    TreeV,
>
    decreases bound, 0int, cs.len(),
        when consistency(slots) && rank_ok(slots, r) && (forall|k: int|
            0 <= k < cs.len() ==> valid_id(slots, #[trigger] cs[k]) && r[cs[k]] < bound)
{
    if cs.len() == 0 {
        Seq::empty()
    } else {
        seq![extract(slots, r, cs.first())] + extract_list(slots, r, cs.drop_first(), bound)
    }
}

/// `extract_list` is the element-wise extraction of its roots.
pub proof fn lemma_extract_list_elts(slots: Seq<SlotV>, r: Map<int, nat>, cs: Seq<int>, bound: nat)
    requires
        consistency(slots),
        rank_ok(slots, r),
        forall|k: int| 0 <= k < cs.len() ==> valid_id(slots, #[trigger] cs[k]) && r[cs[k]] < bound,
    ensures
        extract_list(slots, r, cs, bound).len() == cs.len(),
        forall|k: int|
            0 <= k < cs.len() ==> extract_list(slots, r, cs, bound)[k] == extract(
                slots,
                r,
                #[trigger] cs[k],
            ),
    decreases cs.len(),
{
    if cs.len() > 0 {
        assert forall|k: int|
            0 <= k < cs.drop_first().len() implies valid_id(slots, #[trigger] cs.drop_first()[k])
            && r[cs.drop_first()[k]] < bound by {
            assert(cs.drop_first()[k] == cs[k + 1]);
        }
        lemma_extract_list_elts(slots, r, cs.drop_first(), bound);
        assert forall|k: int|
            0 <= k < cs.len() implies extract_list(slots, r, cs, bound)[k] == extract(
            slots,
            r,
            #[trigger] cs[k],
        ) by {
            if k > 0 {
                assert(cs.drop_first()[k - 1] == cs[k]);
            }
        }
    }
}

/// The acyclicity witness that [`extract_at`] evaluates with; any witness
/// gives the same tree on a consistent table.
pub open spec fn the_rank(slots: Seq<SlotV>) -> Map<int, nat> {
    choose|r: Map<int, nat>| rank_ok(slots, r)
}

/// The finalized tree of the arena model `s`, rooted at slot `i`.
pub open spec fn extract_at(s: SinkV, i: int) -> TreeV {
    extract(s.slots, the_rank(s.slots), i)
}

/// Finalization reads only the live subset: the extraction at `i` is the
/// same in any two tables that agree on every slot reachable from `i`.
pub proof fn lemma_extract_depends_on_reachable(
    s1: Seq<SlotV>,
    s2: Seq<SlotV>,
    r1: Map<int, nat>,
    r2: Map<int, nat>,
    i: int,
)
    requires
        extract_ok(s1, r1, i),
        extract_ok(s2, r2, i),
        s1.len() == s2.len(),
        forall|j: int| reaches(s1, i, j) ==> s1[j] == s2[j],
    ensures
        extract(s1, r1, i) == extract(s2, r2, i),
    decreases r1[i],
{
    lemma_reaches_self(s1, i);
    assert(s1[i] == s2[i]);
    let cs = s1[i].children;
    lemma_extract_list_elts(s1, r1, cs, r1[i]);
    lemma_extract_list_elts(s2, r2, cs, r2[i]);
    assert forall|k: int|
        0 <= k < cs.len() implies extract_list(s1, r1, cs, r1[i])[k] == extract_list(
        s2,
        r2,
        cs,
        r2[i],
    )[k] by {
        let c = cs[k];
        assert(edge(s1, i, c)) by {
            assert(s1[i].children.contains(c));
        }
        lemma_reaches_step(s1, i, i, c);
        assert forall|j: int| reaches(s1, c, j) implies s1[j] == s2[j] by {
            lemma_reaches_trans(s1, i, c, j);
        }
        lemma_extract_depends_on_reachable(s1, s2, r1, r2, c);
    }
    assert(extract(s1, r1, i).children =~= extract(s2, r2, i).children);
    assert(extract(s1, r1, i) =~= extract(s2, r2, i));
}

/// Liveness at finalization: a node that was detached and never reattached
/// has no parent and is not the document, so the document cannot reach it;
/// and the finalized tree is the same as that of any arena that agrees
/// with this one on the reachable slots — the payload of a dead node is
/// not observable in the result.
pub proof fn lemma_dead_nodes_unobservable(s1: SinkV, s2: SinkV, n: int)
    requires
        tree_shape_ok(s1),
        tree_shape_ok(s2),
        s1.document == s2.document,
        s1.slots.len() == s2.slots.len(),
        valid_id(s1.slots, n),
        s1.slots[n].parent is None,
        n != s1.document,
        forall|j: int| reaches(s1.slots, s1.document, j) ==> s1.slots[j] == s2.slots[j],
    ensures
        !reaches(s1.slots, s1.document, n),
        extract_at(s1, s1.document) == extract_at(s2, s2.document),
{
    lemma_parentless_unreachable(s1.slots, s1.document, n);
    let r1 = the_rank(s1.slots);
    let r2 = the_rank(s2.slots);
    assert(rank_ok(s1.slots, r1)) by {
        let rw = choose|rw: Map<int, nat>| rank_ok(s1.slots, rw);
        assert(rank_ok(s1.slots, rw));
    }
    assert(rank_ok(s2.slots, r2)) by {
        let rw = choose|rw: Map<int, nat>| rank_ok(s2.slots, rw);
        assert(rank_ok(s2.slots, rw));
    }
    lemma_extract_depends_on_reachable(s1.slots, s2.slots, r1, r2, s1.document);
}

/// Moves the subtree of the arena rooted at `i` into an owned tree.  Each
/// live node's payload is moved, never copied; `s0` is the arena's pristine
/// structure, which the walk preserves while it empties the payloads of the
/// subtree, one node each.
#[verifier::loop_isolation(false)]
fn take_tree(
    sink: &mut Sink,
    i: Handle,
    Ghost(r): Ghost<Map<int, nat>>,
    Ghost(s0): Ghost<Seq<SlotV>>,
) -> (out: Node)
    requires
        consistency(s0),
        rank_ok(s0, r),
        valid_id(s0, i@),
        old(sink)@.slots.len() == s0.len(),
        forall|j: int|
            valid_id(s0, j) ==> (#[trigger] old(sink)@.slots[j]).parent == s0[j].parent
                && old(sink)@.slots[j].children == s0[j].children,
        forall|j: int|
            reaches(s0, i@, j) ==> (#[trigger] old(sink)@.slots[j]).payload == s0[j].payload,
    ensures
        out@ == extract(s0, r, i@),
        final(sink)@.slots.len() == s0.len(),
        forall|j: int|
            valid_id(s0, j) ==> (#[trigger] final(sink)@.slots[j]).parent == s0[j].parent
                && final(sink)@.slots[j].children == s0[j].children,
        forall|j: int|
            valid_id(s0, j) && !reaches(s0, i@, j) ==> (#[trigger] final(sink)@.slots[j]).payload
                == old(sink)@.slots[j].payload,
        final(sink)@.document == old(sink)@.document,
        final(sink)@.errors == old(sink)@.errors,
        final(sink)@.quirks == old(sink)@.quirks,
    decreases r[i@],
{
    proof {
        lemma_reaches_self(s0, i@);
    }
    let payload = sink.take_payload(i);
    let n = sink.child_count(i);
    let mut children: Vec<Node> = Vec::new();
    let mut k: usize = 0;
    while k < n
        invariant
            sink@.slots.len() == s0.len(),
            n as int == s0[i@].children.len(),
            0 <= k <= n,
            children@.len() == k,
            forall|t: int|
                0 <= t < k ==> node_view(#[trigger] children@[t]) == extract(
                    s0,
                    r,
                    s0[i@].children[t],
                ),
            forall|j: int|
                valid_id(s0, j) ==> (#[trigger] sink@.slots[j]).parent == s0[j].parent
                    && sink@.slots[j].children == s0[j].children,
            forall|j: int|
                valid_id(s0, j) && j != i@ && (forall|t: int|
                    0 <= t < k ==> !reaches(s0, #[trigger] s0[i@].children[t], j)) ==> (
                #[trigger] sink@.slots[j]).payload == old(sink)@.slots[j].payload,
            sink@.document == old(sink)@.document,
            sink@.errors == old(sink)@.errors,
            sink@.quirks == old(sink)@.quirks,
        decreases n - k,
    {
        let c = sink.child_at(i, k);
        let ghost pre = sink@.slots;
        proof {
            assert(c@ == s0[i@].children[k as int]);
            assert(edge(s0, i@, c@)) by {
                assert(s0[i@].children.contains(c@));
            }
            assert(valid_id(s0, c@));
            assert(r[c@] < r[i@]);
            // The subtree of this child still carries its pristine payloads.
            assert forall|j: int| reaches(s0, c@, j)
                implies (#[trigger] pre[j]).payload == s0[j].payload by {
                if j == c@ {
                    assert(valid_id(s0, j));
                } else {
                    let w = lemma_reaches_last_step(s0, c@, j);
                    let kk = choose|kk: int|
                        0 <= kk < s0[w].children.len() && #[trigger] s0[w].children[kk] == j;
                    assert(valid_id(s0, s0[w].children[kk]));
                }
                assert(j != i@) by {
                    if j == i@ {
                        lemma_reaches_rank(s0, r, c@, i@);
                    }
                }
                assert forall|t: int|
                    0 <= t < k implies !reaches(s0, #[trigger] s0[i@].children[t], j) by {
                    assert(s0[i@].children[t] != c@);
                    assert(edge(s0, i@, s0[i@].children[t])) by {
                        assert(s0[i@].children.contains(s0[i@].children[t]));
                    }
                    lemma_sibling_subtrees_disjoint(s0, r, i@, c@, s0[i@].children[t], j);
                }
                lemma_reaches_prepend(s0, i@, c@, j);
            }
        }
        let child = take_tree(sink, c, Ghost(r), Ghost(s0));
        children.push(child);
        proof {
            assert forall|j: int|
                valid_id(s0, j) && j != i@ && (forall|t: int|
                    0 <= t < k + 1 ==> !reaches(s0, #[trigger] s0[i@].children[t], j)) implies (
            #[trigger] sink@.slots[j]).payload == old(sink)@.slots[j].payload by {
                assert(!reaches(s0, s0[i@].children[k as int], j));
                assert(sink@.slots[j].payload == pre[j].payload);
            }
        }
        k = k + 1;
    }
    let out = Node { node: payload, children };
    proof {
        lemma_nodes_view(out.children@);
        assert forall|t: int|
            0 <= t < s0[i@].children.len() implies valid_id(s0, #[trigger] s0[i@].children[t])
            && r[s0[i@].children[t]] < r[i@] by {}
        lemma_extract_list_elts(s0, r, s0[i@].children, r[i@]);
        assert(out@.children =~= extract(s0, r, i@).children);
        assert(out@ =~= extract(s0, r, i@));
        assert forall|j: int|
            valid_id(s0, j) && !reaches(s0, i@, j) implies (#[trigger] sink@.slots[j]).payload
            == old(sink)@.slots[j].payload by {
            assert(j != i@);
            assert forall|t: int|
                0 <= t < n implies !reaches(s0, #[trigger] s0[i@].children[t], j) by {
                if reaches(s0, s0[i@].children[t], j) {
                    assert(edge(s0, i@, s0[i@].children[t])) by {
                        assert(s0[i@].children.contains(s0[i@].children[t]));
                    }
                    lemma_reaches_prepend(s0, i@, s0[i@].children[t], j);
                }
            }
        }
    }
    out
}

impl OwnedDom {
    /// Consumes the arena once, after parsing: converts the subset of
    /// nodes reachable from the document root into the owned tree, drops
    /// every other node with the arena's storage, and packages the tree
    /// with the error log and the frozen quirks mode.
    pub fn get_result(sink: Sink) -> (result: OwnedDom)
        requires
            sink.wf(),
        ensures
            result.document@ == extract_at(sink@, sink@.document),
            result.errors@.map_values(|e: String| e@) == sink@.errors,
            result.quirks_mode == sink@.quirks,
    {
        let mut sink = sink;
        proof {
            sink.lemma_wf_tree_shape();
        }
        let ghost r = the_rank(sink@.slots);
        proof {
            assert(rank_ok(sink@.slots, r)) by {
                let rw = choose|rw: Map<int, nat>| rank_ok(sink@.slots, rw);
                assert(rank_ok(sink@.slots, rw));
            }
        }
        let doc = sink.get_document();
        let ghost s0 = sink@.slots;
        let tree = take_tree(&mut sink, doc, Ghost(r), Ghost(s0));
        let (errors, quirks_mode) = sink.into_parts();
        OwnedDom { document: Box::new(tree), errors, quirks_mode }
    }
}

} // verus!
