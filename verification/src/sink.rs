//! The mutable arena of nodes and its tree-mutation operations.
//!
//! Nodes live in a flat table; every structural reference is an index into
//! that table ([`Handle`]), a node's parent is an optional index and its
//! children an ordered index sequence.  The arena's model is [`SinkV`]; the
//! well-formedness predicate [`tree_shape_ok`] says that the node table is a
//! forest: parent and child references agree, no node sits in two child
//! sequences, and no reference chain is cyclic (witnessed by a rank that
//! strictly decreases from parent to child).

use vstd::prelude::*;

use crate::node::{AttrV, Attribute, NodeEnum, PayloadV, QuirksMode};
use crate::paths::{
    attach_rank, lemma_added_edge_unreach, lemma_childless_unreach,
    lemma_consistency_same_structure, lemma_fewer_edges_reaches, lemma_rank_attach,
    lemma_rank_fewer_edges, lemma_rank_same_structure, lemma_reaches_prepend, lemma_reaches_self,
    same_structure,
};
use vstd::string::StringExecFns;

verus! {

/// What is appended: an existing node, or a text fragment that may coalesce
/// with a neighbouring text node.
pub enum NodeOrText {
    AppendNode(Handle),
    AppendText(String),
}

/// A reference to a node in a [`Sink`]: an index into its node table.
///
/// Identity is index identity: two handles name the same node exactly when
/// their views are equal.
#[derive(PartialEq, Eq, Structural, Clone, Copy, Debug)]
pub struct Handle {
    index: usize,
}

impl View for Handle {
    type V = int;

    closed spec fn view(&self) -> int {
        self.index as int
    }
}

/// A node during parsing: payload, parent reference, ordered children.
pub struct SquishyNode {
    node: NodeEnum,
    parent: Option<Handle>,
    children: Vec<Handle>,
}

impl SquishyNode {
    /// A fresh node: the given payload, no parent, no children.
    pub fn new(node: NodeEnum) -> (r: SquishyNode)
        ensures
            r@ == (SlotV { payload: node@, parent: None, children: Seq::<int>::empty() }),
    {
        SquishyNode { node, parent: None, children: Vec::new() }
    }
}

/// Model of one node table slot.
#[verifier::ext_equal]
pub struct SlotV {
    pub payload: PayloadV,
    pub parent: Option<int>,
    pub children: Seq<int>,
}

impl View for SquishyNode {
    type V = SlotV;

    closed spec fn view(&self) -> SlotV {
        SlotV {
            payload: self.node@,
            parent: match self.parent {
                Some(h) => Some(h@),
                None => None,
            },
            children: self.children@.map_values(|h: Handle| h@),
        }
    }
}

/// Model of the whole arena.
#[verifier::ext_equal]
pub struct SinkV {
    pub slots: Seq<SlotV>,
    pub document: int,
    pub errors: Seq<Seq<char>>,
    pub quirks: QuirksMode,
}

/// `i` names a slot of the table.
pub open spec fn valid_id(slots: Seq<SlotV>, i: int) -> bool {
    0 <= i < slots.len()
}

/// There is a child edge from `p` to `c`.
pub open spec fn edge(slots: Seq<SlotV>, p: int, c: int) -> bool {
    valid_id(slots, p) && slots[p].children.contains(c)
}

/// `p` is a chain of child edges through the table.
pub open spec fn is_path(slots: Seq<SlotV>, p: Seq<int>) -> bool {
    &&& p.len() >= 1
    &&& valid_id(slots, p[0])
    &&& forall|k: int| 0 <= k < p.len() - 1 ==> edge(slots, #[trigger] p[k], p[k + 1])
}

/// `b` lies in the subtree under `a` (including `a` itself).
pub open spec fn reaches(slots: Seq<SlotV>, a: int, b: int) -> bool {
    exists|p: Seq<int>| is_path(slots, p) && p.first() == a && p.last() == b
}

/// Parent and child references agree: every child edge is matched by the
/// child's parent field, every parent field by a child edge, child lists
/// hold valid indices and no index twice.
pub open spec fn consistency(slots: Seq<SlotV>) -> bool {
    &&& forall|i: int, k: int|
        valid_id(slots, i) && 0 <= k < slots[i].children.len()
            ==> valid_id(slots, #[trigger] slots[i].children[k])
    &&& forall|i: int, k: int|
        valid_id(slots, i) && 0 <= k < slots[i].children.len()
            ==> slots[#[trigger] slots[i].children[k]].parent == Some(i)
    &&& forall|i: int|
        valid_id(slots, i) && (#[trigger] slots[i].parent).is_some()
            ==> valid_id(slots, slots[i].parent->0)
                && slots[slots[i].parent->0].children.contains(i)
    &&& forall|i: int, k1: int, k2: int|
        valid_id(slots, i) && 0 <= k1 < slots[i].children.len()
            && 0 <= k2 < slots[i].children.len() && k1 != k2
            ==> #[trigger] slots[i].children[k1] != #[trigger] slots[i].children[k2]
}

/// `r` witnesses that the child-edge graph is acyclic: ranks strictly
/// decrease from parent to child.
pub open spec fn rank_ok(slots: Seq<SlotV>, r: Map<int, nat>) -> bool {
    forall|i: int, k: int|
        valid_id(slots, i) && 0 <= k < slots[i].children.len()
            ==> r[#[trigger] slots[i].children[k]] < r[i]
}

/// The attribute names of an element are pairwise distinct.
pub open spec fn attr_names_unique(attrs: Seq<AttrV>) -> bool {
    forall|k1: int, k2: int|
        0 <= k1 < attrs.len() && 0 <= k2 < attrs.len() && k1 != k2
            ==> (#[trigger] attrs[k1]).name != (#[trigger] attrs[k2]).name
}

/// Every element payload in the table has unique attribute names.
pub open spec fn elems_ok(slots: Seq<SlotV>) -> bool {
    forall|i: int|
        valid_id(slots, i) ==> match #[trigger] slots[i].payload {
            PayloadV::Element { name: _, attrs } => attr_names_unique(attrs),
            _ => true,
        }
}

/// The document root is a parentless Document slot of the table.
pub open spec fn doc_ok(s: SinkV) -> bool {
    &&& valid_id(s.slots, s.document)
    &&& s.slots[s.document].parent is None
    &&& s.slots[s.document].payload is Document
}

/// The tree-shape invariant, the public face of [`Sink::wf`]: the node
/// table is a consistent, acyclic forest rooted (among others) at the
/// document, and element attribute names are unique.
pub open spec fn tree_shape_ok(s: SinkV) -> bool {
    &&& consistency(s.slots)
    &&& elems_ok(s.slots)
    &&& doc_ok(s)
    &&& exists|r: Map<int, nat>| rank_ok(s.slots, r)
}

/// The mutable arena: owns every node allocated during a parse, the parse
/// error log and the quirks-mode flag.
pub struct Sink {
    nodes: Vec<SquishyNode>,
    document: Handle,
    errors: Vec<String>,
    quirks_mode: QuirksMode,
    rank: Ghost<Map<int, nat>>,
}

impl View for Sink {
    type V = SinkV;

    closed spec fn view(&self) -> SinkV {
        SinkV {
            slots: self.nodes@.map_values(|n: SquishyNode| n@),
            document: self.document@,
            errors: self.errors@.map_values(|e: String| e@),
            quirks: self.quirks_mode,
        }
    }
}

impl Sink {
    /// Every operation preserves this; it is [`tree_shape_ok`] with the
    /// arena's own acyclicity witness.
    pub closed spec fn wf(&self) -> bool {
        &&& consistency(self@.slots)
        &&& elems_ok(self@.slots)
        &&& doc_ok(self@)
        &&& rank_ok(self@.slots, self.rank@)
    }

    /// The tree-shape invariant holds of every well-formed arena.
    pub proof fn lemma_wf_tree_shape(&self)
        requires
            self.wf(),
        ensures
            tree_shape_ok(self@),
    {
        assert(rank_ok(self@.slots, self.rank@));
    }
}

/// Along a path of child edges, ranks strictly decrease.
pub proof fn lemma_path_rank(slots: Seq<SlotV>, r: Map<int, nat>, p: Seq<int>)
    requires
        rank_ok(slots, r),
        is_path(slots, p),
        p.len() >= 2,
    ensures
        r[p.last()] < r[p.first()],
    decreases p.len(),
{
    assert(edge(slots, p[p.len() - 2], p[p.len() - 1]));
    let c = p[p.len() - 1];
    assert(slots[p[p.len() - 2]].children.contains(c));
    let k = choose|k: int|
        0 <= k < slots[p[p.len() - 2]].children.len() && #[trigger] slots[p[p.len()
            - 2]].children[k] == c;
    assert(r[slots[p[p.len() - 2]].children[k]] < r[p[p.len() - 2]]);
    if p.len() > 2 {
        let p0 = p.drop_last();
        assert forall|j: int| 0 <= j < p0.len() - 1 implies edge(slots, #[trigger] p0[j], p0[j + 1]) by {
            assert(edge(slots, p[j], p[j + 1]));
        }
        assert(is_path(slots, p0));
        lemma_path_rank(slots, r, p0);
        assert(p0.last() == p[p.len() - 2] && p0.first() == p.first());
    }
}

/// No cycles: in a well-shaped arena no chain of child edges returns to
/// its start.
pub proof fn lemma_no_cycles(s: SinkV)
    requires
        tree_shape_ok(s),
    ensures
        forall|p: Seq<int>|
            is_path(s.slots, p) && p.len() >= 2 ==> #[trigger] p.first() != p.last(),
{
    let r = choose|r: Map<int, nat>| rank_ok(s.slots, r);
    assert(rank_ok(s.slots, r));
    assert forall|p: Seq<int>|
        is_path(s.slots, p) && p.len() >= 2 implies #[trigger] p.first() != p.last() by {
        lemma_path_rank(s.slots, r, p);
    }
}

/// Exactly one parent: in a well-shaped arena a node occurs in at most one
/// place of at most one child sequence, and its parent field names that
/// parent.
pub proof fn lemma_exactly_one_parent(s: SinkV, c: int, p1: int, k1: int, p2: int, k2: int)
    requires
        tree_shape_ok(s),
        valid_id(s.slots, p1),
        valid_id(s.slots, p2),
        0 <= k1 < s.slots[p1].children.len(),
        0 <= k2 < s.slots[p2].children.len(),
        s.slots[p1].children[k1] == c,
        s.slots[p2].children[k2] == c,
    ensures
        p1 == p2,
        k1 == k2,
        s.slots[c].parent == Some(p1),
{
    assert(s.slots[s.slots[p1].children[k1]].parent == Some(p1));
    assert(s.slots[s.slots[p2].children[k2]].parent == Some(p2));
}

/// `slots` with the payload of slot `i` replaced.
pub open spec fn set_payload(slots: Seq<SlotV>, i: int, payload: PayloadV) -> Seq<SlotV> {
    slots.update(i, SlotV { payload, ..slots[i] })
}

/// `slots` with the parent of slot `i` replaced.
pub open spec fn set_parent(slots: Seq<SlotV>, i: int, parent: Option<int>) -> Seq<SlotV> {
    slots.update(i, SlotV { parent, ..slots[i] })
}

/// `slots` with the children of slot `i` replaced.
pub open spec fn set_children(slots: Seq<SlotV>, i: int, children: Seq<int>) -> Seq<SlotV> {
    slots.update(i, SlotV { children, ..slots[i] })
}

impl Sink {
    /// Allocates storage for a fresh parentless, childless node and returns
    /// its handle, which stays valid for the remainder of the parse.
    ///
    /// An element payload must carry unique attribute names.
    pub fn new_node(&mut self, node: NodeEnum) -> (h: Handle)
        requires
            old(self).wf(),
            node@ matches PayloadV::Element { name: _, attrs } ==> attr_names_unique(attrs),
        ensures
            final(self).wf(),
            h@ == old(self)@.slots.len(),
            final(self)@.slots =~= old(self)@.slots.push(
                SlotV { payload: node@, parent: None, children: Seq::<int>::empty() },
            ),
            final(self)@.document == old(self)@.document,
            final(self)@.errors == old(self)@.errors,
            final(self)@.quirks == old(self)@.quirks,
    {
        let index = self.nodes.len();
        self.nodes.push(SquishyNode::new(node));
        proof {
            self.rank@ = self.rank@.insert(index as int, 0nat);
            assert(self@.slots =~= old(self)@.slots.push(
                SlotV { payload: node@, parent: None, children: Seq::<int>::empty() },
            ));
            assert forall|i: int, k: int|
                valid_id(self@.slots, i) && 0 <= k < self@.slots[i].children.len()
                    implies self.rank@[#[trigger] self@.slots[i].children[k]] < self.rank@[i] by {
                assert(valid_id(old(self)@.slots, i));
                assert(old(self)@.slots[i].children[k] == self@.slots[i].children[k]);
                assert(valid_id(old(self)@.slots, old(self)@.slots[i].children[k]));
            }
        }
        Handle { index }
    }

    /// Records a recoverable parse diagnostic; no structural effect.
    pub fn parse_error(&mut self, msg: String)
        ensures
            final(self)@.errors =~= old(self)@.errors.push(msg@),
            final(self)@.slots == old(self)@.slots,
            final(self)@.document == old(self)@.document,
            final(self)@.quirks == old(self)@.quirks,
            final(self).wf() == old(self).wf(),
    {
        self.errors.push(msg);
        proof {
            assert(self@.errors =~= old(self)@.errors.push(msg@));
            assert(self@.slots =~= old(self)@.slots);
        }
    }

    /// The handle of the document root.
    pub fn get_document(&mut self) -> (h: Handle)
        ensures
            *final(self) == *old(self),
            h@ == old(self)@.document,
    {
        self.document
    }

    /// Sets the quirks-mode flag; no structural effect.
    pub fn set_quirks_mode(&mut self, mode: QuirksMode)
        ensures
            final(self)@.quirks == mode,
            final(self)@.slots == old(self)@.slots,
            final(self)@.document == old(self)@.document,
            final(self)@.errors == old(self)@.errors,
            final(self).wf() == old(self).wf(),
    {
        self.quirks_mode = mode;
        proof {
            assert(self@.slots =~= old(self)@.slots);
            assert(self@.errors =~= old(self)@.errors);
        }
    }

    /// Reference-identity equality of two handles.
    pub fn same_node(&self, x: Handle, y: Handle) -> (r: bool)
        ensures
            r == (x@ == y@),
    {
        x.index == y.index
    }

    /// Whether two nodes live in the same home subtree; this arena keeps
    /// every node in one table, so the answer is always `true`.
    pub fn same_home_subtree(&self, x: Handle, y: Handle) -> (r: bool)
        ensures
            r,
    {
        let _ = x;
        let _ = y;
        true
    }

    /// Form-owner bookkeeping is not tracked by this arena; no effect.
    pub fn associate_with_form(&mut self, target: Handle, form: Handle)
        ensures
            *final(self) == *old(self),
    {
        let _ = target;
        let _ = form;
    }

    /// Script-start bookkeeping is not tracked by this arena; no effect.
    pub fn mark_script_already_started(&mut self, node: Handle)
        ensures
            *final(self) == *old(self),
    {
        let _ = node;
    }

    /// Whether `node` is attached to a parent.
    pub fn has_parent_node(&self, node: Handle) -> (r: bool)
        requires
            valid_id(self@.slots, node@),
        ensures
            r == self@.slots[node@].parent.is_some(),
    {
        self.nodes[node.index].parent.is_some()
    }

    /// The qualified name of an element node.  Querying anything but an
    /// element is a protocol violation, so the contract forbids it.
    pub fn elem_name(&self, target: Handle) -> (r: String)
        requires
            valid_id(self@.slots, target@),
            self@.slots[target@].payload is Element,
        ensures
            r@ == self@.slots[target@].payload->Element_name,
    {
        match &self.nodes[target.index].node {
            NodeEnum::Element(name, _) => name.clone(),
            _ => {
                proof {
                    assert(false);
                }
                String::new()
            },
        }
    }

    /// Allocates an element node with the given name and attributes.
    pub fn create_element(&mut self, name: String, attrs: Vec<Attribute>) -> (h: Handle)
        requires
            old(self).wf(),
            attr_names_unique(attrs@.map_values(|a: Attribute| a@)),
        ensures
            final(self).wf(),
            h@ == old(self)@.slots.len(),
            final(self)@.slots =~= old(self)@.slots.push(
                SlotV {
                    payload: PayloadV::Element {
                        name: name@,
                        attrs: attrs@.map_values(|a: Attribute| a@),
                    },
                    parent: None,
                    children: Seq::<int>::empty(),
                },
            ),
            final(self)@.document == old(self)@.document,
            final(self)@.errors == old(self)@.errors,
            final(self)@.quirks == old(self)@.quirks,
    {
        self.new_node(NodeEnum::Element(name, attrs))
    }

    /// Allocates a comment node with the given text.
    pub fn create_comment(&mut self, text: String) -> (h: Handle)
        requires
            old(self).wf(),
        ensures
            final(self).wf(),
            h@ == old(self)@.slots.len(),
            final(self)@.slots =~= old(self)@.slots.push(
                SlotV {
                    payload: PayloadV::Comment { text: text@ },
                    parent: None,
                    children: Seq::<int>::empty(),
                },
            ),
            final(self)@.document == old(self)@.document,
            final(self)@.errors == old(self)@.errors,
            final(self)@.quirks == old(self)@.quirks,
    {
        self.new_node(NodeEnum::Comment(text))
    }
}

/// The index of `c` in the children of `p`; unique under [`consistency`].
pub open spec fn child_index(slots: Seq<SlotV>, p: int, c: int) -> int {
    choose|j: int| 0 <= j < slots[p].children.len() && slots[p].children[j] == c
}

/// The table after detaching `c` from its parent, if it has one.
pub open spec fn detached(slots: Seq<SlotV>, c: int) -> Seq<SlotV> {
    match slots[c].parent {
        None => slots,
        Some(p) => set_parent(
            set_children(slots, p, slots[p].children.remove(child_index(slots, p, c))),
            c,
            None,
        ),
    }
}

/// The table after inserting the parentless node `c` at position `j` among
/// the children of `q`.
pub open spec fn linked_at(slots: Seq<SlotV>, q: int, j: int, c: int) -> Seq<SlotV> {
    set_parent(set_children(slots, q, slots[q].children.insert(j, c)), c, Some(q))
}

/// The table after allocating a fresh node with the given payload and
/// inserting it at position `j` among the children of `q`.
pub open spec fn inserted_fresh(slots: Seq<SlotV>, q: int, j: int, payload: PayloadV) -> Seq<
    SlotV,
> {
    linked_at(
        slots.push(SlotV { payload, parent: None, children: Seq::<int>::empty() }),
        q,
        j,
        slots.len() as int,
    )
}

/// The table after allocating a fresh node with the given payload and
/// linking it as the last child of `q`.
pub open spec fn appended_fresh(slots: Seq<SlotV>, q: int, payload: PayloadV) -> Seq<SlotV> {
    inserted_fresh(slots, q, slots[q].children.len() as int, payload)
}

/// The unique position `j` with `slots[p].children[j] == c` is named by
/// `child_index`.
proof fn lemma_child_index_of(slots: Seq<SlotV>, p: int, j: int, c: int)
    requires
        consistency(slots),
        valid_id(slots, p),
        0 <= j < slots[p].children.len(),
        slots[p].children[j] == c,
    ensures
        child_index(slots, p, c) == j,
{
    let jj = child_index(slots, p, c);
    assert(0 <= jj < slots[p].children.len() && slots[p].children[jj] == c) by {
        assert(0 <= j < slots[p].children.len() && slots[p].children[j] == c);
    }
}

/// A detach only removes edges.
proof fn lemma_detached_sub_edges(s: Seq<SlotV>, c: int)
    requires
        consistency(s),
        valid_id(s, c),
    ensures
        detached(s, c).len() == s.len(),
        forall|a: int, d: int| edge(detached(s, c), a, d) ==> edge(s, a, d),
{
    let t = detached(s, c);
    match s[c].parent {
        None => {
            assert(t == s);
        },
        Some(p) => {
            assert(s[p].children.contains(c));
            let j = child_index(s, p, c);
            assert(0 <= j < s[p].children.len() && s[p].children[j] == c);
            let cs = s[p].children;
            let cs2 = cs.remove(j);
            assert forall|a: int, d: int| edge(t, a, d) implies edge(s, a, d) by {
                if a == p {
                    let k = choose|k: int| 0 <= k < cs2.len() && cs2[k] == d;
                    if k < j {
                        assert(cs2[k] == cs[k]);
                    } else {
                        assert(cs2[k] == cs[k + 1]);
                    }
                    assert(cs.contains(d));
                } else {
                    assert(t[a].children == s[a].children);
                }
            }
        },
    }
}

/// The payload of slot `j` after merging `text` into its text run.
pub open spec fn text_merged(slots: Seq<SlotV>, j: int, text: Seq<char>) -> Seq<SlotV> {
    set_payload(slots, j, PayloadV::Text { text: slots[j].payload->Text_text + text })
}

/// Detaching a child keeps the table consistent and acyclic; only the
/// child's parent field and the parent's child list change.
proof fn lemma_detach_ok(s: Seq<SlotV>, p: int, j: int, c: int, r: Map<int, nat>)
    requires
        consistency(s),
        rank_ok(s, r),
        valid_id(s, c),
        s[c].parent == Some(p),
        0 <= j < s[p].children.len(),
        s[p].children[j] == c,
    ensures
        child_index(s, p, c) == j,
        consistency(detached(s, c)),
        rank_ok(detached(s, c), r),
        detached(s, c).len() == s.len(),
        forall|i: int| valid_id(s, i) ==> (#[trigger] detached(s, c)[i]).payload == s[i].payload,
        detached(s, c)[c] == (SlotV { parent: None, ..s[c] }),
        detached(s, c)[p].children == s[p].children.remove(j),
        forall|i: int| valid_id(s, i) && i != c && i != p ==> #[trigger] detached(s, c)[i] == s[i],
{
    assert(valid_id(s, p));
    assert(r[c] < r[p]);
    assert(c != p);
    let jj = child_index(s, p, c);
    assert(0 <= jj < s[p].children.len() && s[p].children[jj] == c) by {
        assert(0 <= j < s[p].children.len() && s[p].children[j] == c);
    }
    assert(jj == j);
    let t = detached(s, c);
    let cs = s[p].children;
    let cs2 = cs.remove(j);
    assert(t[p].children == cs2);
    assert(t[c].parent is None);
    // Membership in the shortened child list.
    assert forall|k: int| 0 <= k < cs2.len() implies #[trigger] cs2[k] == (if k < j {
        cs[k]
    } else {
        cs[k + 1]
    }) by {}
    // Only p's child list holds c.
    assert forall|i: int| valid_id(s, i) && i != p implies !s[i].children.contains(c) by {
        if s[i].children.contains(c) {
            let k = choose|k: int| 0 <= k < s[i].children.len() && s[i].children[k] == c;
            assert(s[s[i].children[k]].parent == Some(i));
        }
    }
    // c appears only once in cs, at j.
    assert forall|k: int| 0 <= k < cs.len() && k != j implies cs[k] != c by {}
    assert(consistency(t)) by {
        assert forall|i: int, k: int|
            valid_id(t, i) && 0 <= k < t[i].children.len()
            implies valid_id(t, #[trigger] t[i].children[k])
                && s[t[i].children[k]].parent == Some(i) by {
            if i == p {
                if k < j {
                    assert(t[i].children[k] == cs[k]);
                } else {
                    assert(t[i].children[k] == cs[k + 1]);
                }
            } else {
                assert(t[i].children == s[i].children);
            }
            assert(edge(s, i, t[i].children[k]));
        }
        assert forall|i: int, k: int|
            valid_id(t, i) && 0 <= k < t[i].children.len()
            implies t[#[trigger] t[i].children[k]].parent == Some(i) by {
            let d = t[i].children[k];
            assert(s[d].parent == Some(i));
            assert(d != c);
            assert(t[d].parent == s[d].parent);
        }
        assert forall|i: int|
            valid_id(t, i) && (#[trigger] t[i].parent).is_some()
            implies valid_id(t, t[i].parent->0)
                && t[t[i].parent->0].children.contains(i) by {
            assert(t[i].parent == s[i].parent);
            let w = s[i].parent->0;
            assert(s[w].children.contains(i));
            if w == p {
                let k = choose|k: int| 0 <= k < cs.len() && cs[k] == i;
                assert(i != c);
                assert(k != j);
                if k < j {
                    assert(cs2[k] == cs[k]);
                    assert(cs2.contains(i));
                } else {
                    assert(cs2[k - 1] == cs[k]);
                    assert(cs2.contains(i));
                }
            } else {
                assert(t[w].children == s[w].children);
            }
        }
        assert forall|i: int, k1: int, k2: int|
            valid_id(t, i) && 0 <= k1 < t[i].children.len() && 0 <= k2 < t[i].children.len() && k1
            != k2 implies #[trigger] t[i].children[k1] != #[trigger] t[i].children[k2] by {
            if i == p {
                let m1: int = if k1 < j { k1 } else { k1 + 1 };
                let m2: int = if k2 < j { k2 } else { k2 + 1 };
                assert(cs2[k1] == cs[m1] && cs2[k2] == cs[m2]);
                assert(m1 != m2);
            }
        }
    }
    assert(rank_ok(t, r)) by {
        lemma_rank_fewer_edges(s, t, r);
    }
}

/// Linking a parentless node keeps the table consistent; only the child's
/// parent field and the new parent's child list change.
proof fn lemma_link_ok(s: Seq<SlotV>, q: int, j: int, c: int)
    requires
        consistency(s),
        valid_id(s, q),
        valid_id(s, c),
        c != q,
        s[c].parent is None,
        0 <= j <= s[q].children.len(),
    ensures
        consistency(linked_at(s, q, j, c)),
        linked_at(s, q, j, c).len() == s.len(),
        forall|i: int|
            valid_id(s, i) ==> (#[trigger] linked_at(s, q, j, c)[i]).payload == s[i].payload,
        linked_at(s, q, j, c)[c] == (SlotV { parent: Some(q), ..s[c] }),
        linked_at(s, q, j, c)[q].children == s[q].children.insert(j, c),
        forall|i: int|
            valid_id(s, i) && i != c && i != q ==> #[trigger] linked_at(s, q, j, c)[i] == s[i],
{
    // A parentless node sits in no child list.
    assert forall|i: int| valid_id(s, i) implies !s[i].children.contains(c) by {
        if s[i].children.contains(c) {
            let k = choose|k: int| 0 <= k < s[i].children.len() && s[i].children[k] == c;
            assert(s[s[i].children[k]].parent == Some(i));
        }
    }
    let t = linked_at(s, q, j, c);
    let cs = s[q].children;
    let cs2 = cs.insert(j, c);
    assert(t[q].children == cs2);
    assert forall|k: int| 0 <= k < cs2.len() implies #[trigger] cs2[k] == (if k < j {
        cs[k]
    } else if k == j {
        c
    } else {
        cs[k - 1]
    }) by {}
    assert(consistency(t)) by {
        assert forall|i: int, k: int|
            valid_id(t, i) && 0 <= k < t[i].children.len()
            implies valid_id(t, #[trigger] t[i].children[k]) by {
            if i == q {
                if k < j {
                    assert(t[i].children[k] == cs[k]);
                } else if k > j {
                    assert(t[i].children[k] == cs[k - 1]);
                }
            } else {
                assert(t[i].children == s[i].children);
            }
        }
        assert forall|i: int, k: int|
            valid_id(t, i) && 0 <= k < t[i].children.len()
            implies t[#[trigger] t[i].children[k]].parent == Some(i) by {
            let d = t[i].children[k];
            if i == q {
                if k == j {
                    assert(d == c);
                    assert(t[c].parent == Some(q));
                } else {
                    let m: int = if k < j { k } else { k - 1 };
                    assert(d == cs[m]);
                    assert(s[d].parent == Some(q));
                    assert(d != c);
                    assert(t[d].parent == s[d].parent);
                }
            } else {
                assert(s[i].children.contains(d));
                assert(s[d].parent == Some(i));
                assert(d != c);
                assert(t[d].parent == s[d].parent);
            }
        }
        assert forall|i: int|
            valid_id(t, i) && (#[trigger] t[i].parent).is_some()
            implies valid_id(t, t[i].parent->0)
                && t[t[i].parent->0].children.contains(i) by {
            if i == c {
                assert(t[c].parent == Some(q));
                assert(cs2[j] == c);
                assert(cs2.contains(c));
            } else {
                assert(t[i].parent == s[i].parent);
                let w = s[i].parent->0;
                assert(s[w].children.contains(i));
                if w == q {
                    let k = choose|k: int| 0 <= k < cs.len() && cs[k] == i;
                    if k < j {
                        assert(cs2[k] == cs[k]);
                        assert(cs2.contains(i));
                    } else {
                        assert(cs2[k + 1] == cs[k]);
                        assert(cs2.contains(i));
                    }
                } else {
                    assert(t[w].children == s[w].children);
                }
            }
        }
        assert forall|i: int, k1: int, k2: int|
            valid_id(t, i) && 0 <= k1 < t[i].children.len() && 0 <= k2 < t[i].children.len() && k1
            != k2 implies #[trigger] t[i].children[k1] != #[trigger] t[i].children[k2] by {
            if i == q {
                if k1 == j || k2 == j {
                    let ko: int = if k1 == j { k2 } else { k1 };
                    let m: int = if ko < j { ko } else { ko - 1 };
                    assert(cs2[ko] == cs[m]);
                    assert(cs.contains(cs[m]));
                    assert(cs2[j] == c);
                } else {
                    let m1: int = if k1 < j { k1 } else { k1 - 1 };
                    let m2: int = if k2 < j { k2 } else { k2 - 1 };
                    assert(cs2[k1] == cs[m1] && cs2[k2] == cs[m2]);
                    assert(m1 != m2);
                }
            }
        }
    }
}

impl Sink {
    /// The parent of `child` together with the position of `child` in that
    /// parent's child sequence, or `None` for a detached node.
    pub fn get_parent_and_index(&self, child: Handle) -> (r: Option<(Handle, usize)>)
        requires
            self.wf(),
            valid_id(self@.slots, child@),
        ensures
            match r {
                None => self@.slots[child@].parent is None,
                Some((p, i)) => {
                    &&& self@.slots[child@].parent == Some(p@)
                    &&& 0 <= (i as int) < self@.slots[p@].children.len()
                    &&& self@.slots[p@].children[i as int] == child@
                },
            },
    {
        match self.nodes[child.index].parent {
            None => None,
            Some(parent) => {
                proof {
                    assert(self@.slots[child@].parent == Some(parent@));
                    assert(valid_id(self@.slots, parent@));
                    assert(self@.slots[parent@].children.contains(child@));
                }
                let ghost cs = self@.slots[parent@].children;
                let n = self.nodes[parent.index].children.len();
                let mut i: usize = 0;
                loop
                    invariant
                        self.wf(),
                        valid_id(self@.slots, parent@),
                        n == cs.len(),
                        cs == self@.slots[parent@].children,
                        0 <= i <= n,
                        cs.contains(child@),
                        forall|k: int| 0 <= k < i ==> cs[k] != child@,
                    decreases n - i,
                {
                    if i >= n {
                        proof {
                            let k = choose|k: int| 0 <= k < cs.len() && cs[k] == child@;
                            assert(false);
                        }
                        return None;
                    }
                    if self.nodes[parent.index].children[i].index == child.index {
                        proof {
                            assert(cs[i as int] == child@);
                        }
                        return Some((parent, i));
                    }
                    proof {
                        assert(cs[i as int] != child@);
                    }
                    i = i + 1;
                }
            },
        }
    }

    /// Detaches `target` from its parent: afterwards `target` has no parent
    /// and is gone from the former parent's child sequence.  Calling it on
    /// an already-detached node changes nothing, both times and every time.
    pub fn remove_from_parent(&mut self, target: Handle)
        requires
            old(self).wf(),
            valid_id(old(self)@.slots, target@),
        ensures
            final(self).wf(),
            final(self)@.slots =~~= detached(old(self)@.slots, target@),
            final(self)@.slots[target@].parent is None,
            old(self)@.slots[target@].parent is None ==> final(self)@ =~~= old(self)@,
            final(self)@.document == old(self)@.document,
            final(self)@.errors == old(self)@.errors,
            final(self)@.quirks == old(self)@.quirks,
    {
        match self.get_parent_and_index(target) {
            None => (),
            Some((parent, i)) => {
                let ghost s = self@.slots;
                let ghost r = self.rank@;
                self.nodes[parent.index].children.remove(i);
                self.nodes[target.index].parent = None;
                proof {
                    lemma_detach_ok(s, parent@, i as int, target@, r);
                    assert(self@.slots =~~= detached(s, target@));
                    assert(elems_ok(self@.slots)) by {
                        assert forall|i2: int| valid_id(self@.slots, i2) implies match self@.slots[i2].payload {
                            PayloadV::Element { name: _, attrs } => attr_names_unique(attrs),
                            _ => true,
                        } by {
                            assert(self@.slots[i2].payload == s[i2].payload);
                        }
                    }
                    assert(doc_ok(self@)) by {
                        assert(target@ != self@.document);
                        assert(self@.slots[self@.document].payload == s[self@.document].payload);
                    }
                }
            },
        }
    }
}

impl Sink {
    /// Inserts the parentless node `c` at position `j` among the children
    /// of `q`.  `q` must lie outside the subtree of `c`, and `c` cannot be
    /// the document root.
    fn link_at(&mut self, q: Handle, j: usize, c: Handle)
        requires
            old(self).wf(),
            valid_id(old(self)@.slots, q@),
            valid_id(old(self)@.slots, c@),
            old(self)@.slots[c@].parent is None,
            !reaches(old(self)@.slots, c@, q@),
            c@ != old(self)@.document,
            j as int <= old(self)@.slots[q@].children.len(),
        ensures
            final(self).wf(),
            final(self)@.slots =~~= linked_at(old(self)@.slots, q@, j as int, c@),
            final(self)@.document == old(self)@.document,
            final(self)@.errors == old(self)@.errors,
            final(self)@.quirks == old(self)@.quirks,
    {
        let ghost s = self@.slots;
        let ghost r = self.rank@;
        proof {
            lemma_reaches_self(s, c@);
            assert(self.nodes@.len() == s.len());
        }
        self.nodes[q.index].children.insert(j, c);
        self.nodes[c.index].parent = Some(q);
        proof {
            self.rank@ = attach_rank(s, c@, r);
            lemma_link_ok(s, q@, j as int, c@);
            let t = linked_at(s, q@, j as int, c@);
            assert(self@.slots =~~= t);
            lemma_rank_attach(s, t, q@, c@, j as int, r);
            assert(elems_ok(self@.slots)) by {
                assert forall|i2: int|
                    valid_id(self@.slots, i2) implies match self@.slots[i2].payload {
                    PayloadV::Element { name: _, attrs } => attr_names_unique(attrs),
                    _ => true,
                } by {
                    assert(self@.slots[i2].payload == s[i2].payload);
                }
            }
            assert(doc_ok(self@)) by {
                assert(self@.slots[self@.document].payload == s[self@.document].payload);
                assert(self@.slots[self@.document].parent == s[self@.document].parent);
            }
        }
    }

    /// Merges `text` into the node `prev` if `prev` is a text node; reports
    /// whether it merged.  Anything else is left untouched.
    pub fn append_to_existing_text(&mut self, prev: Handle, text: &String) -> (merged: bool)
        requires
            old(self).wf(),
            valid_id(old(self)@.slots, prev@),
        ensures
            final(self).wf(),
            merged == old(self)@.slots[prev@].payload is Text,
            merged ==> final(self)@.slots =~~= text_merged(old(self)@.slots, prev@, text@),
            !merged ==> final(self)@ =~~= old(self)@,
            final(self)@.document == old(self)@.document,
            final(self)@.errors == old(self)@.errors,
            final(self)@.quirks == old(self)@.quirks,
    {
        let ghost s = self@.slots;
        let ghost r = self.rank@;
        proof {
            assert(self.nodes@.len() == s.len());
        }
        let SquishyNode { node, parent, children } = self.nodes.remove(prev.index);
        let (node2, merged) = match node {
            NodeEnum::Text(mut t) => {
                t.append(text.as_str());
                (NodeEnum::Text(t), true)
            },
            other => (other, false),
        };
        self.nodes.insert(prev.index, SquishyNode { node: node2, parent, children });
        proof {
            if merged {
                assert(self@.slots =~~= text_merged(s, prev@, text@));
            } else {
                assert(self@.slots =~~= s);
                assert(self@ =~~= old(self)@);
            }
            assert(same_structure(s, self@.slots));
            lemma_rank_same_structure(s, self@.slots, r);
            lemma_consistency_same_structure(s, self@.slots);
            assert(elems_ok(self@.slots)) by {
                assert forall|i2: int|
                    valid_id(self@.slots, i2) implies match self@.slots[i2].payload {
                    PayloadV::Element { name: _, attrs } => attr_names_unique(attrs),
                    _ => true,
                } by {
                    if i2 != prev@ {
                        assert(self@.slots[i2].payload == s[i2].payload);
                    }
                }
            }
            assert(doc_ok(self@)) by {
                if merged {
                    assert(prev@ != self@.document);
                }
            }
        }
        merged
    }

    /// Appends under `parent`.  A text fragment merges into the last child
    /// when that child is a text node, and otherwise becomes a fresh text
    /// node at the end; an existing node must be parentless, must not be the
    /// document, and `parent` must lie outside its subtree.
    pub fn append(&mut self, parent: Handle, child: NodeOrText)
        requires
            old(self).wf(),
            valid_id(old(self)@.slots, parent@),
            child matches NodeOrText::AppendNode(n) ==> {
                &&& valid_id(old(self)@.slots, n@)
                &&& old(self)@.slots[n@].parent is None
                &&& n@ != old(self)@.document
                &&& !reaches(old(self)@.slots, n@, parent@)
            },
        ensures
            final(self).wf(),
            final(self)@.document == old(self)@.document,
            final(self)@.errors == old(self)@.errors,
            final(self)@.quirks == old(self)@.quirks,
            ({
                let s = old(self)@.slots;
                let cs = s[parent@].children;
                match child {
                    NodeOrText::AppendNode(n) => final(self)@.slots =~~= linked_at(
                        s,
                        parent@,
                        cs.len() as int,
                        n@,
                    ),
                    NodeOrText::AppendText(text) => {
                        if cs.len() > 0 && s[cs.last()].payload is Text {
                            final(self)@.slots =~~= text_merged(s, cs.last(), text@)
                        } else {
                            final(self)@.slots =~~= appended_fresh(
                                s,
                                parent@,
                                PayloadV::Text { text: text@ },
                            )
                        }
                    },
                }
            }),
    {
        let ghost s = self@.slots;
        proof {
            assert(self.nodes@.len() == s.len());
        }
        match child {
            NodeOrText::AppendNode(n) => {
                let len = self.nodes[parent.index].children.len();
                self.link_at(parent, len, n);
            },
            NodeOrText::AppendText(text) => {
                let n_children = self.nodes[parent.index].children.len();
                if n_children > 0 {
                    let last = self.nodes[parent.index].children[n_children - 1];
                    proof {
                        assert(last@ == s[parent@].children[n_children - 1]);
                        assert(valid_id(s, last@));
                        assert(last@ == s[parent@].children.last());
                    }
                    if self.append_to_existing_text(last, &text) {
                        return ;
                    }
                }
                let h = self.new_node(NodeEnum::Text(text));
                let ghost s1 = self@.slots;
                let len = self.nodes[parent.index].children.len();
                proof {
                    assert(s1[h@].children.len() == 0);
                    lemma_childless_unreach(s1, h@, parent@);
                    assert(len as int == s1[parent@].children.len());
                }
                self.link_at(parent, len, h);
                proof {
                    assert(self@.slots =~~= appended_fresh(
                        s,
                        parent@,
                        PayloadV::Text { text: text@ },
                    ));
                }
            },
        }
    }
}

impl Sink {
    /// Appends a fresh doctype node directly under the document root.  The
    /// protocol invokes this at most once: no doctype child may exist yet.
    pub fn append_doctype_to_document(
        &mut self,
        name: String,
        public_id: String,
        system_id: String,
    )
        requires
            old(self).wf(),
            forall|k: int|
                0 <= k < old(self)@.slots[old(self)@.document].children.len()
                    ==> !(old(self)@.slots[#[trigger] old(self)@.slots[old(
                    self,
                )@.document].children[k]].payload is Doctype),
        ensures
            final(self).wf(),
            final(self)@.slots =~~= appended_fresh(
                old(self)@.slots,
                old(self)@.document,
                PayloadV::Doctype { name: name@, public_id: public_id@, system_id: system_id@ },
            ),
            final(self)@.document == old(self)@.document,
            final(self)@.errors == old(self)@.errors,
            final(self)@.quirks == old(self)@.quirks,
    {
        let ghost s = self@.slots;
        let doc = self.document;
        let h = self.new_node(NodeEnum::Doctype(name, public_id, system_id));
        let ghost s1 = self@.slots;
        let len = self.nodes[doc.index].children.len();
        proof {
            assert(self.nodes@.len() == s1.len());
            assert(s1[h@].children.len() == 0);
            lemma_childless_unreach(s1, h@, doc@);
            assert(len as int == s1[doc@].children.len());
        }
        self.link_at(doc, len, h);
    }

    /// Inserts before `sibling`, which must be attached to a parent.  A text
    /// fragment merges into the preceding sibling when that is a text node
    /// (the protocol guarantees no text node follows the insertion point);
    /// an existing node is detached from any current parent first and then
    /// inserted, atomically as seen by the caller.
    pub fn append_before_sibling(&mut self, sibling: Handle, child: NodeOrText)
        requires
            old(self).wf(),
            valid_id(old(self)@.slots, sibling@),
            old(self)@.slots[sibling@].parent is Some,
            child matches NodeOrText::AppendNode(n) ==> {
                &&& valid_id(old(self)@.slots, n@)
                &&& n@ != sibling@
                &&& n@ != old(self)@.document
                &&& !reaches(old(self)@.slots, n@, old(self)@.slots[sibling@].parent->0)
            },
        ensures
            final(self).wf(),
            final(self)@.document == old(self)@.document,
            final(self)@.errors == old(self)@.errors,
            final(self)@.quirks == old(self)@.quirks,
            ({
                let s = old(self)@.slots;
                let p = s[sibling@].parent->0;
                let i = child_index(s, p, sibling@);
                match child {
                    NodeOrText::AppendText(text) => {
                        if i > 0 && s[s[p].children[i - 1]].payload is Text {
                            final(self)@.slots =~~= text_merged(s, s[p].children[i - 1], text@)
                        } else {
                            final(self)@.slots =~~= inserted_fresh(
                                s,
                                p,
                                i,
                                PayloadV::Text { text: text@ },
                            )
                        }
                    },
                    NodeOrText::AppendNode(n) => {
                        let s1 = detached(s, n@);
                        final(self)@.slots =~~= linked_at(
                            s1,
                            p,
                            child_index(s1, p, sibling@),
                            n@,
                        )
                    },
                }
            }),
    {
        let ghost s = self@.slots;
        match child {
            NodeOrText::AppendText(text) => {
                let (parent, i) = match self.get_parent_and_index(sibling) {
                    Some(x) => x,
                    None => {
                        proof {
                            assert(false);
                        }
                        (sibling, 0)
                    },
                };
                proof {
                    lemma_child_index_of(s, parent@, i as int, sibling@);
                }
                if i > 0 {
                    let prev = self.nodes[parent.index].children[i - 1];
                    proof {
                        assert(prev@ == s[parent@].children[i - 1]);
                        assert(valid_id(s, prev@));
                    }
                    if self.append_to_existing_text(prev, &text) {
                        return ;
                    }
                }
                let h = self.new_node(NodeEnum::Text(text));
                let ghost s1 = self@.slots;
                proof {
                    assert(s1[h@].children.len() == 0);
                    lemma_childless_unreach(s1, h@, parent@);
                    assert(i as int <= s1[parent@].children.len());
                }
                self.link_at(parent, i, h);
            },
            NodeOrText::AppendNode(n) => {
                let ghost p = s[sibling@].parent->0;
                self.remove_from_parent(n);
                let ghost s1 = self@.slots;
                proof {
                    assert(s1 =~~= detached(s, n@));
                    lemma_detached_sub_edges(s, n@);
                    assert(s1[sibling@].parent == s[sibling@].parent) by {
                        match s[n@].parent {
                            None => {},
                            Some(q0) => {
                                assert(s1[sibling@].parent == detached(s, n@)[sibling@].parent);
                            },
                        }
                    }
                    if reaches(s1, n@, p) {
                        lemma_fewer_edges_reaches(s, s1, n@, p);
                    }
                }
                let (p2, i2) = match self.get_parent_and_index(sibling) {
                    Some(x) => x,
                    None => {
                        proof {
                            assert(false);
                        }
                        (sibling, 0)
                    },
                };
                proof {
                    assert(p2@ == p);
                    lemma_child_index_of(s1, p, i2 as int, sibling@);
                }
                self.link_at(p2, i2, n);
            },
        }
    }
}

/// The table after moving the whole child sequence of `a` to the end of
/// the child sequence of `b`.
pub open spec fn reparented(slots: Seq<SlotV>, a: int, b: int) -> Seq<SlotV> {
    Seq::new(
        slots.len(),
        |i: int|
            if i == a {
                SlotV { children: Seq::<int>::empty(), ..slots[i] }
            } else if i == b {
                SlotV { children: slots[b].children + slots[a].children, ..slots[i] }
            } else if slots[a].children.contains(i) {
                SlotV { parent: Some(b), ..slots[i] }
            } else {
                slots[i]
            },
    )
}

impl Sink {
    /// Moves the entire ordered child sequence of `node` to the end of
    /// `new_parent`'s children, reparenting each moved child; `node` ends
    /// with no children.  `new_parent` must lie outside the subtree of
    /// `node`.
    #[verifier::loop_isolation(false)]
    pub fn reparent_children(&mut self, node: Handle, new_parent: Handle)
        requires
            old(self).wf(),
            valid_id(old(self)@.slots, node@),
            valid_id(old(self)@.slots, new_parent@),
            !reaches(old(self)@.slots, node@, new_parent@),
        ensures
            final(self).wf(),
            final(self)@.slots =~~= reparented(old(self)@.slots, node@, new_parent@),
            final(self)@.document == old(self)@.document,
            final(self)@.errors == old(self)@.errors,
            final(self)@.quirks == old(self)@.quirks,
    {
        let ghost s = self@.slots;
        let ghost a = node@;
        let ghost b = new_parent@;
        let ghost cs0 = s[a].children;
        let ghost bs0 = s[b].children;
        let ghost m: int = 0;
        proof {
            lemma_reaches_self(s, a);
            assert(a != b);
        }
        while self.nodes[node.index].children.len() > 0
            invariant
                self.wf(),
                valid_id(self@.slots, a),
                node.index < self.nodes@.len(),
                valid_id(self@.slots, b),
                a != b,
                a == node@ && b == new_parent@,
                self@.slots.len() == s.len(),
                0 <= m <= cs0.len(),
                self@.slots[a] == (SlotV { children: cs0.skip(m), ..s[a] }),
                self@.slots[b] == (SlotV { children: bs0 + cs0.take(m), ..s[b] }),
                forall|i: int|
                    valid_id(s, i) && i != a && i != b && !cs0.take(m).contains(i)
                        ==> #[trigger] self@.slots[i] == s[i],
                forall|i: int|
                    cs0.take(m).contains(i) && i != a && i != b
                        ==> #[trigger] self@.slots[i] == (SlotV { parent: Some(b), ..s[i] }),
                !reaches(self@.slots, a, b),
                self@.document == old(self)@.document,
                self@.errors == old(self)@.errors,
                self@.quirks == old(self)@.quirks,
                self.nodes@.len() == s.len(),
            decreases cs0.len() - m,
        {
            let c = self.nodes[node.index].children[0];
            let ghost cur = self@.slots;
            proof {
                assert(c@ == cur[a].children[0]);
                assert(c@ == cs0[m]);
                assert(valid_id(cur, c@));
                assert(cur[c@].parent == Some(a));
                assert(c@ != a);
                assert(c@ != b) by {
                    if c@ == b {
                        assert(edge(cur, a, b)) by {
                            assert(cur[a].children.contains(b));
                        }
                        lemma_reaches_self(cur, b);
                        lemma_reaches_prepend(cur, a, b, b);
                    }
                }
                assert(c@ != self@.document) by {
                    assert(cur[self@.document].parent is None);
                }
            }
            self.remove_from_parent(c);
            let ghost sd = self@.slots;
            proof {
                lemma_child_index_of(cur, a, 0, c@);
                assert(sd =~~= detached(cur, c@));
                lemma_detached_sub_edges(cur, c@);
                if reaches(sd, c@, b) {
                    lemma_fewer_edges_reaches(cur, sd, c@, b);
                    assert(edge(cur, a, c@)) by {
                        assert(cur[a].children.contains(c@));
                    }
                    lemma_reaches_prepend(cur, a, c@, b);
                }
                if reaches(sd, a, b) {
                    lemma_fewer_edges_reaches(cur, sd, a, b);
                }
            }
            let len_b = self.nodes[new_parent.index].children.len();
            proof {
                assert(len_b as int == sd[b].children.len());
            }
            self.link_at(new_parent, len_b, c);
            proof {
                let sl = self@.slots;
                assert(sl =~~= linked_at(sd, b, len_b as int, c@));
                // The only new edge leads from b to c.
                assert forall|x: int, d: int| edge(sl, x, d) implies edge(sd, x, d) || (x == b && d
                    == c@) by {
                    if x == b {
                        if d != c@ {
                            let k = choose|k: int|
                                0 <= k < sl[b].children.len() && sl[b].children[k] == d;
                            if k < len_b as int {
                                assert(sl[b].children[k] == sd[b].children[k]);
                            } else {
                                assert(sl[b].children[k] == sd[b].children[k - 1]);
                            }
                            assert(sd[b].children.contains(d));
                        }
                    } else {
                        assert(sl[x].children == sd[x].children);
                    }
                }
                lemma_added_edge_unreach(sd, sl, b, c@, a);
                // Re-establish the per-slot characterization.
                assert(sl[a] == (SlotV { children: cs0.skip(m + 1), ..s[a] })) by {
                    assert(sd[a].children =~= cs0.skip(m + 1));
                    assert(sl[a] == sd[a]);
                }
                assert(sl[b] == (SlotV { children: bs0 + cs0.take(m + 1), ..s[b] })) by {
                    assert(sl[b].children =~= sd[b].children.push(c@));
                    assert(sd[b].children == bs0 + cs0.take(m));
                    assert((bs0 + cs0.take(m)).push(c@) =~= bs0 + cs0.take(m + 1));
                }
                assert(sl[c@] == (SlotV { parent: Some(b), ..s[c@] })) by {
                    assert(!cs0.take(m).contains(c@)) by {
                        if cs0.take(m).contains(c@) {
                            let k = choose|k: int| 0 <= k < m && #[trigger] cs0.take(m)[k] == c@;
                            assert(cs0[k] == c@ && cs0[m] == c@);
                            assert(consistency(s));
                        }
                    }
                    assert(cur[c@] == s[c@]);
                    assert(sd[c@] == (SlotV { parent: None, ..s[c@] }));
                    assert(sl[c@] == (SlotV { parent: Some(b), ..sd[c@] }));
                }
                assert forall|i: int|
                    valid_id(s, i) && i != a && i != b && !cs0.take(m + 1).contains(i)
                    implies #[trigger] sl[i] == s[i] by {
                    assert(!cs0.take(m).contains(i)) by {
                        if cs0.take(m).contains(i) {
                            let k = choose|k: int| 0 <= k < m && #[trigger] cs0.take(m)[k] == i;
                            assert(cs0.take(m + 1)[k] == i);
                        }
                    }
                    assert(i != c@) by {
                        assert(cs0.take(m + 1)[m] == c@);
                    }
                    assert(cur[i] == s[i]);
                    assert(sd[i] == cur[i]);
                    assert(sl[i] == sd[i]);
                }
                assert forall|i: int|
                    cs0.take(m + 1).contains(i) && i != a && i != b implies #[trigger] sl[i] == (
                SlotV { parent: Some(b), ..s[i] }) by {
                    if i != c@ {
                        let k = choose|k: int| 0 <= k < m + 1 && #[trigger] cs0.take(m + 1)[k] == i;
                        assert(cs0[k] == i);
                        assert(k != m);
                        assert(cs0.take(m)[k] == i);
                        assert(cs0.take(m).contains(i));
                        assert(consistency(s));
                        assert(s[a].children[k] == i);
                        assert(valid_id(s, s[a].children[k]));
                        assert(valid_id(cur, i));
                        assert(sd[i] == cur[i]);
                        assert(sl[i] == sd[i]);
                    }
                }
                m = m + 1;
            }
        }
        proof {
            assert(self@.slots[a].children.len() == 0);
            assert(cs0.skip(m).len() == 0);
            assert(m == cs0.len());
            assert(self@.slots =~~= reparented(s, a, b)) by {
                assert(cs0.take(cs0.len() as int) =~= cs0);
                assert forall|i: int| 0 <= i < s.len() implies self@.slots[i] == reparented(
                    s,
                    a,
                    b,
                )[i] by {
                    if i == a {
                    } else if i == b {
                        assert(self@.slots[b] == (SlotV { children: bs0 + cs0, ..s[b] }));
                    } else if cs0.contains(i) {
                        assert(cs0.take(cs0.len() as int).contains(i));
                    } else {
                        assert(!cs0.take(cs0.len() as int).contains(i));
                    }
                }
            }
        }
    }
}

/// Inserting a node that already has a parent removes it from that
/// parent's children first: in the table that [`Sink::append_before_sibling`]
/// leaves behind, the moved node hangs under the sibling's parent, which
/// holds it (exactly once, since the table stays consistent), and the old
/// parent's child sequence no longer holds it.
pub proof fn lemma_insertion_moves_exactly_once(
    s: Seq<SlotV>,
    r: Map<int, nat>,
    sibling: int,
    n: int,
)
    requires
        consistency(s),
        rank_ok(s, r),
        valid_id(s, sibling),
        s[sibling].parent is Some,
        valid_id(s, n),
        n != sibling,
        s[n].parent is Some,
        !reaches(s, n, s[sibling].parent->0),
    ensures
        ({
            let p = s[sibling].parent->0;
            let q = s[n].parent->0;
            let s1 = detached(s, n);
            let t = linked_at(s1, p, child_index(s1, p, sibling), n);
            &&& t[n].parent == Some(p)
            &&& t[p].children.contains(n)
            &&& consistency(t)
            &&& q != p ==> !t[q].children.contains(n)
        }),
{
    let p = s[sibling].parent->0;
    let q = s[n].parent->0;
    assert(valid_id(s, q) && s[q].children.contains(n));
    let j0 = choose|j: int| 0 <= j < s[q].children.len() && s[q].children[j] == n;
    lemma_detach_ok(s, q, j0, n, r);
    let s1 = detached(s, n);
    assert(s1[sibling].parent == Some(p)) by {
        assert(sibling != n);
        if sibling != q {
            assert(s1[sibling] == s[sibling]);
        }
    }
    assert(valid_id(s1, p) && s1[p].children.contains(sibling)) by {
        assert(consistency(s1));
    }
    let j = child_index(s1, p, sibling);
    assert(0 <= j < s1[p].children.len() && s1[p].children[j] == sibling) by {
        let jw = choose|jw: int| 0 <= jw < s1[p].children.len() && s1[p].children[jw] == sibling;
        assert(0 <= jw < s1[p].children.len() && s1[p].children[jw] == sibling);
    }
    assert(n != p) by {
        lemma_reaches_self(s, n);
    }
    lemma_link_ok(s1, p, j, n);
    let t = linked_at(s1, p, j, n);
    assert(t[p].children.contains(n)) by {
        assert(t[p].children == s1[p].children.insert(j, n));
        assert(s1[p].children.insert(j, n)[j] == n);
    }
    if q != p {
        assert(t[q].children == s1[q].children) by {
            assert(q != n);
        }
        assert(s1[q].children == s[q].children.remove(j0));
        assert(!s1[q].children.contains(n)) by {
            if s1[q].children.contains(n) {
                let k = choose|k: int|
                    0 <= k < s1[q].children.len() && s1[q].children[k] == n;
                if k < j0 {
                    assert(s[q].children[k] == n);
                    assert(s[q].children[j0] == n);
                } else {
                    assert(s[q].children[k + 1] == n);
                    assert(s[q].children[j0] == n);
                }
            }
        }
    }
}

/// Some attribute in `attrs` carries this name.
pub open spec fn has_attr_name(attrs: Seq<AttrV>, name: Seq<char>) -> bool {
    exists|k: int| 0 <= k < attrs.len() && (#[trigger] attrs[k]).name == name
}

/// The attributes of `attrs`, in order, whose names do not occur in
/// `existing`: exactly what an attribute merge adds.
pub open spec fn missing_from(existing: Seq<AttrV>, attrs: Seq<AttrV>) -> Seq<AttrV>
    decreases attrs.len(),
{
    if attrs.len() == 0 {
        Seq::empty()
    } else {
        missing_from(existing, attrs.drop_last()) + if !has_attr_name(
            existing,
            attrs.last().name,
        ) {
            seq![attrs.last()]
        } else {
            Seq::empty()
        }
    }
}

/// Every name added by a merge comes from `attrs` and is absent from
/// `existing`.
proof fn lemma_missing_from_names(e: Seq<AttrV>, a: Seq<AttrV>)
    ensures
        forall|k: int|
            0 <= k < missing_from(e, a).len() ==> !has_attr_name(
                e,
                (#[trigger] missing_from(e, a)[k]).name,
            ),
        forall|k: int|
            0 <= k < missing_from(e, a).len() ==> has_attr_name(
                a,
                (#[trigger] missing_from(e, a)[k]).name,
            ),
    decreases a.len(),
{
    if a.len() > 0 {
        lemma_missing_from_names(e, a.drop_last());
        let m0 = missing_from(e, a.drop_last());
        let m = missing_from(e, a);
        assert forall|k: int| 0 <= k < m.len() implies !has_attr_name(e, (#[trigger] m[k]).name)
            && has_attr_name(a, m[k].name) by {
            if k < m0.len() {
                assert(m[k] == m0[k]);
                let t = choose|t: int|
                    0 <= t < a.drop_last().len() && (#[trigger] a.drop_last()[t]).name
                        == m0[k].name;
                assert(a[t].name == m0[k].name);
            } else {
                assert(m[k] == a.last());
                assert(a[a.len() - 1].name == m[k].name);
            }
        }
    }
}

/// A merge of unique-named attributes into a unique-named element keeps
/// the names unique.
proof fn lemma_missing_unique(e: Seq<AttrV>, a: Seq<AttrV>)
    requires
        attr_names_unique(e),
        attr_names_unique(a),
    ensures
        attr_names_unique(e + missing_from(e, a)),
    decreases a.len(),
{
    if a.len() == 0 {
        assert(e + missing_from(e, a) =~= e);
    } else {
        let a0 = a.drop_last();
        assert(attr_names_unique(a0)) by {
            assert forall|k1: int, k2: int|
                0 <= k1 < a0.len() && 0 <= k2 < a0.len() && k1 != k2 implies (#[trigger] a0[
                k1]).name != (#[trigger] a0[k2]).name by {
                assert(a0[k1] == a[k1] && a0[k2] == a[k2]);
            }
        }
        lemma_missing_unique(e, a0);
        lemma_missing_from_names(e, a0);
        let m0 = missing_from(e, a0);
        let x = a.last();
        if !has_attr_name(e, x.name) {
            assert(e + missing_from(e, a) =~= (e + m0).push(x));
            let w = (e + m0).push(x);
            assert forall|k1: int, k2: int|
                0 <= k1 < w.len() && 0 <= k2 < w.len() && k1 != k2 implies (#[trigger] w[
                k1]).name != (#[trigger] w[k2]).name by {
                let last: int = w.len() - 1;
                if k1 < last && k2 < last {
                    assert(w[k1] == (e + m0)[k1] && w[k2] == (e + m0)[k2]);
                } else {
                    let ko: int = if k1 == last {
                        k2
                    } else {
                        k1
                    };
                    assert(w[last] == x);
                    assert(w[ko] == (e + m0)[ko]);
                    if ko < e.len() {
                        assert((e + m0)[ko] == e[ko]);
                        if e[ko].name == x.name {
                            assert(has_attr_name(e, x.name));
                        }
                    } else {
                        assert((e + m0)[ko] == m0[ko - e.len()]);
                        if m0[ko - e.len()].name == x.name {
                            assert(has_attr_name(a0, x.name));
                            let t = choose|t: int|
                                0 <= t < a0.len() && (#[trigger] a0[t]).name == x.name;
                            assert(a[t].name == a[a.len() - 1].name);
                        }
                    }
                }
            }
        } else {
            assert(e + missing_from(e, a) =~= e + m0);
        }
    }
}

/// Whether some attribute of `attrs` carries the name `name`.
fn attrs_contain_name(attrs: &Vec<Attribute>, name: &String) -> (r: bool)
    ensures
        r == has_attr_name(attrs@.map_values(|x: Attribute| x@), name@),
{
    let ghost am = attrs@.map_values(|x: Attribute| x@);
    let mut k: usize = 0;
    while k < attrs.len()
        invariant
            0 <= k <= attrs@.len(),
            am == attrs@.map_values(|x: Attribute| x@),
            forall|t: int| 0 <= t < k ==> (#[trigger] am[t]).name != name@,
        decreases attrs@.len() - k,
    {
        if attrs[k].name.eq(name) {
            proof {
                assert(am[k as int].name == name@);
            }
            return true;
        }
        k = k + 1;
    }
    proof {
        if has_attr_name(am, name@) {
            let t = choose|t: int| 0 <= t < am.len() && (#[trigger] am[t]).name == name@;
            assert(false);
        }
    }
    false
}

impl Sink {
    /// Adds to an element exactly those of `attrs` whose names it does not
    /// carry yet: the first write of a name wins, later duplicates never
    /// override it.  On anything but an element this changes nothing.
    #[verifier::loop_isolation(false)]
    pub fn add_attrs_if_missing(&mut self, target: Handle, attrs: Vec<Attribute>)
        requires
            old(self).wf(),
            valid_id(old(self)@.slots, target@),
            attr_names_unique(attrs@.map_values(|x: Attribute| x@)),
        ensures
            final(self).wf(),
            final(self)@.document == old(self)@.document,
            final(self)@.errors == old(self)@.errors,
            final(self)@.quirks == old(self)@.quirks,
            ({
                let s = old(self)@.slots;
                match s[target@].payload {
                    PayloadV::Element { name, attrs: existing } => final(self)@.slots
                        =~~= set_payload(
                        s,
                        target@,
                        PayloadV::Element {
                            name,
                            attrs: existing + missing_from(
                                existing,
                                attrs@.map_values(|x: Attribute| x@),
                            ),
                        },
                    ),
                    _ => final(self)@ =~~= old(self)@,
                }
            }),
    {
        let ghost s = self@.slots;
        let ghost a0 = attrs@.map_values(|x: Attribute| x@);
        proof {
            assert(self.nodes@.len() == s.len());
        }
        let SquishyNode { node, parent, children } = self.nodes.remove(target.index);
        let node2 = match node {
            NodeEnum::Element(name, existing) => {
                let ghost orig = existing@.map_values(|x: Attribute| x@);
                proof {
                    assert(s[target@].payload == (PayloadV::Element { name: name@, attrs: orig }));
                    assert(attr_names_unique(orig));
                }
                let mut existing = existing;
                let mut attrs = attrs;
                let ghost j: int = 0;
                while attrs.len() > 0
                    invariant
                        0 <= j <= a0.len(),
                        attrs@.map_values(|x: Attribute| x@) == a0.skip(j),
                        existing@.map_values(|x: Attribute| x@) == orig + missing_from(
                            orig,
                            a0.take(j),
                        ),
                    decreases attrs@.len(),
                {
                    let ghost em = existing@.map_values(|x: Attribute| x@);
                    let ghost av = attrs@;
                    let a = attrs.remove(0);
                    proof {
                        assert(a@ == av.map_values(|x: Attribute| x@)[0]);
                        assert(a@ == a0[j]);
                        let nm = attrs@.map_values(|x: Attribute| x@);
                        assert forall|t: int| 0 <= t < nm.len() implies #[trigger] nm[t] == a0.skip(
                            j + 1,
                        )[t] by {
                            assert(attrs@[t] == av[t + 1]);
                            assert(av.map_values(|x: Attribute| x@)[t + 1] == a0.skip(j)[t + 1]);
                        }
                        assert(nm =~= a0.skip(j + 1));
                    }
                    let present = attrs_contain_name(&existing, &a.name);
                    proof {
                        // Present in the grown list iff present originally:
                        // everything added so far has a name from the strict
                        // prefix, and names in `attrs` are unique.
                        lemma_missing_from_names(orig, a0.take(j));
                        assert(present == has_attr_name(orig, a0[j].name)) by {
                            let mj = missing_from(orig, a0.take(j));
                            if has_attr_name(em, a0[j].name) {
                                let t = choose|t: int|
                                    0 <= t < em.len() && (#[trigger] em[t]).name == a0[j].name;
                                if t < orig.len() {
                                    assert(orig[t].name == a0[j].name);
                                } else {
                                    assert(mj[t - orig.len()].name == a0[j].name);
                                    assert(has_attr_name(a0.take(j), a0[j].name));
                                    let u = choose|u: int|
                                        0 <= u < j && (#[trigger] a0.take(j)[u]).name == a0[
                                        j].name;
                                    assert(a0[u].name == a0[j].name);
                                    assert(false);
                                }
                            } else {
                                if has_attr_name(orig, a0[j].name) {
                                    let t = choose|t: int|
                                        0 <= t < orig.len() && (#[trigger] orig[t]).name == a0[
                                        j].name;
                                    assert(em[t].name == a0[j].name);
                                }
                            }
                        }
                        // One more step of the merge.
                        assert(a0.take(j + 1).drop_last() =~= a0.take(j));
                        assert(a0.take(j + 1).last() == a0[j]);
                    }
                    if !present {
                        let ghost ev = existing@;
                        existing.push(a);
                        proof {
                            let nm2 = existing@.map_values(|x: Attribute| x@);
                            assert forall|t: int| 0 <= t < nm2.len() implies #[trigger] nm2[t]
                                == em.push(a0[j])[t] by {
                                if t < ev.len() {
                                    assert(existing@[t] == ev[t]);
                                    assert(ev.map_values(|x: Attribute| x@)[t] == em[t]);
                                }
                            }
                            assert(nm2 =~= em.push(a0[j]));
                            assert(missing_from(orig, a0.take(j + 1)) =~= missing_from(
                                orig,
                                a0.take(j),
                            ).push(a0[j]));
                            assert(existing@.map_values(|x: Attribute| x@) =~= orig
                                + missing_from(orig, a0.take(j + 1)));
                        }
                    } else {
                        proof {
                            assert(missing_from(orig, a0.take(j + 1)) =~= missing_from(
                                orig,
                                a0.take(j),
                            ));
                        }
                    }
                    proof {
                        j = j + 1;
                    }
                }
                proof {
                    assert(a0.skip(j).len() == 0);
                    assert(j == a0.len());
                    assert(a0.take(j) =~= a0);
                    lemma_missing_unique(orig, a0);
                }
                NodeEnum::Element(name, existing)
            },
            other => other,
        };
        self.nodes.insert(target.index, SquishyNode { node: node2, parent, children });
        proof {
            let t = self@.slots;
            match s[target@].payload {
                PayloadV::Element { name, attrs: ex } => {
                    assert(t =~~= set_payload(
                        s,
                        target@,
                        PayloadV::Element { name, attrs: ex + missing_from(ex, a0) },
                    ));
                },
                _ => {
                    assert(t =~~= s);
                    assert(self@ =~~= old(self)@);
                },
            }
            assert(same_structure(s, t));
            lemma_rank_same_structure(s, t, self.rank@);
            lemma_consistency_same_structure(s, t);
            assert(elems_ok(t)) by {
                assert forall|i2: int| valid_id(t, i2) implies match t[i2].payload {
                    PayloadV::Element { name: _, attrs: aa } => attr_names_unique(aa),
                    _ => true,
                } by {
                    if i2 != target@ {
                        assert(t[i2].payload == s[i2].payload);
                    }
                }
            }
            assert(doc_ok(self@)) by {
                if s[target@].payload is Element {
                    assert(target@ != self@.document);
                }
            }
        }
    }
}

impl Sink {
    /// The number of children of `h`.
    pub fn child_count(&self, h: Handle) -> (n: usize)
        requires
            valid_id(self@.slots, h@),
        ensures
            n as int == self@.slots[h@].children.len(),
    {
        self.nodes[h.index].children.len()
    }

    /// The child of `h` at position `k`.
    pub fn child_at(&self, h: Handle, k: usize) -> (c: Handle)
        requires
            valid_id(self@.slots, h@),
            (k as int) < self@.slots[h@].children.len(),
        ensures
            c@ == self@.slots[h@].children[k as int],
    {
        self.nodes[h.index].children[k]
    }

    /// A copy of the payload of `h`.
    pub fn node_payload(&self, h: Handle) -> (p: NodeEnum)
        requires
            valid_id(self@.slots, h@),
        ensures
            p@ == self@.slots[h@].payload,
    {
        self.nodes[h.index].node.duplicate()
    }

    /// Moves the payload of `h` out of the arena, leaving a placeholder in
    /// its slot; the structure is untouched.  Finalization uses this to
    /// repurpose each live node's storage without copying payload data.
    pub(crate) fn take_payload(&mut self, h: Handle) -> (p: NodeEnum)
        requires
            valid_id(old(self)@.slots, h@),
        ensures
            p@ == old(self)@.slots[h@].payload,
            final(self)@.slots =~~= set_payload(old(self)@.slots, h@, PayloadV::Document),
            final(self)@.document == old(self)@.document,
            final(self)@.errors == old(self)@.errors,
            final(self)@.quirks == old(self)@.quirks,
    {
        proof {
            assert(self.nodes@.len() == self@.slots.len());
        }
        let SquishyNode { node, parent, children } = self.nodes.remove(h.index);
        self.nodes.insert(h.index, SquishyNode { node: NodeEnum::Document, parent, children });
        proof {
            assert(self@.slots =~~= set_payload(old(self)@.slots, h@, PayloadV::Document));
        }
        node
    }

    /// Consumes the arena, handing out the error log and the quirks mode.
    pub fn into_parts(self) -> (r: (Vec<String>, QuirksMode))
        ensures
            r.0@.map_values(|e: String| e@) == self@.errors,
            r.1 == self@.quirks,
    {
        (self.errors, self.quirks_mode)
    }
}

impl Default for Sink {
    /// A fresh arena: one Document slot, which is the document root, no
    /// errors, no quirks.
    fn default() -> (r: Sink)
        ensures
            r.wf(),
            r@.slots =~= seq![
                SlotV { payload: PayloadV::Document, parent: None, children: Seq::<int>::empty() },
            ],
            r@.document == 0,
            r@.errors =~= Seq::<Seq<char>>::empty(),
            r@.quirks == QuirksMode::NoQuirks,
    {
        let mut nodes: Vec<SquishyNode> = Vec::new();
        nodes.push(SquishyNode::new(NodeEnum::Document));
        let r = Sink {
            nodes,
            document: Handle { index: 0 },
            errors: Vec::new(),
            quirks_mode: QuirksMode::NoQuirks,
            rank: Ghost(Map::total(|i: int| 0nat)),
        };
        proof {
            assert(r@.slots =~= seq![
                SlotV { payload: PayloadV::Document, parent: None, children: Seq::<int>::empty() },
            ]);
        }
        r
    }
}

} // verus!

