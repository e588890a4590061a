//! Serialization of a finalized tree back to markup.
//!
//! The output is pinned down exactly by [`ser`]: elements emit a start tag
//! with their attributes in stored order, their children, and an end tag;
//! doctypes, text runs and comments emit their per-variant form; a document
//! is serialized through its children only.

use vstd::prelude::*;

use crate::node::{AttrV, NodeEnum, PayloadV};
use crate::owned::{node_view, nodes_view, lemma_nodes_view, Node, TreeV};
use vstd::string::StringExecFns;

verus! {

/// Whether serialization emits the node itself or only its children.
#[derive(PartialEq, Eq, Structural, Clone, Copy, Debug)]
pub enum TraversalScope {
    IncludeNode,
    ChildrenOnly,
}

/// The markup of one attribute: a space, the name, `="`, the value, `"`.
pub open spec fn attr_ser(a: AttrV) -> Seq<char> {
    " "@ + a.name + "=\""@ + a.value + "\""@
}

/// The markup of an attribute list, in stored order.
pub open spec fn attrs_ser(attrs: Seq<AttrV>) -> Seq<char>
    decreases attrs.len(),
{
    if attrs.len() == 0 {
        Seq::empty()
    } else {
        attrs_ser(attrs.drop_last()) + attr_ser(attrs.last())
    }
}

/// Whether `t` can be serialized under `scope`: a document has no tag form
/// of its own, so it only admits `ChildrenOnly`, and every element or
/// document child must in turn admit `IncludeNode`.
pub open spec fn ser_ok(t: TreeV, scope: TraversalScope) -> bool
    decreases t, 1int,
{
    match scope {
        TraversalScope::IncludeNode => match t.payload {
            PayloadV::Document => false,
            PayloadV::Element { .. } => ser_list_ok(t.children),
            _ => true,
        },
        TraversalScope::ChildrenOnly => match t.payload {
            PayloadV::Document => ser_list_ok(t.children),
            PayloadV::Element { .. } => ser_list_ok(t.children),
            _ => true,
        },
    }
}

/// Every tree of the list can be serialized as a node of its own.
pub open spec fn ser_list_ok(ts: Seq<TreeV>) -> bool
    decreases ts, 0int,
{
    forall|k: int| 0 <= k < ts.len() ==> ser_ok(#[trigger] ts[k], TraversalScope::IncludeNode)
}

/// The markup that serializing `t` under `scope` emits.
pub open spec fn ser(t: TreeV, scope: TraversalScope) -> Seq<char>
    decreases t, 1int,
{
    match t.payload {
        PayloadV::Element { name, attrs } => {
            let inner = ser_list(t.children);
            if scope == TraversalScope::IncludeNode {
                "<"@ + name + attrs_ser(attrs) + ">"@ + inner + "</"@ + name + ">"@
            } else {
                inner
            }
        },
        PayloadV::Document => {
            if scope == TraversalScope::ChildrenOnly {
                ser_list(t.children)
            } else {
                Seq::empty()
            }
        },
        PayloadV::Doctype { name, .. } => {
            if scope == TraversalScope::IncludeNode {
                "<!DOCTYPE "@ + name + ">"@
            } else {
                Seq::empty()
            }
        },
        PayloadV::Text { text } => {
            if scope == TraversalScope::IncludeNode {
                text
            } else {
                Seq::empty()
            }
        },
        PayloadV::Comment { text } => {
            if scope == TraversalScope::IncludeNode {
                "<!--"@ + text + "-->"@
            } else {
                Seq::empty()
            }
        },
    }
}

/// The markup of a list of trees, each serialized as a node of its own.
pub open spec fn ser_list(ts: Seq<TreeV>) -> Seq<char>
    decreases ts, 0int,
{
    if ts.len() == 0 {
        Seq::empty()
    } else {
        ser_list(ts.drop_last()) + ser(ts.last(), TraversalScope::IncludeNode)
    }
}

/// Appends the markup of the attribute list to `out`.
fn write_attrs(attrs: &Vec<crate::node::Attribute>, out: &mut String)
    ensures
        final(out)@ == old(out)@ + attrs_ser(attrs@.map_values(|x: crate::node::Attribute| x@)),
{
    let ghost am = attrs@.map_values(|x: crate::node::Attribute| x@);
    let mut k: usize = 0;
    while k < attrs.len()
        invariant
            0 <= k <= attrs@.len(),
            am == attrs@.map_values(|x: crate::node::Attribute| x@),
            out@ == old(out)@ + attrs_ser(am.take(k as int)),
        decreases attrs@.len() - k,
    {
        out.append(" ");
        out.append(attrs[k].name.as_str());
        out.append("=\"");
        out.append(attrs[k].value.as_str());
        out.append("\"");
        proof {
            assert(am.take(k + 1).drop_last() =~= am.take(k as int));
            assert(am.take(k + 1).last() == am[k as int]);
            assert(out@ =~= old(out)@ + attrs_ser(am.take(k + 1)));
        }
        k = k + 1;
    }
    proof {
        assert(am.take(am.len() as int) =~= am);
    }
}

impl Node {
    /// Streams the markup of this tree into `out` under the given scope.
    /// Serializing a document with `IncludeNode` is a caller error, which
    /// the contract forbids: a document has no tag form.
    pub fn serialize(&self, out: &mut String, traversal_scope: TraversalScope)
        requires
            ser_ok(node_view(*self), traversal_scope),
        ensures
            final(out)@ == old(out)@ + ser(node_view(*self), traversal_scope),
        decreases *self,
    {
        let emit_self = match traversal_scope {
            TraversalScope::IncludeNode => true,
            TraversalScope::ChildrenOnly => false,
        };
        match &self.node {
            NodeEnum::Element(name, attrs) => {
                if emit_self {
                    out.append("<");
                    out.append(name.as_str());
                    write_attrs(attrs, out);
                    out.append(">");
                }
                self.serialize_children(out);
                if emit_self {
                    out.append("</");
                    out.append(name.as_str());
                    out.append(">");
                }
                proof {
                    assert(out@ =~= old(out)@ + ser(node_view(*self), traversal_scope));
                }
            },
            NodeEnum::Document => {
                if emit_self {
                    proof {
                        assert(false);
                    }
                } else {
                    self.serialize_children(out);
                    proof {
                        assert(out@ =~= old(out)@ + ser(node_view(*self), traversal_scope));
                    }
                }
            },
            NodeEnum::Doctype(name, _public_id, _system_id) => {
                if emit_self {
                    out.append("<!DOCTYPE ");
                    out.append(name.as_str());
                    out.append(">");
                }
                proof {
                    assert(out@ =~= old(out)@ + ser(node_view(*self), traversal_scope));
                }
            },
            NodeEnum::Text(text) => {
                if emit_self {
                    out.append(text.as_str());
                }
                proof {
                    assert(out@ =~= old(out)@ + ser(node_view(*self), traversal_scope));
                }
            },
            NodeEnum::Comment(text) => {
                if emit_self {
                    out.append("<!--");
                    out.append(text.as_str());
                    out.append("-->");
                }
                proof {
                    assert(out@ =~= old(out)@ + ser(node_view(*self), traversal_scope));
                }
            },
        }
    }

    /// Streams the markup of all children, each as a node of its own.
    fn serialize_children(&self, out: &mut String)
        requires
            ser_list_ok(node_view(*self).children),
        ensures
            final(out)@ == old(out)@ + ser_list(node_view(*self).children),
        decreases *self, 0int,
    {
        let ghost ts = node_view(*self).children;
        proof {
            lemma_nodes_view(self.children@);
        }
        let n = self.children.len();
        let mut k: usize = 0;
        while k < n
            invariant
                ser_list_ok(ts),
                ts == node_view(*self).children,
                ts == nodes_view(self.children@),
                n == self.children@.len(),
                ts.len() == n,
                0 <= k <= n,
                out@ == old(out)@ + ser_list(ts.take(k as int)),
            decreases n - k,
        {
            proof {
                lemma_nodes_view(self.children@);
                assert(ts[k as int] == node_view(self.children@[k as int]));
                vstd::std_specs::vec::axiom_vec_index_decreases(self.children, k as int);
            }
            let child = &self.children[k];
            child.serialize(out, TraversalScope::IncludeNode);
            proof {
                assert(ts.take(k + 1).drop_last() =~= ts.take(k as int));
                assert(ts.take(k + 1).last() == ts[k as int]);
                assert(out@ =~= old(out)@ + ser_list(ts.take(k + 1)));
            }
            k = k + 1;
        }
        proof {
            assert(ts.take(ts.len() as int) =~= ts);
        }
    }
}

} // verus!
