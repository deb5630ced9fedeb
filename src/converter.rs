use vstd::prelude::*;

use crate::backward::{BackwardGraph, BackwardNode};
use crate::graph::{lemma_reaches_self, lemma_reaches_through_parent, node_ok, ForwardGraph, ForwardNode, Op};

verus! {

/// Converts forward nodes to backward ones, at most once per identity.
pub struct Forward2BackwardGraphConverter {
    pub graph: BackwardGraph,
}

impl Forward2BackwardGraphConverter {
    /// A converter for a forward graph of `n` nodes, with nothing converted.
    pub fn new(n: usize) -> (r: Self)
        ensures
            r.graph.nodes@.len() == n,
            forall|k: int| !#[trigger] r.graph.has(k),
    {
        let mut nodes: Vec<Option<BackwardNode>> = Vec::new();
        let mut i: usize = 0;
        while i < n
            invariant
                i <= n,
                nodes@.len() == i,
                forall|k: int| 0 <= k < i ==> #[trigger] nodes@[k] is None,
            decreases n - i,
        {
            nodes.push(None);
            i = i + 1;
        }
        Forward2BackwardGraphConverter { graph: BackwardGraph { nodes } }
    }

    /// Makes sure that forward node `id` and the nodes it was computed from
    /// have backward nodes. A node converted before is kept as it is, so a
    /// node shared by several children is converted once and all of them
    /// accumulate into the same gradient slot.
    pub fn convert(&mut self, fg: &ForwardGraph, id: usize)
        requires
            fg.wf(),
            old(self).graph.mirrors(fg),
            id < fg.len_spec(),
        ensures
            final(self).graph.mirrors(fg),
            final(self).graph.has(id as int),
            forall|k: int| #[trigger]
                old(self).graph.has(k) ==> final(self).graph.has(k) && final(self).graph.node(k)
                    == old(self).graph.node(k),
            forall|k: usize| #[trigger]
                final(self).graph.has(k as int) ==> old(self).graph.has(k as int) || fg.reaches(id, k),
        decreases id, 1nat,
    {
        if self.graph.nodes[id].is_some() {
            return;
        }
        assert(node_ok(fg.nodes@, id as int));
        let node = BackwardNode::from_node(&fg.nodes[id], self, fg);
        let ghost before = self.graph;
        self.graph.nodes.set(id, Some(node));
        assert forall|k: int| #[trigger] self.graph.has(k) implies self.graph.copies(fg, k) by {
            if k != id {
                assert(before.has(k));
            }
        }
        assert forall|k: int, p: usize|
            self.graph.has(k) && #[trigger] self.graph.node(k).ops.has_parent(p) implies self.graph.has(
            p as int,
        ) by {
            if k != id {
                assert(before.has(k));
            }
        }
        proof {
            lemma_reaches_self(fg, id);
            assert forall|k: usize| #[trigger] self.graph.has(k as int) implies old(self).graph.has(k as int)
                || fg.reaches(id, k) by {
                if k != id {
                    assert(before.has(k as int));
                }
            }
        }
    }
}

impl BackwardNode {
    /// Builds the backward node of `node`, converting its parents first.
    pub fn from_node(
        node: &ForwardNode,
        converter: &mut Forward2BackwardGraphConverter,
        fg: &ForwardGraph,
    ) -> (r: BackwardNode)
        requires
            fg.wf(),
            old(converter).graph.mirrors(fg),
            node.id < fg.len_spec(),
            *node == fg.nodes@[node.id as int],
        ensures
            final(converter).graph.mirrors(fg),
            forall|p: usize| #[trigger]
                node.op.has_parent(p) ==> final(converter).graph.has(p as int),
            forall|k: int| #[trigger]
                old(converter).graph.has(k) ==> final(converter).graph.has(k)
                    && final(converter).graph.node(k) == old(converter).graph.node(k),
            r.id == node.id,
            r.order == node.order,
            r.ops == node.op,
            r.value@ == node.value@,
            r.value.same_shape(&node.value),
            r.value.wf(),
            forall|k: usize| #[trigger]
                final(converter).graph.has(k as int) ==> old(converter).graph.has(k as int) || fg.reaches(
                    node.id,
                    k,
                ),
        decreases node.id, 0nat,
    {
        assert(node_ok(fg.nodes@, node.id as int));
        match node.op {
            Op::Leaf => {},
            Op::Add(a, b) | Op::MatMul(a, b) => {
                assert(node.op.has_parent(a) && node.op.has_parent(b));
                let ghost c0 = converter.graph;
                converter.convert(fg, a);
                let ghost c1 = converter.graph;
                converter.convert(fg, b);
                proof {
                    assert forall|k: usize| #[trigger] converter.graph.has(k as int) implies c0.has(k as int)
                        || fg.reaches(node.id, k) by {
                        if !c1.has(k as int) {
                            lemma_reaches_through_parent(fg, node.id, b, k);
                        } else if !c0.has(k as int) {
                            lemma_reaches_through_parent(fg, node.id, a, k);
                        }
                    }
                }
            },
            Op::Transpose(a) => {
                assert(node.op.has_parent(a));
                let ghost c0 = converter.graph;
                converter.convert(fg, a);
                proof {
                    assert forall|k: usize| #[trigger] converter.graph.has(k as int) implies c0.has(k as int)
                        || fg.reaches(node.id, k) by {
                        if !c0.has(k as int) {
                            lemma_reaches_through_parent(fg, node.id, a, k);
                        }
                    }
                }
            },
        }
        BackwardNode { id: node.id, order: node.order, value: node.value.copy(), ops: node.op }
    }
}

} // verus!
