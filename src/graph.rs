use vstd::prelude::*;

use crate::matrix::{product, product_fits, sum_fits, sum_of, transposed, Matrix};

verus! {

/// The operation that produced a node, with the identities of its parents.
#[derive(Clone, Copy, Debug, PartialEq, Eq, Structural)]
pub enum Op {
    /// An input value, with no parents.
    Leaf,
    /// Entry-wise sum of two parents.
    Add(usize, usize),
    /// Matrix product of two parents, left then right.
    MatMul(usize, usize),
    /// Transpose of one parent.
    Transpose(usize),
}

impl Op {
    /// The parents that the operation reads, in order.
    pub open spec fn parents(self) -> Seq<usize> {
        match self {
            Op::Leaf => seq![],
            Op::Add(a, b) => seq![a, b],
            Op::MatMul(a, b) => seq![a, b],
            Op::Transpose(a) => seq![a],
        }
    }

    /// Whether `p` is a parent of a node made by this operation.
    pub open spec fn has_parent(self, p: usize) -> bool {
        match self {
            Op::Leaf => false,
            Op::Add(a, b) => p == a || p == b,
            Op::MatMul(a, b) => p == a || p == b,
            Op::Transpose(a) => p == a,
        }
    }
}

/// Errors that recording an operation can report.
#[derive(Clone, Copy, Debug, PartialEq, Eq, Structural)]
pub enum GraphError {
    /// An identity that names no node of the graph.
    UnknownNode,
    /// Operand shapes that the operation does not accept.
    ShapeMismatch,
    /// An entry of a result that does not fit in an `i64`.
    Overflow,
}

/// A node of the forward graph: its identity, its topological order, the
/// value it computed and the operation that computed it.
pub struct ForwardNode {
    pub id: usize,
    pub order: usize,
    pub value: Matrix,
    pub op: Op,
}

/// The order a node made by `op` gets: one more than the largest order of
/// its parents, and 0 for a leaf.
pub open spec fn order_after(nodes: Seq<ForwardNode>, op: Op) -> int {
    match op {
        Op::Leaf => 0,
        Op::Add(a, b) => if nodes[a as int].order >= nodes[b as int].order {
            nodes[a as int].order + 1
        } else {
            nodes[b as int].order + 1
        },
        Op::MatMul(a, b) => if nodes[a as int].order >= nodes[b as int].order {
            nodes[a as int].order + 1
        } else {
            nodes[b as int].order + 1
        },
        Op::Transpose(a) => nodes[a as int].order + 1,
    }
}

/// Whether `value` is what `op` computes from the values of its parents.
pub open spec fn computes(nodes: Seq<ForwardNode>, op: Op, value: Matrix) -> bool {
    match op {
        Op::Leaf => true,
        Op::Add(a, b) => {
            let (x, y) = (nodes[a as int].value, nodes[b as int].value);
            x.same_shape(&y) && value.same_shape(&x) && value@ == sum_of(x@, y@)
        },
        Op::MatMul(a, b) => {
            let (x, y) = (nodes[a as int].value, nodes[b as int].value);
            x.cols == y.nrows() && value.nrows() == x.nrows() && value.cols == y.cols && value@
                == product(x@, y@, x.cols as nat, y.cols as nat)
        },
        Op::Transpose(a) => {
            let x = nodes[a as int].value;
            value.nrows() == x.cols && value.cols == x.nrows() && value@ == transposed(
                x@,
                x.nrows(),
                x.cols as nat,
            )
        },
    }
}

/// The node at index `i` is sound: it carries its own index as identity,
/// its parents come before it, its order follows from theirs, and its value
/// is what its operation computes.
pub open spec fn node_ok(nodes: Seq<ForwardNode>, i: int) -> bool {
    let n = nodes[i];
    &&& n.id == i
    &&& n.value.wf()
    &&& forall|p: usize| #[trigger] n.op.has_parent(p) ==> p < i
    &&& n.order == order_after(nodes, n.op)
    &&& n.order <= i
    &&& computes(nodes, n.op, n.value)
}

/// Appending nodes leaves what a node's operation reads of its parents as it was.
proof fn lemma_parents_kept(before: Seq<ForwardNode>, after: Seq<ForwardNode>, op: Op, i: int)
    requires
        before.is_prefix_of(after),
        i <= before.len(),
        forall|p: usize| #[trigger] op.has_parent(p) ==> p < i,
    ensures
        order_after(before, op) == order_after(after, op),
        forall|value: Matrix| computes(before, op, value) == computes(after, op, value),
{
    match op {
        Op::Leaf => {},
        Op::Add(a, b) => {
            assert(op.has_parent(a) && op.has_parent(b));
            assert(before[a as int] == after[a as int] && before[b as int] == after[b as int]);
        },
        Op::MatMul(a, b) => {
            assert(op.has_parent(a) && op.has_parent(b));
            assert(before[a as int] == after[a as int] && before[b as int] == after[b as int]);
        },
        Op::Transpose(a) => {
            assert(op.has_parent(a));
            assert(before[a as int] == after[a as int]);
        },
    }
}

/// A graph of recorded operations. A node's identity is its index.
pub struct ForwardGraph {
    pub nodes: Vec<ForwardNode>,
}

impl ForwardGraph {
    pub open spec fn wf(&self) -> bool {
        forall|i: int| 0 <= i < self.nodes@.len() ==> #[trigger] node_ok(self.nodes@, i)
    }

    pub open spec fn len_spec(&self) -> nat {
        self.nodes@.len()
    }

    /// An empty graph.
    pub fn new() -> (r: ForwardGraph)
        ensures
            r.wf(),
            r.len_spec() == 0,
    {
        ForwardGraph { nodes: Vec::new() }
    }

    pub fn len(&self) -> (r: usize)
        ensures
            r == self.len_spec(),
    {
        self.nodes.len()
    }

    /// The value that node `id` computed.
    pub fn value(&self, id: usize) -> (r: &Matrix)
        requires
            id < self.len_spec(),
        ensures
            *r == self.nodes@[id as int].value,
    {
        &self.nodes[id].value
    }

    /// The topological order of node `id`.
    pub fn order(&self, id: usize) -> (r: usize)
        requires
            id < self.len_spec(),
        ensures
            r == self.nodes@[id as int].order,
    {
        self.nodes[id].order
    }

    /// Appends a node made by `op` and returns its identity.
    fn push_node(&mut self, op: Op, value: Matrix) -> (r: usize)
        requires
            old(self).wf(),
            old(self).len_spec() < usize::MAX,
            value.wf(),
            forall|p: usize| #[trigger] op.has_parent(p) ==> p < old(self).len_spec(),
            computes(old(self).nodes@, op, value),
        ensures
            final(self).wf(),
            r == old(self).len_spec(),
            final(self).nodes@ == old(self).nodes@.push(final(self).nodes@[r as int]),
            final(self).nodes@[r as int].op == op,
            final(self).nodes@[r as int].value == value,
    {
        let id = self.nodes.len();
        let order: usize = match op {
            Op::Leaf => 0,
            Op::Add(a, b) | Op::MatMul(a, b) => {
                assert(op.has_parent(a) && op.has_parent(b));
                assert(node_ok(self.nodes@, a as int) && node_ok(self.nodes@, b as int));
                let (x, y) = (self.nodes[a].order, self.nodes[b].order);
                if x >= y {
                    x + 1
                } else {
                    y + 1
                }
            },
            Op::Transpose(a) => {
                assert(op.has_parent(a));
                assert(node_ok(self.nodes@, a as int));
                self.nodes[a].order + 1
            },
        };
        let ghost before = self.nodes@;
        self.nodes.push(ForwardNode { id, order, value, op });
        assert forall|i: int| 0 <= i < self.nodes@.len() implies #[trigger] node_ok(
            self.nodes@,
            i,
        ) by {
            if i < id {
                assert(node_ok(before, i));
                lemma_parents_kept(before, self.nodes@, before[i].op, i);
            } else {
                lemma_parents_kept(before, self.nodes@, op, i);
            }
        }
        id
    }

    /// Records an input value and returns its identity.
    pub fn leaf(&mut self, value: Matrix) -> (r: usize)
        requires
            old(self).wf(),
            old(self).len_spec() < usize::MAX,
            value.wf(),
        ensures
            final(self).wf(),
            r == old(self).len_spec(),
            final(self).nodes@ == old(self).nodes@.push(final(self).nodes@[r as int]),
            final(self).nodes@[r as int].op == Op::Leaf,
            final(self).nodes@[r as int].order == 0,
            final(self).nodes@[r as int].value == value,
    {
        let r = self.push_node(Op::Leaf, value);
        assert(node_ok(self.nodes@, r as int));
        r
    }
    /// Records the entry-wise sum of nodes `a` and `b`.
    pub fn add(&mut self, a: usize, b: usize) -> (r: Result<usize, GraphError>)
        requires
            old(self).wf(),
            old(self).len_spec() < usize::MAX,
        ensures
            final(self).wf(),
            r is Err ==> *final(self) == *old(self),
            r matches Err(e) ==> e == (if a >= old(self).len_spec() || b >= old(self).len_spec() {
                GraphError::UnknownNode
            } else if !old(self).nodes@[a as int].value.same_shape(&old(self).nodes@[b as int].value) {
                GraphError::ShapeMismatch
            } else {
                GraphError::Overflow
            }),
            r is Ok <==> a < old(self).len_spec() && b < old(self).len_spec()
                && old(self).nodes@[a as int].value.same_shape(&old(self).nodes@[b as int].value)
                && sum_fits(old(self).nodes@[a as int].value@, old(self).nodes@[b as int].value@),
            r matches Ok(id) ==> id == old(self).len_spec() && final(self).nodes@ == old(self).nodes@.push(
                final(self).nodes@[id as int],
            ) && final(self).nodes@[id as int].op == Op::Add(a, b),
    {
        if a >= self.nodes.len() || b >= self.nodes.len() {
            return Err(GraphError::UnknownNode);
        }
        assert(node_ok(self.nodes@, a as int) && node_ok(self.nodes@, b as int));
        let x = &self.nodes[a].value;
        let y = &self.nodes[b].value;
        if x.rows() != y.rows() || x.cols != y.cols {
            return Err(GraphError::ShapeMismatch);
        }
        match x.add(y) {
            Some(value) => Ok(self.push_node(Op::Add(a, b), value)),
            None => Err(GraphError::Overflow),
        }
    }

    /// Records the matrix product of nodes `a` and `b`.
    pub fn matmul(&mut self, a: usize, b: usize) -> (r: Result<usize, GraphError>)
        requires
            old(self).wf(),
            old(self).len_spec() < usize::MAX,
        ensures
            final(self).wf(),
            r is Err ==> *final(self) == *old(self),
            r matches Err(e) ==> e == (if a >= old(self).len_spec() || b >= old(self).len_spec() {
                GraphError::UnknownNode
            } else if old(self).nodes@[a as int].value.cols != old(self).nodes@[b as int].value.nrows() {
                GraphError::ShapeMismatch
            } else {
                GraphError::Overflow
            }),
            r is Ok <==> a < old(self).len_spec() && b < old(self).len_spec()
                && old(self).nodes@[a as int].value.cols == old(self).nodes@[b as int].value.nrows()
                && product_fits(
                old(self).nodes@[a as int].value@,
                old(self).nodes@[b as int].value@,
                old(self).nodes@[a as int].value.cols as nat,
                old(self).nodes@[b as int].value.cols as nat,
            ),
            r matches Ok(id) ==> id == old(self).len_spec() && final(self).nodes@ == old(self).nodes@.push(
                final(self).nodes@[id as int],
            ) && final(self).nodes@[id as int].op == Op::MatMul(a, b),
    {
        if a >= self.nodes.len() || b >= self.nodes.len() {
            return Err(GraphError::UnknownNode);
        }
        assert(node_ok(self.nodes@, a as int) && node_ok(self.nodes@, b as int));
        let x = &self.nodes[a].value;
        let y = &self.nodes[b].value;
        if x.cols != y.rows() {
            return Err(GraphError::ShapeMismatch);
        }
        match x.matmul(y) {
            Some(value) => Ok(self.push_node(Op::MatMul(a, b), value)),
            None => Err(GraphError::Overflow),
        }
    }

    /// Records the transpose of node `a`.
    pub fn transpose(&mut self, a: usize) -> (r: Result<usize, GraphError>)
        requires
            old(self).wf(),
            old(self).len_spec() < usize::MAX,
        ensures
            final(self).wf(),
            r is Err ==> *final(self) == *old(self),
            r matches Err(e) ==> e == GraphError::UnknownNode,
            r is Ok <==> a < old(self).len_spec(),
            r matches Ok(id) ==> id == old(self).len_spec() && final(self).nodes@ == old(self).nodes@.push(
                final(self).nodes@[id as int],
            ) && final(self).nodes@[id as int].op == Op::Transpose(a),
    {
        if a >= self.nodes.len() {
            return Err(GraphError::UnknownNode);
        }
        assert(node_ok(self.nodes@, a as int));
        let value = self.nodes[a].value.transpose();
        Ok(self.push_node(Op::Transpose(a), value))
    }
}

/// Along every edge of a well-formed graph the parent's order is below the
/// child's, and a node of order 0 has no parents.
pub proof fn lemma_order_increases(g: &ForwardGraph, child: int, parent: usize)
    requires
        g.wf(),
        0 <= child < g.len_spec(),
        g.nodes@[child].op.has_parent(parent),
    ensures
        parent < child,
        g.nodes@[parent as int].order < g.nodes@[child].order,
        g.nodes@[child].order > 0,
{
    assert(node_ok(g.nodes@, child));
}

impl ForwardGraph {
    /// A walk from child to parent along recorded operations, `path[0]` first.
    pub open spec fn is_path(&self, path: Seq<usize>) -> bool {
        &&& path.len() >= 1
        &&& path[0] < self.len_spec()
        &&& forall|i: int|
            0 <= i < path.len() - 1 ==> (#[trigger] self.nodes@[path[i] as int]).op.has_parent(
                path[i + 1],
            )
    }

    /// `x` is `root` or a node whose value `root` was computed from.
    pub open spec fn reaches(&self, root: usize, x: usize) -> bool {
        exists|path: Seq<usize>| #[trigger] self.is_path(path) && path[0] == root && path.last() == x
    }
}

/// A node reaches whatever its parents reach, and itself.
pub proof fn lemma_reaches_through_parent(g: &ForwardGraph, c: usize, p: usize, k: usize)
    requires
        g.wf(),
        c < g.len_spec(),
        g.nodes@[c as int].op.has_parent(p),
        g.reaches(p, k),
    ensures
        g.reaches(c, k),
{
    let path = choose|path: Seq<usize>| #[trigger] g.is_path(path) && path[0] == p && path.last() == k;
    let longer = seq![c] + path;
    assert forall|i: int| 0 <= i < longer.len() - 1 implies (#[trigger] g.nodes@[longer[i] as int]).op.has_parent(
        longer[i + 1],
    ) by {
        if i > 0 {
            assert(longer[i] == path[i - 1] && longer[i + 1] == path[i]);
            assert(g.nodes@[path[i - 1] as int].op.has_parent(path[(i - 1) + 1]));
        }
    }
    assert(g.is_path(longer));
    assert(longer.last() == k);
}

/// Every node reaches itself.
pub proof fn lemma_reaches_self(g: &ForwardGraph, c: usize)
    requires
        c < g.len_spec(),
    ensures
        g.reaches(c, c),
{
    assert(g.is_path(seq![c]));
}

} // verus!
