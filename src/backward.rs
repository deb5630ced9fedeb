use vstd::prelude::*;

use crate::converter::Forward2BackwardGraphConverter;
use crate::grad::Gradients;
use crate::graph::{node_ok, ForwardGraph, GraphError, Op};
use crate::matrix::{filled, product, product_fits, sum_fits, sum_of, transposed, Matrix};
use crate::traversal::{lemma_reach_order, lemma_reach_pred};

verus! {

/// The backward counterpart of a forward node: same identity, order, value
/// and operation.
pub struct BackwardNode {
    pub id: usize,
    pub order: usize,
    pub value: Matrix,
    pub ops: Op,
}

/// Whether the shapes of a node and its parents fit its operation.
pub open spec fn shapes_fit(g: Seq<Option<BackwardNode>>, k: int) -> bool {
    let n = g[k].unwrap();
    match n.ops {
        Op::Leaf => true,
        Op::Add(a, b) => {
            let (x, y) = (g[a as int].unwrap().value, g[b as int].unwrap().value);
            x.same_shape(&y) && n.value.same_shape(&x)
        },
        Op::MatMul(a, b) => {
            let (x, y) = (g[a as int].unwrap().value, g[b as int].unwrap().value);
            x.cols == y.nrows() && n.value.nrows() == x.nrows() && n.value.cols == y.cols
        },
        Op::Transpose(a) => {
            let x = g[a as int].unwrap().value;
            n.value.nrows() == x.cols && n.value.cols == x.nrows()
        },
    }
}

/// A backward graph: slot `k` holds the backward node of identity `k` once
/// it has been converted.
pub struct BackwardGraph {
    pub nodes: Vec<Option<BackwardNode>>,
}

impl BackwardGraph {
    pub open spec fn len_spec(&self) -> nat {
        self.nodes@.len()
    }

    pub open spec fn has(&self, k: int) -> bool {
        0 <= k < self.nodes@.len() && self.nodes@[k] is Some
    }

    pub open spec fn node(&self, k: int) -> BackwardNode {
        self.nodes@[k].unwrap()
    }

    pub open spec fn order_of(&self, k: int) -> int {
        self.node(k).order as int
    }

    /// `p` is a parent of the node `c`.
    pub open spec fn edge(&self, c: usize, p: usize) -> bool {
        self.has(c as int) && self.node(c as int).ops.has_parent(p)
    }

    /// Slot `k` holds a sound node: its identity is `k`, its parents are
    /// present with a lower order, and the shapes fit its operation.
    pub open spec fn slot_ok(&self, k: int) -> bool {
        self.has(k) ==> {
            let n = self.node(k);
            &&& n.id == k
            &&& n.value.wf()
            &&& forall|p: usize| #[trigger] n.ops.has_parent(p) ==> self.has(p as int) && p < k
                && self.order_of(p as int) < n.order
            &&& shapes_fit(self.nodes@, k)
        }
    }

    pub open spec fn wf(&self) -> bool {
        forall|k: int| #[trigger] self.slot_ok(k)
    }

    /// A walk from child to parent along edges, `path[0]` first.
    pub open spec fn is_path(&self, path: Seq<usize>) -> bool {
        &&& path.len() >= 1
        &&& self.has(path[0] as int)
        &&& forall|i: int| 0 <= i < path.len() - 1 ==> #[trigger] self.edge(path[i], path[i + 1])
    }

    /// `x` is `root` or an ancestor of it.
    pub open spec fn reachable(&self, root: usize, x: usize) -> bool {
        exists|path: Seq<usize>| #[trigger] self.is_path(path) && path[0] == root && path.last() == x
    }

    /// Slot `k` holds a copy of forward node `k`.
    pub open spec fn copies(&self, fg: &ForwardGraph, k: int) -> bool {
        let (b, f) = (self.node(k), fg.nodes@[k]);
        b.id == f.id && b.order == f.order && b.ops == f.op && b.value@ == f.value@
            && b.value.same_shape(&f.value) && b.value.wf()
    }

    /// The graph holds copies of forward nodes, and with each node its parents.
    pub open spec fn mirrors(&self, fg: &ForwardGraph) -> bool {
        &&& self.nodes@.len() == fg.len_spec()
        &&& forall|k: int| #[trigger] self.has(k) ==> self.copies(fg, k)
        &&& forall|k: int, p: usize|
            self.has(k) && #[trigger] self.node(k).ops.has_parent(p) ==> self.has(p as int)
    }
}

/// A copy of a well-formed forward graph is well formed.
pub proof fn lemma_mirror_wf(bg: &BackwardGraph, fg: &ForwardGraph)
    requires
        fg.wf(),
        bg.mirrors(fg),
    ensures
        bg.wf(),
{
    assert forall|k: int| #[trigger] bg.slot_ok(k) by {
        if bg.has(k) {
            assert(bg.copies(fg, k));
            assert(node_ok(fg.nodes@, k));
            let n = bg.node(k);
            assert forall|p: usize| #[trigger] n.ops.has_parent(p) implies bg.has(p as int) && p
                < k && bg.order_of(p as int) < n.order by {
                assert(bg.copies(fg, p as int));
                crate::graph::lemma_order_increases(fg, k, p);
            }
            match n.ops {
                Op::Leaf => {},
                Op::Add(a, b) => {
                    assert(n.ops.has_parent(a) && n.ops.has_parent(b));
                    assert(bg.copies(fg, a as int) && bg.copies(fg, b as int));
                },
                Op::MatMul(a, b) => {
                    assert(n.ops.has_parent(a) && n.ops.has_parent(b));
                    assert(bg.copies(fg, a as int) && bg.copies(fg, b as int));
                },
                Op::Transpose(a) => {
                    assert(n.ops.has_parent(a));
                    assert(bg.copies(fg, a as int));
                },
            }
        }
    }
}

/// The gradient held in a slot, as a grid of integers.
pub open spec fn grad_view(o: Option<Matrix>) -> Option<Seq<Seq<int>>> {
    match o {
        None => None,
        Some(m) => Some(m@),
    }
}

/// A slot's gradient after the contribution `c` arrives.
pub open spec fn added(prev: Option<Seq<Seq<int>>>, c: Seq<Seq<int>>) -> Option<Seq<Seq<int>>> {
    match prev {
        None => Some(c),
        Some(p) => Some(sum_of(p, c)),
    }
}

impl BackwardGraph {
    /// What node `y`, with gradient `gy`, hands to its `i`-th parent.
    pub open spec fn contribution(&self, y: usize, gy: Seq<Seq<int>>, i: int) -> Seq<Seq<int>> {
        let v = self.node(y as int).value;
        match self.node(y as int).ops {
            Op::Leaf => gy,
            Op::Add(a, b) => gy,
            Op::MatMul(a, b) => {
                let (va, vb) = (self.node(a as int).value, self.node(b as int).value);
                if i == 0 {
                    product(gy, transposed(vb@, vb.nrows(), vb.cols as nat), v.cols as nat, vb.nrows())
                } else {
                    product(transposed(va@, va.nrows(), va.cols as nat), gy, va.nrows(), v.cols as nat)
                }
            },
            Op::Transpose(a) => transposed(gy, v.nrows(), v.cols as nat),
        }
    }

    /// Slot `k` after node `y`, with gradient `gy`, takes its step: each
    /// parent position that names `k` adds its contribution, in order.
    pub open spec fn step_into(
        &self,
        y: usize,
        gy: Seq<Seq<int>>,
        k: usize,
        prev: Option<Seq<Seq<int>>>,
    ) -> Option<Seq<Seq<int>>> {
        let ps = self.node(y as int).ops.parents();
        let first = if ps.len() > 0 && ps[0] == k {
            added(prev, self.contribution(y, gy, 0))
        } else {
            prev
        };
        if ps.len() > 1 && ps[1] == k {
            added(first, self.contribution(y, gy, 1))
        } else {
            first
        }
    }
}

impl BackwardGraph {
    /// Slot `k` after the nodes of `steps` have stepped in turn, starting
    /// from `base`, each with the gradient that `grad` gives it.
    pub open spec fn fold_steps(
        &self,
        steps: Seq<usize>,
        grad: spec_fn(usize) -> Seq<Seq<int>>,
        k: usize,
        base: Option<Seq<Seq<int>>>,
    ) -> Option<Seq<Seq<int>>>
        decreases steps.len(),
    {
        if steps.len() == 0 {
            base
        } else {
            self.step_into(
                steps.last(),
                grad(steps.last()),
                k,
                self.fold_steps(steps.drop_last(), grad, k, base),
            )
        }
    }

    /// The gradient slot `k` holds before any step of a pass from `root`.
    pub open spec fn seed_of(&self, root: usize, k: usize) -> Option<Seq<Seq<int>>> {
        if k == root {
            Some(filled(self.node(root as int).value.nrows(), self.node(root as int).value.cols as nat, 1))
        } else {
            None
        }
    }

    /// `steps` lists `root` and then every other node that `root` reaches
    /// and that has parents, once each, in non-increasing order.
    pub open spec fn is_step_order(&self, root: usize, steps: Seq<usize>) -> bool {
        &&& steps.len() >= 1
        &&& steps[0] == root
        &&& steps.no_duplicates()
        &&& forall|x: usize| #[trigger]
            steps.contains(x) <==> x == root || (self.reachable(root, x) && 1 <= self.order_of(x as int))
        &&& forall|a: int, b: int|
            0 <= a < b < steps.len() ==> self.order_of(#[trigger] steps[a] as int) >= self.order_of(
                #[trigger] steps[b] as int,
            )
    }
}

impl BackwardGraph {
    /// The gradients of all slots after the nodes of `steps` have stepped in
    /// turn from the seed of a pass from `root`, each with the gradient it
    /// holds when its turn comes.
    pub open spec fn run(&self, root: usize, steps: Seq<usize>) -> Seq<Option<Seq<Seq<int>>>>
        decreases steps.len(),
    {
        if steps.len() == 0 {
            Seq::new(self.nodes@.len(), |k: int| self.seed_of(root, k as usize))
        } else {
            let s = self.run(root, steps.drop_last());
            let y = steps.last();
            Seq::new(s.len(), |k: int| self.step_into(y, s[y as int].unwrap(), k as usize, s[k]))
        }
    }

    /// Every step of `steps`, taken on the gradients built before it, stays
    /// within `i64`.
    pub open spec fn steps_fit(&self, root: usize, steps: Seq<usize>) -> bool {
        forall|i: int|
            0 <= i < steps.len() ==> self.step_fits(steps[i], #[trigger] self.run(root, steps.subrange(0, i)))
    }

    /// A pass from `root` stays within `i64` in every step order it may take.
    pub open spec fn pass_fits(&self, root: usize) -> bool {
        forall|steps: Seq<usize>| #[trigger] self.is_step_order(root, steps) ==> self.steps_fit(root, steps)
    }
}

/// The fold reads the gradient function only at the nodes that step.
proof fn lemma_fold_congruent(
    g: &BackwardGraph,
    steps: Seq<usize>,
    g1: spec_fn(usize) -> Seq<Seq<int>>,
    g2: spec_fn(usize) -> Seq<Seq<int>>,
    k: usize,
    base: Option<Seq<Seq<int>>>,
)
    requires
        forall|i: int| 0 <= i < steps.len() ==> g1(#[trigger] steps[i]) == g2(steps[i]),
    ensures
        g.fold_steps(steps, g1, k, base) == g.fold_steps(steps, g2, k, base),
    decreases steps.len(),
{
    if steps.len() > 0 {
        let prefix = steps.drop_last();
        assert forall|i: int| 0 <= i < prefix.len() implies g1(#[trigger] prefix[i]) == g2(prefix[i]) by {
            assert(prefix[i] == steps[i]);
        }
        lemma_fold_congruent(g, prefix, g1, g2, k, base);
        assert(g1(steps[steps.len() - 1]) == g2(steps[steps.len() - 1]));
    }
}

/// The gradients held in the slots, as grids of integers.
pub open spec fn views(grads: Seq<Option<Matrix>>) -> Seq<Option<Seq<Seq<int>>>> {
    Seq::new(grads.len(), |k: int| grad_view(grads[k]))
}

/// Adding `c` to a slot that holds `prev` stays within `i64`.
pub open spec fn adds_fit(prev: Option<Seq<Seq<int>>>, c: Seq<Seq<int>>) -> bool {
    match prev {
        None => true,
        Some(p) => sum_fits(p, c),
    }
}

impl BackwardGraph {
    /// Node `x` can take its step on the gradients `state` without leaving
    /// `i64`: each product it forms fits, and so does each addition into a
    /// parent's slot, a parent named twice taking two additions.
    pub open spec fn step_fits(&self, x: usize, state: Seq<Option<Seq<Seq<int>>>>) -> bool {
        let gy = state[x as int].unwrap();
        let v = self.node(x as int).value;
        let ps = self.node(x as int).ops.parents();
        let products_fit = match self.node(x as int).ops {
            Op::MatMul(a, b) => {
                let (va, vb) = (self.node(a as int).value, self.node(b as int).value);
                product_fits(gy, transposed(vb@, vb.nrows(), vb.cols as nat), v.cols as nat, vb.nrows())
                    && product_fits(transposed(va@, va.nrows(), va.cols as nat), gy, va.nrows(), v.cols as nat)
            },
            _ => true,
        };
        let first_fits = ps.len() > 0 ==> adds_fit(state[ps[0] as int], self.contribution(x, gy, 0));
        let mid = if ps.len() > 1 && ps[1] == ps[0] {
            added(state[ps[0] as int], self.contribution(x, gy, 0))
        } else {
            state[ps[1] as int]
        };
        let second_fits = ps.len() > 1 ==> adds_fit(mid, self.contribution(x, gy, 1));
        products_fit && first_fits && second_fits
    }
}

/// A node's gradient after a contribution `c` is added to what it held.
pub open spec fn accumulated(prev: Option<Matrix>, c: Seq<Seq<int>>) -> Seq<Seq<int>> {
    match prev {
        None => c,
        Some(m) => sum_of(m@, c),
    }
}

/// Adds `contribution` to the gradient held for node `id`; a node that held
/// none takes the contribution as it is. The gradient is never overwritten.
pub fn update_grad(grads: &mut Vec<Option<Matrix>>, id: usize, contribution: Matrix) -> (r: Result<
    (),
    GraphError,
>)
    requires
        id < old(grads)@.len(),
        contribution.wf(),
        old(grads)@[id as int] matches Some(m) ==> m.wf() && m.same_shape(&contribution),
    ensures
        r is Err <==> (old(grads)@[id as int] matches Some(m) && !crate::matrix::sum_fits(
            m@,
            contribution@,
        )),
        r is Err ==> r == Err::<(), GraphError>(GraphError::Overflow) && final(grads)@ == old(grads)@,
        r is Ok ==> final(grads)@ == old(grads)@.update(id as int, final(grads)@[id as int]),
        r is Ok ==> (final(grads)@[id as int] matches Some(g) && g.wf() && g.same_shape(&contribution)
            && g@ == accumulated(old(grads)@[id as int], contribution@)),
{
    let next = match &grads[id] {
        None => contribution,
        Some(m) => match m.add(&contribution) {
            Some(s) => s,
            None => {
                return Err(GraphError::Overflow);
            },
        },
    };
    grads.set(id, Some(next));
    Ok(())
}

impl BackwardGraph {
    /// Each gradient held belongs to a node of the graph and has the shape of
    /// its value.
    pub open spec fn grads_fit(&self, grads: Seq<Option<Matrix>>) -> bool {
        &&& grads.len() == self.nodes@.len()
        &&& forall|k: int|
            0 <= k < grads.len() && #[trigger] grads[k] is Some ==> self.has(k) && grads[k].unwrap().wf()
                && grads[k].unwrap().same_shape(&self.node(k).value)
    }

    /// The node in slot `k`.
    fn node_ref(&self, k: usize) -> (r: &BackwardNode)
        requires
            self.has(k as int),
        ensures
            *r == self.node(k as int),
    {
        self.nodes[k].as_ref().unwrap()
    }

    /// Hands the gradient of node `x` on to its parents, by the rule of the
    /// operation that made `x`: a sum passes it to both operands, a product
    /// `a * b` passes `g * b^T` to `a` and `a^T * g` to `b`, a transpose
    /// passes `g^T`. A leaf has no parents and passes nothing. It fails with
    /// `Overflow` exactly when a product or an addition of the step leaves
    /// `i64`.
    pub fn backward_step(&self, x: usize, grads: &mut Vec<Option<Matrix>>) -> (r: Result<
        (),
        GraphError,
    >)
        requires
            self.wf(),
            self.has(x as int),
            self.grads_fit(old(grads)@),
            old(grads)@[x as int] is Some,
        ensures
            self.grads_fit(final(grads)@),
            forall|k: int|
                0 <= k < old(grads)@.len() && #[trigger] old(grads)@[k] is Some ==> final(grads)@[k] is Some,
            forall|k: usize|
                k < old(grads)@.len() && #[trigger] final(grads)@[k as int] != old(grads)@[k as int]
                    ==> self.node(x as int).ops.has_parent(k),
            r is Ok ==> forall|p: usize| #[trigger]
                self.node(x as int).ops.has_parent(p) ==> final(grads)@[p as int] is Some,
            r is Err ==> r == Err::<(), GraphError>(GraphError::Overflow),
            r is Ok <==> self.step_fits(x, views(old(grads)@)),
            self.node(x as int).ops == Op::Leaf ==> r is Ok && final(grads)@ == old(grads)@,
            r is Ok ==> forall|k: usize|
                k < old(grads)@.len() ==> #[trigger] grad_view(final(grads)@[k as int]) == self.step_into(
                    x,
                    old(grads)@[x as int].unwrap()@,
                    k,
                    grad_view(old(grads)@[k as int]),
                ),
    {
        let node = self.node_ref(x);
        assert(self.slot_ok(x as int));
        let g = grads[x].as_ref().unwrap().copy();
        let ghost g0 = grads@;
        match node.ops {
            Op::Leaf => Ok(()),
            Op::Add(a, b) => {
                assert(node.ops.has_parent(a) && node.ops.has_parent(b));
                assert(self.slot_ok(a as int) && self.slot_ok(b as int));
                assert(grads@[a as int] is Some ==> grads@[a as int].unwrap().same_shape(&g));
                match update_grad(grads, a, g.copy()) {
                    Ok(()) => {},
                    Err(e) => {
                        return Err(e);
                    },
                }
                let ghost g1 = grads@;
                assert(grads@[b as int] is Some ==> grads@[b as int].unwrap().same_shape(&g));
                let r = update_grad(grads, b, g);
                assert(forall|k: int| 0 <= k < g0.len() && k != a && k != b ==> #[trigger] grads@[k] == g0[k]);
                r
            },
            Op::MatMul(a, b) => {
                assert(node.ops.has_parent(a) && node.ops.has_parent(b));
                assert(self.slot_ok(a as int) && self.slot_ok(b as int));
                let va = &self.node_ref(a).value;
                let vb = &self.node_ref(b).value;
                let ca = match g.matmul(&vb.transpose()) {
                    Some(c) => c,
                    None => {
                        return Err(GraphError::Overflow);
                    },
                };
                let cb = match va.transpose().matmul(&g) {
                    Some(c) => c,
                    None => {
                        return Err(GraphError::Overflow);
                    },
                };
                match update_grad(grads, a, ca) {
                    Ok(()) => {},
                    Err(e) => {
                        return Err(e);
                    },
                }
                let r = update_grad(grads, b, cb);
                assert(forall|k: int| 0 <= k < g0.len() && k != a && k != b ==> #[trigger] grads@[k] == g0[k]);
                r
            },
            Op::Transpose(a) => {
                assert(node.ops.has_parent(a));
                assert(self.slot_ok(a as int));
                let r = update_grad(grads, a, g.transpose());
                assert(forall|k: int| 0 <= k < g0.len() && k != a ==> #[trigger] grads@[k] == g0[k]);
                r
            },
        }
    }
}

impl BackwardNode {
    /// The gradient state before any step: the node's own gradient is the
    /// matrix of ones of its value's shape, and no other node has one.
    pub fn seed_gradients(&self, n: usize) -> (r: Vec<Option<Matrix>>)
        requires
            self.id < n,
            self.value.wf(),
        ensures
            r@.len() == n,
            r@[self.id as int] matches Some(g) && g.wf() && g.same_shape(&self.value) && g@ == filled(
                self.value.nrows(),
                self.value.cols as nat,
                1,
            ),
            forall|k: int| 0 <= k < n && k != self.id ==> #[trigger] r@[k] is None,
    {
        let store = Gradients::new(n);
        assert forall|k: int| 0 <= k < n implies #[trigger] store.grads@[k] is None by {
            assert(!store.has(k));
        }
        let mut grads = store.grads;
        grads.set(self.id, Some(self.value.ones()));
        grads
    }

    /// Runs the backward pass from this node, the root: seeds its gradient
    /// with ones, steps it, discovers every node that it reaches, steps
    /// those nodes in decreasing order from one below the root's order down
    /// to 1, and registers the gradient of every node reached.
    ///
    /// Every registered gradient is the sum, in step order, of what each
    /// node that lists it as a parent hands on, computed from that node's
    /// own final gradient: a node shared by several children receives the
    /// contribution of each. The pass succeeds whenever no step order it
    /// may take leaves `i64`; on success its own order stays within `i64`.
    pub fn backward(&self, graph: &BackwardGraph) -> (r: Result<Gradients, GraphError>)
        requires
            graph.wf(),
            graph.has(self.id as int),
            graph.node(self.id as int) == *self,
        ensures
            r is Err ==> r == Err::<Gradients, GraphError>(GraphError::Overflow),
            r is Err ==> !graph.pass_fits(self.id),
            r matches Ok(store) ==> store.grads@.len() == graph.nodes@.len() && (forall|k: usize| #[trigger]
                store.has(k as int) <==> graph.reachable(self.id, k)) && (forall|k: int| #[trigger]
                store.has(k) ==> store.grad(k).wf() && store.grad(k).same_shape(&graph.node(k).value))
                && store.grad(self.id as int)@ == filled(
                self.value.nrows(),
                self.value.cols as nat,
                1,
            ) && (exists|steps: Seq<usize>| #[trigger] graph.is_step_order(self.id, steps)
                && graph.steps_fit(self.id, steps) && forall|
                k: usize,
            | #[trigger] store.has(k as int) ==> Some(store.grad(k as int)@) == graph.fold_steps(
                steps,
                |y: usize| store.grad(y as int)@,
                k,
                graph.seed_of(self.id, k),
            )),
    {
        let n = graph.nodes.len();
        let root = self.id;
        let top = self.order;
        assert(graph.slot_ok(root as int));
        let discovered = graph.traverse(root);
        proof {
            assert forall|i: int| 0 <= i < discovered@.len() implies graph.has(
                #[trigger] discovered@[i] as int,
            ) by {
                assert(discovered@.contains(discovered@[i]));
                lemma_reach_order(graph, root, discovered@[i]);
            }
        }
        let sched = graph.schedule(&discovered, top);
        let ghost steps = seq![root] + sched@;
        proof {
            assert forall|x: usize| #[trigger] steps.contains(x) <==> x == root || (graph.reachable(root, x)
                && 1 <= graph.order_of(x as int)) by {
                if steps.contains(x) && x != root {
                    let w = choose|w: int| 0 <= w < steps.len() && steps[w] == x;
                    assert(sched@[w - 1] == x);
                    assert(sched@.contains(x));
                }
                if x != root && graph.reachable(root, x) && 1 <= graph.order_of(x as int) {
                    lemma_reach_order(graph, root, x);
                    assert(sched@.contains(x));
                    let w = choose|w: int| 0 <= w < sched@.len() && sched@[w] == x;
                    assert(steps[w + 1] == x);
                }
                if x == root {
                    assert(steps[0] == root);
                }
            }
            assert(!sched@.contains(root));
            assert(steps.no_duplicates()) by {
                assert forall|a: int, b: int| 0 <= a < b < steps.len() implies steps[a] != steps[b] by {
                    if a == 0 {
                        assert(sched@.contains(steps[b]));
                    } else {
                        assert(steps[a] == sched@[a - 1] && steps[b] == sched@[b - 1]);
                    }
                }
            }
            assert forall|a: int, b: int| 0 <= a < b < steps.len() implies graph.order_of(
                #[trigger] steps[a] as int,
            ) >= graph.order_of(#[trigger] steps[b] as int) by {
                assert(steps[b] == sched@[b - 1]);
                assert(sched@.contains(steps[b]));
                if a > 0 {
                    assert(steps[a] == sched@[a - 1]);
                }
            }
            assert(graph.is_step_order(root, steps));
        }
        let mut grads = self.seed_gradients(n);
        let ghost seeded = grads@[root as int];
        let ghost grads0 = grads@;
        assert(graph.grads_fit(grads@));
        proof {
            assert(steps.subrange(0, 0) =~= Seq::<usize>::empty());
            assert(views(grads@) =~= graph.run(root, steps.subrange(0, 0))) by {
                assert forall|k: int| 0 <= k < n implies #[trigger] views(grads@)[k] == graph.run(
                    root,
                    steps.subrange(0, 0),
                )[k] by {
                    assert(grad_view(grads0[k]) == graph.seed_of(root, k as usize));
                }
            }
        }
        match graph.backward_step(root, &mut grads) {
            Ok(()) => {},
            Err(e) => {
                proof {
                    assert(steps[0] == root);
                    assert(!graph.step_fits(steps[0], graph.run(root, steps.subrange(0, 0))));
                    assert(!graph.steps_fit(root, steps));
                }
                return Err(e);
            },
        }
        proof {
            let s1 = steps.subrange(0, 1);
            assert(s1.drop_last() =~= steps.subrange(0, 0));
            assert(s1.last() == root);
            assert(views(grads@) =~= graph.run(root, s1)) by {
                assert forall|k: int| 0 <= k < n implies #[trigger] views(grads@)[k] == graph.run(root, s1)[k] by {
                    assert(grad_view(grads@[k]) == graph.step_into(
                        root,
                        grads0[root as int].unwrap()@,
                        k as usize,
                        grad_view(grads0[k]),
                    ));
                }
            }
            assert(graph.slot_ok(root as int));
            assert(grads@[root as int] == seeded);
            assert(seq![root].drop_last() =~= Seq::<usize>::empty());
            assert forall|k: usize| k < n implies #[trigger] grad_view(grads@[k as int]) == graph.fold_steps(
                seq![root],
                |y: usize| grads@[y as int].unwrap()@,
                k,
                graph.seed_of(root, k),
            ) by {
                assert(grad_view(grads0[k as int]) == graph.seed_of(root, k));
                assert(grad_view(grads@[k as int]) == graph.step_into(
                    root,
                    grads0[root as int].unwrap()@,
                    k,
                    grad_view(grads0[k as int]),
                ));
                let gf = |y: usize| grads@[y as int].unwrap()@;
                let e = seq![root].drop_last();
                assert(e =~= Seq::<usize>::empty());
                assert(graph.fold_steps(e, gf, k, graph.seed_of(root, k)) == graph.seed_of(root, k));
                assert(seq![root].last() == root);
                assert(gf(root) == grads0[root as int].unwrap()@);
                assert(graph.fold_steps(seq![root], gf, k, graph.seed_of(root, k)) == graph.step_into(
                    root,
                    gf(root),
                    k,
                    graph.fold_steps(e, gf, k, graph.seed_of(root, k)),
                ));
            }
        }
        let mut i: usize = 0;
        while i < sched.len()
            invariant
                graph.wf(),
                graph.has(root as int),
                graph.node(root as int) == *self,
                top == self.order,
                root == self.id,
                graph.grads_fit(grads@),
                grads@[root as int] == seeded,
                i <= sched@.len(),
                sched@.no_duplicates(),
                forall|x: usize| #[trigger]
                    sched@.contains(x) <==> graph.reachable(root, x) && 1 <= graph.order_of(x as int)
                        < top,
                forall|a: int, b: int|
                    0 <= a < b < sched@.len() ==> graph.order_of(#[trigger] sched@[a] as int)
                        >= graph.order_of(#[trigger] sched@[b] as int),
                forall|p: usize| #[trigger]
                    graph.edge(root, p) ==> grads@[p as int] is Some,
                forall|a: int, p: usize|
                    0 <= a < i && #[trigger] graph.edge(sched@[a], p) ==> grads@[p as int] is Some,
                forall|k: usize|
                    k < n ==> #[trigger] grad_view(grads@[k as int]) == graph.fold_steps(
                        seq![root] + sched@.subrange(0, i as int),
                        |y: usize| grads@[y as int].unwrap()@,
                        k,
                        graph.seed_of(root, k),
                    ),
                n == graph.nodes@.len(),
                steps == seq![root] + sched@,
                graph.is_step_order(root, steps),
                views(grads@) =~= graph.run(root, steps.subrange(0, i + 1)),
                forall|j: int|
                    0 <= j < i + 1 ==> graph.step_fits(steps[j], #[trigger] graph.run(root, steps.subrange(0, j))),
            decreases sched@.len() - i,
        {
            let x = sched[i];
            proof {
                assert(sched@.contains(x));
                lemma_reach_order(graph, root, x);
                let c = lemma_reach_pred(graph, root, x);
                assert(graph.slot_ok(c as int));
                lemma_reach_order(graph, root, c);
                if c != root {
                    assert(sched@.contains(c));
                    let w = choose|w: int| 0 <= w < sched@.len() && sched@[w] == c;
                    if w >= i {
                        assert(sched@[i as int] == x);
                        assert(w != i);
                    }
                    assert(graph.edge(sched@[w], x));
                }
            }
            let ghost before = grads@;
            assert(steps[i + 1] == x);
            match graph.backward_step(x, &mut grads) {
                Ok(()) => {},
                Err(e) => {
                    proof {
                        assert(!graph.step_fits(steps[i + 1], graph.run(root, steps.subrange(0, i + 1))));
                        assert(!graph.steps_fit(root, steps));
                    }
                    return Err(e);
                },
            }
            proof {
                let sp = steps.subrange(0, i + 2);
                assert(sp.drop_last() =~= steps.subrange(0, i + 1));
                assert(sp.last() == x);
                assert(views(grads@) =~= graph.run(root, sp)) by {
                    assert forall|k: int| 0 <= k < n implies #[trigger] views(grads@)[k] == graph.run(root, sp)[k] by {
                        assert(grad_view(grads@[k]) == graph.step_into(
                            x,
                            before[x as int].unwrap()@,
                            k as usize,
                            grad_view(before[k]),
                        ));
                        assert(views(before)[x as int] == grad_view(before[x as int]));
                    }
                }
            }
            proof {
                assert(graph.slot_ok(x as int));
                if grads@[root as int] != before[root as int] {
                    assert(graph.node(x as int).ops.has_parent(root));
                }
                assert forall|p: usize| #[trigger] graph.edge(root, p) implies grads@[p as int] is Some by {
                    assert(graph.slot_ok(root as int));
                }
                assert forall|a: int, p: usize|
                    0 <= a < i + 1 && #[trigger] graph.edge(sched@[a], p) implies grads@[p as int] is Some by {
                    assert(graph.slot_ok(sched@[a] as int));
                }
                let g_old = |y: usize| before[y as int].unwrap()@;
                let g_new = |y: usize| grads@[y as int].unwrap()@;
                let s_old = seq![root] + sched@.subrange(0, i as int);
                let s_new = seq![root] + sched@.subrange(0, i + 1);
                assert(s_new.drop_last() =~= s_old);
                assert(s_new.last() == x);
                assert forall|ii: int| 0 <= ii < s_new.len() implies g_old(#[trigger] s_new[ii]) == g_new(
                    s_new[ii],
                ) by {
                    let y = s_new[ii];
                    if ii > 0 {
                        assert(y == sched@[ii - 1]);
                        assert(sched@.contains(y));
                        lemma_reach_order(graph, root, y);
                        if ii - 1 < i {
                            assert(graph.order_of(sched@[ii - 1] as int) >= graph.order_of(sched@[i as int] as int));
                        }
                    }
                    if grads@[y as int] != before[y as int] {
                        assert(graph.node(x as int).ops.has_parent(y));
                    }
                }
                assert forall|k: usize| k < n implies #[trigger] grad_view(grads@[k as int]) == graph.fold_steps(
                    s_new,
                    g_new,
                    k,
                    graph.seed_of(root, k),
                ) by {
                    assert(grad_view(before[k as int]) == graph.fold_steps(s_old, g_old, k, graph.seed_of(root, k)));
                    lemma_fold_congruent(graph, s_new, g_old, g_new, k, graph.seed_of(root, k));
                }
            }
            i = i + 1;
        }
        let ghost g_fin = |y: usize| grads@[y as int].unwrap()@;
        proof {
            assert(sched@.subrange(0, i as int) =~= sched@);
            assert(graph.steps_fit(root, steps));
        }
        let mut store = Gradients::new(n);
        let mut j: usize = 0;
        proof {
            assert(discovered@.subrange(0, 0) =~= Seq::<usize>::empty());
            assert forall|k: int| 0 <= k < n implies #[trigger] store.grads@[k] is None by {
                assert(!store.has(k));
            }
        }
        while j < discovered.len()
            invariant
                graph.wf(),
                graph.grads_fit(grads@),
                store.grads@.len() == n,
                n == graph.nodes@.len(),
                j <= discovered@.len(),
                discovered@.no_duplicates(),
                forall|i: int| 0 <= i < discovered@.len() ==> graph.has(#[trigger] discovered@[i] as int),
                g_fin == (|y: usize| grads@[y as int].unwrap()@),
                forall|k: usize|
                    k < n ==> #[trigger] grad_view(grads@[k as int]) == graph.fold_steps(
                        steps,
                        g_fin,
                        k,
                        graph.seed_of(root, k),
                    ),
                forall|k: int|
                    0 <= k < n ==> (#[trigger] store.grads@[k] is Some <==> discovered@.subrange(
                        0,
                        j as int,
                    ).contains(k as usize) && grads@[k] is Some),
                forall|k: int|
                    0 <= k < n && #[trigger] store.grads@[k] is Some ==> store.grads@[k].unwrap()@
                        == grads@[k].unwrap()@ && store.grads@[k].unwrap().wf()
                        && store.grads@[k].unwrap().same_shape(&grads@[k].unwrap()),
            decreases discovered@.len() - j,
        {
            let k = discovered[j];
            let ghost s0 = store.grads@;
            match &grads[k] {
                Some(m) => store.register_grad(k, m.copy()),
                None => {},
            }
            proof {
                assert(discovered@.subrange(0, j + 1) == discovered@.subrange(0, j as int).push(k));
                assert forall|q: int| 0 <= q < n implies (#[trigger] store.grads@[q] is Some
                    <==> discovered@.subrange(0, j + 1).contains(q as usize) && grads@[q] is Some) by {
                    if q == k {
                        assert(discovered@.subrange(0, j + 1)[j as int] == k);
                    } else {
                        assert(store.grads@[q] == s0[q]);
                        let pre = discovered@.subrange(0, j + 1);
                        if pre.contains(q as usize) {
                            let w = choose|w: int| 0 <= w < pre.len() && pre[w] == q as usize;
                            assert(discovered@.subrange(0, j as int)[w] == q as usize);
                        }
                    }
                }
                assert forall|q: int| 0 <= q < n && #[trigger] store.grads@[q] is Some implies store.grads@[q].unwrap()@
                        == grads@[q].unwrap()@ && store.grads@[q].unwrap().wf()
                        && store.grads@[q].unwrap().same_shape(&grads@[q].unwrap()) by {
                    if q != k {
                        assert(store.grads@[q] == s0[q]);
                    }
                }
            }
            j = j + 1;
        }
        proof {
            assert(discovered@.subrange(0, j as int) == discovered@);
            assert forall|k: usize| #[trigger] store.has(k as int) <==> graph.reachable(root, k) by {
                if graph.reachable(root, k) {
                    assert(discovered@.contains(k));
                    lemma_reach_order(graph, root, k);
                    if k != root {
                        let c = lemma_reach_pred(graph, root, k);
                        lemma_reach_order(graph, root, c);
                        assert(graph.slot_ok(c as int));
                        if c != root {
                            assert(sched@.contains(c));
                            let w = choose|w: int| 0 <= w < sched@.len() && sched@[w] == c;
                            assert(graph.edge(sched@[w], k));
                        }
                    }
                }
            }
            assert(discovered@.contains(root)) by {
                assert(discovered@[0] == root);
            }
            let g_store = |y: usize| store.grad(y as int)@;
            assert forall|ii: int| 0 <= ii < steps.len() implies g_fin(#[trigger] steps[ii]) == g_store(
                steps[ii],
            ) by {
                assert(steps.contains(steps[ii]));
                if steps[ii] != root {
                    assert(graph.reachable(root, steps[ii]));
                }
                assert(store.has(steps[ii] as int));
            }
            assert forall|k: usize| #[trigger] store.has(k as int) implies Some(store.grad(k as int)@)
                == graph.fold_steps(steps, g_store, k, graph.seed_of(root, k)) by {
                lemma_fold_congruent(graph, steps, g_fin, g_store, k, graph.seed_of(root, k));
                assert(grad_view(grads@[k as int]) == graph.fold_steps(steps, g_fin, k, graph.seed_of(root, k)));
            }
            assert(graph.is_step_order(root, steps) && graph.steps_fit(root, steps));
        }
        Ok(store)
    }
}

impl BackwardGraph {
    /// The graph is the conversion of the part of `fg` that `root` reaches.
    pub open spec fn converted_from(&self, fg: &ForwardGraph, root: usize) -> bool {
        &&& self.mirrors(fg)
        &&& self.wf()
        &&& self.has(root as int)
        &&& forall|k: usize| #[trigger] self.has(k as int) <==> fg.reaches(root, k)
    }
}


/// In a converted graph, the nodes that `root` reaches are those that it
/// reaches in the forward graph.
proof fn lemma_reach_mirrored(bg: &BackwardGraph, fg: &ForwardGraph, root: usize, x: usize)
    requires
        fg.wf(),
        bg.mirrors(fg),
        bg.has(root as int),
    ensures
        bg.reachable(root, x) <==> fg.reaches(root, x),
{
    if bg.reachable(root, x) {
        let path = choose|path: Seq<usize>| #[trigger] bg.is_path(path) && path[0] == root && path.last() == x;
        assert forall|i: int| 0 <= i < path.len() - 1 implies (#[trigger] fg.nodes@[path[i] as int]).op.has_parent(
            path[i + 1],
        ) by {
            assert(bg.edge(path[i], path[i + 1]));
            assert(bg.copies(fg, path[i] as int));
        }
        assert(fg.is_path(path));
    }
    if fg.reaches(root, x) {
        let path = choose|path: Seq<usize>| #[trigger] fg.is_path(path) && path[0] == root && path.last() == x;
        lemma_mirrored_path(bg, fg, path);
    }
}

proof fn lemma_mirrored_path(bg: &BackwardGraph, fg: &ForwardGraph, path: Seq<usize>)
    requires
        fg.wf(),
        bg.mirrors(fg),
        fg.is_path(path),
        bg.has(path[0] as int),
    ensures
        bg.is_path(path),
    decreases path.len(),
{
    if path.len() > 1 {
        let prefix = path.drop_last();
        assert(fg.is_path(prefix)) by {
            assert forall|i: int| 0 <= i < prefix.len() - 1 implies (#[trigger] fg.nodes@[prefix[i] as int]).op.has_parent(
                prefix[i + 1],
            ) by {
                assert(fg.nodes@[path[i] as int].op.has_parent(path[i + 1]));
            }
        }
        lemma_mirrored_path(bg, fg, prefix);
        let l = path.len() - 2;
        assert(fg.nodes@[path[l] as int].op.has_parent(path[l + 1]));
        if l > 0 {
            let m = l - 1;
            assert(bg.edge(prefix[m], prefix[m + 1]));
            assert(bg.node(prefix[m] as int).ops.has_parent(prefix[l]));
        }
        assert(bg.has(path[l] as int));
        assert(bg.copies(fg, path[l] as int));
        assert forall|i: int| 0 <= i < path.len() - 1 implies #[trigger] bg.edge(path[i], path[i + 1]) by {
            if i < l {
                assert(bg.edge(prefix[i], prefix[i + 1]));
            }
        }
    }
}

impl ForwardGraph {
    /// Computes the gradient of every node that `root` was computed from,
    /// with the gradient of `root` itself seeded with ones: converts the
    /// part of the graph that `root` reaches, then runs the backward pass
    /// from the converted root. Only an unknown `root`, or a pass on the
    /// converted graph that can leave `i64`, fails.
    pub fn backward(&self, root: usize) -> (r: Result<Gradients, GraphError>)
        requires
            self.wf(),
        ensures
            root >= self.len_spec() <==> r == Err::<Gradients, GraphError>(GraphError::UnknownNode),
            r is Err ==> r == Err::<Gradients, GraphError>(GraphError::UnknownNode) || r == Err::<
                Gradients,
                GraphError,
            >(GraphError::Overflow),
            r matches Ok(store) ==> store.grads@.len() == self.len_spec() && (forall|k: usize| #[trigger]
                store.has(k as int) <==> self.reaches(root, k)) && (forall|k: int| #[trigger]
                store.has(k) ==> store.grad(k).wf() && store.grad(k).same_shape(&self.nodes@[k].value))
                && store.grad(root as int)@ == filled(
                self.nodes@[root as int].value.nrows(),
                self.nodes@[root as int].value.cols as nat,
                1,
            ) && (exists|bg: BackwardGraph| #[trigger] bg.converted_from(self, root)
                && exists|steps: Seq<usize>| #[trigger] bg.is_step_order(root, steps) && bg.steps_fit(root, steps) && forall|k: usize| #[trigger]
                    store.has(k as int) ==> Some(store.grad(k as int)@) == bg.fold_steps(
                    steps,
                    |y: usize| store.grad(y as int)@,
                    k,
                    bg.seed_of(root, k),
                )),
            root < self.len_spec() && r is Err ==> exists|bg: BackwardGraph| #[trigger]
                bg.converted_from(self, root) && !bg.pass_fits(root),
    {
        if root >= self.nodes.len() {
            return Err(GraphError::UnknownNode);
        }
        let mut converter = Forward2BackwardGraphConverter::new(self.nodes.len());
        proof {
            assert forall|k: int| #[trigger] converter.graph.has(k) implies converter.graph.copies(self, k) by {}
        }
        converter.convert(self, root);
        let graph = converter.graph;
        proof {
            lemma_mirror_wf(&graph, self);
            assert(graph.copies(self, root as int));
            assert(graph.slot_ok(root as int));
        }
        let top = graph.node_ref(root);
        let r = top.backward(&graph);
        proof {
            assert forall|k: usize| graph.reachable(root, k) <==> self.reaches(root, k) by {
                lemma_reach_mirrored(&graph, self, root, k);
            }
            assert forall|k: usize| #[trigger] graph.has(k as int) <==> self.reaches(root, k) by {
                if self.reaches(root, k) {
                    lemma_reach_order(&graph, root, k);
                }
            }
            assert(graph.converted_from(self, root));
            if r is Ok {
                let store = r.unwrap();
                assert(graph.mirrors(self) && graph.wf() && graph.has(root as int));
                assert forall|k: int| #[trigger] store.has(k) implies store.grad(k).same_shape(
                    &self.nodes@[k].value,
                ) by {
                    assert(store.has(k as usize as int));
                    lemma_reach_order(&graph, root, k as usize);
                    assert(graph.copies(self, k));
                }
            }
        }
        r
    }
}

/// Along every edge of a well-formed backward graph the parent's order is
/// below the child's.
pub proof fn lemma_edge_order(g: &BackwardGraph, c: usize, p: usize)
    requires
        g.wf(),
        g.edge(c, p),
    ensures
        g.has(p as int),
        g.order_of(p as int) < g.order_of(c as int),
{
    assert(g.slot_ok(c as int));
}

/// In a pass from `root`, a node of order 0 other than `root` never takes a
/// backward step: it only receives contributions.
pub proof fn lemma_leaves_never_step(g: &BackwardGraph, root: usize, steps: Seq<usize>, x: usize)
    requires
        g.is_step_order(root, steps),
        x != root,
        g.order_of(x as int) == 0,
    ensures
        !steps.contains(x),
{
}

impl BackwardNode {
    pub fn id(&self) -> (r: usize)
        ensures
            r == self.id,
    {
        self.id
    }

    pub fn order(&self) -> (r: usize)
        ensures
            r == self.order,
    {
        self.order
    }

    /// The identities of the node's parents, for graph discovery.
    pub fn backward_parents(&self) -> (r: Vec<usize>)
        ensures
            r@ == self.ops.parents(),
    {
        self.ops.parent_list()
    }
}

} // verus!
