use vstd::prelude::*;

use crate::backward::BackwardGraph;
use crate::graph::Op;

verus! {

impl Op {
    /// The parents of a node made by this operation, as a list.
    pub fn parent_list(&self) -> (r: Vec<usize>)
        ensures
            r@ == self.parents(),
            forall|p: usize| self.has_parent(p) <==> r@.contains(p),
    {
        let r = match *self {
            Op::Leaf => Vec::new(),
            Op::Add(a, b) => vec![a, b],
            Op::MatMul(a, b) => vec![a, b],
            Op::Transpose(a) => vec![a],
        };
        assert forall|p: usize| self.has_parent(p) <==> r@.contains(p) by {
            if self.has_parent(p) {
                match *self {
                    Op::Leaf => {},
                    Op::Add(a, b) | Op::MatMul(a, b) => {
                        if p == a {
                            assert(r@[0] == p);
                        } else {
                            assert(r@[1] == p);
                        }
                    },
                    Op::Transpose(a) => {
                        assert(r@[0] == p);
                    },
                }
            }
        }
        r
    }
}

/// A set of nodes that holds `path[0]` and the parents of each of its nodes
/// holds the whole path.
proof fn lemma_closed_holds_path(g: &BackwardGraph, s: Seq<usize>, path: Seq<usize>)
    requires
        g.is_path(path),
        s.contains(path[0]),
        forall|c: usize, p: usize| s.contains(c) && #[trigger] g.edge(c, p) ==> s.contains(p),
    ensures
        s.contains(path.last()),
    decreases path.len(),
{
    if path.len() > 1 {
        let prefix = path.drop_last();
        assert(g.is_path(prefix)) by {
            assert forall|i: int| 0 <= i < prefix.len() - 1 implies #[trigger] g.edge(
                prefix[i],
                prefix[i + 1],
            ) by {
                assert(g.edge(path[i], path[i + 1]));
            }
        }
        lemma_closed_holds_path(g, s, prefix);
        let i = path.len() - 2;
        assert(g.edge(path[i], path[i + 1]));
    }
}

/// One more edge from an ancestor of `root` reaches another.
proof fn lemma_reach_step(g: &BackwardGraph, root: usize, c: usize, p: usize)
    requires
        g.wf(),
        g.reachable(root, c),
        g.edge(c, p),
    ensures
        g.reachable(root, p),
{
    let path = choose|path: Seq<usize>| #[trigger] g.is_path(path) && path[0] == root && path.last() == c;
    let longer = path.push(p);
    assert forall|i: int| 0 <= i < longer.len() - 1 implies #[trigger] g.edge(
        longer[i],
        longer[i + 1],
    ) by {
        if i < path.len() - 1 {
            assert(g.edge(path[i], path[i + 1]));
        }
    }
    assert(g.is_path(longer));
}

/// A node other than `root` that `root` reaches is the parent of a node that
/// `root` reaches.
pub proof fn lemma_reach_pred(g: &BackwardGraph, root: usize, x: usize) -> (c: usize)
    requires
        g.reachable(root, x),
        x != root,
    ensures
        g.reachable(root, c),
        g.edge(c, x),
{
    let path = choose|path: Seq<usize>| #[trigger] g.is_path(path) && path[0] == root && path.last() == x;
    let prefix = path.drop_last();
    assert(g.is_path(prefix)) by {
        assert forall|i: int| 0 <= i < prefix.len() - 1 implies #[trigger] g.edge(
            prefix[i],
            prefix[i + 1],
        ) by {
            assert(g.edge(path[i], path[i + 1]));
        }
    }
    let i = path.len() - 2;
    assert(g.edge(path[i], path[i + 1]));
    path[i]
}

/// Along a path the order falls, and every node of it is present.
proof fn lemma_path_order(g: &BackwardGraph, path: Seq<usize>)
    requires
        g.wf(),
        g.is_path(path),
    ensures
        g.has(path.last() as int),
        path.len() > 1 ==> g.order_of(path.last() as int) < g.order_of(path[0] as int),
    decreases path.len(),
{
    if path.len() > 1 {
        let prefix = path.drop_last();
        assert(g.is_path(prefix)) by {
            assert forall|i: int| 0 <= i < prefix.len() - 1 implies #[trigger] g.edge(
                prefix[i],
                prefix[i + 1],
            ) by {
                assert(g.edge(path[i], path[i + 1]));
            }
        }
        lemma_path_order(g, prefix);
        let i = path.len() - 2;
        assert(g.edge(path[i], path[i + 1]));
        assert(g.slot_ok(path[i] as int));
    }
}

/// A node that `root` reaches is present, and is `root` itself or has a
/// lower order.
pub proof fn lemma_reach_order(g: &BackwardGraph, root: usize, x: usize)
    requires
        g.wf(),
        g.reachable(root, x),
    ensures
        g.has(x as int),
        x == root || g.order_of(x as int) < g.order_of(root as int),
{
    let path = choose|path: Seq<usize>| #[trigger] g.is_path(path) && path[0] == root && path.last() == x;
    lemma_path_order(g, path);
}

impl BackwardGraph {
    /// Breadth-first discovery of every node that `root` reaches, starting
    /// with `root`; each is listed once, however many paths lead to it.
    pub fn traverse(&self, root: usize) -> (r: Vec<usize>)
        requires
            self.wf(),
            self.has(root as int),
        ensures
            r@.no_duplicates(),
            r@.len() >= 1,
            r@[0] == root,
            forall|x: usize| #[trigger] r@.contains(x) <==> self.reachable(root, x),
    {
        let n = self.nodes.len();
        let mut visited: Vec<bool> = Vec::new();
        while visited.len() < n
            invariant
                visited@.len() <= n,
                n == self.nodes@.len(),
                forall|k: int| 0 <= k < visited@.len() ==> !#[trigger] visited@[k],
            decreases n - visited@.len(),
        {
            visited.push(false);
        }
        visited.set(root, true);
        let mut queue: Vec<usize> = vec![root];
        let ghost mut seen: Set<int> = set![root as int];
        proof {
            assert(self.is_path(seq![root]));
            assert(self.reachable(root, root));
            assert(queue@[0] == root);
        }
        let mut head: usize = 0;
        while head < queue.len()
            invariant
                self.wf(),
                n == self.nodes@.len(),
                visited@.len() == n,
                queue@.len() >= 1,
                queue@[0] == root,
                head <= queue@.len(),
                queue@.no_duplicates(),
                forall|i: int|
                    0 <= i < queue@.len() ==> (#[trigger] queue@[i]) < n && visited@[queue@[i] as int]
                        && self.reachable(root, queue@[i]),
                forall|k: int| 0 <= k < n && #[trigger] visited@[k] ==> queue@.contains(k as usize),
                seen.finite(),
                seen.len() == queue@.len(),
                forall|k: int| #[trigger] seen.contains(k) <==> 0 <= k < n && visited@[k],
                forall|i: int, p: usize|
                    0 <= i < head && #[trigger] self.edge(queue@[i], p) ==> visited@[p as int],
            decreases n - queue@.len(), queue@.len() - head,
        {
            let x = queue[head];
            proof {
                lemma_reach_order(self, root, x);
            }
            let ps = match &self.nodes[x] {
                Some(node) => node.ops.parent_list(),
                None => Vec::new(),
            };
            assert(self.slot_ok(x as int));
            let ghost q0 = queue@;
            let mut j: usize = 0;
            while j < ps.len()
                invariant
                    self.wf(),
                    n == self.nodes@.len(),
                    visited@.len() == n,
                    head < queue@.len(),
                    queue@[head as int] == x,
                    self.has(x as int),
                    forall|p: usize| self.edge(x, p) <==> ps@.contains(p),
                    q0.is_prefix_of(queue@),
                    j <= ps@.len(),
                    queue@.len() >= 1,
                    queue@[0] == root,
                    queue@.no_duplicates(),
                    forall|i: int|
                        0 <= i < queue@.len() ==> (#[trigger] queue@[i]) < n && visited@[queue@[i] as int]
                            && self.reachable(root, queue@[i]),
                    forall|k: int| 0 <= k < n && #[trigger] visited@[k] ==> queue@.contains(k as usize),
                    seen.finite(),
                    seen.len() == queue@.len(),
                    forall|k: int| #[trigger] seen.contains(k) <==> 0 <= k < n && visited@[k],
                    forall|i: int, p: usize|
                        0 <= i < head && #[trigger] self.edge(queue@[i], p) ==> visited@[p as int],
                    forall|jj: int| 0 <= jj < j ==> visited@[#[trigger] ps@[jj] as int],
                decreases ps@.len() - j,
            {
                let ghost (v_start, q_start) = (visited@, queue@);
                let p = ps[j];
                assert(ps@.contains(p));
                assert(self.edge(x, p));
                assert(self.slot_ok(x as int));
                if !visited[p] {
                    proof {
                        lemma_reach_step(self, root, x, p);
                        assert(!queue@.contains(p));
                        assert(!seen.contains(p as int));
                    }
                    let ghost (vb, qb) = (visited@, queue@);
                    visited.set(p, true);
                    queue.push(p);
                    proof {
                        seen = seen.insert(p as int);
                        assert(forall|k: int| 0 <= k < n && k != p ==> #[trigger] visited@[k] == vb[k]);
                        assert(queue@.last() == p);
                        assert forall|k: int| 0 <= k < n && #[trigger] visited@[k] implies queue@.contains(
                            k as usize,
                        ) by {
                            if k != p {
                                assert(vb[k]);
                                assert(qb.contains(k as usize));
                                let w = choose|w: int| 0 <= w < qb.len() && qb[w] == k as usize;
                                assert(queue@[w] == k as usize);
                            } else {
                                assert(queue@[queue@.len() - 1] == p);
                            }
                        }
                    }
                }
                proof {
                    assert(forall|k: int| 0 <= k < n && v_start[k] ==> #[trigger] visited@[k]);
                    assert forall|i: int, q: usize|
                        0 <= i < head && #[trigger] self.edge(queue@[i], q) implies visited@[q as int] by {
                        assert(queue@[i] == q_start[i]);
                        assert(self.edge(q_start[i], q));
                        assert(self.slot_ok(queue@[i] as int));
                    }
                    assert forall|jj: int| 0 <= jj < j + 1 implies visited@[#[trigger] ps@[jj] as int] by {
                        assert(self.edge(x, ps@[jj]));
                    }
                }
                j = j + 1;
            }
            proof {
                assert forall|p: usize| #[trigger] self.edge(x, p) implies visited@[p as int] by {
                    assert(ps@.contains(p));
                }
                vstd::set_lib::lemma_int_range(0, n as int);
                assert(seen.subset_of(vstd::set_lib::set_int_range(0, n as int)));
                vstd::set_lib::lemma_len_subset(seen, vstd::set_lib::set_int_range(0, n as int));
            }
            head = head + 1;
        }
        proof {
            assert forall|x: usize| #[trigger] queue@.contains(x) <==> self.reachable(root, x) by {
                if self.reachable(root, x) {
                    let path = choose|path: Seq<usize>| #[trigger] self.is_path(path) && path[0] == root
                        && path.last() == x;
                    assert forall|c: usize, p: usize|
                        queue@.contains(c) && #[trigger] self.edge(c, p) implies queue@.contains(p) by {
                        let i = choose|i: int| 0 <= i < queue@.len() && queue@[i] == c;
                        assert(self.edge(queue@[i], p));
                        assert(self.slot_ok(c as int));
                    }
                    assert(queue@[0] == root);
                    lemma_closed_holds_path(self, queue@, path);
                }
            }
        }
        queue
    }
}

impl BackwardGraph {
    /// The order in which the nodes of `discovered` take their backward step
    /// below a root of order `top`: the nodes are put in buckets by order,
    /// and the buckets from `top - 1` down to 1 are emptied in turn. Leaves
    /// (order 0) and nodes at `top` or above get no step.
    pub fn schedule(&self, discovered: &Vec<usize>, top: usize) -> (r: Vec<usize>)
        requires
            self.wf(),
            discovered@.no_duplicates(),
            forall|i: int| 0 <= i < discovered@.len() ==> self.has(#[trigger] discovered@[i] as int),
        ensures
            r@.no_duplicates(),
            forall|x: usize| #[trigger]
                r@.contains(x) <==> discovered@.contains(x) && 1 <= self.order_of(x as int) < top,
            forall|i: int, j: int|
                0 <= i < j < r@.len() ==> self.order_of(#[trigger] r@[i] as int) >= self.order_of(
                    #[trigger] r@[j] as int,
                ),
    {
        let mut tape: Vec<Vec<usize>> = Vec::new();
        while tape.len() < top
            invariant
                tape@.len() <= top,
                forall|k: int| 0 <= k < tape@.len() ==> (#[trigger] tape@[k])@.len() == 0,
            decreases top - tape@.len(),
        {
            tape.push(Vec::new());
        }
        let mut i: usize = 0;
        while i < discovered.len()
            invariant
                self.wf(),
                discovered@.no_duplicates(),
                forall|i: int| 0 <= i < discovered@.len() ==> self.has(#[trigger] discovered@[i] as int),
                i <= discovered@.len(),
                tape@.len() == top,
                forall|k: int| #![trigger tape@[k]]
                    0 <= k < top ==> tape@[k]@.no_duplicates() && forall|y: usize| #[trigger]
                        tape@[k]@.contains(y) <==> (exists|w: int| 0 <= w < i && discovered@[w] == y)
                            && 1 <= self.order_of(y as int) && self.order_of(y as int) == k,
            decreases discovered@.len() - i,
        {
            let x = discovered[i];
            let order = match &self.nodes[x] {
                Some(node) => node.order,
                None => 0,
            };
            let ghost t0 = tape@;
            if order != 0 && order < top {
                let mut bucket = Vec::new();
                std::mem::swap(&mut bucket, &mut tape[order]);
                proof {
                    assert(bucket@ == t0[order as int]@);
                    assert(!bucket@.contains(x)) by {
                        if bucket@.contains(x) {
                            let w = choose|w: int| 0 <= w < i && discovered@[w] == x;
                            assert(discovered@[i as int] == x);
                        }
                    }
                }
                bucket.push(x);
                tape.set(order, bucket);
                assert(tape@[order as int]@ == t0[order as int]@.push(x));
            }
            assert(order == self.order_of(x as int));
            assert(forall|k: int|
                0 <= k < top && (k != order || order == 0 || order >= top) ==> #[trigger] tape@[k] == t0[k]);
            proof {
                assert forall|k: int| #![trigger tape@[k]] 0 <= k < top implies tape@[k]@.no_duplicates()
                    && forall|y: usize| #[trigger]
                    tape@[k]@.contains(y) <==> (exists|w: int| 0 <= w < i + 1 && discovered@[w] == y)
                        && 1 <= self.order_of(y as int) && self.order_of(y as int) == k by {
                    assert(t0[k]@.no_duplicates());
                    if k == order && order != 0 && order < top {
                        assert forall|y: usize| #[trigger] tape@[k]@.contains(y) <==> (t0[k]@.contains(y) || y == x) by {
                            if tape@[k]@.contains(y) && y != x {
                                let w = choose|w: int| 0 <= w < tape@[k]@.len() && tape@[k]@[w] == y;
                                assert(t0[k]@[w] == y);
                            }
                            if y == x {
                                assert(tape@[k]@[t0[k]@.len() as int] == x);
                            }
                            if t0[k]@.contains(y) {
                                let w = choose|w: int| 0 <= w < t0[k]@.len() && t0[k]@[w] == y;
                                assert(tape@[k]@[w] == y);
                            }
                        }
                    }
                    assert forall|y: usize|
                        #[trigger] tape@[k]@.contains(y) <==> (exists|w: int|
                            0 <= w < i + 1 && discovered@[w] == y) && 1 <= self.order_of(y as int)
                            && self.order_of(y as int) == k by {
                        if (exists|w: int| 0 <= w < i + 1 && discovered@[w] == y) {
                            let w = choose|w: int| 0 <= w < i + 1 && discovered@[w] == y;
                            if w < i {
                                assert(t0[k]@.contains(y) || !(1 <= self.order_of(y as int)
                                    && self.order_of(y as int) == k));
                            } else {
                                assert(y == x);
                            }
                        }
                        if t0[k]@.contains(y) {
                            let w = choose|w: int| 0 <= w < i && discovered@[w] == y;
                            assert(0 <= w < i + 1 && discovered@[w] == y);
                        }
                    }
                }
            }
            i = i + 1;
        }
        let mut r: Vec<usize> = Vec::new();
        let mut level: usize = top;
        while level > 1
            invariant
                self.wf(),
                tape@.len() == top,
                level <= top,
                top >= 1 ==> level >= 1,
                forall|k: int| #![trigger tape@[k]]
                    0 <= k < top ==> tape@[k]@.no_duplicates() && forall|y: usize| #[trigger]
                        tape@[k]@.contains(y) <==> discovered@.contains(y)
                            && 1 <= self.order_of(y as int) && self.order_of(y as int) == k,
                r@.no_duplicates(),
                forall|x: usize| #[trigger]
                    r@.contains(x) <==> discovered@.contains(x) && level <= self.order_of(x as int) < top,
                forall|i: int, j: int|
                    0 <= i < j < r@.len() ==> self.order_of(#[trigger] r@[i] as int) >= self.order_of(
                        #[trigger] r@[j] as int,
                    ),
            decreases level,
        {
            level = level - 1;
            let bucket = &tape[level];
            let ghost r0 = r@;
            let mut j: usize = 0;
            while j < bucket.len()
                invariant
                    self.wf(),
                    1 <= level < top,
                    *bucket == tape@[level as int],
                    bucket@.no_duplicates(),
                    forall|y: usize| #[trigger]
                        bucket@.contains(y) <==> discovered@.contains(y) && self.order_of(y as int) == level,
                    forall|x: usize| #[trigger]
                        r0.contains(x) <==> discovered@.contains(x) && level < self.order_of(x as int) < top,
                    j <= bucket@.len(),
                    r@ == r0 + bucket@.subrange(0, j as int),
                    r0.no_duplicates(),
                    forall|i: int, j: int|
                        0 <= i < j < r0.len() ==> self.order_of(#[trigger] r0[i] as int) >= self.order_of(
                            #[trigger] r0[j] as int,
                        ),
                decreases bucket@.len() - j,
            {
                r.push(bucket[j]);
                j = j + 1;
                assert(r@ =~= r0 + bucket@.subrange(0, j as int));
            }
            proof {
                assert(bucket@.subrange(0, j as int) =~= bucket@);
                assert forall|i: int, k: int|
                    0 <= i < k < r@.len() implies self.order_of(#[trigger] r@[i] as int) >= self.order_of(
                        #[trigger] r@[k] as int,
                    ) by {
                    if k >= r0.len() {
                        assert(bucket@.contains(r@[k]));
                        if i >= r0.len() {
                            assert(bucket@.contains(r@[i]));
                        } else {
                            assert(r0.contains(r@[i]));
                        }
                    }
                }
                assert forall|x: usize| #[trigger] r@.contains(x) <==> discovered@.contains(x) && level
                    <= self.order_of(x as int) < top by {
                    if r@.contains(x) {
                        let w = choose|w: int| 0 <= w < r@.len() && r@[w] == x;
                        if w >= r0.len() {
                            assert(bucket@[w - r0.len()] == x);
                            assert(bucket@.contains(x));
                        } else {
                            assert(r0[w] == x);
                            assert(r0.contains(x));
                        }
                    }
                    if discovered@.contains(x) && level < self.order_of(x as int) < top {
                        assert(r0.contains(x));
                        let w = choose|w: int| 0 <= w < r0.len() && r0[w] == x;
                        assert(r@[w] == x);
                    }
                    if discovered@.contains(x) && self.order_of(x as int) == level {
                        assert(bucket@.contains(x));
                        let w = choose|w: int| 0 <= w < bucket@.len() && bucket@[w] == x;
                        assert(r@[r0.len() + w] == x);
                    }
                }
                assert(r@.no_duplicates()) by {
                    assert forall|a: int, b: int| 0 <= a < b < r@.len() implies r@[a] != r@[b] by {
                        if b >= r0.len() && a < r0.len() {
                            assert(r0.contains(r@[a]));
                            assert(bucket@.contains(r@[b]));
                        }
                    }
                }
            }
        }
        r
    }
}

} // verus!
