use burn_tensor::backward::BackwardNode;
use burn_tensor::converter::Forward2BackwardGraphConverter;
use burn_tensor::graph::ForwardGraph;
use burn_tensor::matrix::Matrix;

fn scalar(v: i64) -> Matrix {
    Matrix::from_rows(vec![vec![v]], 1).unwrap()
}

// a, b leaves; c = a + b; d = c * a; e = d + c: a and c are reached on
// several paths.
fn diamond() -> (ForwardGraph, [usize; 5]) {
    let mut g = ForwardGraph::new();
    let a = g.leaf(scalar(2));
    let b = g.leaf(scalar(3));
    let c = g.add(a, b).unwrap();
    let d = g.matmul(c, a).unwrap();
    let e = g.add(d, c).unwrap();
    (g, [a, b, c, d, e])
}

#[test]
fn converter_converts_each_node_once() {
    let (g, [a, b, c, d, e]) = diamond();
    let unused = 5;
    let mut g = g;
    assert_eq!(g.leaf(scalar(9)), unused);
    let mut conv = Forward2BackwardGraphConverter::new(g.len());
    conv.convert(&g, e);
    for id in [a, b, c, d, e] {
        let node = conv.graph.nodes[id].as_ref().unwrap();
        assert_eq!(node.id, id);
        assert_eq!(node.order, g.order(id));
    }
    assert!(conv.graph.nodes[unused].is_none());
    let node = BackwardNode::from_node(&g.nodes[d], &mut conv, &g);
    assert_eq!(node.value.data, vec![vec![10]]);
}

#[test]
fn traversal_visits_each_reachable_node_once() {
    let (g, [a, b, c, d, e]) = diamond();
    let mut conv = Forward2BackwardGraphConverter::new(g.len());
    conv.convert(&g, e);
    let found = conv.graph.traverse(e);
    assert_eq!(found[0], e);
    let mut sorted = found.clone();
    sorted.sort();
    assert_eq!(sorted, vec![a, b, c, d, e]);
}

#[test]
fn schedule_skips_leaves_and_root_and_goes_down() {
    let (g, [_a, _b, c, d, e]) = diamond();
    let mut conv = Forward2BackwardGraphConverter::new(g.len());
    conv.convert(&g, e);
    let found = conv.graph.traverse(e);
    let steps = conv.graph.schedule(&found, g.order(e));
    assert_eq!(steps, vec![d, c]);
}

#[test]
fn seeded_gradient_is_ones() {
    let mut g = ForwardGraph::new();
    let a = g.leaf(Matrix::from_rows(vec![vec![4, 5, 6]], 3).unwrap());
    let mut conv = Forward2BackwardGraphConverter::new(g.len());
    conv.convert(&g, a);
    let root = conv.graph.nodes[a].as_ref().unwrap();
    let seeded = root.seed_gradients(1);
    assert_eq!(seeded[0].as_ref().unwrap().data, vec![vec![1, 1, 1]]);
}

#[test]
fn backward_step_of_a_leaf_changes_nothing() {
    let mut g = ForwardGraph::new();
    let a = g.leaf(scalar(4));
    let b = g.leaf(scalar(5));
    let c = g.matmul(a, b).unwrap();
    let mut conv = Forward2BackwardGraphConverter::new(g.len());
    conv.convert(&g, c);
    let mut grads = vec![Some(scalar(1)), None, Some(scalar(1))];
    conv.graph.backward_step(a, &mut grads).unwrap();
    assert_eq!(grads[0].as_ref().unwrap().data, vec![vec![1]]);
    assert!(grads[1].is_none());
    conv.graph.backward_step(c, &mut grads).unwrap();
    // a held 1 and receives 1 * 5; b receives 4 * 1.
    assert_eq!(grads[0].as_ref().unwrap().data, vec![vec![6]]);
    assert_eq!(grads[1].as_ref().unwrap().data, vec![vec![4]]);
}

#[test]
fn update_grad_adds_and_never_overwrites() {
    let mut grads = vec![None, None];
    burn_tensor::backward::update_grad(&mut grads, 1, scalar(3)).unwrap();
    burn_tensor::backward::update_grad(&mut grads, 1, scalar(4)).unwrap();
    assert_eq!(grads[1].as_ref().unwrap().data, vec![vec![7]]);
    assert!(grads[0].is_none());
}

#[test]
fn root_backward_matches_graph_backward() {
    let (g, [a, b, _c, _d, e]) = diamond();
    let mut conv = Forward2BackwardGraphConverter::new(g.len());
    conv.convert(&g, e);
    let root = conv.graph.nodes[e].as_ref().unwrap();
    let grads = root.backward(&conv.graph).unwrap();
    // e = (a + b) * a + (a + b): de/da = (2a + b) + 1 = 8, de/db = a + 1 = 3.
    assert_eq!(grads.get(a).unwrap().data, vec![vec![8]]);
    assert_eq!(grads.get(b).unwrap().data, vec![vec![3]]);
    let again = g.backward(e).unwrap();
    assert_eq!(again.get(a).unwrap().data, vec![vec![8]]);
}

#[test]
fn backward_node_reports_identity_order_and_parents() {
    let (g, [a, _b, c, d, _e]) = diamond();
    let mut conv = Forward2BackwardGraphConverter::new(g.len());
    conv.convert(&g, d);
    let node = conv.graph.nodes[d].as_ref().unwrap();
    assert_eq!(node.id(), d);
    assert_eq!(node.order(), 2);
    assert_eq!(node.backward_parents(), vec![c, a]);
    let leaf = conv.graph.nodes[a].as_ref().unwrap();
    assert!(leaf.backward_parents().is_empty());
}
