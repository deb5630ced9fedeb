use burn_tensor::grad::Gradients;
use burn_tensor::graph::{ForwardGraph, GraphError};
use burn_tensor::matrix::Matrix;

fn mat(rows: Vec<Vec<i64>>) -> Matrix {
    let cols = rows[0].len();
    Matrix::from_rows(rows, cols).unwrap()
}

fn grad_of(grads: &Gradients, id: usize) -> Vec<Vec<i64>> {
    grads.get(id).unwrap().data.clone()
}

#[test]
fn should_diff_matmul() {
    let mut g = ForwardGraph::new();
    let tensor_1 = g.leaf(mat(vec![vec![1, 7], vec![2, 3]]));
    let tensor_2 = g.leaf(mat(vec![vec![4, 7], vec![2, 3]]));

    let tensor_3 = g.matmul(tensor_1, tensor_2).unwrap();
    let grads = g.backward(tensor_3).unwrap();

    assert_eq!(grad_of(&grads, tensor_1), vec![vec![11, 5], vec![11, 5]]);
    assert_eq!(grad_of(&grads, tensor_2), vec![vec![3, 3], vec![10, 10]]);
    assert_eq!(g.value(tensor_3).data, vec![vec![18, 28], vec![14, 23]]);
}

#[test]
fn test_matmul_complex_1() {
    let mut g = ForwardGraph::new();
    let tensor_1 = g.leaf(mat(vec![vec![1, 7], vec![13, -3]]));
    let tensor_2 = g.leaf(mat(vec![vec![4, 7], vec![2, 3]]));
    let tensor_3 = g.leaf(mat(vec![vec![2, 2], vec![2, 2]]));

    let tensor_4 = g.matmul(tensor_1, tensor_2).unwrap();
    let tensor_5 = g.matmul(tensor_4, tensor_3).unwrap();

    let grads = g.backward(tensor_5).unwrap();

    assert_eq!(grad_of(&grads, tensor_1), vec![vec![44, 20], vec![44, 20]]);
    assert_eq!(grad_of(&grads, tensor_2), vec![vec![56, 56], vec![16, 16]]);
}

#[test]
fn test_matmul_complex_2() {
    let mut g = ForwardGraph::new();
    let tensor_1 = g.leaf(mat(vec![vec![1, 7], vec![13, -3]]));
    let tensor_2 = g.leaf(mat(vec![vec![4, 7], vec![2, 3]]));
    let tensor_3 = g.leaf(mat(vec![vec![2, 2], vec![2, 2]]));

    let tensor_4 = g.matmul(tensor_1, tensor_2).unwrap();
    let tensor_5 = g.matmul(tensor_4, tensor_3).unwrap();
    let tensor_6 = g.matmul(tensor_1, tensor_5).unwrap();

    let grads = g.backward(tensor_6).unwrap();

    assert_eq!(grad_of(&grads, tensor_1), vec![vec![800, 792], vec![360, 592]]);
    assert_eq!(grad_of(&grads, tensor_2), vec![vec![264, 264], vec![344, 344]]);
}

#[test]
fn diamond_sums_both_paths() {
    // d = a + (a * b): the gradient of a is ones + ones * b^T.
    let mut g = ForwardGraph::new();
    let a = g.leaf(mat(vec![vec![1, 2], vec![3, 4]]));
    let b = g.leaf(mat(vec![vec![5, 6], vec![7, 8]]));
    let c = g.matmul(a, b).unwrap();
    let d = g.add(a, c).unwrap();
    let grads = g.backward(d).unwrap();
    // ones * b^T = [[11, 15], [11, 15]], plus ones.
    assert_eq!(grad_of(&grads, a), vec![vec![12, 16], vec![12, 16]]);
    // a^T * ones = [[4, 4], [6, 6]].
    assert_eq!(grad_of(&grads, b), vec![vec![4, 4], vec![6, 6]]);
    assert_eq!(grad_of(&grads, c), vec![vec![1, 1], vec![1, 1]]);
}

#[test]
fn fan_out_equals_sum_of_separate_graphs() {
    // Shared: y = a * a. Separate: y = a * a2 with a2 a copy of a.
    let rows = vec![vec![1, 2], vec![3, 4]];
    let mut shared = ForwardGraph::new();
    let a = shared.leaf(mat(rows.clone()));
    let y = shared.matmul(a, a).unwrap();
    let gs = shared.backward(y).unwrap();

    let mut split = ForwardGraph::new();
    let a1 = split.leaf(mat(rows.clone()));
    let a2 = split.leaf(mat(rows));
    let y2 = split.matmul(a1, a2).unwrap();
    let gp = split.backward(y2).unwrap();

    let g1 = grad_of(&gp, a1);
    let g2 = grad_of(&gp, a2);
    let expected: Vec<Vec<i64>> = (0..2)
        .map(|i| (0..2).map(|j| g1[i][j] + g2[i][j]).collect())
        .collect();
    assert_eq!(grad_of(&gs, a), expected);
    assert_eq!(expected, vec![vec![7, 11], vec![9, 13]]);
}

#[test]
fn add_of_same_node_counts_twice() {
    let mut g = ForwardGraph::new();
    let a = g.leaf(mat(vec![vec![1, -1, 2]]));
    let s = g.add(a, a).unwrap();
    let grads = g.backward(s).unwrap();
    assert_eq!(grad_of(&grads, a), vec![vec![2, 2, 2]]);
    assert_eq!(g.value(s).data, vec![vec![2, -2, 4]]);
}

#[test]
fn transpose_passes_transposed_gradient() {
    let mut g = ForwardGraph::new();
    let a = g.leaf(mat(vec![vec![1, 2, 3], vec![4, 5, 6]]));
    let w = g.leaf(mat(vec![vec![1, 0], vec![0, 2], vec![3, 0]]));
    let t = g.transpose(a).unwrap();
    assert_eq!(g.value(t).data, vec![vec![1, 4], vec![2, 5], vec![3, 6]]);
    // p = w^T * t is 2x2.
    let wt = g.transpose(w).unwrap();
    let p = g.matmul(wt, t).unwrap();
    let grads = g.backward(p).unwrap();
    // grad t = w * ones = [[1, 1], [2, 2], [3, 3]]; grad a is its transpose.
    assert_eq!(grad_of(&grads, t), vec![vec![1, 1], vec![2, 2], vec![3, 3]]);
    assert_eq!(grad_of(&grads, a), vec![vec![1, 2, 3], vec![1, 2, 3]]);
}

#[test]
fn root_gradient_is_ones_of_its_shape() {
    let mut g = ForwardGraph::new();
    let a = g.leaf(mat(vec![vec![1, 2, 3], vec![4, 5, 6]]));
    let b = g.leaf(mat(vec![vec![1], vec![1], vec![1]]));
    let c = g.matmul(a, b).unwrap();
    let grads = g.backward(c).unwrap();
    assert_eq!(grad_of(&grads, c), vec![vec![1], vec![1]]);
    assert_eq!(grad_of(&grads, a), vec![vec![1, 1, 1], vec![1, 1, 1]]);
    assert_eq!(grad_of(&grads, b), vec![vec![5], vec![7], vec![9]]);
}

#[test]
fn backward_of_a_leaf_is_ones() {
    let mut g = ForwardGraph::new();
    let a = g.leaf(mat(vec![vec![3, 4]]));
    let grads = g.backward(a).unwrap();
    assert_eq!(grad_of(&grads, a), vec![vec![1, 1]]);
}

#[test]
fn nodes_off_the_path_have_no_gradient() {
    let mut g = ForwardGraph::new();
    let a = g.leaf(mat(vec![vec![1, 2]]));
    let b = g.leaf(mat(vec![vec![3, 4]]));
    let unused = g.leaf(mat(vec![vec![5, 6]]));
    let c = g.add(a, b).unwrap();
    let later = g.add(c, unused).unwrap();
    let grads = g.backward(c).unwrap();
    assert!(grads.get(unused).is_none());
    assert!(grads.get(later).is_none());
    assert!(grads.get(100).is_none());
    assert_eq!(grad_of(&grads, a), vec![vec![1, 1]]);
}

#[test]
fn order_is_one_above_the_highest_parent() {
    let mut g = ForwardGraph::new();
    let a = g.leaf(mat(vec![vec![1]]));
    let b = g.leaf(mat(vec![vec![2]]));
    let c = g.add(a, b).unwrap();
    let d = g.matmul(c, a).unwrap();
    let e = g.add(d, b).unwrap();
    assert_eq!(g.order(a), 0);
    assert_eq!(g.order(b), 0);
    assert_eq!(g.order(c), 1);
    assert_eq!(g.order(d), 2);
    assert_eq!(g.order(e), 3);
    for id in 0..g.len() {
        for p in g.nodes[id].op.parent_list() {
            assert!(g.order(p) < g.order(id));
        }
    }
}

#[test]
fn unknown_node_is_refused() {
    let mut g = ForwardGraph::new();
    let a = g.leaf(mat(vec![vec![1]]));
    assert_eq!(g.add(a, 7), Err(GraphError::UnknownNode));
    assert_eq!(g.matmul(9, a), Err(GraphError::UnknownNode));
    assert_eq!(g.transpose(3), Err(GraphError::UnknownNode));
    assert!(matches!(g.backward(5), Err(GraphError::UnknownNode)));
    assert_eq!(g.len(), 1);
}

#[test]
fn shape_mismatch_is_refused() {
    let mut g = ForwardGraph::new();
    let a = g.leaf(mat(vec![vec![1, 2]]));
    let b = g.leaf(mat(vec![vec![1, 2, 3]]));
    assert_eq!(g.add(a, b), Err(GraphError::ShapeMismatch));
    assert_eq!(g.matmul(a, b), Err(GraphError::ShapeMismatch));
}

#[test]
fn overflow_is_reported() {
    let mut g = ForwardGraph::new();
    let a = g.leaf(mat(vec![vec![i64::MAX]]));
    let two = g.leaf(mat(vec![vec![2]]));
    assert_eq!(g.add(a, a), Err(GraphError::Overflow));
    assert_eq!(g.matmul(a, two), Err(GraphError::Overflow));
    // Forward values fit: y = MAX * 0 = 0 and z = 2 * 0 = 0. The gradient
    // of `zero` is MAX * 2, which does not.
    let zero = g.leaf(mat(vec![vec![0]]));
    let y = g.matmul(a, zero).unwrap();
    let z = g.matmul(two, y).unwrap();
    assert_eq!(g.value(z).data, vec![vec![0]]);
    assert!(matches!(g.backward(z), Err(GraphError::Overflow)));
    let grads = g.backward(y).unwrap();
    assert_eq!(grad_of(&grads, zero), vec![vec![i64::MAX]]);
}
