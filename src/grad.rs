use vstd::prelude::*;

use crate::matrix::Matrix;

verus! {

/// The final gradients of one backward pass, by node identity.
pub struct Gradients {
    pub grads: Vec<Option<Matrix>>,
}

impl Gradients {
    /// Whether a gradient was registered for node `id`.
    pub open spec fn has(&self, id: int) -> bool {
        0 <= id < self.grads@.len() && self.grads@[id] is Some
    }

    pub open spec fn grad(&self, id: int) -> Matrix {
        self.grads@[id].unwrap()
    }

    /// A store for `n` nodes with nothing registered.
    pub fn new(n: usize) -> (r: Gradients)
        ensures
            r.grads@.len() == n,
            forall|k: int| !#[trigger] r.has(k),
    {
        let mut grads: Vec<Option<Matrix>> = Vec::new();
        let mut i: usize = 0;
        while i < n
            invariant
                i <= n,
                grads@.len() == i,
                forall|k: int| 0 <= k < i ==> #[trigger] grads@[k] is None,
            decreases n - i,
        {
            grads.push(None);
            i = i + 1;
        }
        Gradients { grads }
    }

    /// Records `grad` as the final gradient of node `id`.
    pub fn register_grad(&mut self, id: usize, grad: Matrix)
        requires
            id < old(self).grads@.len(),
        ensures
            final(self).grads@ == old(self).grads@.update(id as int, Some(grad)),
    {
        self.grads.set(id, Some(grad));
    }

    /// The gradient of node `id`; `None` where the node took no part in the
    /// pass, which is not the same as a gradient of zeros.
    pub fn get(&self, id: usize) -> (r: Option<&Matrix>)
        ensures
            r is Some <==> self.has(id as int),
            r matches Some(m) ==> *m == self.grad(id as int),
    {
        if id < self.grads.len() {
            self.grads[id].as_ref()
        } else {
            None
        }
    }
}

} // verus!
