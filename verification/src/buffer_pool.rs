//! Physical storage for the memory planner's logical buffer indices.

use vstd::prelude::*;

use crate::tensor::Tensor;
use crate::tensor::TensorView;
use crate::types::dim_product;
use crate::types::slices_equal;
use crate::types::Shape;

verus! {

/// A pool of reusable buffers, one slot per logical buffer index of a
/// memory plan.
pub struct BufferPool {
    buffers: Vec<Option<Tensor>>,
}

impl BufferPool {
    /// The pool's slots, as mathematical content.
    pub closed spec fn view(&self) -> Seq<Option<TensorView>> {
        Seq::new(self.buffers@.len(), |i: int| match self.buffers@[i] {
            Some(t) => Some(t@),
            None => None,
        })
    }

    /// An empty pool with `count` slots.
    pub fn new(count: usize) -> (r: Self)
        ensures
            r.view().len() == count,
            forall|i: int| 0 <= i < count ==> r.view()[i] is None,
    {
        let mut buffers: Vec<Option<Tensor>> = Vec::new();
        let mut i: usize = 0;
        while i < count
            invariant
                buffers@.len() == i <= count,
                forall|j: int| 0 <= j < i ==> buffers@[j] is None,
            decreases count - i,
        {
            buffers.push(None);
            i = i + 1;
        }
        BufferPool { buffers }
    }

    /// Returns the buffer for a slot: the existing allocation when its shape
    /// matches the request (zero-allocation reuse across repeated
    /// executions of a static graph), otherwise fresh zeroed storage that
    /// replaces the slot's entry.
    pub fn get_buffer(&mut self, idx: usize, shape: Shape) -> (r: Tensor)
        requires
            (idx as int) < old(self).view().len(),
            dim_product(shape@) <= usize::MAX,
        ensures
            r@.shape == shape@,
            final(self).view().len() == old(self).view().len(),
            final(self).view()[idx as int] == Some(r@),
            forall|i: int|
                0 <= i < final(self).view().len() && i != idx ==> final(self).view()[i] == old(
                    self,
                ).view()[i],
            match old(self).view()[idx as int] {
                Some(t) => t.shape == shape@ ==> (r@ == t && final(self).view() == old(
                    self,
                ).view()),
                None => true,
            },
            // a fresh or replaced slot hands out zeroed storage
            (match old(self).view()[idx as int] {
                Some(t) => t.shape != shape@,
                None => true,
            }) ==> forall|k: int| 0 <= k < r@.data.len() ==> r@.data[k] == 0u32,
    {
        let reusable = match &self.buffers[idx] {
            Some(existing) => slices_equal(existing.shape(), shape.as_slice()),
            None => false,
        };
        if reusable {
            let r = match &self.buffers[idx] {
                Some(existing) => existing.clone(),
                None => {
                    proof {
                        assert(false);
                    }
                    Tensor::new_zeros(shape.as_slice())
                },
            };
            proof {
                assert(final(self).view() =~= old(self).view());
            }
            return r;
        }
        let fresh = Tensor::new_zeros(shape.as_slice());
        let copy = fresh.clone();
        self.buffers[idx] = Some(fresh);
        proof {
            assert(final(self).view()[idx as int] == Some(copy@));
        }
        copy
    }
}

} // verus!
