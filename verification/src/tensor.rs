//! The tensor value the engine schedules and caches.
//!
//! A tensor is a shape together with one 32-bit word per element. The engine
//! never interprets the words; what they encode (commonly IEEE-754
//! single-precision values) is the business of the backend that computes
//! with them.

use vstd::prelude::*;

use crate::errors::GPError;
use crate::errors::GPResult;
use crate::types::checked_dim_product;
use crate::types::clone_dims;
use crate::types::dim_product;
use crate::types::dims_equal;
use crate::types::Device;
use crate::types::Shape;

verus! {

/// The mathematical content of a [`Tensor`]: its element words and its shape.
#[verifier::ext_equal]
pub struct TensorView {
    pub data: Seq<u32>,
    pub shape: Seq<usize>,
}

impl TensorView {
    /// A tensor is well formed when it holds exactly one word per element of
    /// its shape.
    pub open spec fn wf(&self) -> bool {
        self.data.len() == dim_product(self.shape)
    }
}

/// An N-dimensional tensor: a shape and one opaque 32-bit word per element.
#[derive(Debug)]
pub struct Tensor {
    data: Vec<u32>,
    shape: Shape,
}

impl View for Tensor {
    type V = TensorView;

    closed spec fn view(&self) -> TensorView {
        TensorView { data: self.data@, shape: self.shape@ }
    }
}

impl Tensor {
    /// The type invariant: every tensor value is well formed.
    #[verifier::type_invariant]
    pub open spec fn type_inv(&self) -> bool {
        self@.wf()
    }

    /// Builds a tensor from raw element words and a dimension list. Fails
    /// with an incompatible-shapes error when the word count does not match
    /// the shape's element count.
    pub fn from_bits(data: Vec<u32>, dims: Vec<usize>) -> (r: GPResult<Tensor>)
        ensures
            r matches Ok(t) ==> t@.data == data@ && t@.shape == dims@,
            r is Ok <==> data@.len() == dim_product(dims@),
            r is Err ==> r matches Err(GPError::IncompatibleShapes { .. }),
    {
        let expected = match checked_dim_product(&dims) {
            Some(p) => p,
            None => {
                let len = data.len();
                return Err(GPError::IncompatibleShapes {
                    expected: dims,
                    found: Vec::new(),
                    exp_len: 0,
                    found_len: len,
                });
            },
        };
        if data.len() != expected {
            let len = data.len();
            return Err(GPError::IncompatibleShapes {
                expected: dims,
                found: Vec::new(),
                exp_len: expected,
                found_len: len,
            });
        }
        Ok(Tensor { data, shape: Shape(dims) })
    }

    /// A tensor of the given shape with every element word zero.
    pub fn new_zeros(dims: &[usize]) -> (r: Tensor)
        requires
            dim_product(dims@) <= usize::MAX,
        ensures
            r@.shape == dims@,
            r@.data.len() == dim_product(dims@),
            forall|i: int| 0 <= i < r@.data.len() ==> r@.data[i] == 0u32,
    {
        let shape = Shape::from_slice(dims);
        let n = match checked_dim_product(&shape.0) {
            Some(p) => p,
            None => {
                proof {
                    assert(false);
                }
                0
            },
        };
        let mut data: Vec<u32> = Vec::new();
        let mut i: usize = 0;
        while i < n
            invariant
                0 <= i <= n,
                data@.len() == i,
                forall|j: int| 0 <= j < i ==> data@[j] == 0u32,
            decreases n - i,
        {
            data.push(0u32);
            i = i + 1;
        }
        Tensor { data, shape }
    }

    /// The dimension sizes of this tensor.
    pub fn shape(&self) -> (r: &[usize])
        ensures
            r@ == self@.shape,
    {
        self.shape.as_slice()
    }

    pub fn ndim(&self) -> (r: usize)
        ensures
            r == self@.shape.len(),
    {
        self.shape.ndim()
    }

    /// The number of elements (and of element words).
    pub fn len(&self) -> (r: usize)
        ensures
            r == self@.data.len(),
            r == dim_product(self@.shape),
    {
        proof {
            use_type_invariant(self);
        }
        self.data.len()
    }

    /// The raw element words, in row-major order.
    pub fn as_bits(&self) -> (r: &Vec<u32>)
        ensures
            r@ == self@.data,
    {
        &self.data
    }

    /// Overwrites this tensor's element words with another's, keeping the
    /// shape. Fails with an incompatible-shapes error when the element
    /// counts differ.
    pub fn copy_from(&mut self, other: &Tensor) -> (r: GPResult<()>)
        ensures
            r is Ok <==> old(self)@.data.len() == other@.data.len(),
            r is Ok ==> final(self)@.data == other@.data && final(self)@.shape == old(self)@.shape,
            r is Err ==> *final(self) == *old(self) && r matches Err(
                GPError::IncompatibleShapes { .. },
            ),
    {
        proof {
            use_type_invariant(&*self);
            use_type_invariant(other);
        }
        if self.data.len() != other.data.len() {
            let exp_len = self.data.len();
            let found_len = other.data.len();
            return Err(GPError::IncompatibleShapes {
                expected: clone_dims(&self.shape.0),
                found: clone_dims(&other.shape.0),
                exp_len,
                found_len,
            });
        }
        let shape = Shape(clone_dims(&self.shape.0));
        let data = clone_words(&other.data);
        *self = Tensor { data, shape };
        Ok(())
    }

    /// The same element words under a new shape. Fails with an
    /// incompatible-shapes error when the new shape's element count differs.
    pub fn into_shape(self, dims: &[usize]) -> (r: GPResult<Tensor>)
        ensures
            r is Ok <==> self@.data.len() == dim_product(dims@),
            r matches Ok(t) ==> t@.data == self@.data && t@.shape == dims@,
            r is Err ==> r matches Err(GPError::IncompatibleShapes { .. }),
    {
        proof {
            use_type_invariant(&self);
        }
        let shape = Shape::from_slice(dims);
        let n = match checked_dim_product(&shape.0) {
            Some(p) => p,
            None => {
                let found_len = self.data.len();
                return Err(GPError::IncompatibleShapes {
                    expected: shape.0,
                    found: self.shape.0,
                    exp_len: 0,
                    found_len,
                });
            },
        };
        if self.data.len() != n {
            let found_len = self.data.len();
            return Err(GPError::IncompatibleShapes {
                expected: shape.0,
                found: self.shape.0,
                exp_len: n,
                found_len,
            });
        }
        Ok(Tensor { data: self.data, shape })
    }

    /// Identity; kept for parity with callers that normalize dimensionality.
    pub fn into_dyn(self) -> (r: Self)
        ensures
            r@ == self@,
    {
        self
    }

    /// The device this tensor's storage lives on.
    pub fn device(&self) -> (r: Device)
        ensures
            r == Device::Cpu,
    {
        Device::Cpu
    }
}

impl Clone for Tensor {
    fn clone(&self) -> (r: Self)
        ensures
            r@ == self@,
    {
        proof {
            use_type_invariant(self);
        }
        Tensor { data: clone_words(&self.data), shape: self.shape.clone() }
    }
}

impl PartialEq for Tensor {
    fn eq(&self, other: &Self) -> (r: bool)
        ensures
            r == (self@.data == other@.data && self@.shape == other@.shape),
    {
        words_equal(&self.data, &other.data) && dims_equal(&self.shape.0, &other.shape.0)
    }
}

impl vstd::std_specs::cmp::PartialEqSpecImpl for Tensor {
    open spec fn obeys_eq_spec() -> bool {
        true
    }

    open spec fn eq_spec(&self, other: &Self) -> bool {
        self@.data == other@.data && self@.shape == other@.shape
    }
}

/// Copies a vector of element words.
pub fn clone_words(words: &Vec<u32>) -> (r: Vec<u32>)
    ensures
        r@ == words@,
{
    let mut out: Vec<u32> = Vec::new();
    let mut i: usize = 0;
    while i < words.len()
        invariant
            0 <= i <= words.len(),
            out@ == words@.subrange(0, i as int),
        decreases words.len() - i,
    {
        out.push(words[i]);
        proof {
            assert(out@ =~= words@.subrange(0, i + 1));
        }
        i = i + 1;
    }
    proof {
        assert(out@ =~= words@);
    }
    out
}

/// Compares two vectors of element words.
pub fn words_equal(a: &Vec<u32>, b: &Vec<u32>) -> (r: bool)
    ensures
        r == (a@ == b@),
{
    if a.len() != b.len() {
        proof {
            assert(a@.len() != b@.len());
        }
        return false;
    }
    let mut i: usize = 0;
    while i < a.len()
        invariant
            0 <= i <= a.len(),
            a@.len() == b@.len(),
            forall|j: int| 0 <= j < i ==> a@[j] == b@[j],
        decreases a.len() - i,
    {
        if a[i] != b[i] {
            return false;
        }
        i = i + 1;
    }
    proof {
        assert(a@ =~= b@);
    }
    true
}

} // verus!
