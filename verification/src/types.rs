//! Core identifier and shape types shared by the whole engine.

use vstd::prelude::*;

verus! {

/// Unique identifier for a node in the computation graph. Identifiers are
/// dense indices assigned in construction order.
#[derive(Debug, Clone, Copy, PartialEq, Eq, Structural, Hash)]
pub struct NodeId(pub usize);

/// Identifies the physical device a tensor lives on.
#[derive(Debug, Clone, Copy, PartialEq, Eq, Structural)]
pub enum Device {
    Cpu,
}

/// The product of all dimension sizes of a shape: the number of elements a
/// tensor of this shape holds.
pub open spec fn dim_product(dims: Seq<usize>) -> int
    decreases dims.len(),
{
    if dims.len() == 0 {
        1
    } else {
        dim_product(dims.drop_last()) * (dims.last() as int)
    }
}

pub proof fn lemma_dim_product_nonneg(dims: Seq<usize>)
    ensures
        dim_product(dims) >= 0,
    decreases dims.len(),
{
    if dims.len() > 0 {
        lemma_dim_product_nonneg(dims.drop_last());
    }
}

/// A shape with a zero dimension holds no elements.
pub proof fn lemma_dim_product_zero(dims: Seq<usize>, i: int)
    requires
        0 <= i < dims.len(),
        dims[i] == 0,
    ensures
        dim_product(dims) == 0,
    decreases dims.len(),
{
    if i + 1 == dims.len() {
        assert(dim_product(dims.drop_last()) * 0 == 0) by (nonlinear_arith);
    } else {
        lemma_dim_product_zero(dims.drop_last(), i);
        assert(0 * (dims.last() as int) == 0) by (nonlinear_arith);
    }
}

/// Computes the element count of a shape, or `None` when it does not fit in
/// `usize`.
pub fn checked_dim_product(dims: &Vec<usize>) -> (r: Option<usize>)
    ensures
        match r {
            Some(p) => p == dim_product(dims@),
            None => dim_product(dims@) > usize::MAX,
        },
{
    let mut k: usize = 0;
    while k < dims.len()
        invariant
            0 <= k <= dims.len(),
            forall|j: int| 0 <= j < k ==> dims@[j] >= 1,
        decreases dims.len() - k,
    {
        if dims[k] == 0 {
            proof {
                lemma_dim_product_zero(dims@, k as int);
            }
            return Some(0);
        }
        k = k + 1;
    }
    let mut acc: usize = 1;
    let mut i: usize = 0;
    while i < dims.len()
        invariant
            0 <= i <= dims.len(),
            acc == dim_product(dims@.subrange(0, i as int)),
            forall|j: int| 0 <= j < dims@.len() ==> dims@[j] >= 1,
        decreases dims.len() - i,
    {
        proof {
            assert(dims@.subrange(0, i + 1).drop_last() =~= dims@.subrange(0, i as int));
            assert(dims@.subrange(0, i + 1).last() == dims@[i as int]);
        }
        match acc.checked_mul(dims[i]) {
            Some(next) => {
                acc = next;
            },
            None => {
                proof {
                    lemma_dim_product_suffix_bound(dims@, i as int);
                }
                return None;
            },
        }
        i = i + 1;
    }
    proof {
        assert(dims@.subrange(0, dims.len() as int) =~= dims@);
    }
    Some(acc)
}

/// If every dimension is positive and the product of a prefix together with
/// the next dimension already overflows, the whole product overflows.
proof fn lemma_dim_product_suffix_bound(dims: Seq<usize>, i: int)
    requires
        0 <= i < dims.len(),
        forall|j: int| 0 <= j < dims.len() ==> dims[j] >= 1,
        dim_product(dims.subrange(0, i)) * (dims[i] as int) > usize::MAX,
    ensures
        dim_product(dims) > usize::MAX,
    decreases dims.len() - i,
{
    assert(dims.subrange(0, i + 1).drop_last() =~= dims.subrange(0, i));
    assert(dims.subrange(0, i + 1).last() == dims[i]);
    if i + 1 == dims.len() {
        assert(dims.subrange(0, i + 1) =~= dims);
    } else {
        let p = dim_product(dims.subrange(0, i + 1));
        assert(p > usize::MAX);
        lemma_dim_product_nonneg(dims.subrange(0, i + 1));
        assert(p * (dims[i + 1] as int) >= p) by (nonlinear_arith)
            requires
                p >= 0,
                dims[i + 1] as int >= 1,
        ;
        lemma_dim_product_suffix_bound(dims, i + 1);
    }
}

/// Represents the shape of a tensor: an ordered list of dimension sizes.
#[derive(Debug)]
pub struct Shape(pub Vec<usize>);

impl View for Shape {
    type V = Seq<usize>;

    open spec fn view(&self) -> Seq<usize> {
        self.0@
    }
}

impl Shape {
    pub fn from_slice(dims: &[usize]) -> (r: Self)
        ensures
            r@ == dims@,
    {
        let mut out: Vec<usize> = Vec::new();
        let mut i: usize = 0;
        while i < dims.len()
            invariant
                0 <= i <= dims@.len(),
                out@ == dims@.subrange(0, i as int),
            decreases dims@.len() - i,
        {
            out.push(dims[i]);
            proof {
                assert(out@ =~= dims@.subrange(0, i + 1));
            }
            i = i + 1;
        }
        proof {
            assert(out@ =~= dims@);
        }
        Shape(out)
    }

    pub fn as_slice(&self) -> (r: &[usize])
        ensures
            r@ == self@,
    {
        self.0.as_slice()
    }

    pub fn ndim(&self) -> (r: usize)
        ensures
            r == self@.len(),
    {
        self.0.len()
    }

    /// The number of elements a tensor of this shape holds.
    pub fn size(&self) -> (r: usize)
        requires
            dim_product(self@) <= usize::MAX,
        ensures
            r == dim_product(self@),
    {
        match checked_dim_product(&self.0) {
            Some(p) => p,
            None => {
                proof {
                    assert(false);
                }
                0
            },
        }
    }

    /// Same as [`Shape::size`]; kept as the name some callers use.
    pub fn len(&self) -> (r: usize)
        requires
            dim_product(self@) <= usize::MAX,
        ensures
            r == dim_product(self@),
    {
        self.size()
    }
}

impl Clone for Shape {
    fn clone(&self) -> (r: Self)
        ensures
            r@ == self@,
    {
        Shape(clone_dims(&self.0))
    }
}

impl PartialEq for Shape {
    fn eq(&self, other: &Self) -> (r: bool)
        ensures
            r == (self@ == other@),
    {
        dims_equal(&self.0, &other.0)
    }
}

impl vstd::std_specs::cmp::PartialEqSpecImpl for Shape {
    open spec fn obeys_eq_spec() -> bool {
        true
    }

    open spec fn eq_spec(&self, other: &Self) -> bool {
        self@ == other@
    }
}

impl From<Vec<usize>> for Shape {
    fn from(dims: Vec<usize>) -> (r: Self)
        ensures
            r@ == dims@,
    {
        Shape(dims)
    }
}

impl vstd::std_specs::convert::FromSpecImpl<Vec<usize>> for Shape {
    open spec fn obeys_from_spec() -> bool {
        true
    }

    open spec fn from_spec(dims: Vec<usize>) -> Self {
        Shape(dims)
    }
}

/// Copies a dimension list.
pub fn clone_dims(dims: &Vec<usize>) -> (r: Vec<usize>)
    ensures
        r@ == dims@,
{
    let mut out: Vec<usize> = Vec::new();
    let mut i: usize = 0;
    while i < dims.len()
        invariant
            0 <= i <= dims.len(),
            out@ == dims@.subrange(0, i as int),
        decreases dims.len() - i,
    {
        out.push(dims[i]);
        proof {
            assert(out@ =~= dims@.subrange(0, i + 1));
        }
        i = i + 1;
    }
    proof {
        assert(out@ =~= dims@);
    }
    out
}

/// Compares two dimension slices element by element.
pub fn slices_equal(a: &[usize], b: &[usize]) -> (r: bool)
    ensures
        r == (a@ == b@),
{
    if a.len() != b.len() {
        proof {
            assert(a@.len() != b@.len());
        }
        return false;
    }
    let mut i: usize = 0;
    while i < a.len()
        invariant
            0 <= i <= a@.len(),
            a@.len() == b@.len(),
            forall|j: int| 0 <= j < i ==> a@[j] == b@[j],
        decreases a@.len() - i,
    {
        if a[i] != b[i] {
            return false;
        }
        i = i + 1;
    }
    proof {
        assert(a@ =~= b@);
    }
    true
}

/// Compares two dimension lists element by element.
pub fn dims_equal(a: &Vec<usize>, b: &Vec<usize>) -> (r: bool)
    ensures
        r == (a@ == b@),
{
    if a.len() != b.len() {
        proof {
            assert(a@.len() != b@.len());
        }
        return false;
    }
    let mut i: usize = 0;
    while i < a.len()
        invariant
            0 <= i <= a.len(),
            a@.len() == b@.len(),
            forall|j: int| 0 <= j < i ==> a@[j] == b@[j],
        decreases a.len() - i,
    {
        if a[i] != b[i] {
            return false;
        }
        i = i + 1;
    }
    proof {
        assert(a@ =~= b@);
    }
    true
}

} // verus!
