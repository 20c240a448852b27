//! Row-major dense arrays: what the kernels read and write.
use vstd::prelude::*;
use crate::index::{bounded, numel};
use crate::shape::Shape;

verus! {

/// Extents and the elements in row-major order.
#[verifier::ext_equal]
pub struct Value<S> {
    pub dims: Seq<usize>,
    pub data: Seq<S>,
}

impl<S> Value<S> {
    /// The element count is the product of the extents, which fits the machine.
    pub open spec fn wf(self) -> bool {
        &&& self.dims.len() <= 8
        &&& bounded(self.dims)
        &&& self.data.len() == numel(self.dims)
    }
}

/// A row-major dense array.
pub struct Dense<S> {
    shape: Shape,
    data: Vec<S>,
}

impl<S> Dense<S> {
    pub closed spec fn view(self) -> Value<S> {
        Value { dims: self.shape@, data: self.data@ }
    }

    /// The stored shape.
    pub closed spec fn shape_spec(self) -> Shape {
        self.shape
    }

    pub open spec fn wf(self) -> bool {
        &&& self.shape_spec().wf()
        &&& self.shape_spec()@ == self@.dims
        &&& self@.wf()
    }

    /// An array with the given shape and row-major elements.
    pub fn new(shape: Shape, data: Vec<S>) -> (r: Self)
        requires
            bounded(shape@),
            data@.len() == numel(shape@),
        ensures
            r.wf(),
            r@ == (Value { dims: shape@, data: data@ }),
            r.shape_spec() == shape,
    {
        let _ = shape.rank();
        Dense { shape, data }
    }

    /// The shape.
    pub fn shape(&self) -> (s: &Shape)
        requires
            self.wf(),
        ensures
            s@ == self@.dims,
            *s == self.shape_spec(),
            s.wf(),
    {
        &self.shape
    }

    /// The elements in row-major order.
    pub fn data(&self) -> (d: &Vec<S>)
        requires
            self.wf(),
        ensures
            d@ == self@.data,
    {
        &self.data
    }

    /// How many elements there are.
    pub fn numel(&self) -> (n: usize)
        requires
            self.wf(),
        ensures
            n == numel(self@.dims),
            n == self@.data.len(),
    {
        self.data.len()
    }

    /// The elements themselves.
    pub fn into_data(self) -> (d: Vec<S>)
        requires
            self.wf(),
        ensures
            d@ == self@.data,
    {
        self.data
    }
}

impl<S: Copy> Dense<S> {
    /// Another array with the same contents.
    pub fn duplicate(&self) -> (r: Self)
        requires
            self.wf(),
        ensures
            r.wf(),
            r@ == self@,
            r.shape_spec() == self.shape_spec(),
    {
        Dense { shape: self.shape, data: copied(&self.data) }
    }
}

/// `n` copies of `x`.
pub fn filled<T: Copy>(n: usize, x: T) -> (v: Vec<T>)
    ensures
        v@ == Seq::new(n as nat, |i: int| x),
{
    let mut v: Vec<T> = Vec::with_capacity(n);
    let mut i: usize = 0;
    while i < n
        invariant
            i <= n,
            v@.len() == i,
            forall|k: int| 0 <= k < i ==> v@[k] == x,
        decreases n - i,
    {
        v.push(x);
        i = i + 1;
    }
    assert(v@ =~= Seq::new(n as nat, |i: int| x));
    v
}

/// The elements of a slice in a vector of their own.
pub fn copied<T: Copy>(s: &[T]) -> (v: Vec<T>)
    ensures
        v@ == s@,
{
    let mut v: Vec<T> = Vec::with_capacity(s.len());
    let mut i: usize = 0;
    while i < s.len()
        invariant
            i <= s@.len(),
            v@.len() == i,
            forall|k: int| 0 <= k < i ==> v@[k] == s@[k],
        decreases s@.len() - i,
    {
        v.push(s[i]);
        i = i + 1;
    }
    assert(v@ =~= s@);
    v
}

} // verus!
