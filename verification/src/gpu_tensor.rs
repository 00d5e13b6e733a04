//! Bookkeeping for tensors that live in GPU buffers.
use vstd::prelude::*;

verus! {

/// `wgpu::Buffer`, the GPU memory that holds a tensor; opaque here.
#[verifier::external_type_specification]
#[verifier::external_body]
pub struct ExBuffer(wgpu::Buffer);

/// Element type of a tensor.
#[derive(Debug, Clone, Copy, PartialEq, Eq, Structural)]
pub enum DType {
    F32,
    U32,
}

impl DType {
    /// Bytes per element: 4 for both `f32` and `u32`.
    pub fn byte_size(self) -> (n: u64)
        ensures
            n == 4,
    {
        match self {
            DType::F32 | DType::U32 => 4,
        }
    }
}

/// The number of elements of a tensor of the given shape.
pub open spec fn shape_product(shape: Seq<usize>) -> nat
    decreases shape.len(),
{
    if shape.len() == 0 {
        1
    } else {
        shape_product(shape.drop_last()) * (shape.last() as nat)
    }
}

/// A tensor in a GPU buffer, with its shape and element type.
pub struct GpuTensor {
    pub buffer: wgpu::Buffer,
    pub shape: Vec<usize>,
    pub len: usize,
    pub dtype: DType,
    pub label: Option<String>,
}

impl GpuTensor {
    /// The product of the dimensions; every partial product must fit, as the
    /// multiplication would overflow otherwise.
    pub fn numel(shape: &[usize]) -> (n: usize)
        requires
            forall|i: int| 0 <= i <= shape@.len() ==> #[trigger] shape_product(shape@.take(i)) <= usize::MAX,
        ensures
            n == shape_product(shape@),
    {
        let k = shape.len();
        let mut acc: usize = 1;
        let mut i: usize = 0;
        while i < k
            invariant
                k == shape@.len(),
                i <= k,
                acc == shape_product(shape@.take(i as int)),
                forall|j: int| 0 <= j <= shape@.len() ==> #[trigger] shape_product(shape@.take(j)) <= usize::MAX,
            decreases k - i,
        {
            proof {
                assert(shape@.take(i + 1).drop_last() =~= shape@.take(i as int));
                assert(shape_product(shape@.take(i + 1)) <= usize::MAX);
            }
            acc = acc * shape[i];
            i = i + 1;
        }
        assert(shape@.take(k as int) =~= shape@);
        acc
    }

    /// The size of the buffer's contents in bytes.
    pub fn byte_len(&self) -> (n: u64)
        requires
            self.len * 4 <= u64::MAX,
        ensures
            n == self.len * 4,
    {
        self.len as u64 * self.dtype.byte_size()
    }
}

} // verus!
