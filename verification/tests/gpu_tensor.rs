use transformer_gpu::gpu_tensor::{DType, GpuTensor};

#[test]
fn element_types_take_four_bytes() {
    assert_eq!(DType::F32.byte_size(), 4);
    assert_eq!(DType::U32.byte_size(), 4);
}

#[test]
fn numel_is_the_product_of_the_shape() {
    assert_eq!(GpuTensor::numel(&[]), 1);
    assert_eq!(GpuTensor::numel(&[7]), 7);
    assert_eq!(GpuTensor::numel(&[2, 3, 4]), 24);
    assert_eq!(GpuTensor::numel(&[128, 0, 5]), 0);
}
