//! Kernels on replicated placements.
pub mod softmax;
pub mod clear;
pub mod tensor;
