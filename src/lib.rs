//! N-dimensional tensors stored densely in row-major order, with reshaping,
//! axis swapping and NumPy-style slicing, each stated and proved against a
//! mathematical model of shapes and flat positions.
pub mod shape;
pub mod axis;
pub mod element;
pub mod tensor;
pub mod laws;

pub use axis::{AxisIndex, TensorError};
pub use element::Element;
pub use tensor::Tensor;
