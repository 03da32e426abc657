//! Reading models.
pub mod dispatch;
pub mod gemm;
pub mod gemm_laws;
pub mod laws;
pub mod layers;
pub mod nodes;
pub mod onnx;
pub mod readable;
pub mod sizes;
