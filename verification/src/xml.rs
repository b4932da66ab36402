//! JetBrains settings XML: an order-preserving DOM, a deterministic
//! serializer, and a flat path projection used for diffing and merging.

pub mod dom;
pub mod project;
pub mod reader;
