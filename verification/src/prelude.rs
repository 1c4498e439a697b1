//! The items most users need: the builder, its handles, the capability
//! contract and the shipped operation kinds.

pub use crate::compute::Compute;
pub use crate::graph::{ComputeGraphErrors, Graph, NodeHandle, NodeMeta};
pub use crate::operations::{AddInputs, Constant, MulInputs, Op, SubInputs};
pub use crate::value::{TypeTag, Value};
