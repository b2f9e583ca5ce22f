//! Categorical codebook value models: validated shapes, exact integer
//! inference features, a reversible incremental search session, the trainer
//! checkpoint byte format, and the decisions of the C ABI.

pub mod abi;
pub mod checkpoint;
pub mod features;
pub mod model;
pub mod session;
pub mod trainer;
