//! Kind resolution (`store`) and kubectl-explain style rendering (`explain`).

pub mod explain;
pub mod store;
