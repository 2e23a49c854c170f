//! What peers say to each other and what a node does on hearing it.

pub mod convergence;
pub mod frame;
pub mod frame_laws;
pub mod message;
pub mod worker;
