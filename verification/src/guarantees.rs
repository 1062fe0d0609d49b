//! What the operations owe those who use them, said of what goes in and what
//! comes out.

pub mod committing;
pub mod comparing;
pub mod exchanging;
pub mod identifying;
pub mod keeping;
pub mod naming;
pub mod pulling;
pub mod pushing;
pub mod reading;
pub mod reporting;
pub mod storing;
pub mod tracing;
pub mod writing;
