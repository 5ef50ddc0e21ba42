//! A minimal register allocation interface.
pub mod strategy;
