//! Governance state-transition core: a liquid-democracy delegation graph
//! with bounded cycle/depth validation and sink resolution, and a
//! commit-reveal voting lifecycle.

pub mod commitment;
pub mod delegation;
pub mod voting;
