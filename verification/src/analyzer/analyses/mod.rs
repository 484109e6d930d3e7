//! The analyses, each computed per subcircuit.

pub mod component_validity;
pub mod connected_components;
pub mod element_reachability;
pub mod ownership_issues;
pub mod register_allocation;
pub mod scheduled_order;
pub mod topological_order;
pub mod value_liveness;
