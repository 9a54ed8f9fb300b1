//! The model layer.
//!
//! THE DETERMINISTIC PIPELINE DECIDES. THE MODEL ONLY PROPOSES, INSIDE A CLOSED
//! ACTION SPACE, BEHIND A DETERMINISTIC CHECK.
//!
//! Nothing else in the library uses this module, but for the policy, which is
//! settled once at the start: given the policy, the edit is the same whether a
//! model answers or not.
pub mod capabilities;
pub mod gates;
pub mod monitor;
pub mod provider;
pub mod tasks;
