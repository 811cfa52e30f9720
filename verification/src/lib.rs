//! Bookkeeping for a simulation of fluids flowing between volumes: a
//! collection of fluid properties addressed by id, mixtures that keep their
//! fluids ordered by id, and the graph of flow edges between volumes.
//!
//! Amounts and energies are of a type chosen by the user (`A`); combining two
//! amounts is a function the user hands in.
pub mod flow;
pub mod fluid_properties;
pub mod mixture;
