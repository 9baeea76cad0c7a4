//! A symbolic/numeric linear-circuit reducer.
//!
//! Given a multigraph of passive two-terminal components (resistors,
//! inductors, capacitors, generic impedances) plus ideal sources, at a single
//! angular frequency, the reducer repeatedly rewrites the graph using
//! series/parallel equivalences until no further local reduction applies.
//!
//! Impedances live in an extended complex domain with distinguished `Short`
//! (zero) and `Open` (infinite) values. All arithmetic is exact, over
//! rational numbers, so the algebraic laws of the domain (commutativity,
//! associativity, identities, absorbers, passivity preservation) hold
//! exactly and are proved, not approximated.

pub mod ast;
pub mod component;
pub mod errors;
pub mod graph;
pub mod parser;
pub mod rational;
pub mod reduce;
pub mod units;
