//! Message-passing collectives on a hypercube and on a ring of nodes:
//! who talks to whom, in which order, and what each node sends and keeps.

pub mod text;
pub mod bits;
pub mod broadcast;
pub mod reduction;
pub mod ring;
pub mod topology;
