//! An in-process, incrementally mutated directed-graph engine for dependency
//! tracking: nodes are units of work, edges are "produces input to" links.
//!
//! The engine enforces cycle safety on every edge insertion.  Three variants
//! are offered:
//!
//! * [`rcdag::RcDag`] — a strictly acyclic graph over an arena of nodes;
//! * [`poscostdag::PosCostDag`] — a generalization that admits cycles as long
//!   as no cycle consists entirely of zero-cost edges;
//! * [`iodag::IODag`] — a strictly acyclic graph whose edges may also begin or
//!   end at the null boundary, a sentinel standing for "outside the graph".
//!
//! Each variant exposes depth-first topological traversal in both directions
//! and a reachability query, all specified against the path theory in
//! [`reach`].

pub mod iodag;
pub mod ondag;
pub mod poscostdag;
pub mod rcdag;
pub mod rcdagbase;
pub mod reach;
pub mod util;
