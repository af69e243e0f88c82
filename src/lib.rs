//! The core of an HTTP(S) reverse-proxy load balancer: the live state of each
//! upstream, the five selection policies, the dispatcher that applies them,
//! and the state updates of the health and latency probes.
use vstd::prelude::*;

pub mod algorithms;
pub mod backend;
pub mod config;
pub mod dispatcher;
pub mod fairness;
pub mod supervisor;

verus! {

} // verus!
