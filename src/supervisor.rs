use vstd::prelude::*;

use crate::backend::UNREACHABLE_LATENCY;
use crate::dispatcher::Dispatcher;
use vstd::string::StrSliceExecFns;
use vstd::string::StringExecFns;

verus! {

/// Time allowed to one latency probe, in seconds.
pub const LATENCY_PROBE_TIMEOUT_SECS: u64 = 2;

/// Pause between two latency probing cycles, in seconds.
pub const LATENCY_PROBE_INTERVAL_SECS: u64 = 10;

/// Pause between two health checking cycles when the configuration names none,
/// in seconds.
pub const DEFAULT_HEALTHCHECK_INTERVAL_SECS: u64 = 10;

/// Whether a health probe outcome marks the backend healthy: a 2xx answer.
/// `None` stands for a transport error.
pub open spec fn probe_healthy(status: Option<u16>) -> bool {
    match status {
        Some(code) => 200 <= code <= 299,
        None => false,
    }
}

/// The latency recorded for a probe outcome: the measured round trip, or the
/// unreachable sentinel for a timeout or an error.
pub open spec fn probe_latency(round_trip: Option<u64>) -> u64 {
    match round_trip {
        Some(ns) => ns,
        None => UNREACHABLE_LATENCY,
    }
}

/// The health check route with a leading `/`.
pub open spec fn rooted_route(route: Seq<char>) -> Seq<char> {
    if route.len() > 0 && route[0] == '/' {
        route
    } else {
        seq!['/'] + route
    }
}

/// Whether an HTTP status is a success (2xx).
pub fn is_success_status(status: u16) -> (r: bool)
    ensures
        r == (200 <= status <= 299),
{
    200 <= status && status <= 299
}

/// The health check route as probed: `/` is put in front unless it is there.
pub fn health_route(route: &str) -> (r: String)
    ensures
        r@ == rooted_route(route@),
{
    if route.unicode_len() > 0 && route.get_char(0) == '/' {
        String::from_str(route)
    } else {
        let slash = String::from_str("/");
        proof {
            reveal_strlit("/");
        }
        let r = slash.concat(route);
        proof {
            assert(r@ =~= seq!['/'] + route@);
        }
        r
    }
}

impl Dispatcher {
    /// URL of the upstream request for backend `i`: its address followed by
    /// the request's path and query.
    pub fn upstream_url(&self, i: usize, path_and_query: &str) -> (r: String)
        requires
            i < self.backends.len(),
        ensures
            r@ == self.backends@[i as int].address@ + path_and_query@,
    {
        let address = self.backends[i].address.clone();
        address.concat(path_and_query)
    }

    /// URL of the health probe of backend `i` for the configured `route`.
    pub fn health_check_url(&self, i: usize, route: &str) -> (r: String)
        requires
            i < self.backends.len(),
        ensures
            r@ == self.backends@[i as int].address@ + rooted_route(route@),
    {
        let rooted = health_route(route);
        let address = self.backends[i].address.clone();
        address.concat(rooted.as_str())
    }

    /// Stores the outcome of a health probe of backend `i`: healthy exactly
    /// when it answered with a 2xx status.
    pub fn record_health(&mut self, i: usize, status: Option<u16>)
        requires
            i < old(self).backends.len(),
        ensures
            final(self).backends@ == old(self).backends@.update(i as int, final(self).backends@[i as int]),
            final(self).backends@[i as int].is_healthy == probe_healthy(status),
            final(self).backends@[i as int].address == old(self).backends@[i as int].address,
            final(self).backends@[i as int].weight == old(self).backends@[i as int].weight,
            final(self).backends@[i as int].active_connections == old(
                self,
            ).backends@[i as int].active_connections,
            final(self).backends@[i as int].current_weight == old(self).backends@[i as int].current_weight,
            final(self).backends@[i as int].latency == old(self).backends@[i as int].latency,
            final(self).current == old(self).current,
            final(self).algorithm == old(self).algorithm,
    {
        let healthy = match status {
            Some(code) => is_success_status(code),
            None => false,
        };
        self.backends[i].is_healthy = healthy;
    }

    /// Stores the outcome of a latency probe of backend `i`: the round trip in
    /// nanoseconds, or `None` for a timeout or an error.
    pub fn record_latency(&mut self, i: usize, round_trip: Option<u64>)
        requires
            i < old(self).backends.len(),
        ensures
            final(self).backends@ == old(self).backends@.update(i as int, final(self).backends@[i as int]),
            final(self).backends@[i as int].latency == probe_latency(round_trip),
            final(self).backends@[i as int].address == old(self).backends@[i as int].address,
            final(self).backends@[i as int].weight == old(self).backends@[i as int].weight,
            final(self).backends@[i as int].active_connections == old(
                self,
            ).backends@[i as int].active_connections,
            final(self).backends@[i as int].current_weight == old(self).backends@[i as int].current_weight,
            final(self).backends@[i as int].is_healthy == old(self).backends@[i as int].is_healthy,
            final(self).current == old(self).current,
            final(self).algorithm == old(self).algorithm,
    {
        let latency = match round_trip {
            Some(ns) => ns,
            None => UNREACHABLE_LATENCY,
        };
        self.backends[i].latency = latency;
    }
}

} // verus!
