use vstd::prelude::*;

use crate::algorithms::{
    connections, current_weights, first_min_pos, ip_hash, ip_hashing, keeps_all_but_current_weight,
    latencies, least_connections, least_latency, lemma_weight_sum_prefix, round_robin, weight_sum,
    weighted_round_robin, weights, wrr_fits, wrr_next, wrr_pick,
};
use crate::backend::{healthy_indices, healthy_set, is_index_set, lemma_healthy_indices, Backend};
use vstd::string::StringSliceAdditionalSpecFns;

verus! {

/// The balancing policy that the dispatcher applies to every request.
#[derive(Clone, Copy, Debug, PartialEq, Eq, Structural)]
pub enum LoadBalancingAlgorithm {
    RoundRobin,
    LeastConnections,
    IPHashing,
    WeightedRoundRobin,
    LeastLatency,
}

/// Owns the backend pool, the policy and the shared request counter.
pub struct Dispatcher {
    pub backends: Vec<Backend>,
    pub algorithm: LoadBalancingAlgorithm,
    pub current: usize,
}

/// The request counter after one more request: it wraps at the top of `usize`.
pub open spec fn next_counter(c: usize) -> usize {
    if c == usize::MAX {
        0
    } else {
        (c + 1) as usize
    }
}

/// Why a request could not be served by a backend.
#[derive(Clone, Copy, Debug, PartialEq, Eq, Structural)]
pub enum DispatchError {
    /// Every backend is marked unhealthy, or the pool is empty.
    NoHealthyBackend,
    /// A weighted round robin step would leave the range of `isize`.
    WeightOverflow,
    /// The upstream could not be reached or did not answer.
    UpstreamTransport,
}

impl DispatchError {
    /// The HTTP status with which the client is answered.
    pub fn status(&self) -> (r: u16)
        ensures
            r == match self {
                DispatchError::NoHealthyBackend => 503u16,
                DispatchError::WeightOverflow => 503u16,
                DispatchError::UpstreamTransport => 500u16,
            },
    {
        match self {
            DispatchError::NoHealthyBackend => 503,
            DispatchError::WeightOverflow => 503,
            DispatchError::UpstreamTransport => 500,
        }
    }
}

/// The bytes of an optional peer address.
pub open spec fn peer_bytes(peer_ip: Option<&str>) -> Option<Seq<u8>> {
    match peer_ip {
        Some(ip) => Some(ip.spec_bytes()),
        None => None,
    }
}

/// Whether a selection under `algorithm` consumes the shared counter.
pub open spec fn uses_counter(algorithm: LoadBalancingAlgorithm, peer: Option<Seq<u8>>) -> bool {
    algorithm == LoadBalancingAlgorithm::RoundRobin || (algorithm == LoadBalancingAlgorithm::IPHashing
        && peer is None)
}

/// Position in the healthy set that the policy of `d` chooses for a request
/// from `peer`.
pub open spec fn chosen_position(d: Dispatcher, peer: Option<Seq<u8>>) -> int {
    let bs = d.backends@;
    let hs = healthy_indices(bs);
    match d.algorithm {
        LoadBalancingAlgorithm::RoundRobin => d.current as int % hs.len() as int,
        LoadBalancingAlgorithm::LeastConnections => first_min_pos(connections(bs, hs)),
        LoadBalancingAlgorithm::WeightedRoundRobin => wrr_pick(current_weights(bs), weights(bs), hs),
        LoadBalancingAlgorithm::IPHashing => match peer {
            Some(ip) => (ip_hash(ip) % (hs.len() as u64)) as int,
            None => d.current as int % hs.len() as int,
        },
        LoadBalancingAlgorithm::LeastLatency => first_min_pos(latencies(bs, hs)),
    }
}

/// Index in the pool of the backend that `d` selects for a request from `peer`.
pub open spec fn selected_backend(d: Dispatcher, peer: Option<Seq<u8>>) -> int {
    healthy_indices(d.backends@)[chosen_position(d, peer)] as int
}

/// Whether the selection step under the policy of `d` stays within machine
/// integers: only weighted round robin can leave them.
pub open spec fn selection_fits(d: Dispatcher) -> bool {
    d.algorithm == LoadBalancingAlgorithm::WeightedRoundRobin ==> wrr_fits(
        current_weights(d.backends@),
        weights(d.backends@),
        healthy_indices(d.backends@),
    )
}

/// `d1` is the state of `d0` after one selection for a request from `peer`.
pub open spec fn selection_step(d0: Dispatcher, d1: Dispatcher, peer: Option<Seq<u8>>) -> bool {
    &&& d1.algorithm == d0.algorithm
    &&& d1.current == if uses_counter(d0.algorithm, peer) {
        next_counter(d0.current)
    } else {
        d0.current
    }
    &&& if d0.algorithm == LoadBalancingAlgorithm::WeightedRoundRobin {
        &&& d1.backends@.len() == d0.backends@.len()
        &&& current_weights(d1.backends@) == wrr_next(
            current_weights(d0.backends@),
            weights(d0.backends@),
            healthy_indices(d0.backends@),
        )
        &&& forall|i: int|
            0 <= i < d0.backends@.len() ==> keeps_all_but_current_weight(
                #[trigger] d0.backends@[i],
                d1.backends@[i],
            )
    } else {
        d1.backends@ == d0.backends@
    }
}

/// Active connection count after one more forward takes the backend; it
/// wraps as an atomic counter does.
pub open spec fn connection_acquired(c: usize) -> usize {
    if c == usize::MAX {
        0
    } else {
        (c + 1) as usize
    }
}

/// Active connection count after a forward lets the backend go.
pub open spec fn connection_released(c: usize) -> usize {
    if c == 0 {
        usize::MAX
    } else {
        (c - 1) as usize
    }
}

/// `d1` is `d0` with only the active connection count of backend `i` changed,
/// to `count`.
pub open spec fn connections_set(d0: Dispatcher, d1: Dispatcher, i: int, count: usize) -> bool {
    &&& 0 <= i < d0.backends@.len()
    &&& d1.algorithm == d0.algorithm
    &&& d1.current == d0.current
    &&& d1.backends@ == d0.backends@.update(i, d1.backends@[i])
    &&& d1.backends@[i].active_connections == count
    &&& d1.backends@[i].address == d0.backends@[i].address
    &&& d1.backends@[i].weight == d0.backends@[i].weight
    &&& d1.backends@[i].is_healthy == d0.backends@[i].is_healthy
    &&& d1.backends@[i].current_weight == d0.backends@[i].current_weight
    &&& d1.backends@[i].latency == d0.backends@[i].latency
}

/// Checks, without changing anything, that a weighted round robin step over
/// `healthy` stays within the range of `isize`.
fn wrr_in_range(backends: &Vec<Backend>, healthy: &Vec<usize>) -> (r: bool)
    requires
        is_index_set(healthy@, backends.len() as int),
    ensures
        r == wrr_fits(current_weights(backends@), weights(backends@), healthy@),
{
    let ghost cw = current_weights(backends@);
    let ghost w = weights(backends@);
    let ghost hs = healthy@;
    let max: usize = isize::MAX as usize;
    let mut total: usize = 0;
    let mut k: usize = 0;
    while k < healthy.len()
        invariant
            k <= healthy.len(),
            hs == healthy@,
            w == weights(backends@),
            is_index_set(hs, backends.len() as int),
            total == weight_sum(w, hs.take(k as int)),
            total <= max,
            max == isize::MAX as usize,
        decreases healthy.len() - k,
    {
        let wk = backends[healthy[k]].weight;
        proof {
            assert(hs.take(k + 1).drop_last() =~= hs.take(k as int));
            assert(hs.take(k + 1).last() == hs[k as int]);
            assert(w[hs[k as int] as int] == wk as int);
        }
        if wk > max - total {
            proof {
                assert forall|i: int| 0 <= i < w.len() implies w[i] >= 0 by {}
                lemma_weight_sum_prefix(w, hs, k + 1);
            }
            return false;
        }
        total = total + wk;
        k += 1;
    }
    proof {
        assert(hs.take(k as int) =~= hs);
    }
    let low: isize = isize::MIN + total as isize;
    let mut j: usize = 0;
    while j < healthy.len()
        invariant
            j <= healthy.len(),
            hs == healthy@,
            cw == current_weights(backends@),
            w == weights(backends@),
            is_index_set(hs, backends.len() as int),
            total == weight_sum(w, hs),
            total <= max,
            max == isize::MAX as usize,
            low == isize::MIN + total,
            forall|m: int|
                0 <= m < j ==> low <= #[trigger] cw[hs[m] as int] && cw[hs[m] as int] + w[hs[m] as int]
                    <= isize::MAX,
        decreases healthy.len() - j,
    {
        let b = &backends[healthy[j]];
        proof {
            assert(cw[hs[j as int] as int] == b.current_weight);
        }
        if b.current_weight < low || b.current_weight as i128 + b.weight as i128 > isize::MAX as i128 {
            proof {
                assert(!(low <= cw[hs[j as int] as int] && cw[hs[j as int] as int] + w[hs[j as int] as int]
                    <= isize::MAX));
            }
            return false;
        }
        j += 1;
    }
    proof {
        assert(forall|m: int|
            0 <= m < hs.len() ==> isize::MIN + weight_sum(w, hs) <= #[trigger] cw[hs[m] as int]
                && cw[hs[m] as int] + w[hs[m] as int] <= isize::MAX);
    }
    true
}

impl Dispatcher {
    /// A dispatcher over `backends` with the counter at zero.
    pub fn new(backends: Vec<Backend>, algorithm: LoadBalancingAlgorithm) -> (r: Dispatcher)
        ensures
            r.backends@ == backends@,
            r.algorithm == algorithm,
            r.current == 0,
    {
        Dispatcher { backends, algorithm, current: 0 }
    }

    /// Selects a healthy backend for a request from `peer_ip` under the
    /// dispatcher's policy and returns its index in the pool.
    pub fn select_backend(&mut self, peer_ip: Option<&str>) -> (r: Result<usize, DispatchError>)
        ensures
            healthy_indices(old(self).backends@).len() == 0 ==> r == Err::<usize, DispatchError>(
                DispatchError::NoHealthyBackend,
            ),
            healthy_indices(old(self).backends@).len() > 0 && selection_fits(*old(self)) ==> r == Ok::<
                usize,
                DispatchError,
            >(selected_backend(*old(self), peer_bytes(peer_ip)) as usize),
            healthy_indices(old(self).backends@).len() > 0 && !selection_fits(*old(self)) ==> r
                == Err::<usize, DispatchError>(DispatchError::WeightOverflow),
            r is Ok ==> selection_step(*old(self), *final(self), peer_bytes(peer_ip)),
            r is Err ==> final(self).backends@ == old(self).backends@ && final(self).current == old(
                self,
            ).current && final(self).algorithm == old(self).algorithm,
            forall|i: usize| r == Ok::<usize, DispatchError>(i) ==> i < old(self).backends.len()
                && old(self).backends@[i as int].is_healthy,
    {
        let healthy = healthy_set(&self.backends);
        proof {
            assert(self.backends@.len() == self.backends.len());
            lemma_healthy_indices(self.backends@);
        }
        if healthy.len() == 0 {
            return Err(DispatchError::NoHealthyBackend);
        }
        let ghost d0 = *self;
        let ghost peer = peer_bytes(peer_ip);
        let pos = match self.algorithm {
            LoadBalancingAlgorithm::RoundRobin => round_robin(self, &healthy),
            LoadBalancingAlgorithm::LeastConnections => least_connections(&self.backends, &healthy),
            LoadBalancingAlgorithm::WeightedRoundRobin => {
                if !wrr_in_range(&self.backends, &healthy) {
                    return Err(DispatchError::WeightOverflow);
                }
                weighted_round_robin(&mut self.backends, &healthy)
            },
            LoadBalancingAlgorithm::IPHashing => ip_hashing(self, peer_ip, &healthy),
            LoadBalancingAlgorithm::LeastLatency => least_latency(&self.backends, &healthy),
        };
        proof {
            assert(pos as int == chosen_position(d0, peer));
            assert(selection_step(d0, *self, peer));
        }
        Ok(healthy[pos])
    }

    /// A forward takes backend `i`: its active connection count goes up by one.
    pub fn acquire_connection(&mut self, i: usize)
        requires
            i < old(self).backends.len(),
        ensures
            connections_set(
                *old(self),
                *final(self),
                i as int,
                connection_acquired(old(self).backends@[i as int].active_connections),
            ),
    {
        let c = self.backends[i].active_connections;
        self.backends[i].active_connections = if c == usize::MAX {
            0
        } else {
            c + 1
        };
    }

    /// A forward lets backend `i` go, on every exit path: its active
    /// connection count goes down by one.
    pub fn release_connection(&mut self, i: usize)
        requires
            i < old(self).backends.len(),
        ensures
            connections_set(
                *old(self),
                *final(self),
                i as int,
                connection_released(old(self).backends@[i as int].active_connections),
            ),
    {
        let c = self.backends[i].active_connections;
        self.backends[i].active_connections = if c == 0 {
            usize::MAX
        } else {
            c - 1
        };
    }
}

/// A forward leaves the pool as it found it: acquiring backend `i` and then
/// releasing it restores every backend record, its active connection count
/// included, and the counter.
pub proof fn lemma_forward_restores_connections(d0: Dispatcher, d1: Dispatcher, d2: Dispatcher, i: int)
    requires
        connections_set(d0, d1, i, connection_acquired(d0.backends@[i].active_connections)),
        connections_set(d1, d2, i, connection_released(d1.backends@[i].active_connections)),
    ensures
        d2.backends@ == d0.backends@,
        d2.current == d0.current,
        d2.algorithm == d0.algorithm,
{
    let b0 = d0.backends@[i];
    let b2 = d2.backends@[i];
    assert(b2.active_connections == b0.active_connections);
    assert(b2 == b0);
    assert(d2.backends@ =~= d0.backends@);
}

/// Source IP hashing gives affinity: two requests from the same peer address,
/// against the same healthy set, go to the same backend, whatever the
/// counter, the connection counts, weights or latencies in between.
pub proof fn lemma_ip_hashing_affinity(d1: Dispatcher, d2: Dispatcher, ip: Seq<u8>)
    requires
        d1.algorithm == LoadBalancingAlgorithm::IPHashing,
        d2.algorithm == LoadBalancingAlgorithm::IPHashing,
        healthy_indices(d1.backends@) == healthy_indices(d2.backends@),
    ensures
        selected_backend(d1, Some(ip)) == selected_backend(d2, Some(ip)),
{
}

/// A selection under source IP hashing changes nothing for a request that
/// has a peer address, so the healthy set seen by the next request is the
/// same.
pub proof fn lemma_ip_hashing_keeps_state(d0: Dispatcher, d1: Dispatcher, ip: Seq<u8>)
    requires
        d0.algorithm == LoadBalancingAlgorithm::IPHashing,
        selection_step(d0, d1, Some(ip)),
    ensures
        d1.backends@ == d0.backends@,
        d1.current == d0.current,
        d1.algorithm == d0.algorithm,
{
}

} // verus!
