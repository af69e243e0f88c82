use echidna_lb::backend::{healthy_set, Backend, UNREACHABLE_LATENCY};
use echidna_lb::dispatcher::{DispatchError, Dispatcher, LoadBalancingAlgorithm};
use std::collections::hash_map::DefaultHasher;
use std::hash::{Hash, Hasher};

fn pool(weights: &[usize]) -> Vec<Backend> {
    weights
        .iter()
        .enumerate()
        .map(|(i, w)| Backend::new(format!("http://10.0.0.{}:8080", i + 1), *w))
        .collect()
}

fn dispatcher(weights: &[usize], algorithm: LoadBalancingAlgorithm) -> Dispatcher {
    Dispatcher::new(pool(weights), algorithm)
}

fn picks(d: &mut Dispatcher, peer: Option<&str>, n: usize) -> Vec<usize> {
    (0..n).map(|_| d.select_backend(peer).unwrap()).collect()
}

#[test]
fn round_robin_alternates_two_backends() {
    let mut d = dispatcher(&[1, 1], LoadBalancingAlgorithm::RoundRobin);
    assert_eq!(picks(&mut d, None, 4), vec![0, 1, 0, 1]);
    assert_eq!(d.current, 4);
}

#[test]
fn round_robin_is_even_over_full_rounds() {
    let mut d = dispatcher(&[1, 1, 1], LoadBalancingAlgorithm::RoundRobin);
    let chosen = picks(&mut d, None, 9);
    for b in 0..3 {
        assert_eq!(chosen.iter().filter(|&&c| c == b).count(), 3);
    }
}

#[test]
fn round_robin_counter_wraps() {
    let mut d = dispatcher(&[1, 1, 1], LoadBalancingAlgorithm::RoundRobin);
    d.current = usize::MAX;
    let first = d.select_backend(None).unwrap();
    assert_eq!(first, usize::MAX % 3);
    assert_eq!(d.current, 0);
    assert_eq!(d.select_backend(None).unwrap(), 0);
}

#[test]
fn weighted_round_robin_smooth_schedule() {
    let mut d = dispatcher(&[5, 1], LoadBalancingAlgorithm::WeightedRoundRobin);
    assert_eq!(picks(&mut d, None, 6), vec![0, 0, 0, 1, 0, 0]);
    assert_eq!(d.backends[0].current_weight, 0);
    assert_eq!(d.backends[1].current_weight, 0);
}

#[test]
fn weighted_round_robin_cycle_counts_match_weights() {
    let weights = [2usize, 3, 1, 4];
    let mut d = dispatcher(&weights, LoadBalancingAlgorithm::WeightedRoundRobin);
    let total: usize = weights.iter().sum();
    for _ in 0..3 {
        let chosen = picks(&mut d, None, total);
        for (b, w) in weights.iter().enumerate() {
            assert_eq!(chosen.iter().filter(|&&c| c == b).count(), *w);
        }
        assert!(d.backends.iter().all(|b| b.current_weight == 0));
    }
}

#[test]
fn weighted_round_robin_any_window_matches_weights() {
    let weights = [2usize, 3, 1, 4];
    let mut d = dispatcher(&weights, LoadBalancingAlgorithm::WeightedRoundRobin);
    picks(&mut d, None, 3);
    let chosen = picks(&mut d, None, 10);
    for (b, w) in weights.iter().enumerate() {
        assert_eq!(chosen.iter().filter(|&&c| c == b).count(), *w);
    }
}

#[test]
fn weighted_round_robin_first_step_values() {
    let mut d = dispatcher(&[1, 2, 3], LoadBalancingAlgorithm::WeightedRoundRobin);
    assert_eq!(d.select_backend(None), Ok(2));
    assert_eq!(d.backends[0].current_weight, 1);
    assert_eq!(d.backends[1].current_weight, 2);
    assert_eq!(d.backends[2].current_weight, -3);
}

#[test]
fn weighted_round_robin_ties_go_to_first() {
    let mut d = dispatcher(&[2, 2], LoadBalancingAlgorithm::WeightedRoundRobin);
    assert_eq!(picks(&mut d, None, 4), vec![0, 1, 0, 1]);
}

#[test]
fn weighted_round_robin_skips_unhealthy() {
    let mut d = dispatcher(&[5, 1, 1], LoadBalancingAlgorithm::WeightedRoundRobin);
    d.backends[0].is_healthy = false;
    assert_eq!(picks(&mut d, None, 4), vec![1, 2, 1, 2]);
    assert_eq!(d.backends[0].current_weight, 0);
}

#[test]
fn weighted_round_robin_refuses_overflow() {
    let mut d = dispatcher(&[1, 1], LoadBalancingAlgorithm::WeightedRoundRobin);
    d.backends[0].current_weight = isize::MAX;
    assert_eq!(d.select_backend(None), Err(DispatchError::WeightOverflow));
    assert_eq!(d.backends[0].current_weight, isize::MAX);
    assert_eq!(d.backends[1].current_weight, 0);
    assert_eq!(DispatchError::WeightOverflow.status(), 503);
}

fn std_hash(ip: &str) -> u64 {
    let mut h = DefaultHasher::new();
    ip.hash(&mut h);
    h.finish()
}

#[test]
fn ip_hashing_same_peer_same_backend() {
    let mut d = dispatcher(&[1, 1, 1], LoadBalancingAlgorithm::IPHashing);
    let expected = (std_hash("203.0.113.7") % 3) as usize;
    for _ in 0..100 {
        assert_eq!(d.select_backend(Some("203.0.113.7")), Ok(expected));
    }
    assert_eq!(d.current, 0);
}

#[test]
fn ip_hashing_ignores_counter_and_load() {
    let mut a = dispatcher(&[1, 1, 1, 1, 1], LoadBalancingAlgorithm::IPHashing);
    let mut b = dispatcher(&[1, 1, 1, 1, 1], LoadBalancingAlgorithm::IPHashing);
    b.current = 12345;
    b.backends[2].active_connections = 9;
    for ip in ["198.51.100.1", "2001:db8::1", "192.0.2.44"] {
        assert_eq!(a.select_backend(Some(ip)), b.select_backend(Some(ip)));
    }
}

#[test]
fn ip_hashing_without_peer_falls_back_to_round_robin() {
    let mut d = dispatcher(&[1, 1, 1], LoadBalancingAlgorithm::IPHashing);
    assert_eq!(picks(&mut d, None, 4), vec![0, 1, 2, 0]);
    assert_eq!(d.current, 4);
}

#[test]
fn ip_hashing_picks_from_healthy_set() {
    let mut d = dispatcher(&[1, 1, 1], LoadBalancingAlgorithm::IPHashing);
    d.backends[0].is_healthy = false;
    let expected = [1usize, 2][(std_hash("203.0.113.7") % 2) as usize];
    assert_eq!(d.select_backend(Some("203.0.113.7")), Ok(expected));
}

#[test]
fn least_connections_prefers_fewest_then_first_on_tie() {
    let mut d = dispatcher(&[1, 1, 1], LoadBalancingAlgorithm::LeastConnections);
    d.backends[0].active_connections = 3;
    d.backends[1].active_connections = 1;
    d.backends[2].active_connections = 2;
    let first = d.select_backend(None).unwrap();
    assert_eq!(first, 1);
    d.acquire_connection(first);
    assert_eq!(d.backends[1].active_connections, 2);
    // Backends 1 and 2 now tie at two: the first in configuration order wins.
    assert_eq!(d.select_backend(None), Ok(1));
    d.backends[2].active_connections = 1;
    assert_eq!(d.select_backend(None), Ok(2));
}

#[test]
fn least_latency_prefers_faster_backend() {
    let mut d = dispatcher(&[1, 1], LoadBalancingAlgorithm::LeastLatency);
    d.record_latency(0, Some(10_000_000));
    d.record_latency(1, Some(50_000_000));
    assert_eq!(d.select_backend(None), Ok(0));
    d.record_latency(0, None);
    assert_eq!(d.backends[0].latency, UNREACHABLE_LATENCY);
    assert_eq!(d.select_backend(None), Ok(1));
}

#[test]
fn least_latency_unmeasured_pool_picks_first() {
    let mut d = dispatcher(&[1, 1, 1], LoadBalancingAlgorithm::LeastLatency);
    assert_eq!(d.select_backend(None), Ok(0));
    d.backends[0].is_healthy = false;
    assert_eq!(d.select_backend(None), Ok(1));
}

#[test]
fn health_flip_excludes_and_readmits_backend() {
    let mut d = dispatcher(&[1, 1], LoadBalancingAlgorithm::RoundRobin);
    d.record_health(0, Some(200));
    d.record_health(1, Some(503));
    assert_eq!(picks(&mut d, None, 3), vec![0, 0, 0]);
    d.record_health(1, Some(200));
    assert_eq!(d.current, 3);
    assert_eq!(picks(&mut d, None, 2), vec![1, 0]);
}

#[test]
fn no_healthy_backend_gives_503_and_keeps_counts() {
    let mut d = dispatcher(&[1, 1], LoadBalancingAlgorithm::RoundRobin);
    d.backends[0].active_connections = 4;
    d.record_health(0, Some(500));
    d.record_health(1, None);
    let err = d.select_backend(None).unwrap_err();
    assert_eq!(err, DispatchError::NoHealthyBackend);
    assert_eq!(err.status(), 503);
    assert_eq!(d.backends[0].active_connections, 4);
    assert_eq!(d.backends[1].active_connections, 0);
    assert_eq!(d.current, 0);
}

#[test]
fn empty_pool_has_no_healthy_backend() {
    let mut d = dispatcher(&[], LoadBalancingAlgorithm::WeightedRoundRobin);
    assert_eq!(d.select_backend(Some("192.0.2.1")), Err(DispatchError::NoHealthyBackend));
}

#[test]
fn selection_never_returns_unhealthy_backend() {
    for algorithm in [
        LoadBalancingAlgorithm::RoundRobin,
        LoadBalancingAlgorithm::LeastConnections,
        LoadBalancingAlgorithm::WeightedRoundRobin,
        LoadBalancingAlgorithm::IPHashing,
        LoadBalancingAlgorithm::LeastLatency,
    ] {
        let mut d = dispatcher(&[3, 1, 2, 5], algorithm);
        d.backends[0].is_healthy = false;
        d.backends[3].is_healthy = false;
        for i in 0..20 {
            let ip = format!("192.0.2.{}", i);
            let b = d.select_backend(Some(ip.as_str())).unwrap();
            assert!(d.backends[b].is_healthy);
        }
    }
}

#[test]
fn forward_restores_active_connections() {
    let mut d = dispatcher(&[1, 1], LoadBalancingAlgorithm::LeastConnections);
    d.backends[1].active_connections = 7;
    let b = d.select_backend(None).unwrap();
    assert_eq!(b, 0);
    d.acquire_connection(b);
    assert_eq!(d.backends[0].active_connections, 1);
    d.acquire_connection(1);
    d.release_connection(b);
    d.release_connection(1);
    assert_eq!(d.backends[0].active_connections, 0);
    assert_eq!(d.backends[1].active_connections, 7);
}

#[test]
fn connection_counter_wraps_like_an_atomic() {
    let mut d = dispatcher(&[1], LoadBalancingAlgorithm::RoundRobin);
    d.backends[0].active_connections = usize::MAX;
    d.acquire_connection(0);
    assert_eq!(d.backends[0].active_connections, 0);
    d.release_connection(0);
    assert_eq!(d.backends[0].active_connections, usize::MAX);
}

#[test]
fn upstream_transport_error_is_500() {
    assert_eq!(DispatchError::UpstreamTransport.status(), 500);
}

#[test]
fn healthy_set_keeps_configuration_order() {
    let mut bs = pool(&[1, 1, 1, 1]);
    bs[1].is_healthy = false;
    assert_eq!(healthy_set(&bs), vec![0, 2, 3]);
}
