use echidna_lb::backend::{Backend, UNREACHABLE_LATENCY};
use echidna_lb::config::{
    Args, BackendConfig, Config, ConfigError, HealthcheckConfig, DEFAULT_HTTPS_PORT, DEFAULT_PORT,
    DEFAULT_WORKERS,
};
use echidna_lb::dispatcher::{Dispatcher, LoadBalancingAlgorithm};
use echidna_lb::supervisor::{health_route, is_success_status};

fn two_backends() -> Dispatcher {
    Dispatcher::new(
        vec![
            Backend::new("http://127.0.0.1:8081".to_string(), 1),
            Backend::new("https://example.test".to_string(), 1),
        ],
        LoadBalancingAlgorithm::RoundRobin,
    )
}

#[test]
fn new_backend_is_healthy_idle_unmeasured() {
    let b = Backend::new("http://a".to_string(), 3);
    assert_eq!(b.address, "http://a");
    assert_eq!(b.weight, 3);
    assert_eq!(b.active_connections, 0);
    assert!(b.is_healthy);
    assert_eq!(b.current_weight, 0);
    assert_eq!(b.latency, UNREACHABLE_LATENCY);
}

#[test]
fn probe_status_decides_health() {
    let mut d = two_backends();
    d.record_health(0, Some(500));
    assert!(!d.backends[0].is_healthy);
    d.record_health(0, Some(200));
    assert!(d.backends[0].is_healthy);
    d.record_health(0, None);
    assert!(!d.backends[0].is_healthy);
    d.record_health(0, Some(204));
    assert!(d.backends[0].is_healthy);
    d.record_health(0, Some(301));
    assert!(!d.backends[0].is_healthy);
    assert!(d.backends[1].is_healthy);
}

#[test]
fn success_status_range() {
    assert!(!is_success_status(199));
    assert!(is_success_status(200));
    assert!(is_success_status(299));
    assert!(!is_success_status(300));
    assert!(!is_success_status(503));
}

#[test]
fn latency_probe_outcome_is_recorded() {
    let mut d = two_backends();
    d.record_latency(1, Some(1_500_000));
    assert_eq!(d.backends[1].latency, 1_500_000);
    assert_eq!(d.backends[0].latency, UNREACHABLE_LATENCY);
    d.record_latency(1, None);
    assert_eq!(d.backends[1].latency, UNREACHABLE_LATENCY);
}

#[test]
fn health_route_gets_leading_slash() {
    assert_eq!(health_route("health"), "/health");
    assert_eq!(health_route("/health"), "/health");
    assert_eq!(health_route(""), "/");
}

#[test]
fn probe_and_upstream_urls() {
    let d = two_backends();
    assert_eq!(d.health_check_url(0, "status"), "http://127.0.0.1:8081/status");
    assert_eq!(d.health_check_url(1, "/ok"), "https://example.test/ok");
    assert_eq!(d.upstream_url(0, "/api/v1?x=1"), "http://127.0.0.1:8081/api/v1?x=1");
    assert_eq!(d.upstream_url(1, ""), "https://example.test");
}

fn config(algorithm: Option<&str>, weights: &[Option<usize>]) -> Config {
    Config {
        port: None,
        debug: None,
        https_port: None,
        algorithm: algorithm.map(|a| a.to_string()),
        workers: None,
        healthcheck: None,
        backends: weights
            .iter()
            .enumerate()
            .map(|(i, w)| BackendConfig { url: format!("http://b{}", i), weight: *w })
            .collect(),
        ssl: None,
    }
}

#[test]
fn algorithm_names_are_case_sensitive() {
    let cases = [
        ("RoundRobin", LoadBalancingAlgorithm::RoundRobin),
        ("LeastConnections", LoadBalancingAlgorithm::LeastConnections),
        ("WeightedRoundRobin", LoadBalancingAlgorithm::WeightedRoundRobin),
        ("IPHashing", LoadBalancingAlgorithm::IPHashing),
        ("LeastLatency", LoadBalancingAlgorithm::LeastLatency),
    ];
    for (name, algorithm) in cases {
        assert_eq!(config(Some(name), &[]).algorithm().unwrap(), algorithm);
    }
    assert_eq!(config(None, &[]).algorithm().unwrap(), LoadBalancingAlgorithm::RoundRobin);
    match config(Some("roundrobin"), &[]).algorithm() {
        Err(ConfigError::UnknownAlgorithm(name)) => assert_eq!(name, "roundrobin"),
        other => panic!("unexpected {:?}", other.map(|_| ())),
    }
}

#[test]
fn dispatcher_from_config_builds_fresh_pool() {
    let d = Dispatcher::from_config(&config(Some("WeightedRoundRobin"), &[Some(5), None])).unwrap();
    assert_eq!(d.algorithm, LoadBalancingAlgorithm::WeightedRoundRobin);
    assert_eq!(d.current, 0);
    assert_eq!(d.backends.len(), 2);
    assert_eq!(d.backends[0].address, "http://b0");
    assert_eq!(d.backends[0].weight, 5);
    assert_eq!(d.backends[1].weight, 1);
    assert!(d.backends.iter().all(|b| b.is_healthy && b.active_connections == 0));
}

#[test]
fn dispatcher_from_config_rejects_bad_input() {
    assert!(matches!(
        Dispatcher::from_config(&config(Some("Random"), &[Some(1)])),
        Err(ConfigError::UnknownAlgorithm(_))
    ));
    assert!(matches!(
        Dispatcher::from_config(&config(None, &[Some(1), Some(0), Some(0)])),
        Err(ConfigError::ZeroWeight(1))
    ));
    assert!(Dispatcher::from_config(&config(None, &[])).is_ok());
}

#[test]
fn config_defaults() {
    let mut c = config(None, &[]);
    assert_eq!(c.port(), DEFAULT_PORT);
    assert_eq!(c.port(), 9000);
    assert_eq!(c.https_port(), DEFAULT_HTTPS_PORT);
    assert_eq!(c.https_port(), 9001);
    assert_eq!(c.workers(), DEFAULT_WORKERS);
    assert_eq!(c.workers(), 10);
    assert_eq!(c.log_level(), "info");
    c.debug = Some(true);
    c.port = Some(8080);
    c.https_port = Some(8443);
    c.workers = Some(4);
    assert_eq!(c.log_level(), "debug");
    assert_eq!(c.port(), 8080);
    assert_eq!(c.https_port(), 8443);
    assert_eq!(c.workers(), 4);
    c.debug = Some(false);
    assert_eq!(c.log_level(), "info");
}

#[test]
fn healthcheck_interval_default() {
    let h = HealthcheckConfig { interval_sec: None, route: "/".to_string() };
    assert_eq!(h.interval_secs(), 10);
    let h = HealthcheckConfig { interval_sec: Some(3), route: "/".to_string() };
    assert_eq!(h.interval_secs(), 3);
}

#[test]
fn args_default_config_path() {
    assert_eq!(Args::new(None).config, "./config.yaml");
    assert_eq!(Args::new(Some("/etc/lb.yaml".to_string())).config, "/etc/lb.yaml");
}
