use vstd::prelude::*;

use crate::backend::Backend;
use crate::dispatcher::{Dispatcher, LoadBalancingAlgorithm};
use vstd::string::StringExecFns;

verus! {

/// Plain HTTP port when the configuration names none.
pub const DEFAULT_PORT: u16 = 9000;

/// TLS port when the configuration names none.
pub const DEFAULT_HTTPS_PORT: u16 = 9001;

/// Number of server workers when the configuration names none.
pub const DEFAULT_WORKERS: usize = 10;

/// Weight of a backend whose configuration names none.
pub const DEFAULT_WEIGHT: usize = 1;

/// Command line arguments.
pub struct Args {
    /// Path to the configuration file.
    pub config: String,
}

/// The configuration file.
pub struct Config {
    pub port: Option<u16>,
    pub debug: Option<bool>,
    pub https_port: Option<u16>,
    pub algorithm: Option<String>,
    pub workers: Option<usize>,
    pub healthcheck: Option<HealthcheckConfig>,
    pub backends: Vec<BackendConfig>,
    pub ssl: Option<SslConfig>,
}

/// The optional health check block.
pub struct HealthcheckConfig {
    pub interval_sec: Option<u64>,
    pub route: String,
}

/// One configured upstream.
pub struct BackendConfig {
    pub url: String,
    pub weight: Option<usize>,
}

/// Certificate chain and private key files for the TLS listeners.
pub struct SslConfig {
    pub cert_path: String,
    pub key_path: String,
}

/// Why a configuration cannot be put to work.
#[derive(Debug)]
pub enum ConfigError {
    /// The `algorithm` names no known policy.
    UnknownAlgorithm(String),
    /// The backend at this position in `backends` has weight zero.
    ZeroWeight(usize),
}

/// The policy that a configured `algorithm` name stands for; names are case
/// sensitive.
pub open spec fn algorithm_named(name: Seq<char>) -> Option<LoadBalancingAlgorithm> {
    if name == "RoundRobin"@ {
        Some(LoadBalancingAlgorithm::RoundRobin)
    } else if name == "LeastConnections"@ {
        Some(LoadBalancingAlgorithm::LeastConnections)
    } else if name == "WeightedRoundRobin"@ {
        Some(LoadBalancingAlgorithm::WeightedRoundRobin)
    } else if name == "IPHashing"@ {
        Some(LoadBalancingAlgorithm::IPHashing)
    } else if name == "LeastLatency"@ {
        Some(LoadBalancingAlgorithm::LeastLatency)
    } else {
        None
    }
}

/// The policy that a configuration selects: round robin when it names none,
/// `None` when the name is unknown.
pub open spec fn configured_algorithm(c: Config) -> Option<LoadBalancingAlgorithm> {
    match c.algorithm {
        None => Some(LoadBalancingAlgorithm::RoundRobin),
        Some(name) => algorithm_named(name@),
    }
}

/// The configured weight of a backend, defaulting to one.
pub open spec fn configured_weight(b: BackendConfig) -> usize {
    match b.weight {
        Some(w) => w,
        None => DEFAULT_WEIGHT,
    }
}

/// Whether every configured backend has a positive weight.
pub open spec fn weights_positive(bs: Seq<BackendConfig>) -> bool {
    forall|i: int| 0 <= i < bs.len() ==> configured_weight(#[trigger] bs[i]) > 0
}

impl LoadBalancingAlgorithm {
    /// The policy named `name`, if any.
    pub fn from_name(name: &String) -> (r: Option<LoadBalancingAlgorithm>)
        ensures
            r == algorithm_named(name@),
    {
        if *name == String::from_str("RoundRobin") {
            Some(LoadBalancingAlgorithm::RoundRobin)
        } else if *name == String::from_str("LeastConnections") {
            Some(LoadBalancingAlgorithm::LeastConnections)
        } else if *name == String::from_str("WeightedRoundRobin") {
            Some(LoadBalancingAlgorithm::WeightedRoundRobin)
        } else if *name == String::from_str("IPHashing") {
            Some(LoadBalancingAlgorithm::IPHashing)
        } else if *name == String::from_str("LeastLatency") {
            Some(LoadBalancingAlgorithm::LeastLatency)
        } else {
            None
        }
    }
}

impl Args {
    /// Arguments naming `config`, or `./config.yaml` when none is given.
    pub fn new(config: Option<String>) -> (r: Args)
        ensures
            r.config@ == match config {
                Some(path) => path@,
                None => "./config.yaml"@,
            },
    {
        match config {
            Some(path) => Args { config: path },
            None => Args { config: String::from_str("./config.yaml") },
        }
    }
}

impl HealthcheckConfig {
    /// Seconds between two health checking cycles, defaulting to ten.
    pub fn interval_secs(&self) -> (r: u64)
        ensures
            r == match self.interval_sec {
                Some(s) => s,
                None => 10u64,
            },
    {
        match self.interval_sec {
            Some(s) => s,
            None => 10,
        }
    }
}

impl BackendConfig {
    /// The fresh live record of this upstream.
    pub fn to_backend(&self) -> (r: Backend)
        ensures
            r.address@ == self.url@,
            r.weight == configured_weight(*self),
            r.active_connections == 0,
            r.is_healthy,
            r.current_weight == 0,
            r.latency == crate::backend::UNREACHABLE_LATENCY,
    {
        let weight = match self.weight {
            Some(w) => w,
            None => DEFAULT_WEIGHT,
        };
        Backend::new(self.url.clone(), weight)
    }
}

impl Config {
    /// Plain HTTP port, defaulting to 9000.
    pub fn port(&self) -> (r: u16)
        ensures
            r == match self.port {
                Some(p) => p,
                None => DEFAULT_PORT,
            },
    {
        match self.port {
            Some(p) => p,
            None => DEFAULT_PORT,
        }
    }

    /// TLS port, defaulting to 9001.
    pub fn https_port(&self) -> (r: u16)
        ensures
            r == match self.https_port {
                Some(p) => p,
                None => DEFAULT_HTTPS_PORT,
            },
    {
        match self.https_port {
            Some(p) => p,
            None => DEFAULT_HTTPS_PORT,
        }
    }

    /// Number of server workers, defaulting to ten.
    pub fn workers(&self) -> (r: usize)
        ensures
            r == match self.workers {
                Some(n) => n,
                None => DEFAULT_WORKERS,
            },
    {
        match self.workers {
            Some(n) => n,
            None => DEFAULT_WORKERS,
        }
    }

    /// The logging filter: `debug` when `debug: true`, else `info`.
    pub fn log_level(&self) -> (r: String)
        ensures
            r@ == if self.debug == Some(true) {
                "debug"@
            } else {
                "info"@
            },
    {
        match self.debug {
            Some(true) => String::from_str("debug"),
            _ => String::from_str("info"),
        }
    }

    /// The configured policy; an absent `algorithm` means round robin.
    pub fn algorithm(&self) -> (r: Result<LoadBalancingAlgorithm, ConfigError>)
        ensures
            match self.algorithm {
                None => r == Ok::<LoadBalancingAlgorithm, ConfigError>(LoadBalancingAlgorithm::RoundRobin),
                Some(name) => match algorithm_named(name@) {
                    Some(a) => r == Ok::<LoadBalancingAlgorithm, ConfigError>(a),
                    None => r matches Err(ConfigError::UnknownAlgorithm(n)) && n@ == name@,
                },
            },
    {
        match &self.algorithm {
            None => Ok(LoadBalancingAlgorithm::RoundRobin),
            Some(name) => match LoadBalancingAlgorithm::from_name(name) {
                Some(a) => Ok(a),
                None => Err(ConfigError::UnknownAlgorithm(name.clone())),
            },
        }
    }

    /// The live backend records, in configuration order.
    pub fn backend_records(&self) -> (r: Vec<Backend>)
        ensures
            r.len() == self.backends.len(),
            forall|i: int|
                0 <= i < r.len() ==> {
                    &&& (#[trigger] r@[i]).address@ == self.backends@[i].url@
                    &&& r@[i].weight == configured_weight(self.backends@[i])
                    &&& r@[i].active_connections == 0
                    &&& r@[i].is_healthy
                    &&& r@[i].current_weight == 0
                    &&& r@[i].latency == crate::backend::UNREACHABLE_LATENCY
                },
    {
        let mut r: Vec<Backend> = Vec::new();
        let mut i: usize = 0;
        while i < self.backends.len()
            invariant
                i <= self.backends.len(),
                r.len() == i,
                forall|j: int|
                    0 <= j < i ==> {
                        &&& (#[trigger] r@[j]).address@ == self.backends@[j].url@
                        &&& r@[j].weight == configured_weight(self.backends@[j])
                        &&& r@[j].active_connections == 0
                        &&& r@[j].is_healthy
                        &&& r@[j].current_weight == 0
                        &&& r@[j].latency == crate::backend::UNREACHABLE_LATENCY
                    },
            decreases self.backends.len() - i,
        {
            r.push(self.backends[i].to_backend());
            i += 1;
        }
        r
    }

    /// Position of the first backend configured with weight zero, if any.
    pub fn first_zero_weight(&self) -> (r: Option<usize>)
        ensures
            match r {
                None => weights_positive(self.backends@),
                Some(i) => i < self.backends.len() && configured_weight(self.backends@[i as int]) == 0
                    && weights_positive(self.backends@.take(i as int)),
            },
    {
        let mut i: usize = 0;
        while i < self.backends.len()
            invariant
                i <= self.backends.len(),
                weights_positive(self.backends@.take(i as int)),
            decreases self.backends.len() - i,
        {
            let w = match self.backends[i].weight {
                Some(w) => w,
                None => DEFAULT_WEIGHT,
            };
            if w == 0 {
                return Some(i);
            }
            proof {
                assert forall|j: int| 0 <= j < i + 1 implies configured_weight(
                    #[trigger] self.backends@.take(i + 1)[j],
                ) > 0 by {
                    if j < i {
                        assert(self.backends@.take(i + 1)[j] == self.backends@.take(i as int)[j]);
                    }
                }
            }
            i += 1;
        }
        proof {
            assert(self.backends@.take(i as int) =~= self.backends@);
        }
        None
    }
}

impl Dispatcher {
    /// The dispatcher that a configuration describes: its backends fresh, in
    /// configuration order, under the configured policy, with the counter at
    /// zero.
    pub fn from_config(config: &Config) -> (r: Result<Dispatcher, ConfigError>)
        ensures
            match r {
                Ok(d) => {
                    &&& configured_algorithm(*config) == Some(d.algorithm)
                    &&& weights_positive(config.backends@)
                    &&& d.current == 0
                    &&& d.backends.len() == config.backends.len()
                    &&& forall|i: int|
                        0 <= i < d.backends.len() ==> {
                            &&& (#[trigger] d.backends@[i]).address@ == config.backends@[i].url@
                            &&& d.backends@[i].weight == configured_weight(config.backends@[i])
                            &&& d.backends@[i].active_connections == 0
                            &&& d.backends@[i].is_healthy
                            &&& d.backends@[i].current_weight == 0
                            &&& d.backends@[i].latency == crate::backend::UNREACHABLE_LATENCY
                        }
                },
                Err(ConfigError::UnknownAlgorithm(_)) => configured_algorithm(*config) is None,
                Err(ConfigError::ZeroWeight(i)) => {
                    &&& configured_algorithm(*config) is Some
                    &&& i < config.backends.len()
                    &&& configured_weight(config.backends@[i as int]) == 0
                    &&& weights_positive(config.backends@.take(i as int))
                },
            },
    {
        let algorithm = match config.algorithm() {
            Ok(a) => a,
            Err(e) => return Err(e),
        };
        match config.first_zero_weight() {
            Some(i) => return Err(ConfigError::ZeroWeight(i)),
            None => {},
        }
        Ok(Dispatcher::new(config.backend_records(), algorithm))
    }
}

} // verus!
