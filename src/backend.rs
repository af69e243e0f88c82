use vstd::prelude::*;

verus! {

/// Latency recorded for a backend that has never been measured or did not
/// answer its last probe.
pub const UNREACHABLE_LATENCY: u64 = 0xffff_ffff_ffff_ffff;

/// One configured upstream and the live state that the dispatcher and the
/// supervisors keep for it.
pub struct Backend {
    /// Absolute URL prefix, `scheme://host[:port]`.
    pub address: String,
    /// Relative share of traffic under weighted round robin.
    pub weight: usize,
    /// Number of forwards currently holding this backend.
    pub active_connections: usize,
    /// Outcome of the last health probe; true until a probe says otherwise.
    pub is_healthy: bool,
    /// Smooth weighted round robin accumulator.
    pub current_weight: isize,
    /// Last measured probe round trip in nanoseconds, or `UNREACHABLE_LATENCY`.
    pub latency: u64,
}

impl Backend {
    /// A freshly configured backend: healthy, idle, unmeasured.
    pub fn new(address: String, weight: usize) -> (r: Backend)
        ensures
            r.address@ == address@,
            r.weight == weight,
            r.active_connections == 0,
            r.is_healthy,
            r.current_weight == 0,
            r.latency == UNREACHABLE_LATENCY,
    {
        Backend {
            address,
            weight,
            active_connections: 0,
            is_healthy: true,
            current_weight: 0,
            latency: UNREACHABLE_LATENCY,
        }
    }
}

/// Indices of the healthy backends of `bs`, in configuration order.
pub open spec fn healthy_indices(bs: Seq<Backend>) -> Seq<usize>
    decreases bs.len(),
{
    if bs.len() == 0 {
        Seq::empty()
    } else {
        let prev = healthy_indices(bs.drop_last());
        if bs.last().is_healthy {
            prev.push((bs.len() - 1) as usize)
        } else {
            prev
        }
    }
}

/// `hs` lists distinct positions below `n` in increasing order.
pub open spec fn is_index_set(hs: Seq<usize>, n: int) -> bool {
    &&& forall|i: int, j: int| 0 <= i < j < hs.len() ==> hs[i] < hs[j]
    &&& forall|k: int| 0 <= k < hs.len() ==> hs[k] < n
}

/// The healthy set is an ordered index set of exactly the healthy backends.
pub proof fn lemma_healthy_indices(bs: Seq<Backend>)
    requires
        bs.len() <= usize::MAX,
    ensures
        is_index_set(healthy_indices(bs), bs.len() as int),
        forall|k: int|
            0 <= k < healthy_indices(bs).len() ==> (#[trigger] bs[healthy_indices(bs)[k] as int]).is_healthy,
        forall|i: int|
            0 <= i < bs.len() && bs[i].is_healthy ==> healthy_indices(bs).contains(i as usize),
        healthy_indices(bs).len() <= bs.len(),
    decreases bs.len(),
{
    if bs.len() > 0 {
        let prev = bs.drop_last();
        lemma_healthy_indices(prev);
        let hp = healthy_indices(prev);
        assert forall|i: int| 0 <= i < bs.len() && bs[i].is_healthy implies healthy_indices(bs).contains(
            i as usize,
        ) by {
            if i < bs.len() - 1 {
                assert(prev[i] == bs[i]);
                let k = choose|k: int| 0 <= k < hp.len() && hp[k] == i as usize;
                if bs.last().is_healthy {
                    assert(healthy_indices(bs)[k] == i as usize);
                }
            } else {
                assert(healthy_indices(bs).last() == i as usize);
            }
        }
        assert forall|k: int| 0 <= k < healthy_indices(bs).len() implies (#[trigger] bs[healthy_indices(
            bs,
        )[k] as int]).is_healthy by {
            if k < hp.len() {
                assert(prev[hp[k] as int] == bs[hp[k] as int]);
            }
        }
    }
}

/// When every backend is healthy, the healthy set is the whole pool.
pub proof fn lemma_all_healthy(bs: Seq<Backend>)
    requires
        bs.len() <= usize::MAX,
        forall|i: int| 0 <= i < bs.len() ==> #[trigger] bs[i].is_healthy,
    ensures
        healthy_indices(bs) == Seq::new(bs.len(), |i: int| i as usize),
    decreases bs.len(),
{
    if bs.len() > 0 {
        let prev = bs.drop_last();
        assert forall|i: int| 0 <= i < prev.len() implies #[trigger] prev[i].is_healthy by {
            assert(prev[i] == bs[i]);
        }
        lemma_all_healthy(prev);
        assert(healthy_indices(bs) =~= Seq::new(bs.len(), |i: int| i as usize));
    }
}

/// Builds the healthy set from one pass over the pool.
pub fn healthy_set(backends: &Vec<Backend>) -> (r: Vec<usize>)
    ensures
        r@ == healthy_indices(backends@),
{
    let mut r: Vec<usize> = Vec::new();
    let mut i: usize = 0;
    while i < backends.len()
        invariant
            i <= backends.len(),
            r@ == healthy_indices(backends@.take(i as int)),
        decreases backends.len() - i,
    {
        proof {
            assert(backends@.take(i + 1).drop_last() =~= backends@.take(i as int));
        }
        if backends[i].is_healthy {
            r.push(i);
        }
        i += 1;
    }
    proof {
        assert(backends@.take(i as int) =~= backends@);
    }
    r
}

} // verus!
