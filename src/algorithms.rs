use vstd::prelude::*;

use std::collections::hash_map::DefaultHasher;
use std::hash::Hasher;
use vstd::std_specs::hash::DefaultHasherAdditionalSpecFns;
use vstd::string::StringSliceAdditionalSpecFns;

use crate::backend::{is_index_set, Backend};
use crate::dispatcher::{next_counter, Dispatcher};

verus! {

/// Position of the first smallest element of `s`.
pub open spec fn first_min_pos(s: Seq<int>) -> int
    decreases s.len(),
{
    if s.len() <= 1 {
        0
    } else {
        let p = first_min_pos(s.drop_last());
        if s.last() < s[p] {
            s.len() - 1
        } else {
            p
        }
    }
}

/// Position of the first largest element of `s`.
pub open spec fn first_max_pos(s: Seq<int>) -> int
    decreases s.len(),
{
    if s.len() <= 1 {
        0
    } else {
        let p = first_max_pos(s.drop_last());
        if s.last() > s[p] {
            s.len() - 1
        } else {
            p
        }
    }
}

/// `p` holds a smallest element of `s`, and no earlier position does.
pub open spec fn is_first_min(s: Seq<int>, p: int) -> bool {
    &&& 0 <= p < s.len()
    &&& forall|j: int| 0 <= j < s.len() ==> s[p] <= #[trigger] s[j]
    &&& forall|j: int| 0 <= j < p ==> s[p] < #[trigger] s[j]
}

/// `p` holds a largest element of `s`, and no earlier position does.
pub open spec fn is_first_max(s: Seq<int>, p: int) -> bool {
    &&& 0 <= p < s.len()
    &&& forall|j: int| 0 <= j < s.len() ==> #[trigger] s[j] <= s[p]
    &&& forall|j: int| 0 <= j < p ==> #[trigger] s[j] < s[p]
}

pub proof fn lemma_first_min(s: Seq<int>)
    requires
        s.len() > 0,
    ensures
        is_first_min(s, first_min_pos(s)),
    decreases s.len(),
{
    if s.len() > 1 {
        let t = s.drop_last();
        lemma_first_min(t);
        assert forall|j: int| 0 <= j < t.len() implies t[j] == s[j] by {}
    }
}

pub proof fn lemma_first_max(s: Seq<int>)
    requires
        s.len() > 0,
    ensures
        is_first_max(s, first_max_pos(s)),
    decreases s.len(),
{
    if s.len() > 1 {
        let t = s.drop_last();
        lemma_first_max(t);
        assert forall|j: int| 0 <= j < t.len() implies t[j] == s[j] by {}
    }
}

/// The `current_weight` of every backend of the pool.
pub open spec fn current_weights(bs: Seq<Backend>) -> Seq<int> {
    bs.map_values(|b: Backend| b.current_weight as int)
}

/// The configured weight of every backend of the pool.
pub open spec fn weights(bs: Seq<Backend>) -> Seq<int> {
    bs.map_values(|b: Backend| b.weight as int)
}

/// Sum of the weights at the positions `hs`.
pub open spec fn weight_sum(w: Seq<int>, hs: Seq<usize>) -> int
    decreases hs.len(),
{
    if hs.len() == 0 {
        0
    } else {
        weight_sum(w, hs.drop_last()) + w[hs.last() as int]
    }
}

/// Step 1 of smooth weighted round robin: each participant's current weight
/// raised by its weight.
pub open spec fn raised(cw: Seq<int>, w: Seq<int>, hs: Seq<usize>) -> Seq<int> {
    Seq::new(hs.len(), |k: int| cw[hs[k] as int] + w[hs[k] as int])
}

/// Step 2: the position in `hs` of the winner, the first largest raised weight.
pub open spec fn wrr_pick(cw: Seq<int>, w: Seq<int>, hs: Seq<usize>) -> int {
    first_max_pos(raised(cw, w, hs))
}

/// All current weights after one selection over the participants `hs`: each
/// participant raised by its weight, and the winner lowered by their total.
pub open spec fn wrr_next(cw: Seq<int>, w: Seq<int>, hs: Seq<usize>) -> Seq<int> {
    let winner = hs[wrr_pick(cw, w, hs)] as int;
    Seq::new(
        cw.len(),
        |i: int|
            if i == winner {
                cw[i] + w[i] - weight_sum(w, hs)
            } else if hs.contains(i as usize) {
                cw[i] + w[i]
            } else {
                cw[i]
            },
    )
}

/// One selection over `hs` stays within the range of `isize`.
pub open spec fn wrr_fits(cw: Seq<int>, w: Seq<int>, hs: Seq<usize>) -> bool {
    &&& weight_sum(w, hs) <= isize::MAX
    &&& forall|k: int|
        0 <= k < hs.len() ==> isize::MIN + weight_sum(w, hs) <= #[trigger] cw[hs[k] as int]
            && cw[hs[k] as int] + w[hs[k] as int] <= isize::MAX
}

/// `b` is `a` with at most its `current_weight` changed.
pub open spec fn keeps_all_but_current_weight(a: Backend, b: Backend) -> bool {
    &&& b.address == a.address
    &&& b.weight == a.weight
    &&& b.active_connections == a.active_connections
    &&& b.is_healthy == a.is_healthy
    &&& b.latency == a.latency
}

/// A prefix of the participants weighs at most as much as all of them.
pub proof fn lemma_weight_sum_prefix(w: Seq<int>, hs: Seq<usize>, k: int)
    requires
        0 <= k <= hs.len(),
        forall|i: int| 0 <= i < w.len() ==> w[i] >= 0,
        forall|j: int| 0 <= j < hs.len() ==> hs[j] < w.len(),
    ensures
        0 <= weight_sum(w, hs.take(k)) <= weight_sum(w, hs),
    decreases hs.len(),
{
    if k == hs.len() {
        assert(hs.take(k) =~= hs);
        if hs.len() > 0 {
            lemma_weight_sum_prefix(w, hs.drop_last(), 0);
            assert(hs.drop_last().take(0) =~= hs.take(0));
        }
    } else {
        let t = hs.drop_last();
        lemma_weight_sum_prefix(w, t, k);
        assert(t.take(k) =~= hs.take(k));
    }
}

/// Smooth weighted round robin over `healthy`: raises every participant's
/// current weight by its weight, picks the first largest, lowers the winner by
/// the participants' total weight, and returns the winner's position in `healthy`.
pub fn weighted_round_robin(backends: &mut Vec<Backend>, healthy: &Vec<usize>) -> (r: usize)
    requires
        healthy.len() > 0,
        is_index_set(healthy@, old(backends).len() as int),
        wrr_fits(current_weights(old(backends)@), weights(old(backends)@), healthy@),
    ensures
        r == wrr_pick(current_weights(old(backends)@), weights(old(backends)@), healthy@),
        is_first_max(raised(current_weights(old(backends)@), weights(old(backends)@), healthy@), r as int),
        final(backends).len() == old(backends).len(),
        current_weights(final(backends)@) == wrr_next(
            current_weights(old(backends)@),
            weights(old(backends)@),
            healthy@,
        ),
        forall|i: int|
            0 <= i < old(backends).len() ==> keeps_all_but_current_weight(
                #[trigger] old(backends)@[i],
                final(backends)@[i],
            ),
{
    let ghost b0 = backends@;
    let ghost cw0 = current_weights(b0);
    let ghost w = weights(b0);
    let ghost hs = healthy@;
    let ghost s = raised(cw0, w, hs);
    let ghost total = weight_sum(w, hs);
    proof {
        lemma_weight_sum_prefix(w, hs, 1);
        lemma_weight_sum_prefix(w, hs, hs.len() as int);
        assert(hs.take(1).drop_last() =~= hs.take(0));
        assert(s.take(1).len() == 1);
        assert(hs.take(1)[0] == hs[0]);
        assert(weight_sum(w, hs.take(0)) == 0);
        assert(weight_sum(w, hs.take(1)) == w[hs[0] as int]);
        assert(cw0[hs[0] as int] == b0[hs[0] as int].current_weight);
    }
    let h0 = healthy[0];
    let raised0 = backends[h0].current_weight + backends[h0].weight as isize;
    backends[h0].current_weight = raised0;
    let mut best: usize = 0;
    let mut best_raised: isize = raised0;
    let mut sum: usize = backends[h0].weight;
    let mut k: usize = 1;
    while k < healthy.len()
        invariant
            1 <= k <= healthy.len(),
            hs == healthy@,
            is_index_set(hs, b0.len() as int),
            wrr_fits(cw0, w, hs),
            cw0 == current_weights(b0),
            w == weights(b0),
            s == raised(cw0, w, hs),
            total == weight_sum(w, hs),
            backends.len() == b0.len(),
            best < k,
            best == first_max_pos(s.take(k as int)),
            best_raised == s[best as int],
            sum == weight_sum(w, hs.take(k as int)),
            sum <= total,
            forall|j: int| 0 <= j < k ==> #[trigger] backends@[hs[j] as int].current_weight == s[j],
            forall|i: int|
                0 <= i < b0.len() && !hs.take(k as int).contains(i as usize)
                    ==> #[trigger] backends@[i].current_weight == cw0[i],
            forall|i: int|
                0 <= i < b0.len() ==> keeps_all_but_current_weight(#[trigger] b0[i], backends@[i]),
        decreases healthy.len() - k,
    {
        let h = healthy[k];
        proof {
            lemma_weight_sum_prefix(w, hs, k + 1);
            assert(hs.take(k + 1).drop_last() =~= hs.take(k as int));
            assert(s.take(k + 1).drop_last() =~= s.take(k as int));
            assert(!hs.take(k as int).contains(h)) by {
                if hs.take(k as int).contains(h) {
                    let j = choose|j: int| 0 <= j < k && #[trigger] hs.take(k as int)[j] == h;
                    assert(hs[j] < hs[k as int]);
                }
            }
        }
        proof {
            assert(cw0[hs[k as int] as int] == b0[hs[k as int] as int].current_weight);
            assert(hs.take(k + 1)[k as int] == h);
        }
        let raised_h = backends[h].current_weight + backends[h].weight as isize;
        backends[h].current_weight = raised_h;
        if raised_h > best_raised {
            best = k;
            best_raised = raised_h;
        }
        sum = sum + backends[h].weight;
        k += 1;
        proof {
            assert forall|i: int|
                0 <= i < b0.len() && !hs.take(k as int).contains(i as usize)
                    implies #[trigger] backends@[i].current_weight == cw0[i] by {
                assert(hs.take(k as int)[k - 1] == h);
                assert(!hs.take(k - 1).contains(i as usize)) by {
                    if hs.take(k - 1).contains(i as usize) {
                        let j = choose|j: int| 0 <= j < k - 1 && #[trigger] hs.take(k - 1)[j] == i as usize;
                        assert(hs.take(k as int)[j] == i as usize);
                    }
                }
            }
            assert forall|j: int| 0 <= j < k implies #[trigger] backends@[hs[j] as int].current_weight
                == s[j] by {
                if j < k - 1 {
                    assert(hs[j] < hs[k - 1]);
                }
            }
        }
    }
    proof {
        assert(s.take(k as int) =~= s);
        assert(hs.take(k as int) =~= hs);
        lemma_first_max(s);
    }
    let winner = healthy[best];
    backends[winner].current_weight = backends[winner].current_weight - sum as isize;
    proof {
        let next = wrr_next(cw0, w, hs);
        assert forall|i: int| 0 <= i < b0.len() implies current_weights(backends@)[i] == next[i] by {
            if i != winner as int && hs.contains(i as usize) {
                let j = choose|j: int| 0 <= j < hs.len() && #[trigger] hs[j] == i as usize;
                assert(backends@[hs[j] as int].current_weight == s[j]);
            }
        }
        assert(current_weights(backends@) =~= next);
    }
    best
}

/// Active connection counts of the backends at the positions `hs`.
pub open spec fn connections(bs: Seq<Backend>, hs: Seq<usize>) -> Seq<int> {
    Seq::new(hs.len(), |k: int| bs[hs[k] as int].active_connections as int)
}

/// Recorded latencies of the backends at the positions `hs`.
pub open spec fn latencies(bs: Seq<Backend>, hs: Seq<usize>) -> Seq<int> {
    Seq::new(hs.len(), |k: int| bs[hs[k] as int].latency as int)
}

/// Least connections: the position in `healthy` of the first backend with
/// the fewest active connections.
pub fn least_connections(backends: &Vec<Backend>, healthy: &Vec<usize>) -> (r: usize)
    requires
        healthy.len() > 0,
        is_index_set(healthy@, backends.len() as int),
    ensures
        r == first_min_pos(connections(backends@, healthy@)),
        is_first_min(connections(backends@, healthy@), r as int),
{
    let ghost s = connections(backends@, healthy@);
    let mut index: usize = 0;
    let mut i: usize = 1;
    while i < healthy.len()
        invariant
            1 <= i <= healthy.len(),
            is_index_set(healthy@, backends.len() as int),
            s == connections(backends@, healthy@),
            index < i,
            index == first_min_pos(s.take(i as int)),
        decreases healthy.len() - i,
    {
        proof {
            assert(s.take(i + 1).drop_last() =~= s.take(i as int));
        }
        if backends[healthy[i]].active_connections < backends[healthy[index]].active_connections {
            index = i;
        }
        i += 1;
    }
    proof {
        assert(s.take(i as int) =~= s);
        lemma_first_min(s);
    }
    index
}

/// Least latency: the position in `healthy` of the first backend with the
/// smallest recorded latency.
pub fn least_latency(backends: &Vec<Backend>, healthy: &Vec<usize>) -> (r: usize)
    requires
        healthy.len() > 0,
        is_index_set(healthy@, backends.len() as int),
    ensures
        r == first_min_pos(latencies(backends@, healthy@)),
        is_first_min(latencies(backends@, healthy@), r as int),
{
    let ghost s = latencies(backends@, healthy@);
    let mut index: usize = 0;
    let mut i: usize = 1;
    while i < healthy.len()
        invariant
            1 <= i <= healthy.len(),
            is_index_set(healthy@, backends.len() as int),
            s == latencies(backends@, healthy@),
            index < i,
            index == first_min_pos(s.take(i as int)),
        decreases healthy.len() - i,
    {
        proof {
            assert(s.take(i + 1).drop_last() =~= s.take(i as int));
        }
        if backends[healthy[i]].latency < backends[healthy[index]].latency {
            index = i;
        }
        i += 1;
    }
    proof {
        assert(s.take(i as int) =~= s);
        lemma_first_min(s);
    }
    index
}

/// Round robin: the position `counter mod |healthy|`; the counter moves on by one.
pub fn round_robin(dispatcher: &mut Dispatcher, healthy: &Vec<usize>) -> (r: usize)
    requires
        healthy.len() > 0,
    ensures
        r == old(dispatcher).current % healthy.len(),
        final(dispatcher).current == next_counter(old(dispatcher).current),
        final(dispatcher).backends@ == old(dispatcher).backends@,
        final(dispatcher).algorithm == old(dispatcher).algorithm,
{
    let c = dispatcher.current;
    dispatcher.current = if c == usize::MAX {
        0
    } else {
        c + 1
    };
    c % healthy.len()
}

/// The process-stable hash of a peer address text, fed to the hasher the way
/// a `str` hashes itself: its bytes, then a `0xff` terminator.
pub open spec fn ip_hash(ip: Seq<u8>) -> u64 {
    DefaultHasher::spec_finish(seq![ip, seq![0xffu8]])
}

fn hash_peer_ip(ip: &str) -> (r: u64)
    ensures
        r == ip_hash(ip.spec_bytes()),
{
    let mut hasher = DefaultHasher::new();
    let bytes = ip.as_bytes();
    hasher.write(bytes);
    let terminator: Vec<u8> = vec![0xff];
    hasher.write(terminator.as_slice());
    proof {
        assert(terminator@ =~= seq![0xffu8]);
        assert(hasher@ =~= seq![ip.spec_bytes(), seq![0xffu8]]);
    }
    hasher.finish()
}

/// Source IP hashing: with a peer address, the position `hash(ip) mod
/// |healthy|`; without one, round robin on the shared counter.
pub fn ip_hashing(dispatcher: &mut Dispatcher, peer_ip: Option<&str>, healthy: &Vec<usize>) -> (r: usize)
    requires
        healthy.len() > 0,
    ensures
        final(dispatcher).backends@ == old(dispatcher).backends@,
        final(dispatcher).algorithm == old(dispatcher).algorithm,
        match peer_ip {
            Some(ip) => {
                &&& r == ip_hash(ip.spec_bytes()) % (healthy.len() as u64)
                &&& final(dispatcher).current == old(dispatcher).current
            },
            None => {
                &&& r == old(dispatcher).current % healthy.len()
                &&& final(dispatcher).current == next_counter(old(dispatcher).current)
            },
        },
{
    match peer_ip {
        Some(ip) => {
            let h = hash_peer_ip(ip);
            (h % (healthy.len() as u64)) as usize
        },
        None => round_robin(dispatcher, healthy),
    }
}

/// Least latency prefers the fastest backend: when the healthy backend at
/// position `a` has a smaller recorded latency than every other healthy
/// backend, it is the one chosen.
pub proof fn lemma_least_latency_prefers_fastest(bs: Seq<Backend>, hs: Seq<usize>, a: int)
    requires
        0 <= a < hs.len(),
        is_index_set(hs, bs.len() as int),
        forall|k: int|
            0 <= k < hs.len() && k != a ==> bs[hs[a] as int].latency < #[trigger] bs[hs[k] as int].latency,
    ensures
        first_min_pos(latencies(bs, hs)) == a,
{
    let s = latencies(bs, hs);
    lemma_first_min(s);
    let p = first_min_pos(s);
    if p != a {
        assert(s[p] <= s[a]);
        assert(bs[hs[a] as int].latency < bs[hs[p] as int].latency);
    }
}

} // verus!
