//! Rebalancing of replicated layer shards over a grid of servers.
//!
//! Every tick runs four checks: servers that went silent are evicted, ranges with too few replicas
//! get spares, ranges with too many lose one, and a replica that stays much slower than its peers
//! is asked to give its layer up. Each check decides here what is to be done; the grid's state and
//! the messages to the servers are the caller's.
//!
//! Times are nanoseconds of one monotonic clock. Latencies and the threshold are bit patterns of
//! single-precision numbers; the quotient of two latencies is compared with the threshold by the
//! caller.

use vstd::prelude::*;

use crate::float_bits::{is_not_positive, numeric_order_key};

verus! {

/// Nanoseconds of a second.
pub const NANOS_PER_SEC: u128 = 1_000_000_000;

/// Bit pattern of the default threshold, 2.
pub const DEFAULT_THRESHOLD: u32 = 0x4000_0000;

// ── Configuration ───────────────────────────────────────────────────────────

/// When the checks run and when they act.
#[derive(Clone, Copy, Debug)]
pub struct RebalancerConfig {
    /// Time between two ticks.
    pub check_interval: u128,
    /// Bit pattern of the ratio of slowest to fastest above which a layer is out of balance.
    pub imbalance_threshold: u32,
    /// How long a layer stays out of balance before a replica is asked to leave.
    pub sustained_window: u128,
    /// A server without a heartbeat for this long is evicted.
    pub stale_heartbeat_timeout: u128,
}

impl Default for RebalancerConfig {
    fn default() -> (config: Self)
        ensures
            config.check_interval == 30 * NANOS_PER_SEC,
            config.imbalance_threshold == DEFAULT_THRESHOLD,
            config.sustained_window == 60 * NANOS_PER_SEC,
            config.stale_heartbeat_timeout == 25 * NANOS_PER_SEC,
            config.check_interval == 30_000_000_000,
            config.imbalance_threshold == 0x4000_0000,
            config.sustained_window == 60_000_000_000,
            config.stale_heartbeat_timeout == 25_000_000_000,
    {
        RebalancerConfig {
            check_interval: 30 * NANOS_PER_SEC,
            imbalance_threshold: DEFAULT_THRESHOLD,
            sustained_window: 60 * NANOS_PER_SEC,
            stale_heartbeat_timeout: 25 * NANOS_PER_SEC,
        }
    }
}

impl RebalancerConfig {
    /// The configuration for an interval and a threshold given on the command line: an imbalance
    /// has to last two ticks.
    pub fn from_cli(interval_secs: u64, threshold: u32) -> (config: Self)
        requires
            interval_secs * 2 <= u64::MAX,
        ensures
            config.check_interval == interval_secs * NANOS_PER_SEC,
            config.imbalance_threshold == threshold,
            config.sustained_window == interval_secs * 2 * NANOS_PER_SEC,
            config.stale_heartbeat_timeout == 25 * NANOS_PER_SEC,
            config.check_interval == interval_secs * 1_000_000_000,
            config.sustained_window == 2 * config.check_interval,
            config.stale_heartbeat_timeout == 25_000_000_000,
    {
        RebalancerConfig {
            check_interval: interval_secs as u128 * NANOS_PER_SEC,
            imbalance_threshold: threshold,
            sustained_window: (interval_secs * 2) as u128 * NANOS_PER_SEC,
            stale_heartbeat_timeout: 25 * NANOS_PER_SEC,
        }
    }
}

/// One of the checks of a tick.
#[derive(PartialEq, Eq, Structural, Clone, Copy, Debug)]
pub enum Check {
    /// Evict servers that stopped sending heartbeats.
    StaleHeartbeats,
    /// Give spares to ranges with too few replicas.
    UnderReplication,
    /// Take a replica from ranges with too many.
    OverReplication,
    /// Ask lasting slow replicas to leave.
    Imbalance,
}

/// The checks of a tick, in the order in which they run.
pub fn tick_checks() -> (checks: Vec<Check>)
    ensures
        checks@ == seq![
            Check::StaleHeartbeats,
            Check::UnderReplication,
            Check::OverReplication,
            Check::Imbalance,
        ],
{
    let mut checks: Vec<Check> = Vec::new();
    checks.push(Check::StaleHeartbeats);
    checks.push(Check::UnderReplication);
    checks.push(Check::OverReplication);
    checks.push(Check::Imbalance);
    assert(checks@ =~= seq![
        Check::StaleHeartbeats,
        Check::UnderReplication,
        Check::OverReplication,
        Check::Imbalance,
    ]);
    checks
}

// ── How long a layer has been out of balance ────────────────────────────────

/// A layer of a model.
pub type LayerKey = (Seq<char>, u32);

/// The layer that a model's name and a layer's number denote.
pub open spec fn layer_key(key: (String, u32)) -> LayerKey {
    (key.0@, key.1)
}

/// Since when a layer has been out of balance.
struct Sighting {
    key: (String, u32),
    first_seen: u128,
}

/// Tracks since when layers have been out of balance.
pub struct ImbalanceTracker {
    sightings: Vec<Sighting>,
}

impl ImbalanceTracker {
    spec fn key(&self, i: int) -> LayerKey {
        layer_key(self.sightings@[i].key)
    }

    spec fn holds(&self, key: LayerKey) -> bool {
        exists|i: int| 0 <= i < self.sightings@.len() && #[trigger] self.key(i) == key
    }

    spec fn place(&self, key: LayerKey) -> int {
        choose|i: int| 0 <= i < self.sightings@.len() && #[trigger] self.key(i) == key
    }

    /// No layer is held twice.
    pub closed spec fn wf(&self) -> bool {
        forall|i: int, j: int|
            0 <= i < j < self.sightings@.len() ==> #[trigger] self.key(i) != #[trigger] self.key(j)
    }

    /// By layer, when the imbalance was first seen.
    pub closed spec fn view(&self) -> Map<LayerKey, u128> {
        Map::new(
            |key: LayerKey| self.holds(key),
            |key: LayerKey| self.sightings@[self.place(key)].first_seen,
        )
    }

    proof fn lemma_at(&self, i: int)
        requires
            self.wf(),
            0 <= i < self.sightings@.len(),
        ensures
            self.view().contains_key(self.key(i)),
            self.view()[self.key(i)] == self.sightings@[i].first_seen,
    {
        let found = self.place(self.key(i));
        assert(self.key(found) == self.key(i));
        if found < i {
            assert(self.key(found) != self.key(i));
        } else if i < found {
            assert(self.key(i) != self.key(found));
        }
    }

    fn find(&self, key: &(String, u32)) -> (at: Option<usize>)
        requires
            self.wf(),
        ensures
            match at {
                Some(i) => i < self.sightings@.len() && self.key(i as int) == layer_key(*key),
                None => !self.view().contains_key(layer_key(*key)),
            },
    {
        let mut at: usize = 0;
        while at < self.sightings.len()
            invariant
                at <= self.sightings@.len(),
                forall|i: int| 0 <= i < at ==> #[trigger] self.key(i) != layer_key(*key),
            decreases self.sightings@.len() - at,
        {
            let here = &self.sightings[at].key;
            assert(self.key(at as int) == layer_key(*here));
            if here.1 == key.1 && here.0 == key.0 {
                return Some(at);
            }
            at = at + 1;
        }
        None
    }

    /// Notes at time `now` that the layer is out of balance, and tells whether it has been for at
    /// least `sustained`.
    pub fn record(&mut self, key: (String, u32), sustained: u128, now: u128) -> (lasting: bool)
        requires
            old(self).wf(),
        ensures
            final(self).wf(),
            final(self).view() == record_of(old(self).view(), layer_key(key), now),
            lasting == lasts(old(self).view(), layer_key(key), sustained, now),
    {
        let ghost before = *self;
        let ghost name = layer_key(key);
        match self.find(&key) {
            Some(at) => {
                let first: u128 = self.sightings[at].first_seen;
                proof {
                    self.lemma_at(at as int);
                    assert(record_of(before.view(), name, now) =~= before.view());
                }
                now >= first && now - first >= sustained || sustained == 0
            },
            None => {
                self.sightings.push(Sighting { key, first_seen: now });
                proof {
                    let n = before.sightings@.len() as int;
                    assert(self.key(n) == name);
                    assert forall|i: int| 0 <= i < n implies #[trigger] self.key(i) == before.key(
                        i,
                    ) && before.key(i) != name by {
                        before.lemma_at(i);
                    }
                    assert(self.wf());
                    assert forall|k: LayerKey| #[trigger] self.view().contains_key(k)
                        == record_of(before.view(), name, now).contains_key(k) by {
                        if self.holds(k) {
                            let i = self.place(k);
                            if i < n {
                                assert(before.key(i) == k);
                            }
                        }
                        if before.holds(k) {
                            let i = before.place(k);
                            assert(self.key(i) == k);
                        }
                    }
                    assert forall|k: LayerKey| self.view().contains_key(
                        k,
                    ) implies #[trigger] self.view()[k] == record_of(
                        before.view(),
                        name,
                        now,
                    )[k] by {
                        let i = self.place(k);
                        self.lemma_at(i);
                        if i < n {
                            before.lemma_at(i);
                        }
                    }
                    assert(self.view() =~= record_of(before.view(), name, now));
                }
                sustained == 0
            },
        }
    }

    /// Forgets a layer that is balanced again or was acted on.
    pub fn clear(&mut self, key: &(String, u32))
        requires
            old(self).wf(),
        ensures
            final(self).wf(),
            final(self).view() == old(self).view().remove(layer_key(*key)),
    {
        let ghost before = *self;
        let ghost name = layer_key(*key);
        match self.find(key) {
            Some(at) => {
                self.sightings.remove(at);
                proof {
                    let n = before.sightings@.len() as int;
                    assert forall|i: int| 0 <= i < n - 1 implies #[trigger] self.key(i)
                        == before.key(if i < at { i } else { i + 1 }) by {}
                    assert(self.wf());
                    assert forall|k: LayerKey| #[trigger] self.view().contains_key(k)
                        == before.view().remove(name).contains_key(k) by {
                        if self.holds(k) {
                            let i = self.place(k);
                            let j = if i < at { i } else { i + 1 };
                            assert(before.key(j) == k);
                            assert(before.key(at as int) == name);
                        }
                        if before.holds(k) && k != name {
                            let j = before.place(k);
                            let i = if j < at { j } else { j - 1 };
                            assert(self.key(i) == k);
                        }
                    }
                    assert forall|k: LayerKey| self.view().contains_key(
                        k,
                    ) implies #[trigger] self.view()[k] == before.view().remove(name)[k] by {
                        let i = self.place(k);
                        self.lemma_at(i);
                        before.lemma_at(if i < at { i } else { i + 1 });
                    }
                    assert(self.view() =~= before.view().remove(name));
                }
            },
            None => {
                assert(before.view().remove(name) =~= before.view());
            },
        }
    }

    /// Whether no layer is held.
    pub fn is_empty(&self) -> (empty: bool)
        requires
            self.wf(),
        ensures
            empty == (self.view() == Map::<LayerKey, u128>::empty()),
    {
        proof {
            if self.sightings@.len() == 0 {
                assert(self.view() =~= Map::<LayerKey, u128>::empty());
            } else {
                self.lemma_at(0);
            }
        }
        self.sightings.len() == 0
    }
}

impl Default for ImbalanceTracker {
    /// A tracker that has seen nothing.
    fn default() -> (tracker: Self)
        ensures
            tracker.wf(),
            tracker.view() == Map::<LayerKey, u128>::empty(),
    {
        let tracker = ImbalanceTracker { sightings: Vec::new() };
        assert(tracker.view() =~= Map::<LayerKey, u128>::empty());
        tracker
    }
}

/// The sightings with one more: an earlier one of the same layer stands.
pub open spec fn record_of(
    seen: Map<LayerKey, u128>,
    key: LayerKey,
    now: u128,
) -> Map<LayerKey, u128> {
    if seen.contains_key(key) {
        seen
    } else {
        seen.insert(key, now)
    }
}

/// Whether the layer, seen at `now`, has been out of balance for at least `sustained`. A sighting
/// that is not yet past counts as just made.
pub open spec fn lasts(
    seen: Map<LayerKey, u128>,
    key: LayerKey,
    sustained: u128,
    now: u128,
) -> bool {
    let first = record_of(seen, key, now)[key];
    sustained <= if now >= first {
        now - first
    } else {
        0
    }
}

// ── Latencies by layer ──────────────────────────────────────────────────────

/// A server's mean latency on one layer.
pub struct LayerLatency {
    /// The layer.
    pub layer: u32,
    /// Bit pattern of the mean latency in milliseconds.
    pub avg_ms: u32,
}

/// What a server measured.
pub struct ServerLatencies {
    /// The server.
    pub server_id: String,
    /// The model that it serves.
    pub model_id: String,
    /// Its latencies.
    pub latencies: Vec<LayerLatency>,
}

/// A server's name and the bit pattern of its mean latency.
pub type ReplicaView = (Seq<char>, u32);

/// A server among those that serve one layer.
pub struct Replica {
    /// The server.
    pub server_id: String,
    /// Bit pattern of its mean latency in milliseconds.
    pub avg_ms: u32,
}

/// The servers that measured one layer.
pub struct LayerGroup {
    /// Model and layer.
    pub key: (String, u32),
    /// The servers, in the order in which they were listed.
    pub replicas: Vec<Replica>,
}

impl LayerGroup {
    /// The servers and their latencies.
    pub open spec fn replicas_view(&self) -> Seq<ReplicaView> {
        Seq::new(
            self.replicas@.len(),
            |i: int| (self.replicas@[i].server_id@, self.replicas@[i].avg_ms),
        )
    }
}

/// A server's measurements: of which layer, by whom, how much.
pub open spec fn server_samples(server: ServerLatencies) -> Seq<(LayerKey, ReplicaView)> {
    Seq::new(
        server.latencies@.len(),
        |i: int|
            (
                (server.model_id@, server.latencies@[i].layer),
                (server.server_id@, server.latencies@[i].avg_ms),
            ),
    )
}

/// The measurements of all servers, in order.
pub open spec fn all_samples(servers: Seq<ServerLatencies>) -> Seq<(LayerKey, ReplicaView)>
    decreases servers.len(),
{
    if servers.len() == 0 {
        Seq::empty()
    } else {
        all_samples(servers.drop_last()) + server_samples(servers.last())
    }
}

/// The measurements of one layer, in order.
pub open spec fn samples_of(
    samples: Seq<(LayerKey, ReplicaView)>,
    key: LayerKey,
) -> Seq<ReplicaView>
    decreases samples.len(),
{
    if samples.len() == 0 {
        Seq::empty()
    } else if samples.last().0 == key {
        samples_of(samples.drop_last(), key).push(samples.last().1)
    } else {
        samples_of(samples.drop_last(), key)
    }
}

/// No layer has two groups.
pub open spec fn distinct_layers(groups: Seq<LayerGroup>) -> bool {
    forall|i: int, j: int|
        0 <= i < j < groups.len() ==> layer_key((#[trigger] groups[i]).key) != layer_key(
            (#[trigger] groups[j]).key,
        )
}

/// There is a group of the layer.
pub open spec fn has_group(groups: Seq<LayerGroup>, key: LayerKey) -> bool {
    exists|i: int| 0 <= i < groups.len() && layer_key((#[trigger] groups[i]).key) == key
}

/// `groups` sort the measurements by layer: one group for every layer that was measured, holding
/// all its measurements in order.
pub open spec fn sorts(groups: Seq<LayerGroup>, samples: Seq<(LayerKey, ReplicaView)>) -> bool {
    &&& distinct_layers(groups)
    &&& forall|i: int|
        0 <= i < groups.len() ==> (#[trigger] groups[i]).replicas_view() == samples_of(
            samples,
            layer_key(groups[i].key),
        )
    &&& forall|key: LayerKey| #[trigger]
        samples_of(samples, key).len() > 0 <==> has_group(groups, key)
}

/// Adds a measurement to the group of its layer, which is made where there is none.
fn add_sample(
    groups: &mut Vec<LayerGroup>,
    model_id: &String,
    layer: u32,
    replica: Replica,
    Ghost(samples): Ghost<Seq<(LayerKey, ReplicaView)>>,
)
    requires
        sorts(old(groups)@, samples),
    ensures
        sorts(
            final(groups)@,
            samples.push(((model_id@, layer), (replica.server_id@, replica.avg_ms))),
        ),
{
    let ghost before = groups@;
    let ghost key = (model_id@, layer);
    let ghost view = (replica.server_id@, replica.avg_ms);
    let ghost after = samples.push((key, view));
    proof {
        assert(after.drop_last() =~= samples);
        assert forall|k: LayerKey| #[trigger] samples_of(after, k) == if k == key {
            samples_of(samples, k).push(view)
        } else {
            samples_of(samples, k)
        } by {}
    }
    let mut at: usize = 0;
    while at < groups.len()
        invariant
            at <= groups@.len(),
            groups@ == before,
            sorts(before, samples),
            key == (model_id@, layer),
            after == samples.push((key, view)),
            view == (replica.server_id@, replica.avg_ms),
            forall|i: int| 0 <= i < at ==> layer_key((#[trigger] before[i]).key) != key,
            forall|k: LayerKey| #[trigger]
                samples_of(after, k) == if k == key {
                    samples_of(samples, k).push(view)
                } else {
                    samples_of(samples, k)
                },
        decreases groups@.len() - at,
    {
        if groups[at].key.1 == layer && groups[at].key.0 == *model_id {
            groups[at].replicas.push(replica);
            proof {
                let here = at as int;
                assert(layer_key(before[here].key) == key);
                assert(groups@[here].replicas_view() =~= before[here].replicas_view().push(view));
                assert forall|i: int| 0 <= i < groups@.len() implies layer_key(
                    (#[trigger] groups@[i]).key,
                ) == layer_key(before[i].key) by {}
                assert forall|i: int| 0 <= i < groups@.len() implies (
                #[trigger] groups@[i]).replicas_view() == samples_of(
                    after,
                    layer_key(groups@[i].key),
                ) by {
                    if i < here {
                        assert(layer_key(before[i].key) != layer_key(before[here].key));
                    } else if i > here {
                        assert(layer_key(before[here].key) != layer_key(before[i].key));
                        assert(groups@[i] == before[i]);
                    }
                }
                assert(distinct_layers(groups@));
                assert forall|k: LayerKey| #[trigger] samples_of(after, k).len() > 0
                    <==> has_group(groups@, k) by {
                    if has_group(groups@, k) {
                        let i = choose|i: int|
                            0 <= i < groups@.len() && layer_key((#[trigger] groups@[i]).key) == k;
                        assert(layer_key(before[i].key) == k);
                        assert(has_group(before, k));
                    }
                    if has_group(before, k) {
                        let i = choose|i: int|
                            0 <= i < before.len() && layer_key((#[trigger] before[i]).key) == k;
                        assert(layer_key(groups@[i].key) == k);
                    }
                    if k == key {
                        assert(layer_key(groups@[here].key) == k);
                    }
                }
            }
            return ;
        }
        at = at + 1;
    }
    let mut replicas: Vec<Replica> = Vec::new();
    replicas.push(replica);
    groups.push(LayerGroup { key: (model_id.clone(), layer), replicas });
    proof {
        let last = before.len() as int;
        assert(!has_group(before, key));
        assert(samples_of(samples, key).len() == 0);
        assert(layer_key(groups@[last].key) == key);
        assert(groups@[last].replicas_view() =~= samples_of(after, key));
        assert forall|i: int| 0 <= i < last implies #[trigger] groups@[i] == before[i] by {}
        assert forall|k: LayerKey| #[trigger] samples_of(after, k).len() > 0 <==> has_group(
            groups@,
            k,
        ) by {
            if has_group(groups@, k) {
                let i = choose|i: int|
                    0 <= i < groups@.len() && layer_key((#[trigger] groups@[i]).key) == k;
                if i < last {
                    assert(layer_key(before[i].key) == k);
                    assert(has_group(before, k));
                }
            }
            if has_group(before, k) {
                let i = choose|i: int|
                    0 <= i < before.len() && layer_key((#[trigger] before[i]).key) == k;
                assert(layer_key(groups@[i].key) == k);
            }
        }
    }
}

/// Sorts what the servers measured by model and layer.
pub fn group_by_layer(servers: &Vec<ServerLatencies>) -> (groups: Vec<LayerGroup>)
    ensures
        sorts(groups@, all_samples(servers@)),
{
    let mut groups: Vec<LayerGroup> = Vec::new();
    let mut at: usize = 0;
    assert(servers@.take(0) =~= Seq::empty());
    while at < servers.len()
        invariant
            at <= servers@.len(),
            sorts(groups@, all_samples(servers@.take(at as int))),
        decreases servers@.len() - at,
    {
        let server = &servers[at];
        let ghost before = all_samples(servers@.take(at as int));
        let ghost own = server_samples(*server);
        let mut i: usize = 0;
        assert(before + own.take(0) =~= before);
        while i < server.latencies.len()
            invariant
                i <= server.latencies@.len(),
                own == server_samples(*server),
                sorts(groups@, before + own.take(i as int)),
            decreases server.latencies@.len() - i,
        {
            let latency = &server.latencies[i];
            let replica = Replica {
                server_id: server.server_id.clone(),
                avg_ms: latency.avg_ms,
            };
            add_sample(
                &mut groups,
                &server.model_id,
                latency.layer,
                replica,
                Ghost(before + own.take(i as int)),
            );
            assert((before + own.take(i as int)).push(own[i as int]) =~= before + own.take(i + 1));
            i = i + 1;
        }
        proof {
            assert(own.take(own.len() as int) =~= own);
            assert(servers@.take(at + 1).drop_last() =~= servers@.take(at as int));
        }
        at = at + 1;
    }
    assert(servers@.take(servers@.len() as int) =~= servers@);
    groups
}

// ── Imbalance ───────────────────────────────────────────────────────────────

/// Latency of a replica as a place in the numeric order, with NaN beyond the infinities.
pub open spec fn latency_rank(replica: ReplicaView) -> int {
    crate::float_bits::numeric_rank(replica.1)
}

/// The fastest replica; of equals the one listed first.
pub open spec fn fastest_of(replicas: Seq<ReplicaView>) -> int
    decreases replicas.len(),
{
    if replicas.len() <= 1 {
        0
    } else {
        let best = fastest_of(replicas.drop_last());
        if latency_rank(replicas.last()) < latency_rank(replicas[best]) {
            replicas.len() - 1
        } else {
            best
        }
    }
}

/// The slowest replica; of equals the one listed last.
pub open spec fn slowest_of(replicas: Seq<ReplicaView>) -> int
    decreases replicas.len(),
{
    if replicas.len() <= 1 {
        0
    } else {
        let worst = slowest_of(replicas.drop_last());
        if latency_rank(replicas.last()) >= latency_rank(replicas[worst]) {
            replicas.len() - 1
        } else {
            worst
        }
    }
}

/// No replica is faster than the fastest, none slower than the slowest, and ties go to the first
/// and to the last listed.
pub proof fn law_extremes(replicas: Seq<ReplicaView>, i: int)
    requires
        0 <= i < replicas.len(),
    ensures
        0 <= fastest_of(replicas) < replicas.len(),
        0 <= slowest_of(replicas) < replicas.len(),
        latency_rank(replicas[fastest_of(replicas)]) <= latency_rank(replicas[i]),
        latency_rank(replicas[i]) <= latency_rank(replicas[slowest_of(replicas)]),
        i < fastest_of(replicas) ==> latency_rank(replicas[fastest_of(replicas)]) < latency_rank(
            replicas[i],
        ),
        slowest_of(replicas) < i ==> latency_rank(replicas[i]) < latency_rank(
            replicas[slowest_of(replicas)],
        ),
    decreases replicas.len(),
{
    if replicas.len() > 1 {
        let before = replicas.drop_last();
        law_extremes(before, 0);
        if i < before.len() {
            law_extremes(before, i);
        }
    }
}

/// Finds the fastest and the slowest replica of a layer that has at least two.
pub fn layer_extremes(group: &LayerGroup) -> (extremes: Option<(usize, usize)>)
    ensures
        match extremes {
            Some((fastest, slowest)) => {
                &&& group.replicas@.len() >= 2
                &&& fastest == fastest_of(group.replicas_view())
                &&& slowest == slowest_of(group.replicas_view())
                &&& fastest < group.replicas@.len()
                &&& slowest < group.replicas@.len()
            },
            None => group.replicas@.len() < 2,
        },
{
    let len: usize = group.replicas.len();
    if len < 2 {
        return None;
    }
    let ghost all = group.replicas_view();
    let mut fastest: usize = 0;
    let mut slowest: usize = 0;
    let mut at: usize = 1;
    while at < len
        invariant
            1 <= at <= len == group.replicas@.len(),
            all == group.replicas_view(),
            fastest < at,
            slowest < at,
            fastest == fastest_of(all.take(at as int)),
            slowest == slowest_of(all.take(at as int)),
        decreases len - at,
    {
        assert(all.take(at + 1).drop_last() =~= all.take(at as int));
        let key: i64 = numeric_order_key(group.replicas[at].avg_ms);
        if key < numeric_order_key(group.replicas[fastest].avg_ms) {
            fastest = at;
        }
        if key >= numeric_order_key(group.replicas[slowest].avg_ms) {
            slowest = at;
        }
        at = at + 1;
    }
    assert(all.take(len as int) =~= all);
    Some((fastest, slowest))
}

/// What a tick shows of a layer.
#[derive(PartialEq, Eq, Structural, Clone, Copy, Debug)]
pub enum LayerReading {
    /// Fewer than two replicas: nothing to compare.
    Single,
    /// The fastest latency is not above zero: nothing to divide by.
    Unmeasured,
    /// The ratio of slowest to fastest is within the threshold.
    Balanced,
    /// The ratio is above the threshold.
    Imbalanced,
}

/// The reading of a layer, given whether its ratio is above the threshold.
pub open spec fn reading_of(replicas: Seq<ReplicaView>, exceeds: bool) -> LayerReading {
    if replicas.len() < 2 {
        LayerReading::Single
    } else if crate::float_bits::not_positive(replicas[fastest_of(replicas)].1) {
        LayerReading::Unmeasured
    } else if exceeds {
        LayerReading::Imbalanced
    } else {
        LayerReading::Balanced
    }
}

/// What a reading does to the sightings, and whether the slowest replica is asked to leave. A
/// layer that is balanced, or has one replica, is forgotten; an unmeasured one is left as it is;
/// one out of balance is noted, and once it has been for `sustained` is acted on and forgotten.
pub open spec fn tracker_step(
    seen: Map<LayerKey, u128>,
    key: LayerKey,
    reading: LayerReading,
    sustained: u128,
    now: u128,
) -> (Map<LayerKey, u128>, bool) {
    match reading {
        LayerReading::Single | LayerReading::Balanced => (seen.remove(key), false),
        LayerReading::Unmeasured => (seen, false),
        LayerReading::Imbalanced => if lasts(seen, key, sustained, now) {
            (record_of(seen, key, now).remove(key), true)
        } else {
            (record_of(seen, key, now), false)
        },
    }
}

/// A replica that is asked to give a layer up.
pub struct SlowReplica {
    /// The server.
    pub server_id: String,
    /// Model and layer.
    pub key: (String, u32),
}

/// Server and layer of a [`SlowReplica`].
pub type SlowReplicaView = (Seq<char>, LayerKey);

/// The servers and layers of a list of slow replicas.
pub open spec fn slow_views(slow: Seq<SlowReplica>) -> Seq<SlowReplicaView> {
    Seq::new(slow.len(), |i: int| (slow[i].server_id@, layer_key(slow[i].key)))
}

/// The sightings and the requests after the first `n` groups of a tick.
pub open spec fn imbalance_plan(
    groups: Seq<LayerGroup>,
    exceeds: Seq<bool>,
    sustained: u128,
    now: u128,
    seen: Map<LayerKey, u128>,
    n: nat,
) -> (Map<LayerKey, u128>, Seq<SlowReplicaView>)
    decreases n,
{
    if n == 0 {
        (seen, Seq::empty())
    } else {
        let (map, slow) = imbalance_plan(groups, exceeds, sustained, now, seen, (n - 1) as nat);
        let group = groups[n - 1];
        let replicas = group.replicas_view();
        let key = layer_key(group.key);
        let reading = reading_of(replicas, exceeds[n - 1]);
        let (next, acts) = tracker_step(map, key, reading, sustained, now);
        if acts {
            (next, slow.push((replicas[slowest_of(replicas)].0, key)))
        } else {
            (next, slow)
        }
    }
}

/// Looks for layers that have been out of balance for `sustained` and lists the slowest replica of
/// each. `exceeds[i]` says whether the slowest latency of `groups[i]`, divided by the fastest, is
/// above the threshold; it matters only where the group has two replicas and a positive fastest
/// latency. Without a spare server nothing is done.
pub fn check_imbalance(
    groups: &Vec<LayerGroup>,
    exceeds: &Vec<bool>,
    has_available: bool,
    sustained: u128,
    now: u128,
    tracker: &mut ImbalanceTracker,
) -> (slow: Vec<SlowReplica>)
    requires
        exceeds@.len() == groups@.len(),
        old(tracker).wf(),
    ensures
        final(tracker).wf(),
        !has_available ==> final(tracker).view() == old(tracker).view() && slow@.len() == 0,
        has_available ==> (final(tracker).view(), slow_views(slow@)) == imbalance_plan(
            groups@,
            exceeds@,
            sustained,
            now,
            old(tracker).view(),
            groups@.len(),
        ),
{
    let mut slow: Vec<SlowReplica> = Vec::new();
    if !has_available {
        return slow;
    }
    let ghost seen = tracker.view();
    let mut at: usize = 0;
    assert(slow_views(slow@) =~= Seq::empty());
    while at < groups.len()
        invariant
            at <= groups@.len() == exceeds@.len(),
            tracker.wf(),
            (tracker.view(), slow_views(slow@)) == imbalance_plan(
                groups@,
                exceeds@,
                sustained,
                now,
                seen,
                at as nat,
            ),
        decreases groups@.len() - at,
    {
        let group = &groups[at];
        let ghost before = slow@;
        let ghost noted = tracker.view();
        let ghost replicas = group.replicas_view();
        match layer_extremes(group) {
            None => {
                tracker.clear(&group.key);
            },
            Some((fastest, slowest)) => {
                if is_not_positive(group.replicas[fastest].avg_ms) {
                } else if exceeds[at] {
                    let key: (String, u32) = (group.key.0.clone(), group.key.1);
                    if tracker.record(key, sustained, now) {
                        slow.push(
                            SlowReplica {
                                server_id: group.replicas[slowest].server_id.clone(),
                                key: (group.key.0.clone(), group.key.1),
                            },
                        );
                        tracker.clear(&group.key);
                        assert(slow_views(slow@) =~= slow_views(before).push(
                            (replicas[slowest as int].0, layer_key(group.key)),
                        ));
                    }
                } else {
                    tracker.clear(&group.key);
                }
            },
        }
        at = at + 1;
    }
    slow
}

/// One step behind a check for imbalance.
pub enum RebalanceStep {
    /// Ask the replica to give its layer up.
    Unassign(SlowReplica),
    /// Fill the ranges that the requests free from the spares.
    FillAllGaps,
}

/// The steps behind a check: every slow replica is asked to leave, in order, and the gaps are
/// filled once where any was asked.
pub open spec fn steps_of(slow: Seq<SlowReplica>) -> Seq<RebalanceStep> {
    if slow.len() == 0 {
        Seq::empty()
    } else {
        Seq::new(slow.len(), |i: int| RebalanceStep::Unassign(slow[i])).push(
            RebalanceStep::FillAllGaps,
        )
    }
}

/// Plans what follows a check for imbalance.
pub fn rebalance_steps(slow: Vec<SlowReplica>) -> (steps: Vec<RebalanceStep>)
    ensures
        steps@ == steps_of(slow@),
{
    let mut steps: Vec<RebalanceStep> = Vec::new();
    if slow.len() == 0 {
        assert(steps@ =~= steps_of(slow@));
        return steps;
    }
    let ghost all = slow@;
    for replica in it: slow
        invariant
            it.seq() == all,
            steps@ =~= Seq::new(it.index() as nat, |i: int| RebalanceStep::Unassign(all[i])),
    {
        steps.push(RebalanceStep::Unassign(replica));
    }
    steps.push(RebalanceStep::FillAllGaps);
    assert(steps@ =~= steps_of(all));
    steps
}

/// Every request to a slow replica is followed by a filling of gaps, and without a request nothing
/// is filled.
pub proof fn law_requests_are_followed_by_gap_fill(slow: Seq<SlowReplica>, i: int)
    ensures
        0 <= i < slow.len() ==> steps_of(slow)[i] == RebalanceStep::Unassign(slow[i])
            && steps_of(slow).last() is FillAllGaps,
        slow.len() == 0 ==> steps_of(slow).len() == 0,
{
}

/// Two sets of sightings say the same of a layer.
pub open spec fn agree(a: Map<LayerKey, u128>, b: Map<LayerKey, u128>, key: LayerKey) -> bool {
    a.contains_key(key) == b.contains_key(key) && (a.contains_key(key) ==> a[key] == b[key])
}

/// What a tick does to the layer of group `g`, judged by that group alone.
pub open spec fn own_step(
    groups: Seq<LayerGroup>,
    exceeds: Seq<bool>,
    sustained: u128,
    now: u128,
    seen: Map<LayerKey, u128>,
    g: int,
) -> (Map<LayerKey, u128>, bool) {
    tracker_step(
        seen,
        layer_key(groups[g].key),
        reading_of(groups[g].replicas_view(), exceeds[g]),
        sustained,
        now,
    )
}

/// The request that group `g` leads to where it is acted on.
pub open spec fn own_request(groups: Seq<LayerGroup>, g: int) -> SlowReplicaView {
    let replicas = groups[g].replicas_view();
    (replicas[slowest_of(replicas)].0, layer_key(groups[g].key))
}

/// Layers without a group among the first `n` keep their sightings.
proof fn lemma_other_layers(
    groups: Seq<LayerGroup>,
    exceeds: Seq<bool>,
    sustained: u128,
    now: u128,
    seen: Map<LayerKey, u128>,
    n: nat,
    key: LayerKey,
)
    requires
        n <= groups.len(),
        forall|j: int| 0 <= j < n ==> layer_key((#[trigger] groups[j]).key) != key,
    ensures
        agree(imbalance_plan(groups, exceeds, sustained, now, seen, n).0, seen, key),
    decreases n,
{
    if n > 0 {
        lemma_other_layers(groups, exceeds, sustained, now, seen, (n - 1) as nat, key);
        assert(layer_key(groups[n - 1].key) != key);
    }
}

/// A layer that no group speaks of keeps its sighting.
pub proof fn law_unlisted_layers_are_kept(
    groups: Seq<LayerGroup>,
    exceeds: Seq<bool>,
    sustained: u128,
    now: u128,
    seen: Map<LayerKey, u128>,
    key: LayerKey,
)
    requires
        !has_group(groups, key),
    ensures
        agree(imbalance_plan(groups, exceeds, sustained, now, seen, groups.len()).0, seen, key),
{
    lemma_other_layers(groups, exceeds, sustained, now, seen, groups.len(), key);
}

proof fn lemma_plan(
    groups: Seq<LayerGroup>,
    exceeds: Seq<bool>,
    sustained: u128,
    now: u128,
    seen: Map<LayerKey, u128>,
    n: nat,
)
    requires
        n <= groups.len(),
        distinct_layers(groups),
    ensures
        ({
            let (map, slow) = imbalance_plan(groups, exceeds, sustained, now, seen, n);
            &&& forall|g: int|
                0 <= g < n ==> agree(
                    map,
                    own_step(groups, exceeds, sustained, now, seen, g).0,
                    layer_key((#[trigger] groups[g]).key),
                )
            &&& forall|g: int|
                #![trigger own_request(groups, g)]
                0 <= g < n && own_step(groups, exceeds, sustained, now, seen, g).1
                    ==> slow.contains(own_request(groups, g))
            &&& forall|i: int|
                0 <= i < slow.len() ==> exists|g: int|
                    0 <= g < n && #[trigger] own_request(groups, g) == #[trigger] slow[i]
                        && own_step(groups, exceeds, sustained, now, seen, g).1
        }),
    decreases n,
{
    if n > 0 {
        let m = (n - 1) as nat;
        lemma_plan(groups, exceeds, sustained, now, seen, m);
        let (before, slow_before) = imbalance_plan(groups, exceeds, sustained, now, seen, m);
        let (map, slow) = imbalance_plan(groups, exceeds, sustained, now, seen, n);
        let last = n - 1;
        let key = layer_key(groups[last].key);
        assert forall|j: int| 0 <= j < m implies layer_key((#[trigger] groups[j]).key) != key by {}
        lemma_other_layers(groups, exceeds, sustained, now, seen, m, key);
        let own = own_step(groups, exceeds, sustained, now, seen, last);
        assert(agree(map, own.0, key));
        assert forall|g: int| 0 <= g < n implies agree(
            map,
            own_step(groups, exceeds, sustained, now, seen, g).0,
            layer_key((#[trigger] groups[g]).key),
        ) by {
            if g < last {
                assert(layer_key(groups[g].key) != key);
                assert(agree(map, before, layer_key(groups[g].key)));
            }
        }
        if own.1 {
            assert(slow == slow_before.push(own_request(groups, last)));
            assert(slow[slow.len() - 1] == own_request(groups, last));
            assert forall|v: SlowReplicaView| slow_before.contains(v) implies slow.contains(v) by {
                let i = choose|i: int| 0 <= i < slow_before.len() && slow_before[i] == v;
                assert(slow[i] == v);
            }
        }
        assert forall|i: int| 0 <= i < slow.len() implies exists|g: int|
            0 <= g < n && #[trigger] own_request(groups, g) == #[trigger] slow[i] && own_step(
                groups,
                exceeds,
                sustained,
                now,
                seen,
                g,
            ).1 by {
            if i < slow_before.len() {
                assert(slow[i] == slow_before[i]);
                let g = choose|g: int|
                    0 <= g < m && #[trigger] own_request(groups, g) == slow_before[i] && own_step(
                        groups,
                        exceeds,
                        sustained,
                        now,
                        seen,
                        g,
                    ).1;
                assert(own_request(groups, g) == slow[i]);
            } else {
                assert(own_request(groups, last) == slow[i]);
            }
        }
    }
}

/// Where no layer has two groups, a tick judges every layer by its own group and its own sighting:
/// neither the order of the groups nor the other layers matter.
pub proof fn law_layers_are_judged_alone(
    groups: Seq<LayerGroup>,
    exceeds: Seq<bool>,
    sustained: u128,
    now: u128,
    seen: Map<LayerKey, u128>,
    g: int,
)
    requires
        distinct_layers(groups),
        0 <= g < groups.len(),
    ensures
        ({
            let (map, slow) = imbalance_plan(groups, exceeds, sustained, now, seen, groups.len());
            let own = own_step(groups, exceeds, sustained, now, seen, g);
            &&& agree(map, own.0, layer_key(groups[g].key))
            &&& slow.contains(own_request(groups, g)) <==> own.1
        }),
{
    lemma_plan(groups, exceeds, sustained, now, seen, groups.len());
    let (map, slow) = imbalance_plan(groups, exceeds, sustained, now, seen, groups.len());
    if slow.contains(own_request(groups, g)) {
        let i = choose|i: int| 0 <= i < slow.len() && slow[i] == own_request(groups, g);
        let h = choose|h: int|
            0 <= h < groups.len() && #[trigger] own_request(groups, h) == slow[i] && own_step(
                groups,
                exceeds,
                sustained,
                now,
                seen,
                h,
            ).1;
        assert(layer_key(groups[h].key) == layer_key(groups[g].key));
        if h < g {
            assert(layer_key(groups[h].key) != layer_key(groups[g].key));
        } else if g < h {
            assert(layer_key(groups[g].key) != layer_key(groups[h].key));
        }
    }
}

/// Only slowest replicas are asked to leave, and only of layers that are out of balance now and
/// have been for `sustained`.
pub proof fn law_requests_go_to_lasting_slow_replicas(
    groups: Seq<LayerGroup>,
    exceeds: Seq<bool>,
    sustained: u128,
    now: u128,
    seen: Map<LayerKey, u128>,
    i: int,
)
    requires
        distinct_layers(groups),
        0 <= i < imbalance_plan(groups, exceeds, sustained, now, seen, groups.len()).1.len(),
    ensures
        exists|g: int|
            0 <= g < groups.len() && #[trigger] own_request(groups, g) == imbalance_plan(
                groups,
                exceeds,
                sustained,
                now,
                seen,
                groups.len(),
            ).1[i] && reading_of(groups[g].replicas_view(), exceeds[g]) == LayerReading::Imbalanced
                && lasts(seen, layer_key(groups[g].key), sustained, now),
{
    lemma_plan(groups, exceeds, sustained, now, seen, groups.len());
    let slow = imbalance_plan(groups, exceeds, sustained, now, seen, groups.len()).1;
    let g = choose|g: int|
        0 <= g < groups.len() && #[trigger] own_request(groups, g) == slow[i] && own_step(
            groups,
            exceeds,
            sustained,
            now,
            seen,
            g,
        ).1;
    assert(own_request(groups, g) == slow[i]);
}

// ── A layer over many ticks ─────────────────────────────────────────────────

/// What one tick shows of a layer, and when.
pub struct TickReading {
    /// The reading.
    pub reading: LayerReading,
    /// The time.
    pub now: u128,
}

/// The sightings after a history of readings of one layer, from none, and whether the last reading
/// was acted on.
pub open spec fn after_history(
    history: Seq<TickReading>,
    key: LayerKey,
    sustained: u128,
) -> (Map<LayerKey, u128>, bool)
    decreases history.len(),
{
    if history.len() == 0 {
        (Map::empty(), false)
    } else {
        tracker_step(
            after_history(history.drop_last(), key, sustained).0,
            key,
            history.last().reading,
            sustained,
            history.last().now,
        )
    }
}

/// From tick `start` on the layer was never seen balanced or alone, and at `start` it was out of
/// balance.
pub open spec fn unbroken_since(history: Seq<TickReading>, start: int) -> bool {
    &&& 0 <= start < history.len()
    &&& history[start].reading == LayerReading::Imbalanced
    &&& forall|i: int|
        start <= i < history.len() ==> (#[trigger] history[i]).reading == LayerReading::Imbalanced
            || history[i].reading == LayerReading::Unmeasured
}

proof fn lemma_sighting_is_unbroken(history: Seq<TickReading>, key: LayerKey, sustained: u128)
    ensures
        ({
            let seen = after_history(history, key, sustained).0;
            seen.contains_key(key) ==> exists|start: int| #[trigger]
                unbroken_since(history, start) && history[start].now == seen[key]
        }),
    decreases history.len(),
{
    if history.len() > 0 {
        let before = history.drop_last();
        lemma_sighting_is_unbroken(before, key, sustained);
        let old_seen = after_history(before, key, sustained).0;
        let seen = after_history(history, key, sustained).0;
        let last = history.len() - 1;
        if seen.contains_key(key) {
            if old_seen.contains_key(key) {
                let start = choose|start: int| #[trigger]
                    unbroken_since(before, start) && before[start].now == old_seen[key];
                assert forall|i: int| start <= i < history.len() implies (
                #[trigger] history[i]).reading == LayerReading::Imbalanced || history[i].reading
                    == LayerReading::Unmeasured by {
                    if i < last {
                        assert(history[i] == before[i]);
                    }
                }
                assert(history[start] == before[start]);
                assert(unbroken_since(history, start));
            } else {
                assert(unbroken_since(history, last));
            }
        }
    }
}

/// A replica is asked to leave only after an imbalance that went on, without a balanced reading in
/// between, for at least `sustained`.
pub proof fn law_action_needs_sustained_imbalance(
    history: Seq<TickReading>,
    key: LayerKey,
    sustained: u128,
)
    requires
        after_history(history, key, sustained).1,
    ensures
        exists|start: int| #[trigger]
            unbroken_since(history, start) && sustained <= if history.last().now
                >= history[start].now {
                history.last().now - history[start].now
            } else {
                0
            },
{
    let before = history.drop_last();
    let last = history.len() - 1;
    lemma_sighting_is_unbroken(before, key, sustained);
    let seen = after_history(before, key, sustained).0;
    if seen.contains_key(key) {
        let start = choose|start: int| #[trigger]
            unbroken_since(before, start) && before[start].now == seen[key];
        assert forall|i: int| start <= i < history.len() implies (
        #[trigger] history[i]).reading == LayerReading::Imbalanced || history[i].reading
            == LayerReading::Unmeasured by {
            if i < last {
                assert(history[i] == before[i]);
            }
        }
        assert(history[start] == before[start]);
        assert(unbroken_since(history, start));
    } else {
        assert(unbroken_since(history, last));
    }
}

/// A layer that was acted on is forgotten: its imbalance has to last anew.
pub proof fn law_acted_on_layers_are_forgotten(
    seen: Map<LayerKey, u128>,
    key: LayerKey,
    reading: LayerReading,
    sustained: u128,
    now: u128,
)
    requires
        tracker_step(seen, key, reading, sustained, now).1,
    ensures
        !tracker_step(seen, key, reading, sustained, now).0.contains_key(key),
{
}

/// Time does not run backwards over a history.
pub open spec fn in_order(history: Seq<TickReading>) -> bool {
    forall|i: int, j: int|
        0 <= i <= j < history.len() ==> (#[trigger] history[i]).now <= (#[trigger] history[j]).now
}

/// Whether tick `i` of a history is acted on.
pub open spec fn acts_at(
    history: Seq<TickReading>,
    key: LayerKey,
    sustained: u128,
    i: int,
) -> bool {
    after_history(history.take(i + 1), key, sustained).1
}

/// Through the first `n` ticks, an imbalance that goes on since `start` was acted on, or is noted
/// with a time no later than that of `start`.
proof fn lemma_acted_on_or_noted(
    history: Seq<TickReading>,
    key: LayerKey,
    sustained: u128,
    start: int,
    n: int,
)
    requires
        unbroken_since(history, start),
        in_order(history),
        start < n <= history.len(),
    ensures
        ({
            let seen = after_history(history.take(n), key, sustained).0;
            ||| exists|i: int| start <= i < n && #[trigger] acts_at(history, key, sustained, i)
            ||| seen.contains_key(key) && seen[key] <= history[start].now
        }),
    decreases n - start,
{
    let here = history.take(n);
    let before = history.take(n - 1);
    let noted = after_history(before, key, sustained).0;
    assert(here.drop_last() =~= before);
    assert(here.last() == history[n - 1]);
    if n == start + 1 {
        lemma_sighting_is_unbroken(before, key, sustained);
        if noted.contains_key(key) {
            let first = choose|first: int| #[trigger]
                unbroken_since(before, first) && before[first].now == noted[key];
            assert(history[first].now <= history[start].now);
        }
        if after_history(here, key, sustained).1 {
            assert(acts_at(history, key, sustained, start));
        }
    } else {
        lemma_acted_on_or_noted(history, key, sustained, start, n - 1);
        if exists|i: int| start <= i < n - 1 && #[trigger] acts_at(history, key, sustained, i) {
            let i = choose|i: int|
                start <= i < n - 1 && #[trigger] acts_at(history, key, sustained, i);
            assert(acts_at(history, key, sustained, i));
        } else if after_history(here, key, sustained).1 {
            assert(acts_at(history, key, sustained, n - 1));
        }
    }
}

/// An imbalance that goes on, without a balanced reading in between, for at least `sustained` does
/// not stand: at one of its ticks a replica is asked to leave.
pub proof fn law_lasting_imbalance_is_acted_on(
    history: Seq<TickReading>,
    key: LayerKey,
    sustained: u128,
    start: int,
)
    requires
        unbroken_since(history, start),
        in_order(history),
        history.last().reading == LayerReading::Imbalanced,
        history.last().now - history[start].now >= sustained,
    ensures
        exists|i: int| start <= i < history.len() && #[trigger] acts_at(history, key, sustained, i),
{
    let last = history.len() - 1;
    assert(history.take(last + 1) =~= history);
    assert(history.drop_last() =~= history.take(last));
    if last > start {
        lemma_acted_on_or_noted(history, key, sustained, start, last);
        if exists|i: int| start <= i < last && #[trigger] acts_at(history, key, sustained, i) {
            let i = choose|i: int|
                start <= i < last && #[trigger] acts_at(history, key, sustained, i);
            assert(acts_at(history, key, sustained, i));
        } else {
            assert(acts_at(history, key, sustained, last));
        }
    } else {
        assert(sustained == 0);
        assert(acts_at(history, key, sustained, last));
    }
}

// ── Messages ────────────────────────────────────────────────────────────────

/// Asks a server to give a range of layers up.
pub struct UnassignMsg {
    /// The model.
    pub model_id: String,
    /// First layer.
    pub layer_start: u32,
    /// Last layer.
    pub layer_end: u32,
    /// Why.
    pub reason: String,
}

/// An [`UnassignMsg`] with its texts as characters.
#[verifier::ext_equal]
pub struct UnassignMsgView {
    /// The model.
    pub model_id: Seq<char>,
    /// First layer.
    pub layer_start: u32,
    /// Last layer.
    pub layer_end: u32,
    /// Why.
    pub reason: Seq<char>,
}

impl View for UnassignMsg {
    type V = UnassignMsgView;

    open spec fn view(&self) -> UnassignMsgView {
        UnassignMsgView {
            model_id: self.model_id@,
            layer_start: self.layer_start,
            layer_end: self.layer_end,
            reason: self.reason@,
        }
    }
}

/// A message and the server that it goes to.
pub struct Unassign {
    /// The server.
    pub server_id: String,
    /// The message.
    pub msg: UnassignMsg,
}

/// The message that asks a slow server to give one layer up; none where the server has no channel
/// any more.
pub fn send_unassign(has_sender: bool, model_id: &str, layer: u32) -> (msg: Option<UnassignMsg>)
    ensures
        msg is Some <==> has_sender,
        msg matches Some(sent) ==> sent@ == (UnassignMsgView {
            model_id: model_id@,
            layer_start: layer,
            layer_end: layer,
            reason: "rebalancing"@,
        }),
        msg matches Some(sent) ==> sent.model_id@ == model_id@ && sent.layer_start == layer
            && sent.layer_end == layer && sent.reason@ == "rebalancing"@,
{
    if has_sender {
        Some(
            UnassignMsg {
                model_id: model_id.to_owned(),
                layer_start: layer,
                layer_end: layer,
                reason: "rebalancing".to_owned(),
            },
        )
    } else {
        None
    }
}

// ── Replication ─────────────────────────────────────────────────────────────

/// Whether spares are to be assigned to ranges with too few replicas: a target of one or none asks
/// for no replication.
pub fn check_under_replication(target_replicas: usize) -> (replicate: bool)
    ensures
        replicate == (target_replicas > 1),
{
    if target_replicas <= 1 {
        return false;
    }
    true
}

/// A range of layers with more replicas than the target.
pub struct OverReplicatedRange {
    /// The model.
    pub model_id: String,
    /// First layer.
    pub layer_start: u32,
    /// Last layer.
    pub layer_end: u32,
    /// Replicas above the target.
    pub surplus: usize,
    /// The range's least loaded server, where it has one.
    pub least_loaded: Option<String>,
}

/// A model and a range of its layers.
pub type RangeKey = (Seq<char>, u32, u32);

impl OverReplicatedRange {
    /// Which range this is.
    pub open spec fn range(&self) -> RangeKey {
        (self.model_id@, self.layer_start, self.layer_end)
    }
}

/// A planned message: to whom, and what.
pub type UnassignView = (Seq<char>, UnassignMsgView);

/// The message that takes the least loaded replica from a range.
pub open spec fn drop_of(range: OverReplicatedRange) -> Option<UnassignView> {
    match range.least_loaded {
        Some(server) => Some(
            (
                server@,
                UnassignMsgView {
                    model_id: range.model_id@,
                    layer_start: range.layer_start,
                    layer_end: range.layer_end,
                    reason: "over_replicated"@,
                },
            ),
        ),
        None => None,
    }
}

/// The messages of a tick to ranges with too many replicas: one for each that has a least loaded
/// server, in order; none without a target.
pub open spec fn drops_of(target_replicas: usize, ranges: Seq<OverReplicatedRange>) -> Seq<
    UnassignView,
> {
    if target_replicas == 0 {
        Seq::empty()
    } else {
        crate::lists::present_of(Seq::new(ranges.len(), |i: int| drop_of(ranges[i])))
    }
}

/// Receivers and messages of a plan.
pub open spec fn unassign_views(plan: Seq<Unassign>) -> Seq<UnassignView> {
    Seq::new(plan.len(), |i: int| (plan[i].server_id@, plan[i].msg@))
}

/// Takes one replica, the least loaded, from every range that has too many.
pub fn check_over_replication(
    target_replicas: usize,
    ranges: Vec<OverReplicatedRange>,
) -> (plan: Vec<Unassign>)
    ensures
        unassign_views(plan@) == drops_of(target_replicas, ranges@),
{
    let mut plan: Vec<Unassign> = Vec::new();
    let ghost all = Seq::new(ranges@.len(), |i: int| drop_of(ranges@[i]));
    let ghost given = ranges@;
    assert(unassign_views(plan@) =~= Seq::empty());
    if target_replicas == 0 {
        return plan;
    }
    assert(all.take(0) =~= Seq::empty());
    for range in it: ranges
        invariant
            it.seq() == given,
            all == Seq::new(given.len(), |i: int| drop_of(given[i])),
            unassign_views(plan@) == crate::lists::present_of(all.take(it.index())),
    {
        let ghost before = plan@;
        proof {
            assert(all.take(it.index() + 1).drop_last() =~= all.take(it.index()));
            assert(all.take(it.index() + 1).last() == drop_of(range));
        }
        if let Some(server_id) = range.least_loaded {
            plan.push(
                Unassign {
                    server_id,
                    msg: UnassignMsg {
                        model_id: range.model_id,
                        layer_start: range.layer_start,
                        layer_end: range.layer_end,
                        reason: "over_replicated".to_owned(),
                    },
                },
            );
            assert(unassign_views(plan@) =~= unassign_views(before).push(
                (plan@.last().server_id@, plan@.last().msg@),
            ));
        }
    }
    assert(all.take(all.len() as int) =~= all);
    plan
}

/// How many messages of a plan take a replica from a range.
pub open spec fn drops_from(plan: Seq<UnassignView>, range: RangeKey) -> nat
    decreases plan.len(),
{
    if plan.len() == 0 {
        0
    } else {
        let msg = plan.last().1;
        let rest = drops_from(plan.drop_last(), range);
        if (msg.model_id, msg.layer_start, msg.layer_end) == range {
            rest + 1
        } else {
            rest
        }
    }
}

/// No range is listed twice.
pub open spec fn distinct_ranges(ranges: Seq<OverReplicatedRange>) -> bool {
    forall|i: int, j: int|
        0 <= i < j < ranges.len() ==> (#[trigger] ranges[i]).range() != (
        #[trigger] ranges[j]).range()
}

proof fn lemma_drops(ranges: Seq<OverReplicatedRange>, range: RangeKey, n: int)
    requires
        distinct_ranges(ranges),
        0 <= n <= ranges.len(),
    ensures
        ({
            let all = Seq::new(n as nat, |i: int| drop_of(ranges[i]));
            let drops = drops_from(crate::lists::present_of(all), range);
            &&& drops <= 1
            &&& drops > 0 ==> exists|i: int| 0 <= i < n && (#[trigger] ranges[i]).range() == range
        }),
    decreases n,
{
    let all = Seq::new(n as nat, |i: int| drop_of(ranges[i]));
    if n > 0 {
        lemma_drops(ranges, range, n - 1);
        let before = Seq::new((n - 1) as nat, |i: int| drop_of(ranges[i]));
        assert(all.drop_last() =~= before);
        let plan = crate::lists::present_of(all);
        let old_plan = crate::lists::present_of(before);
        if drop_of(ranges[n - 1]) is Some {
            assert(plan.drop_last() =~= old_plan);
            if ranges[n - 1].range() == range && drops_from(old_plan, range) > 0 {
                let i = choose|i: int| 0 <= i < n - 1 && (#[trigger] ranges[i]).range() == range;
                assert(ranges[i].range() != ranges[n - 1].range());
            }
        }
    }
}

/// A tick never takes a range below the target: a range that is listed once, with a surplus, loses
/// at most one replica.
pub proof fn law_never_below_target(
    target_replicas: usize,
    ranges: Seq<OverReplicatedRange>,
    r: int,
)
    requires
        distinct_ranges(ranges),
        0 <= r < ranges.len(),
        ranges[r].surplus > 0,
    ensures
        target_replicas + ranges[r].surplus - drops_from(
            drops_of(target_replicas, ranges),
            ranges[r].range(),
        ) >= target_replicas,
{
    lemma_drops(ranges, ranges[r].range(), ranges.len() as int);
}

/// A tick takes nothing from ranges that do not have too many replicas.
pub proof fn law_other_ranges_lose_nothing(
    target_replicas: usize,
    ranges: Seq<OverReplicatedRange>,
    range: RangeKey,
)
    requires
        distinct_ranges(ranges),
        forall|i: int| 0 <= i < ranges.len() ==> (#[trigger] ranges[i]).range() != range,
    ensures
        drops_from(drops_of(target_replicas, ranges), range) == 0,
{
    lemma_drops(ranges, range, ranges.len() as int);
}

// ── Stale heartbeats ────────────────────────────────────────────────────────

/// One step of an eviction.
pub enum EvictionStep {
    /// Take the server out of the grid.
    Deregister(String),
    /// Fill the gaps that the evictions left from the spares.
    FillAllGaps,
}

/// The steps of an eviction: every stale server leaves, then the gaps are filled once. Without a
/// stale server there is nothing to do.
pub open spec fn eviction_steps(stale: Seq<String>) -> Seq<EvictionStep> {
    if stale.len() == 0 {
        Seq::empty()
    } else {
        Seq::new(stale.len(), |i: int| EvictionStep::Deregister(stale[i])).push(
            EvictionStep::FillAllGaps,
        )
    }
}

/// Plans the eviction of servers whose heartbeats are overdue.
pub fn evict_stale_heartbeats(stale: Vec<String>) -> (steps: Vec<EvictionStep>)
    ensures
        steps@ == eviction_steps(stale@),
{
    let mut steps: Vec<EvictionStep> = Vec::new();
    if stale.len() == 0 {
        assert(steps@ =~= eviction_steps(stale@));
        return steps;
    }
    let ghost all = stale@;
    for server in it: stale
        invariant
            it.seq() == all,
            steps@ =~= Seq::new(it.index() as nat, |i: int| EvictionStep::Deregister(all[i])),
    {
        steps.push(EvictionStep::Deregister(server));
    }
    steps.push(EvictionStep::FillAllGaps);
    assert(steps@ =~= eviction_steps(all));
    steps
}

// ── What the checks do, of what they are given ──────────────────────────────

/// A record holds the layer from then on: since when it was first seen, or since now. It changes
/// nothing else.
pub proof fn law_first_sightings_stand(
    seen: Map<LayerKey, u128>,
    key: LayerKey,
    now: u128,
    other: LayerKey,
)
    ensures
        record_of(seen, key, now).contains_key(key),
        seen.contains_key(key) ==> record_of(seen, key, now)[key] == seen[key],
        !seen.contains_key(key) ==> record_of(seen, key, now)[key] == now,
        other != key ==> (record_of(seen, key, now).contains_key(other) <==> seen.contains_key(
            other,
        )),
        other != key && seen.contains_key(other) ==> record_of(seen, key, now)[other]
            == seen[other],
{
}

/// A layer has been out of balance for long enough where it was first seen at least that long ago,
/// and where no time is asked for; otherwise it has not.
pub proof fn law_imbalance_lasts_since_it_was_seen(
    seen: Map<LayerKey, u128>,
    key: LayerKey,
    sustained: u128,
    now: u128,
)
    ensures
        lasts(seen, key, sustained, now) <==> sustained == 0 || (seen.contains_key(key)
            && seen[key] + sustained <= now),
{
}

/// The fastest replica of a layer is no slower than any, and faster than those listed before it;
/// the slowest is no faster than any, and slower than those listed after it.
pub proof fn law_extremes_bound_the_latencies(
    group: LayerGroup,
    fastest: usize,
    slowest: usize,
    r: int,
)
    requires
        fastest == fastest_of(group.replicas_view()),
        slowest == slowest_of(group.replicas_view()),
        0 <= r < group.replicas@.len(),
    ensures
        fastest < group.replicas@.len(),
        slowest < group.replicas@.len(),
        ({
            let rank = |i: int| crate::float_bits::numeric_rank(group.replicas@[i].avg_ms);
            &&& rank(fastest as int) <= rank(r) <= rank(slowest as int)
            &&& r < fastest ==> rank(fastest as int) < rank(r)
            &&& slowest < r ==> rank(r) < rank(slowest as int)
        }),
{
    law_extremes(group.replicas_view(), r);
}

/// Whether a request is about the layer of a group.
pub open spec fn is_about(request: SlowReplica, group: LayerGroup) -> bool {
    request.key.0@ == group.key.0@ && request.key.1 == group.key.1
}

/// Whether `r` is the slowest replica of a group without signed latencies: none has a greater one,
/// and none behind it has one as great.
pub open spec fn is_slowest(group: LayerGroup, r: int) -> bool {
    &&& 0 <= r < group.replicas@.len()
    &&& forall|i: int|
        0 <= i < group.replicas@.len() ==> (#[trigger] group.replicas@[i]).avg_ms
            <= group.replicas@[r].avg_ms
    &&& forall|i: int|
        r < i < group.replicas@.len() ==> (#[trigger] group.replicas@[i]).avg_ms
            < group.replicas@[r].avg_ms
}

/// A group's own step stands in the sightings and in the requests of its tick.
proof fn lemma_own_outcome(
    groups: Seq<LayerGroup>,
    exceeds: Seq<bool>,
    sustained: u128,
    now: u128,
    seen: Map<LayerKey, u128>,
    after: Map<LayerKey, u128>,
    slow: Seq<SlowReplica>,
    g: int,
)
    requires
        (after, slow_views(slow)) == imbalance_plan(
            groups,
            exceeds,
            sustained,
            now,
            seen,
            groups.len(),
        ),
        distinct_layers(groups),
        0 <= g < groups.len(),
    ensures
        ({
            let own = own_step(groups, exceeds, sustained, now, seen, g);
            &&& agree(after, own.0, layer_key(groups[g].key))
            &&& own.1 ==> exists|i: int|
                0 <= i < slow.len() && is_about(#[trigger] slow[i], groups[g])
                    && slow[i].server_id@ == own_request(groups, g).0
            &&& !own.1 ==> forall|i: int|
                0 <= i < slow.len() ==> !is_about(#[trigger] slow[i], groups[g])
        }),
{
    let own = own_step(groups, exceeds, sustained, now, seen, g);
    let views = imbalance_plan(groups, exceeds, sustained, now, seen, groups.len()).1;
    assert(views == slow_views(slow));
    lemma_plan(groups, exceeds, sustained, now, seen, groups.len());
    if own.1 {
        assert(views.contains(own_request(groups, g)));
        let i = choose|i: int| 0 <= i < views.len() && views[i] == own_request(groups, g);
        assert(views[i] == (slow[i].server_id@, layer_key(slow[i].key)));
        assert(is_about(slow[i], groups[g]));
    } else {
        assert forall|i: int| 0 <= i < slow.len() implies !is_about(
            #[trigger] slow[i],
            groups[g],
        ) by {
            assert(views[i] == (slow[i].server_id@, layer_key(slow[i].key)));
            let h = choose|h: int|
                0 <= h < groups.len() && #[trigger] own_request(groups, h) == views[i] && own_step(
                    groups,
                    exceeds,
                    sustained,
                    now,
                    seen,
                    h,
                ).1;
            if is_about(slow[i], groups[g]) {
                assert(layer_key(groups[h].key) == layer_key(groups[g].key));
                if h < g {
                    assert(layer_key(groups[h].key) != layer_key(groups[g].key));
                } else if g < h {
                    assert(layer_key(groups[g].key) != layer_key(groups[h].key));
                }
            }
        }
    }
}

/// The slowest of replicas without signed latencies is the one with the greatest latency, and the
/// fastest of them is above zero.
proof fn lemma_unsigned_extremes(group: LayerGroup)
    requires
        group.replicas@.len() >= 2,
        forall|r: int|
            0 <= r < group.replicas@.len() ==> 0 < (#[trigger] group.replicas@[r]).avg_ms
                < 0x8000_0000,
    ensures
        is_slowest(group, slowest_of(group.replicas_view())),
        !crate::float_bits::not_positive(
            group.replicas_view()[fastest_of(group.replicas_view())].1,
        ),
{
    let all = group.replicas_view();
    law_extremes(all, 0);
    let slowest = slowest_of(all);
    assert forall|i: int| 0 <= i < group.replicas@.len() implies (
    #[trigger] group.replicas@[i]).avg_ms <= group.replicas@[slowest].avg_ms by {
        law_extremes(all, i);
        assert(all[i].1 == group.replicas@[i].avg_ms);
        assert(all[slowest].1 == group.replicas@[slowest].avg_ms);
    }
    assert forall|i: int| slowest < i < group.replicas@.len() implies (
    #[trigger] group.replicas@[i]).avg_ms < group.replicas@[slowest].avg_ms by {
        law_extremes(all, i);
        assert(all[i].1 == group.replicas@[i].avg_ms);
        assert(all[slowest].1 == group.replicas@[slowest].avg_ms);
    }
    assert(all[fastest_of(all)].1 == group.replicas@[fastest_of(all)].avg_ms);
}

/// However many replicas a layer has, two or more: where their latencies are above zero and the
/// ratio is above the threshold, the slowest is asked to leave as soon as the layer has been noted
/// for `sustained`, and the layer is forgotten; until then nothing is asked of it, a noted layer
/// stays noted as it is, and one that was not is noted now.
pub proof fn law_lasting_slow_replicas_are_asked_to_leave(
    groups: Seq<LayerGroup>,
    exceeds: Seq<bool>,
    sustained: u128,
    now: u128,
    seen: Map<LayerKey, u128>,
    after: Map<LayerKey, u128>,
    slow: Seq<SlowReplica>,
    g: int,
)
    requires
        (after, slow_views(slow)) == imbalance_plan(
            groups,
            exceeds,
            sustained,
            now,
            seen,
            groups.len(),
        ),
        distinct_layers(groups),
        0 <= g < groups.len(),
        groups[g].replicas@.len() >= 2,
        forall|r: int|
            0 <= r < groups[g].replicas@.len() ==> 0 < (#[trigger] groups[g].replicas@[r]).avg_ms
                < 0x8000_0000,
        exceeds[g],
    ensures
        ({
            let key = (groups[g].key.0@, groups[g].key.1);
            let due = sustained == 0 || (seen.contains_key(key) && seen[key] + sustained <= now);
            &&& due ==> {
                &&& !after.contains_key(key)
                &&& exists|i: int, r: int|
                    0 <= i < slow.len() && is_about(slow[i], groups[g]) && is_slowest(groups[g], r)
                        && (#[trigger] slow[i]).server_id@ == (
                    #[trigger] groups[g].replicas@[r]).server_id@
            }
            &&& !due ==> {
                &&& after.contains_key(key)
                &&& seen.contains_key(key) ==> after[key] == seen[key]
                &&& !seen.contains_key(key) ==> after[key] == now
                &&& forall|i: int|
                    0 <= i < slow.len() ==> !is_about(#[trigger] slow[i], groups[g])
            }
        }),
{
    let group = groups[g];
    let key = (group.key.0@, group.key.1);
    let own = own_step(groups, exceeds, sustained, now, seen, g);
    lemma_own_outcome(groups, exceeds, sustained, now, seen, after, slow, g);
    lemma_unsigned_extremes(group);
    law_imbalance_lasts_since_it_was_seen(seen, key, sustained, now);
    if own.1 {
        let r = slowest_of(group.replicas_view());
        let i = choose|i: int|
            0 <= i < slow.len() && is_about(#[trigger] slow[i], group) && slow[i].server_id@
                == own_request(groups, g).0;
        assert(slow[i].server_id@ == groups[g].replicas@[r].server_id@);
    }
}

/// A layer with fewer than two replicas, or with a ratio within the threshold, is forgotten, and
/// nothing is asked of it.
pub proof fn law_balanced_layers_are_forgotten(
    groups: Seq<LayerGroup>,
    exceeds: Seq<bool>,
    sustained: u128,
    now: u128,
    seen: Map<LayerKey, u128>,
    after: Map<LayerKey, u128>,
    slow: Seq<SlowReplica>,
    g: int,
)
    requires
        (after, slow_views(slow)) == imbalance_plan(
            groups,
            exceeds,
            sustained,
            now,
            seen,
            groups.len(),
        ),
        distinct_layers(groups),
        0 <= g < groups.len(),
        groups[g].replicas@.len() < 2 || (!exceeds[g] && forall|r: int|
            0 <= r < groups[g].replicas@.len() ==> 0 < (#[trigger] groups[g].replicas@[r]).avg_ms
                < 0x8000_0000),
    ensures
        !after.contains_key((groups[g].key.0@, groups[g].key.1)),
        forall|i: int| 0 <= i < slow.len() ==> !is_about(#[trigger] slow[i], groups[g]),
{
    lemma_own_outcome(groups, exceeds, sustained, now, seen, after, slow, g);
    if groups[g].replicas@.len() >= 2 {
        lemma_unsigned_extremes(groups[g]);
    }
}

/// A layer of which a replica has a latency of zero or below keeps its sighting as it is, or stays
/// without one, and nothing is asked of it, where none of its latencies is a signed NaN.
pub proof fn law_unmeasured_layers_are_left_alone(
    groups: Seq<LayerGroup>,
    exceeds: Seq<bool>,
    sustained: u128,
    now: u128,
    seen: Map<LayerKey, u128>,
    after: Map<LayerKey, u128>,
    slow: Seq<SlowReplica>,
    g: int,
    r: int,
)
    requires
        (after, slow_views(slow)) == imbalance_plan(
            groups,
            exceeds,
            sustained,
            now,
            seen,
            groups.len(),
        ),
        distinct_layers(groups),
        0 <= g < groups.len(),
        groups[g].replicas@.len() >= 2,
        0 <= r < groups[g].replicas@.len(),
        groups[g].replicas@[r].avg_ms == 0 || groups[g].replicas@[r].avg_ms >= 0x8000_0000,
        forall|i: int|
            0 <= i < groups[g].replicas@.len() ==> (#[trigger] groups[g].replicas@[i]).avg_ms
                <= 0xff80_0000,
    ensures
        agree(after, seen, (groups[g].key.0@, groups[g].key.1)),
        forall|i: int| 0 <= i < slow.len() ==> !is_about(#[trigger] slow[i], groups[g]),
{
    let all = groups[g].replicas_view();
    lemma_own_outcome(groups, exceeds, sustained, now, seen, after, slow, g);
    law_extremes(all, r);
    assert(all[r].1 == groups[g].replicas@[r].avg_ms);
    assert(all[fastest_of(all)].1 == groups[g].replicas@[fastest_of(all)].avg_ms);
}

/// Every request is about a group of two replicas or more whose ratio is above the threshold, and
/// goes to one of its replicas that none of them is slower than; the layer had been noted for
/// `sustained`, unless no time is asked for.
pub proof fn law_requests_have_their_reason(
    groups: Seq<LayerGroup>,
    exceeds: Seq<bool>,
    sustained: u128,
    now: u128,
    seen: Map<LayerKey, u128>,
    after: Map<LayerKey, u128>,
    slow: Seq<SlowReplica>,
    i: int,
)
    requires
        (after, slow_views(slow)) == imbalance_plan(
            groups,
            exceeds,
            sustained,
            now,
            seen,
            groups.len(),
        ),
        distinct_layers(groups),
        0 <= i < slow.len(),
    ensures
        exists|g: int, r: int| #[trigger]
            is_reason(groups, exceeds, sustained, now, seen, slow[i], g, r),
{
    lemma_plan(groups, exceeds, sustained, now, seen, groups.len());
    let views = imbalance_plan(groups, exceeds, sustained, now, seen, groups.len()).1;
    assert(views == slow_views(slow));
    assert(views[i] == (slow[i].server_id@, layer_key(slow[i].key)));
    let g = choose|g: int|
        0 <= g < groups.len() && #[trigger] own_request(groups, g) == views[i] && own_step(
            groups,
            exceeds,
            sustained,
            now,
            seen,
            g,
        ).1;
    let all = groups[g].replicas_view();
    law_extremes(all, 0);
    let r = slowest_of(all);
    assert forall|j: int| 0 <= j < groups[g].replicas@.len() implies
        crate::float_bits::numeric_rank((#[trigger] groups[g].replicas@[j]).avg_ms)
        <= crate::float_bits::numeric_rank(groups[g].replicas@[r].avg_ms) by {
        law_extremes(all, j);
    }
    law_imbalance_lasts_since_it_was_seen(seen, layer_key(groups[g].key), sustained, now);
    assert(is_reason(groups, exceeds, sustained, now, seen, slow[i], g, r));
}

/// Whether a request goes to replica `r` of group `g` for a lasting imbalance of that group.
pub open spec fn is_reason(
    groups: Seq<LayerGroup>,
    exceeds: Seq<bool>,
    sustained: u128,
    now: u128,
    seen: Map<LayerKey, u128>,
    request: SlowReplica,
    g: int,
    r: int,
) -> bool {
    let key = (groups[g].key.0@, groups[g].key.1);
    &&& 0 <= g < groups.len()
    &&& is_about(request, groups[g])
    &&& exceeds[g]
    &&& sustained == 0 || (seen.contains_key(key) && seen[key] + sustained <= now)
    &&& groups[g].replicas@.len() >= 2
    &&& 0 <= r < groups[g].replicas@.len()
    &&& request.server_id@ == groups[g].replicas@[r].server_id@
    &&& forall|j: int|
        0 <= j < groups[g].replicas@.len() ==> crate::float_bits::numeric_rank(
            (#[trigger] groups[g].replicas@[j]).avg_ms,
        ) <= crate::float_bits::numeric_rank(groups[g].replicas@[r].avg_ms)
}

/// There is a request for every group that is acted on: as many as there are such groups, in the
/// order of the groups. One more group adds at most one request, behind the others, and only for
/// its own layer.
pub proof fn law_requests_come_in_order_of_groups(
    groups: Seq<LayerGroup>,
    exceeds: Seq<bool>,
    sustained: u128,
    now: u128,
    seen: Map<LayerKey, u128>,
    n: nat,
)
    requires
        n < groups.len(),
    ensures
        ({
            let before = imbalance_plan(groups, exceeds, sustained, now, seen, n).1;
            let after = imbalance_plan(groups, exceeds, sustained, now, seen, n + 1).1;
            ||| after == before
            ||| {
                &&& after.len() == before.len() + 1
                &&& after.drop_last() == before
                &&& after.last().1 == (groups[n as int].key.0@, groups[n as int].key.1)
            }
        }),
        imbalance_plan(groups, exceeds, sustained, now, seen, 0).1.len() == 0,
{
    let before = imbalance_plan(groups, exceeds, sustained, now, seen, n).1;
    let after = imbalance_plan(groups, exceeds, sustained, now, seen, n + 1).1;
    if after != before {
        assert(after.drop_last() =~= before);
    }
}

// ── What is sorted by layer ─────────────────────────────────────────────────

/// One more server adds its measurements behind those of the others, one for every latency, in
/// order, each of its own model and of the latency's layer.
pub proof fn law_servers_are_listed_in_order(
    servers: Seq<ServerLatencies>,
    server: ServerLatencies,
    i: int,
)
    requires
        0 <= i < server.latencies@.len(),
    ensures
        all_samples(Seq::<ServerLatencies>::empty()).len() == 0,
        all_samples(servers.push(server)).len() == all_samples(servers).len()
            + server.latencies@.len(),
        all_samples(servers.push(server)).take(all_samples(servers).len() as int) == all_samples(
            servers,
        ),
        all_samples(servers.push(server))[all_samples(servers).len() + i] == (
            (server.model_id@, server.latencies@[i].layer),
            (server.server_id@, server.latencies@[i].avg_ms),
        ),
{
    assert(servers.push(server).drop_last() =~= servers);
    assert(all_samples(servers.push(server)).take(all_samples(servers).len() as int)
        =~= all_samples(servers));
}

/// One more measurement is one more replica of its layer, behind the others, also where the server
/// has one there; the other layers stay as they are.
pub proof fn law_measurements_are_sorted_in_order(
    samples: Seq<(LayerKey, ReplicaView)>,
    key: LayerKey,
    replica: ReplicaView,
    other: LayerKey,
)
    ensures
        samples_of(samples.push((key, replica)), key) == samples_of(samples, key).push(replica),
        other != key ==> samples_of(samples.push((key, replica)), other) == samples_of(
            samples,
            other,
        ),
        samples_of(Seq::<(LayerKey, ReplicaView)>::empty(), key).len() == 0,
{
    assert(samples.push((key, replica)).drop_last() =~= samples);
}

/// Measurements of one layer are exactly those listed under it.
proof fn lemma_samples_of(samples: Seq<(LayerKey, ReplicaView)>, key: LayerKey, v: ReplicaView)
    ensures
        samples_of(samples, key).contains(v) <==> samples.contains((key, v)),
    decreases samples.len(),
{
    if samples.len() > 0 {
        let before = samples.drop_last();
        lemma_samples_of(before, key, v);
        let here = samples_of(samples, key);
        let there = samples_of(before, key);
        if samples.contains((key, v)) {
            let i = choose|i: int| 0 <= i < samples.len() && samples[i] == (key, v);
            if i < before.len() {
                assert(before[i] == (key, v));
            }
        }
        if before.contains((key, v)) {
            let i = choose|i: int| 0 <= i < before.len() && before[i] == (key, v);
            assert(samples[i] == (key, v));
        }
        if there.contains(v) {
            let i = choose|i: int| 0 <= i < there.len() && there[i] == v;
            assert(here[i] == v);
        }
        if samples.last().0 == key {
            assert(here[here.len() - 1] == samples.last().1);
            assert(samples[samples.len() - 1] == (key, samples.last().1));
            if here.contains(v) {
                let i = choose|i: int| 0 <= i < here.len() && here[i] == v;
                if i < there.len() {
                    assert(there[i] == v);
                }
            }
        }
    }
}

/// The list of measurements holds each one of each server, and no other.
proof fn lemma_all_samples(servers: Seq<ServerLatencies>, v: (LayerKey, ReplicaView))
    ensures
        all_samples(servers).contains(v) <==> exists|s: int, i: int|
            0 <= s < servers.len() && 0 <= i < servers[s].latencies@.len()
                && #[trigger] is_measurement(servers, s, i, v),
    decreases servers.len(),
{
    if servers.len() > 0 {
        let before = servers.drop_last();
        lemma_all_samples(before, v);
        let last = servers.len() - 1;
        let there = all_samples(before);
        let own = server_samples(servers.last());
        let here = all_samples(servers);
        assert(here =~= there + own);
        if here.contains(v) {
            let p = choose|p: int| 0 <= p < here.len() && here[p] == v;
            if p < there.len() {
                assert(there[p] == v);
                let (s, i) = choose|s: int, i: int|
                    0 <= s < before.len() && 0 <= i < before[s].latencies@.len()
                        && #[trigger] is_measurement(before, s, i, v);
                assert(is_measurement(servers, s, i, v));
            } else {
                assert(own[p - there.len()] == v);
                assert(is_measurement(servers, last, p - there.len(), v));
            }
        }
        if exists|s: int, i: int|
            0 <= s < servers.len() && 0 <= i < servers[s].latencies@.len()
                && #[trigger] is_measurement(servers, s, i, v) {
            let (s, i) = choose|s: int, i: int|
                0 <= s < servers.len() && 0 <= i < servers[s].latencies@.len()
                    && #[trigger] is_measurement(servers, s, i, v);
            if s < last {
                assert(is_measurement(before, s, i, v));
                let p = choose|p: int| 0 <= p < there.len() && there[p] == v;
                assert(here[p] == v);
            } else {
                assert(own[i] == v);
                assert(here[there.len() + i] == v);
            }
        }
    }
}

/// Whether `v` is what server `s` measured with its latency `i`.
pub open spec fn is_measurement(
    servers: Seq<ServerLatencies>,
    s: int,
    i: int,
    v: (LayerKey, ReplicaView),
) -> bool {
    &&& v.0.0 == servers[s].model_id@
    &&& v.0.1 == servers[s].latencies@[i].layer
    &&& v.1.0 == servers[s].server_id@
    &&& v.1.1 == servers[s].latencies@[i].avg_ms
}

/// Whether replica `r` of group `g` is latency `i` of server `s`.
pub open spec fn is_replica(
    groups: Seq<LayerGroup>,
    servers: Seq<ServerLatencies>,
    g: int,
    r: int,
    s: int,
    i: int,
) -> bool {
    &&& groups[g].key.0@ == servers[s].model_id@
    &&& groups[g].key.1 == servers[s].latencies@[i].layer
    &&& groups[g].replicas@[r].server_id@ == servers[s].server_id@
    &&& groups[g].replicas@[r].avg_ms == servers[s].latencies@[i].avg_ms
}

/// Every latency of every server is a replica in the group of its model and layer.
pub proof fn law_every_measurement_is_sorted(
    groups: Seq<LayerGroup>,
    servers: Seq<ServerLatencies>,
    s: int,
    i: int,
)
    requires
        sorts(groups, all_samples(servers)),
        0 <= s < servers.len(),
        0 <= i < servers[s].latencies@.len(),
    ensures
        exists|g: int, r: int|
            0 <= g < groups.len() && 0 <= r < groups[g].replicas@.len() && #[trigger] is_replica(
                groups,
                servers,
                g,
                r,
                s,
                i,
            ),
{
    let key = (servers[s].model_id@, servers[s].latencies@[i].layer);
    let replica = (servers[s].server_id@, servers[s].latencies@[i].avg_ms);
    let samples = all_samples(servers);
    lemma_all_samples(servers, (key, replica));
    assert(is_measurement(servers, s, i, (key, replica)));
    lemma_samples_of(samples, key, replica);
    let own = samples_of(samples, key);
    assert(own.len() > 0);
    assert(has_group(groups, key));
    let g = choose|g: int| 0 <= g < groups.len() && layer_key((#[trigger] groups[g]).key) == key;
    assert(groups[g].replicas_view() == own);
    let r = choose|r: int| 0 <= r < own.len() && own[r] == replica;
    assert(groups[g].replicas_view()[r] == replica);
    assert(is_replica(groups, servers, g, r, s, i));
}

/// Every replica in a group is a latency of a server of the group's model, on the group's layer. No
/// group is empty, and no two are of the same model and layer.
pub proof fn law_every_replica_was_measured(
    groups: Seq<LayerGroup>,
    servers: Seq<ServerLatencies>,
    g: int,
    r: int,
    h: int,
)
    requires
        sorts(groups, all_samples(servers)),
        0 <= g < groups.len(),
        0 <= h < groups.len(),
    ensures
        groups[g].replicas@.len() > 0,
        g != h ==> groups[g].key.0@ != groups[h].key.0@ || groups[g].key.1 != groups[h].key.1,
        0 <= r < groups[g].replicas@.len() ==> exists|s: int, i: int|
            0 <= s < servers.len() && 0 <= i < servers[s].latencies@.len()
                && #[trigger] is_replica(groups, servers, g, r, s, i),
{
    let key = layer_key(groups[g].key);
    let samples = all_samples(servers);
    assert(has_group(groups, key));
    assert(groups[g].replicas_view() == samples_of(samples, key));
    assert(samples_of(samples, key).len() == groups[g].replicas@.len());
    if g < h {
        assert(layer_key(groups[g].key) != layer_key(groups[h].key));
    } else if h < g {
        assert(layer_key(groups[h].key) != layer_key(groups[g].key));
    }
    if 0 <= r < groups[g].replicas@.len() {
        let replica = groups[g].replicas_view()[r];
        assert(samples_of(samples, key).contains(replica));
        lemma_samples_of(samples, key, replica);
        lemma_all_samples(servers, (key, replica));
        let (s, i) = choose|s: int, i: int|
            0 <= s < servers.len() && 0 <= i < servers[s].latencies@.len()
                && #[trigger] is_measurement(servers, s, i, (key, replica));
        assert(is_replica(groups, servers, g, r, s, i));
    }
}

// ── What is taken from ranges, and what follows the checks ──────────────────

/// Whether a planned message takes a range from its least loaded server.
pub open spec fn is_drop(message: Unassign, range: OverReplicatedRange) -> bool {
    &&& range.least_loaded matches Some(server) && message.server_id@ == server@
    &&& message.msg.model_id@ == range.model_id@
    &&& message.msg.layer_start == range.layer_start
    &&& message.msg.layer_end == range.layer_end
    &&& message.msg.reason@ == "over_replicated"@
}

/// With a target, every range that has a least loaded server gets a message that takes the range
/// from it, and every message is such a one; without a target there is none.
pub proof fn law_surplus_ranges_lose_their_least_loaded(
    plan: Seq<Unassign>,
    target_replicas: usize,
    ranges: Seq<OverReplicatedRange>,
    i: int,
    p: int,
)
    requires
        unassign_views(plan) == drops_of(target_replicas, ranges),
    ensures
        target_replicas == 0 ==> plan.len() == 0,
        target_replicas > 0 && 0 <= i < ranges.len() && ranges[i].least_loaded is Some
            ==> exists|q: int| 0 <= q < plan.len() && is_drop(#[trigger] plan[q], ranges[i]),
        0 <= p < plan.len() ==> exists|j: int|
            0 <= j < ranges.len() && is_drop(plan[p], #[trigger] ranges[j]),
{
    let all = Seq::new(ranges.len(), |j: int| drop_of(ranges[j]));
    let views = unassign_views(plan);
    assert(views.len() == plan.len());
    if target_replicas > 0 && 0 <= i < ranges.len() && ranges[i].least_loaded is Some {
        let drop = drop_of(ranges[i])->0;
        assert(all[i] == Some(drop));
        crate::lists::law_exactly_the_items_are_kept(all, drop);
        let q = choose|q: int| 0 <= q < views.len() && views[q] == drop;
        assert(views[q] == (plan[q].server_id@, plan[q].msg@));
        assert(is_drop(plan[q], ranges[i]));
    }
    if 0 <= p < plan.len() {
        assert(views[p] == (plan[p].server_id@, plan[p].msg@));
        assert(views.contains(views[p]));
        crate::lists::law_exactly_the_items_are_kept(all, views[p]);
        let j = choose|j: int| 0 <= j < all.len() && all[j] == Some(views[p]);
        assert(drop_of(ranges[j]) == Some(views[p]));
        assert(is_drop(plan[p], ranges[j]));
    }
}

/// Ranges are gone through in order: one more range adds one message behind the others where it has
/// a least loaded server, and nothing where it has none.
pub proof fn law_ranges_are_gone_through_in_order(
    target_replicas: usize,
    ranges: Seq<OverReplicatedRange>,
    range: OverReplicatedRange,
)
    requires
        target_replicas > 0,
    ensures
        range.least_loaded is None ==> drops_of(target_replicas, ranges.push(range)) == drops_of(
            target_replicas,
            ranges,
        ),
        range.least_loaded is Some ==> {
            let before = drops_of(target_replicas, ranges);
            let after = drops_of(target_replicas, ranges.push(range));
            &&& after.len() == before.len() + 1
            &&& after.drop_last() == before
            &&& after.last().0 == range.least_loaded->0@
        },
        drops_of(target_replicas, Seq::<OverReplicatedRange>::empty()).len() == 0,
{
    let more = ranges.push(range);
    let before = Seq::new(ranges.len(), |j: int| drop_of(ranges[j]));
    let after = Seq::new(more.len(), |j: int| drop_of(more[j]));
    assert(after.drop_last() =~= before);
    assert(after.last() == drop_of(range));
    if range.least_loaded is Some {
        assert(drops_of(target_replicas, more).drop_last() =~= drops_of(target_replicas, ranges));
    }
}

/// Every slow replica is asked to leave, in order, and the gaps are filled once, behind the last
/// request; without a slow replica there is nothing to do.
pub proof fn law_every_slow_replica_is_asked(slow: Seq<SlowReplica>, i: int)
    ensures
        slow.len() == 0 ==> steps_of(slow).len() == 0,
        slow.len() > 0 ==> steps_of(slow).len() == slow.len() + 1,
        slow.len() > 0 ==> steps_of(slow)[slow.len() as int] == RebalanceStep::FillAllGaps,
        0 <= i < slow.len() ==> steps_of(slow)[i] == RebalanceStep::Unassign(slow[i]),
{
}

/// Every stale server is taken out, in order, and the gaps are filled once, behind the last;
/// without a stale server there is nothing to do.
pub proof fn law_every_stale_server_is_taken_out(stale: Seq<String>, i: int)
    ensures
        stale.len() == 0 ==> eviction_steps(stale).len() == 0,
        stale.len() > 0 ==> eviction_steps(stale).len() == stale.len() + 1,
        stale.len() > 0 ==> eviction_steps(stale)[stale.len() as int] == EvictionStep::FillAllGaps,
        0 <= i < stale.len() ==> eviction_steps(stale)[i] == EvictionStep::Deregister(stale[i]),
{
}

/// Requests, messages and replicas are seen as they are, one for one and in order.
pub proof fn law_lists_are_seen_as_they_are(
    slow: Seq<SlowReplica>,
    plan: Seq<Unassign>,
    group: LayerGroup,
    i: int,
)
    requires
        0 <= i < slow.len(),
        i < plan.len(),
        i < group.replicas@.len(),
    ensures
        slow_views(slow).len() == slow.len(),
        slow_views(slow)[i].0 == slow[i].server_id@,
        slow_views(slow)[i].1.0 == slow[i].key.0@,
        slow_views(slow)[i].1.1 == slow[i].key.1,
        unassign_views(plan).len() == plan.len(),
        unassign_views(plan)[i].0 == plan[i].server_id@,
        unassign_views(plan)[i].1.model_id == plan[i].msg.model_id@,
        unassign_views(plan)[i].1.layer_start == plan[i].msg.layer_start,
        unassign_views(plan)[i].1.layer_end == plan[i].msg.layer_end,
        unassign_views(plan)[i].1.reason == plan[i].msg.reason@,
        group.replicas_view().len() == group.replicas@.len(),
        group.replicas_view()[i].0 == group.replicas@[i].server_id@,
        group.replicas_view()[i].1 == group.replicas@[i].avg_ms,
{
}

} // verus!
