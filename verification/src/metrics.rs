//! The metrics of the scoped pools: a gauge of the cached pools and a counter of
//! evictions, each kept per cluster.
use crate::outside::metric::{
    counter_family, counter_with_labels, counters, gauge_family, gauge_with_labels, gauges,
    is_registration, register_counters, register_gauges, texts, valid_name, CounterFamily,
    CounterView, Descriptor, EvictionCounter, FamilyHandle, GaugeFamily, GaugeView, PoolGauge,
    Registration,
};
use vstd::prelude::*;

verus! {

/// The descriptor of the gauge of cached pools.
pub open spec fn pools_descriptor() -> Descriptor {
    Descriptor {
        name: "queryflux_adbc_scoped_pools"@,
        help: "Cached ADBC scoped sub-pools, including expired entries awaiting cleanup"@,
        labels: seq!["cluster_group"@, "cluster_name"@],
    }
}

/// The descriptor of the counter of evictions.
pub open spec fn evictions_descriptor() -> Descriptor {
    Descriptor {
        name: "queryflux_adbc_scoped_pool_evictions_total"@,
        help: "ADBC scoped sub-pool evictions"@,
        labels: seq!["cluster_group"@, "cluster_name"@, "reason"@],
    }
}

/// Both descriptors are ones that prometheus accepts.
proof fn lemma_descriptors_valid()
    ensures
        pools_descriptor().valid(),
        evictions_descriptor().valid(),
{
    reveal_strlit("queryflux_adbc_scoped_pools");
    reveal_strlit("Cached ADBC scoped sub-pools, including expired entries awaiting cleanup");
    reveal_strlit("queryflux_adbc_scoped_pool_evictions_total");
    reveal_strlit("ADBC scoped sub-pool evictions");
    reveal_strlit("cluster_group");
    reveal_strlit("cluster_name");
    reveal_strlit("reason");
    assert(valid_name("queryflux_adbc_scoped_pools"@, true));
    assert(valid_name("queryflux_adbc_scoped_pool_evictions_total"@, true));
    assert(valid_name("cluster_group"@, false));
    assert(valid_name("cluster_name"@, false));
    assert(valid_name("reason"@, false));
    assert("cluster_group"@.len() == 13 && "cluster_name"@.len() == 12 && "reason"@.len() == 6);
}

/// The families that every cache of the process reports to.
pub struct PoolMetricFamilies {
    /// The cached pools, those that have expired and await cleanup among them.
    pub pools: GaugeFamily,
    /// The evictions, by the reason for them.
    pub evictions: CounterFamily,
}

impl PoolMetricFamilies {
    pub open spec fn wf(self) -> bool {
        &&& self.pools.descriptor() == pools_descriptor()
        &&& self.evictions.descriptor() == evictions_descriptor()
    }

    /// Makes both families, without metrics in them yet.
    pub fn new() -> (families: Self)
        ensures
            families.wf(),
    {
        proof {
            lemma_descriptors_valid();
        }
        let labels: [&str; 3] = ["cluster_group", "cluster_name", "reason"];
        assert(texts(labels@) =~= evictions_descriptor().labels);
        let evictions = counter_family(
            "queryflux_adbc_scoped_pool_evictions_total",
            "ADBC scoped sub-pool evictions",
            &labels,
        );
        let labels: [&str; 2] = ["cluster_group", "cluster_name"];
        assert(texts(labels@) =~= pools_descriptor().labels);
        let pools = gauge_family(
            "queryflux_adbc_scoped_pools",
            "Cached ADBC scoped sub-pools, including expired entries awaiting cleanup",
            &labels,
        );
        match (pools, evictions) {
            (Ok(pools), Ok(evictions)) => PoolMetricFamilies { pools, evictions },
            _ => vstd::pervasive::unreached(),
        }
    }
}

/// What comes of registering both families: the first refusal, or the last answer.
pub open spec fn registration_of_both(
    families: PoolMetricFamilies,
    registry: prometheus::Registry,
    pools: Result<(), prometheus::Error>,
    result: Result<(), prometheus::Error>,
) -> bool {
    &&& is_registration(FamilyHandle::Gauges(families.pools.identity()), registry, pools)
    &&& match pools {
        Ok(_) => is_registration(
            FamilyHandle::Counters(families.evictions.identity()),
            registry,
            result,
        ),
        Err(_) => result == pools,
    }
}

impl PoolMetricFamilies {
    /// Exposes both families through `registry`, the gauges first, and stops where
    /// it refuses.
    pub fn register(&self, registry: &prometheus::Registry) -> (result: Result<
        (),
        prometheus::Error,
    >)
        ensures
            exists|pools: Result<(), prometheus::Error>|
                #[trigger] registration_of_both(*self, *registry, pools, result),
    {
        let answer = register_gauges(registry, &self.pools);
        let ghost record = answer;
        let pools = answer.into_result();
        assert(record.result() == pools);
        let ghost first = pools;
        match pools {
            Ok(()) => {
                let answer = register_counters(registry, &self.evictions);
                let ghost record = answer;
                let result = answer.into_result();
                assert(record.result() == result);
                assert(registration_of_both(*self, *registry, first, result));
                result
            },
            Err(refusal) => {
                assert(registration_of_both(*self, *registry, first, Err(refusal)));
                Err(refusal)
            },
        }
    }
}

/// The metrics of one cache, by what they have been told.
#[verifier::ext_equal]
pub struct MetricsView {
    pub pools: GaugeView,
    pub idle_evictions: CounterView,
    pub lru_evictions: CounterView,
}

/// The handles through which one cache reports. Counts are adjusted, never set,
/// so caches with the same labels do not overwrite one another. Labels never
/// contain identity data.
pub struct ScopedPoolMetrics {
    pub pools: PoolGauge,
    pub idle_evictions: EvictionCounter,
    pub lru_evictions: EvictionCounter,
}

impl View for ScopedPoolMetrics {
    type V = MetricsView;

    open spec fn view(&self) -> MetricsView {
        MetricsView {
            pools: self.pools@,
            idle_evictions: self.idle_evictions@,
            lru_evictions: self.lru_evictions@,
        }
    }
}

/// The metrics of a cluster through which nothing has been reported.
pub open spec fn unreported(
    families: PoolMetricFamilies,
    group: Seq<char>,
    cluster: Seq<char>,
) -> MetricsView {
    MetricsView {
        pools: GaugeView {
            metric: gauges(families.pools.identity())[seq![group, cluster]],
            family: pools_descriptor(),
            labels: seq![group, cluster],
            net: 0,
        },
        idle_evictions: CounterView {
            metric: counters(families.evictions.identity())[seq![group, cluster, "idle"@]],
            family: evictions_descriptor(),
            labels: seq![group, cluster, "idle"@],
            total: 0,
        },
        lru_evictions: CounterView {
            metric: counters(families.evictions.identity())[seq![group, cluster, "lru"@]],
            family: evictions_descriptor(),
            labels: seq![group, cluster, "lru"@],
            total: 0,
        },
    }
}

/// The families go by the names that they are exposed under, and by the labels
/// that tell their metrics apart.
pub proof fn law_families_go_by_their_names(families: PoolMetricFamilies)
    requires
        families.wf(),
    ensures
        families.pools.descriptor().name == "queryflux_adbc_scoped_pools"@,
        families.pools.descriptor().help
            == "Cached ADBC scoped sub-pools, including expired entries awaiting cleanup"@,
        families.pools.descriptor().labels == seq!["cluster_group"@, "cluster_name"@],
        families.evictions.descriptor().name == "queryflux_adbc_scoped_pool_evictions_total"@,
        families.evictions.descriptor().help == "ADBC scoped sub-pool evictions"@,
        families.evictions.descriptor().labels == seq![
            "cluster_group"@,
            "cluster_name"@,
            "reason"@,
        ],
{
}

/// Each handle reports what its name says.
pub proof fn law_handles_report_what_they_are_for(metrics: ScopedPoolMetrics)
    ensures
        metrics@.pools == metrics.pools@,
        metrics@.idle_evictions == metrics.idle_evictions@,
        metrics@.lru_evictions == metrics.lru_evictions@,
{
}

/// The metrics of a cluster are asked for by its group, its name and, for an
/// eviction, the reason, in the order of the labels of the family; what they are
/// is what the family has for those values, and nothing has been reported.
pub proof fn law_metrics_are_those_of_the_cluster(
    families: PoolMetricFamilies,
    group: Seq<char>,
    cluster: Seq<char>,
)
    ensures
        ({
            let metrics = unreported(families, group, cluster);
            &&& metrics.pools.labels.len() == pools_descriptor().labels.len()
            &&& metrics.pools.labels[0] == group
            &&& metrics.pools.labels[1] == cluster
            &&& metrics.pools.family == pools_descriptor()
            &&& metrics.pools.metric == gauges(families.pools.identity())[metrics.pools.labels]
            &&& metrics.pools.net == 0
            &&& forall|counter: CounterView|
                counter == metrics.idle_evictions || counter == metrics.lru_evictions ==> {
                    &&& (#[trigger] counter.labels).len() == evictions_descriptor().labels.len()
                    &&& counter.labels[0] == group
                    &&& counter.labels[1] == cluster
                    &&& counter.family == evictions_descriptor()
                    &&& counter.metric == counters(families.evictions.identity())[counter.labels]
                    &&& counter.total == 0
                }
            &&& metrics.idle_evictions.labels[2] == "idle"@
            &&& metrics.lru_evictions.labels[2] == "lru"@
        }),
{
}

/// No two clusters ask for the same metrics, and none asks for the same counter
/// for both reasons.
pub proof fn law_clusters_ask_for_metrics_of_their_own(
    families: PoolMetricFamilies,
    group: Seq<char>,
    cluster: Seq<char>,
    other_group: Seq<char>,
    other_cluster: Seq<char>,
)
    ensures
        ({
            let here = unreported(families, group, cluster);
            let there = unreported(families, other_group, other_cluster);
            &&& here.pools.labels == there.pools.labels <==> group == other_group && cluster
                == other_cluster
            &&& here.idle_evictions.labels == there.idle_evictions.labels <==> group == other_group
                && cluster == other_cluster
            &&& here.lru_evictions.labels == there.lru_evictions.labels <==> group == other_group
                && cluster == other_cluster
            &&& here.idle_evictions.labels != there.lru_evictions.labels
        }),
{
    reveal_strlit("idle");
    reveal_strlit("lru");
    let here = unreported(families, group, cluster);
    let there = unreported(families, other_group, other_cluster);
    assert(here.pools.labels[0] == group && here.pools.labels[1] == cluster);
    assert(there.pools.labels[0] == other_group && there.pools.labels[1] == other_cluster);
    assert(here.idle_evictions.labels[0] == group && here.idle_evictions.labels[1] == cluster);
    assert(there.idle_evictions.labels[0] == other_group);
    assert(there.idle_evictions.labels[1] == other_cluster);
    assert(here.lru_evictions.labels[0] == group && here.lru_evictions.labels[1] == cluster);
    assert(there.lru_evictions.labels[0] == other_group);
    assert(there.lru_evictions.labels[1] == other_cluster);
    assert(here.idle_evictions.labels[2].len() != there.lru_evictions.labels[2].len());
}

/// Registering succeeds exactly if the registry took the gauges and then the
/// counters; otherwise the first refusal comes back.
pub proof fn law_register_offers_both_families(
    families: PoolMetricFamilies,
    registry: prometheus::Registry,
    pools: Result<(), prometheus::Error>,
    result: Result<(), prometheus::Error>,
)
    requires
        registration_of_both(families, registry, pools, result),
    ensures
        exists|r: Registration|
            r.family() == FamilyHandle::Gauges(families.pools.identity()) && r.registry()
                == registry && #[trigger] r.result() == pools,
        pools is Err ==> result == pools,
        pools is Ok ==> exists|r: Registration|
            r.family() == FamilyHandle::Counters(families.evictions.identity()) && r.registry()
                == registry && #[trigger] r.result() == result,
{
}

impl ScopedPoolMetrics {
    /// The metrics of `cluster` in `group`.
    pub fn new(families: &PoolMetricFamilies, group: &str, cluster: &str) -> (metrics: Self)
        requires
            families.wf(),
        ensures
            metrics@ == unreported(*families, group@, cluster@),
    {
        let labels: [&str; 2] = [group, cluster];
        assert(texts(labels@) =~= seq![group@, cluster@]);
        let pools = gauge_with_labels(&families.pools, &labels);
        let labels: [&str; 3] = [group, cluster, "idle"];
        assert(texts(labels@) =~= seq![group@, cluster@, "idle"@]);
        let idle_evictions = counter_with_labels(&families.evictions, &labels);
        let labels: [&str; 3] = [group, cluster, "lru"];
        assert(texts(labels@) =~= seq![group@, cluster@, "lru"@]);
        let lru_evictions = counter_with_labels(&families.evictions, &labels);
        ScopedPoolMetrics { pools, idle_evictions, lru_evictions }
    }

    /// Takes `count` pools off the gauge, which goes down by an `i64` at a time.
    pub(crate) fn take_off(&mut self, count: usize)
        ensures
            final(self)@ == (MetricsView {
                pools: GaugeView {
                    net: old(self)@.pools.net - count,
                    ..old(self)@.pools
                },
                ..old(self)@
            }),
        opens_invariants none
        no_unwind
    {
        let mut left: u64 = count as u64;
        while left > i64::MAX as u64
            invariant
                self@ == (MetricsView {
                    pools: GaugeView {
                        net: old(self)@.pools.net - (count - left),
                        ..old(self)@.pools
                    },
                    ..old(self)@
                }),
                left <= count,
            decreases left,
        {
            self.pools.sub(i64::MAX);
            left = left - i64::MAX as u64;
        }
        self.pools.sub(left as i64);
    }
}

} // verus!
