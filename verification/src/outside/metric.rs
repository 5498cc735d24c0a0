//! prometheus: families of metrics, the metrics in them, and registries.
//!
//! A metric is shared by every handle with the same labels, so its value is not a
//! property of one handle. What is tracked here is what each handle has been told:
//! the sum of the adjustments that were made through it.
use vstd::prelude::*;

verus! {

/// prometheus' error, carried without looking inside.
#[verifier::external_type_specification]
#[verifier::external_body]
pub struct ExPrometheusError(prometheus::Error);

/// prometheus' registry, carried without looking inside.
#[verifier::external_type_specification]
#[verifier::external_body]
pub struct ExRegistry(prometheus::Registry);

/// What a family of metrics was made with.
#[verifier::ext_equal]
pub struct Descriptor {
    pub name: Seq<char>,
    pub help: Seq<char>,
    pub labels: Seq<Seq<char>>,
}

/// The texts of a list of strings.
pub open spec fn texts(strings: Seq<&str>) -> Seq<Seq<char>> {
    Seq::new(strings.len(), |i: int| strings[i]@)
}

/// A letter or an underscore; in the name of a metric also a colon.
pub open spec fn name_char(c: char, colon: bool) -> bool {
    ||| 'a' <= c <= 'z'
    ||| 'A' <= c <= 'Z'
    ||| c == '_'
    ||| colon && c == ':'
}

/// A name of [`name_char`]s in which digits may follow the first character.
pub open spec fn valid_name(name: Seq<char>, colon: bool) -> bool {
    &&& name.len() > 0
    &&& name_char(name[0], colon)
    &&& forall|i: int| 0 < i < name.len() ==> name_char(#[trigger] name[i], colon) || '0' <= name[i] <= '9'
}

impl Descriptor {
    /// Whether prometheus accepts a family with this descriptor.
    pub open spec fn valid(self) -> bool {
        &&& self.help.len() > 0
        &&& valid_name(self.name, true)
        &&& forall|i: int| 0 <= i < self.labels.len() ==> valid_name(#[trigger] self.labels[i], false)
        &&& self.labels.no_duplicates()
    }
}

/// prometheus' `IntGaugeVec`, a collection of gauges by their label values. Its
/// type parameter is bound by a trait of prometheus, which keeps the type itself
/// out of verified signatures.
#[verifier::external_body]
pub struct GaugeVecHandle {
    vec: prometheus::IntGaugeVec,
}

/// prometheus' `IntCounterVec`, a collection of counters by their label values.
#[verifier::external_body]
pub struct CounterVecHandle {
    vec: prometheus::IntCounterVec,
}

/// prometheus' `IntGauge`. Two are equal when they are handles of the same gauge:
/// a change through one is read through the other.
#[verifier::external_body]
pub struct GaugeHandle {
    pub metric: prometheus::IntGauge,
}

/// prometheus' `IntCounter`. Two are equal when they are handles of the same
/// counter: a change through one is read through the other.
#[verifier::external_body]
pub struct CounterHandle {
    pub metric: prometheus::IntCounter,
}

/// A family of gauges that differ in their label values.
pub struct GaugeFamily {
    handle: GaugeVecHandle,
    descriptor: Ghost<Descriptor>,
}

/// A family of counters that differ in their label values.
pub struct CounterFamily {
    handle: CounterVecHandle,
    descriptor: Ghost<Descriptor>,
}

/// The gauges of a family, by their label values. One that has not been asked for
/// yet is the one that prometheus will make then; none is ever taken out.
pub uninterp spec fn gauges(family: GaugeVecHandle) -> Map<Seq<Seq<char>>, GaugeHandle>;

/// The counters of a family, by their label values. One that has not been asked
/// for yet is the one that prometheus will make then; none is ever taken out.
pub uninterp spec fn counters(family: CounterVecHandle) -> Map<Seq<Seq<char>>, CounterHandle>;

/// A family of either kind.
pub enum FamilyHandle {
    Gauges(GaugeVecHandle),
    Counters(CounterVecHandle),
}

impl GaugeFamily {
    /// What the family was made with.
    pub closed spec fn descriptor(self) -> Descriptor {
        self.descriptor@
    }

    /// Which family it is.
    pub closed spec fn identity(self) -> GaugeVecHandle {
        self.handle
    }
}

impl CounterFamily {
    /// What the family was made with.
    pub closed spec fn descriptor(self) -> Descriptor {
        self.descriptor@
    }

    /// Which family it is.
    pub closed spec fn identity(self) -> CounterVecHandle {
        self.handle
    }
}

/// prometheus' `IntGaugeVec::new` on the options that `Opts::new` makes of `name`
/// and `help`. It succeeds exactly on valid descriptors, and the family keeps its
/// descriptor for good.
#[verifier::external_body]
pub(crate) fn gauge_family(name: &str, help: &str, labels: &[&str]) -> (family: Result<
    GaugeFamily,
    prometheus::Error,
>)
    ensures
        family is Ok <==> (Descriptor { name: name@, help: help@, labels: texts(labels@) }).valid(),
        family matches Ok(f) ==> f.descriptor() == (Descriptor {
            name: name@,
            help: help@,
            labels: texts(labels@),
        }),
{
    let vec = prometheus::IntGaugeVec::new(prometheus::Opts::new(name, help), labels)?;
    Ok(GaugeFamily { handle: GaugeVecHandle { vec }, descriptor: Ghost(arbitrary()) })
}

/// prometheus' `IntCounterVec::new` on the options that `Opts::new` makes of
/// `name` and `help`. It succeeds exactly on valid descriptors, and the family
/// keeps its descriptor for good.
#[verifier::external_body]
pub(crate) fn counter_family(name: &str, help: &str, labels: &[&str]) -> (family: Result<
    CounterFamily,
    prometheus::Error,
>)
    ensures
        family is Ok <==> (Descriptor { name: name@, help: help@, labels: texts(labels@) }).valid(),
        family matches Ok(f) ==> f.descriptor() == (Descriptor {
            name: name@,
            help: help@,
            labels: texts(labels@),
        }),
{
    let vec = prometheus::IntCounterVec::new(prometheus::Opts::new(name, help), labels)?;
    Ok(CounterFamily { handle: CounterVecHandle { vec }, descriptor: Ghost(arbitrary()) })
}

/// The metric that a gauge handle was made for, and what the handle has been told.
#[verifier::ext_equal]
pub struct GaugeView {
    pub metric: GaugeHandle,
    pub family: Descriptor,
    /// The label values that were asked for. prometheus takes values that it hashes
    /// alike for the same metric, which it exposes under those that came first.
    pub labels: Seq<Seq<char>>,
    /// The increments less the decrements.
    pub net: int,
}

/// The metric that a counter handle was made for, and what the handle has been told.
#[verifier::ext_equal]
pub struct CounterView {
    pub metric: CounterHandle,
    pub family: Descriptor,
    /// The label values that were asked for. prometheus takes values that it hashes
    /// alike for the same metric, which it exposes under those that came first.
    pub labels: Seq<Seq<char>>,
    /// The sum of the increments.
    pub total: nat,
}

/// A gauge, with a record of what this handle has been told.
pub struct PoolGauge {
    pub handle: GaugeHandle,
    family: Ghost<Descriptor>,
    labels: Ghost<Seq<Seq<char>>>,
    net: Ghost<int>,
}

/// A counter, with a record of what this handle has been told.
pub struct EvictionCounter {
    pub handle: CounterHandle,
    family: Ghost<Descriptor>,
    labels: Ghost<Seq<Seq<char>>>,
    total: Ghost<nat>,
}

impl View for PoolGauge {
    type V = GaugeView;

    closed spec fn view(&self) -> GaugeView {
        GaugeView {
            metric: self.handle,
            family: self.family@,
            labels: self.labels@,
            net: self.net@,
        }
    }
}

impl View for EvictionCounter {
    type V = CounterView;

    closed spec fn view(&self) -> CounterView {
        CounterView {
            metric: self.handle,
            family: self.family@,
            labels: self.labels@,
            total: self.total@,
        }
    }
}

/// prometheus' `IntGaugeVec::with_label_values`, which panics unless there is one
/// value per label. The handle is of the family's gauge for these values, the same
/// whenever it is asked for; nothing has been told this handle yet. prometheus
/// finds the gauge by a hash of the values, so that other values have another
/// gauge is not claimed.
#[verifier::external_body]
pub(crate) fn gauge_with_labels(family: &GaugeFamily, values: &[&str]) -> (gauge: PoolGauge)
    requires
        values@.len() == family.descriptor().labels.len(),
    ensures
        gauge@ == (GaugeView {
            metric: gauges(family.identity())[texts(values@)],
            family: family.descriptor(),
            labels: texts(values@),
            net: 0,
        }),
{
    let metric = family.handle.vec.with_label_values(values);
    PoolGauge {
        handle: GaugeHandle { metric },
        family: Ghost(arbitrary()),
        labels: Ghost(arbitrary()),
        net: Ghost(arbitrary()),
    }
}

/// prometheus' `IntCounterVec::with_label_values`, which panics unless there is
/// one value per label. The handle is of the family's counter for these values,
/// the same whenever it is asked for; nothing has been told this handle yet.
/// prometheus finds the counter by a hash of the values, so that other values have
/// another counter is not claimed.
#[verifier::external_body]
pub(crate) fn counter_with_labels(family: &CounterFamily, values: &[&str]) -> (counter: EvictionCounter)
    requires
        values@.len() == family.descriptor().labels.len(),
    ensures
        counter@ == (CounterView {
            metric: counters(family.identity())[texts(values@)],
            family: family.descriptor(),
            labels: texts(values@),
            total: 0,
        }),
{
    let metric = family.handle.vec.with_label_values(values);
    EvictionCounter {
        handle: CounterHandle { metric },
        family: Ghost(arbitrary()),
        labels: Ghost(arbitrary()),
        total: Ghost(arbitrary()),
    }
}

impl PoolGauge {
    /// prometheus' `IntGauge::inc`: the gauge is told to go up by one. An atomic
    /// addition, which does not panic.
    #[verifier::external_body]
    pub(crate) fn inc(&mut self)
        ensures
            final(self)@ == (GaugeView { net: old(self)@.net + 1, ..old(self)@ }),
    {
        self.handle.metric.inc()
    }

    /// prometheus' `IntGauge::dec`: the gauge is told to go down by one. An atomic
    /// subtraction, which does not panic.
    #[verifier::external_body]
    pub(crate) fn dec(&mut self)
        ensures
            final(self)@ == (GaugeView { net: old(self)@.net - 1, ..old(self)@ }),
    {
        self.handle.metric.dec()
    }

    /// prometheus' `IntGauge::sub`: the gauge is told to go down by `n`. An atomic
    /// subtraction, which does not panic.
    #[verifier::external_body]
    pub(crate) fn sub(&mut self, n: i64)
        ensures
            final(self)@ == (GaugeView { net: old(self)@.net - n, ..old(self)@ }),
        opens_invariants none
        no_unwind
    {
        self.handle.metric.sub(n)
    }
}

impl EvictionCounter {
    /// prometheus' `IntCounter::inc`: the counter is told to go up by one. An
    /// atomic addition, which does not panic.
    #[verifier::external_body]
    pub(crate) fn inc(&mut self)
        ensures
            final(self)@ == (CounterView { total: old(self)@.total + 1, ..old(self)@ }),
    {
        self.handle.metric.inc()
    }

    /// prometheus' `IntCounter::inc_by`: the counter is told to go up by `n`. An
    /// atomic addition, which does not panic.
    #[verifier::external_body]
    pub(crate) fn inc_by(&mut self, n: u64)
        ensures
            final(self)@ == (CounterView { total: old(self)@.total + n as nat, ..old(self)@ }),
    {
        self.handle.metric.inc_by(n)
    }
}

/// What a registry said to a family, with a record of both.
pub struct Registration {
    result: Result<(), prometheus::Error>,
    family: Ghost<FamilyHandle>,
    registry: Ghost<prometheus::Registry>,
}

impl Registration {
    pub closed spec fn result(self) -> Result<(), prometheus::Error> {
        self.result
    }

    /// What the registry said.
    pub(crate) fn into_result(self) -> (result: Result<(), prometheus::Error>)
        ensures
            result == self.result(),
    {
        self.result
    }

    /// The family that was registered.
    pub closed spec fn family(self) -> FamilyHandle {
        self.family@
    }

    /// The registry that it was registered with.
    pub closed spec fn registry(self) -> prometheus::Registry {
        self.registry@
    }
}

/// A view is of the metric behind the handle, and of all that the handle was told.
proof fn law_views_are_of_the_handles(
    gauges: GaugeFamily,
    counters: CounterFamily,
    gauge: PoolGauge,
    counter: EvictionCounter,
)
    ensures
        gauges.identity() == gauges.handle,
        counters.identity() == counters.handle,
        gauge@.metric == gauge.handle,
        gauge@.labels == gauge.labels@,
        gauge@.net == gauge.net@,
        counter@.metric == counter.handle,
        counter@.labels == counter.labels@,
        counter@.total == counter.total@,
{
}

/// A record says what the registry answered, as it was answered.
proof fn law_record_holds_the_answer(r: Registration)
    ensures
        r.result() == r.result,
{
}

/// Whether registering `family` with `registry` gave `result`.
pub open spec fn is_registration(
    family: FamilyHandle,
    registry: prometheus::Registry,
    result: Result<(), prometheus::Error>,
) -> bool {
    exists|r: Registration|
        r.family() == family && r.registry() == registry && #[trigger] r.result() == result
}

/// prometheus' `Registry::register` on a family of gauges. Whether the registry
/// takes it depends on what else is registered there: nothing is claimed of that.
#[verifier::external_body]
pub(crate) fn register_gauges(registry: &prometheus::Registry, family: &GaugeFamily) -> (r: Registration)
    ensures
        r.family() == FamilyHandle::Gauges(family.identity()),
        r.registry() == *registry,
{
    Registration {
        result: registry.register(Box::new(family.handle.vec.clone())),
        family: Ghost(arbitrary()),
        registry: Ghost(arbitrary()),
    }
}

/// prometheus' `Registry::register` on a family of counters. Whether the registry
/// takes it depends on what else is registered there: nothing is claimed of that.
#[verifier::external_body]
pub(crate) fn register_counters(registry: &prometheus::Registry, family: &CounterFamily) -> (r: Registration)
    ensures
        r.family() == FamilyHandle::Counters(family.identity()),
        r.registry() == *registry,
{
    Registration {
        result: registry.register(Box::new(family.handle.vec.clone())),
        family: Ghost(arbitrary()),
        registry: Ghost(arbitrary()),
    }
}

} // verus!
