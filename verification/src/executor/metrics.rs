//! Named gauges.

use vstd::prelude::*;

verus! {

/// The name of a metric and what it measures. Two definitions with one name are
/// the same metric.
#[derive(Clone, Copy, Debug)]
pub struct MetricDef {
    pub name: &'static str,
    pub help: &'static str,
}

/// The text of a metric definition.
#[verifier::ext_equal]
pub struct MetricView {
    pub name: Seq<char>,
    pub help: Seq<char>,
}

impl View for MetricDef {
    type V = MetricView;

    open spec fn view(&self) -> MetricView {
        MetricView { name: self.name@, help: self.help@ }
    }
}

impl MetricDef {
    pub fn new(name: &'static str, help: &'static str) -> (metric: Self)
        ensures
            metric@ == (MetricView { name: name@, help: help@ }),
    {
        MetricDef { name, help }
    }

    /// Whether two definitions are the same metric.
    pub fn same_metric(&self, other: &Self) -> (same: bool)
        ensures
            same == (self@.name == other@.name),
    {
        self.name.to_owned() == other.name.to_owned()
    }
}

/// Whether an exporter accepts a character of a metric name.
pub open spec fn is_name_char(character: char) -> bool {
    ||| 'a' <= character <= 'z'
    ||| 'A' <= character <= 'Z'
    ||| '0' <= character <= '9'
    ||| character == '_'
    ||| character == ':'
}

/// A character of a metric name, or an underscore in its place.
pub open spec fn exported_char(character: char) -> char {
    if is_name_char(character) {
        character
    } else {
        '_'
    }
}

/// The name under which a metric is exported.
pub open spec fn exported_name(name: Seq<char>) -> Seq<char> {
    let cleaned = name.map_values(|character: char| exported_char(character));
    if cleaned.len() > 0 && '0' <= cleaned[0] <= '9' {
        seq!['_'] + cleaned
    } else {
        cleaned
    }
}

/// The name under which a metric is exported.
pub fn prometheus_metric_name(metric: &MetricDef) -> (name: String)
    ensures
        name@ == exported_name(metric@.name),
{
    let total: usize = metric.name.unicode_len();
    let ghost cleaned = metric@.name.map_values(|character: char| exported_char(character));
    let mut name: String = String::new();
    if total > 0 {
        let first: char = metric.name.get_char(0);
        if '0' <= first && first <= '9' {
            name.push('_');
        }
    }
    let ghost prefix = name@;
    let mut i: usize = 0;
    while i < total
        invariant
            total == metric@.name.len(),
            i <= total,
            cleaned == metric@.name.map_values(|character: char| exported_char(character)),
            name@ == prefix + cleaned.take(i as int),
        decreases total - i,
    {
        let character: char = metric.name.get_char(i);
        let accepted: bool = ('a' <= character && character <= 'z') || ('A' <= character && character
            <= 'Z') || ('0' <= character && character <= '9') || character == '_' || character == ':';
        if accepted {
            name.push(character);
        } else {
            name.push('_');
        }
        assert(cleaned.take(i + 1) =~= cleaned.take(i as int).push(cleaned[i as int]));
        i += 1;
    }
    assert(cleaned.take(total as int) =~= cleaned);
    assert(prefix + cleaned =~= exported_name(metric@.name));
    name
}

/// An exported name holds accepted characters only and does not start with a digit.
pub proof fn law_exported_name_is_accepted(name: Seq<char>)
    ensures
        forall|i: int| 0 <= i < exported_name(name).len() ==> is_name_char(#[trigger] exported_name(name)[i]),
        name.len() > 0 ==> exported_name(name).len() > 0 && !('0' <= exported_name(name)[0] <= '9'),
{
}

/// A gauge: its metric and its value.
#[derive(Clone, Copy, Debug)]
pub struct GaugeSlot {
    pub metric: MetricDef,
    pub value: u64,
}

/// A metric and the value of its gauge.
#[verifier::ext_equal]
pub struct GaugeView {
    pub metric: MetricView,
    pub value: u64,
}

impl View for GaugeSlot {
    type V = GaugeView;

    open spec fn view(&self) -> GaugeView {
        GaugeView { metric: self.metric@, value: self.value }
    }
}

/// A place in a set of gauges.
#[derive(Clone, Copy, Debug, PartialEq, Eq, Structural)]
pub struct Gauge {
    pub slot: usize,
}

/// The gauges of one executor, in the order in which they were defined.
#[derive(Debug)]
pub struct ExecutorMetrics {
    gauges: Vec<GaugeSlot>,
}

/// Whether one of `gauges` belongs to the metric named `name`.
pub open spec fn has_metric(gauges: Seq<GaugeView>, name: Seq<char>) -> bool {
    exists|i: int| 0 <= i < gauges.len() && (#[trigger] gauges[i]).metric.name == name
}

/// Whether no metric occurs twice.
pub open spec fn distinct_metrics(gauges: Seq<GaugeView>) -> bool {
    forall|i: int, j: int|
        0 <= i < j < gauges.len() ==> (#[trigger] gauges[i]).metric.name != (#[trigger] gauges[j]).metric.name
}

/// The gauges once `metric` is among them; a new gauge is zero.
pub open spec fn with_metric(gauges: Seq<GaugeView>, metric: MetricView) -> Seq<GaugeView> {
    if has_metric(gauges, metric.name) {
        gauges
    } else {
        gauges.push(GaugeView { metric, value: 0 })
    }
}

/// The gauges once all of `metrics` are among them.
pub open spec fn with_metrics(gauges: Seq<GaugeView>, metrics: Seq<MetricDef>) -> Seq<GaugeView>
    decreases metrics.len(),
{
    if metrics.len() == 0 {
        gauges
    } else {
        with_metric(with_metrics(gauges, metrics.drop_last()), metrics.last()@)
    }
}

/// The gauges once the one of `metric` has `value`.
pub open spec fn with_value(gauges: Seq<GaugeView>, metric: MetricView, value: u64) -> Seq<GaugeView> {
    let all = with_metric(gauges, metric);
    Seq::new(
        all.len(),
        |i: int|
            if all[i].metric.name == metric.name {
                GaugeView { metric: all[i].metric, value }
            } else {
                all[i]
            },
    )
}

/// The gauges once each of `values` was copied, in order.
pub open spec fn with_values(gauges: Seq<GaugeView>, values: Seq<GaugeView>) -> Seq<GaugeView>
    decreases values.len(),
{
    if values.len() == 0 {
        gauges
    } else {
        with_value(with_values(gauges, values.drop_last()), values.last().metric, values.last().value)
    }
}

impl View for ExecutorMetrics {
    type V = Seq<GaugeView>;

    closed spec fn view(&self) -> Seq<GaugeView> {
        self.gauges@.map_values(|slot: GaugeSlot| slot@)
    }
}

impl Default for ExecutorMetrics {
    fn default() -> (metrics: Self)
        ensures
            metrics@ == Seq::<GaugeView>::empty(),
            metrics.wf(),
    {
        let metrics = ExecutorMetrics { gauges: Vec::new() };
        assert(metrics@ =~= Seq::<GaugeView>::empty());
        metrics
    }
}

impl ExecutorMetrics {
    /// No metric has two gauges.
    pub open spec fn wf(self) -> bool {
        distinct_metrics(self@)
    }

    /// The number of gauges.
    pub fn len(&self) -> (len: usize)
        ensures
            len == self@.len(),
    {
        self.gauges.len()
    }

    /// The slot of a metric's gauge.
    fn find(&self, metric: &MetricDef) -> (slot: Option<usize>)
        ensures
            match slot {
                Some(slot) => slot < self@.len() && self@[slot as int].metric.name == metric@.name,
                None => !has_metric(self@, metric@.name),
            },
    {
        let mut i: usize = 0;
        while i < self.gauges.len()
            invariant
                i <= self.gauges@.len(),
                forall|j: int| 0 <= j < i ==> (#[trigger] self@[j]).metric.name != metric@.name,
            decreases self.gauges@.len() - i,
        {
            if self.gauges[i].metric.same_metric(metric) {
                return Some(i);
            }
            i += 1;
        }
        None
    }

    /// The gauge of a metric, made if there is none.
    fn ensure_gauge(&mut self, metric: &MetricDef) -> (gauge: Gauge)
        requires
            old(self).wf(),
        ensures
            final(self).wf(),
            final(self)@ == with_metric(old(self)@, metric@),
            gauge.slot < final(self)@.len(),
            final(self)@[gauge.slot as int].metric.name == metric@.name,
    {
        match self.find(metric) {
            Some(slot) => {
                assert(has_metric(self@, metric@.name));
                Gauge { slot }
            },
            None => {
                let slot: usize = self.gauges.len();
                let ghost before = self@;
                self.gauges.push(GaugeSlot { metric: *metric, value: 0 });
                assert(self@ =~= before.push(GaugeView { metric: metric@, value: 0 }));
                Gauge { slot }
            },
        }
    }

    /// A set of zero gauges, one for each metric.
    pub fn with_metric_defs(metric_defs: &Vec<MetricDef>) -> (metrics: Self)
        ensures
            metrics.wf(),
            metrics@ == with_metrics(Seq::empty(), metric_defs@),
    {
        let mut metrics = ExecutorMetrics::default();
        metrics.add_metric_defs(metric_defs);
        metrics
    }

    /// Adds a zero gauge for each metric that has none.
    pub fn add_metric_defs(&mut self, metric_defs: &Vec<MetricDef>)
        requires
            old(self).wf(),
        ensures
            final(self).wf(),
            final(self)@ == with_metrics(old(self)@, metric_defs@),
    {
        let ghost before = self@;
        let mut i: usize = 0;
        while i < metric_defs.len()
            invariant
                self.wf(),
                i <= metric_defs@.len(),
                self@ == with_metrics(before, metric_defs@.take(i as int)),
            decreases metric_defs@.len() - i,
        {
            self.ensure_gauge(&metric_defs[i]);
            assert(metric_defs@.take(i + 1).drop_last() =~= metric_defs@.take(i as int));
            i += 1;
        }
        assert(metric_defs@.take(metric_defs@.len() as int) =~= metric_defs@);
    }

    /// The gauge of a metric that was added before.
    pub fn gauge(&self, metric: &MetricDef) -> (gauge: Gauge)
        requires
            has_metric(self@, metric@.name),
        ensures
            gauge.slot < self@.len(),
            self@[gauge.slot as int].metric.name == metric@.name,
    {
        match self.find(metric) {
            Some(slot) => Gauge { slot },
            None => Gauge { slot: 0 },
        }
    }

    /// The gauge of a metric that was added before.
    pub fn handle(&self, metric: &MetricDef) -> (gauge: Gauge)
        requires
            has_metric(self@, metric@.name),
        ensures
            gauge.slot < self@.len(),
            self@[gauge.slot as int].metric.name == metric@.name,
    {
        self.gauge(metric)
    }

    /// The value of a gauge.
    pub fn value(&self, gauge: Gauge) -> (value: u64)
        requires
            gauge.slot < self@.len(),
        ensures
            value == self@[gauge.slot as int].value,
    {
        self.gauges[gauge.slot].value
    }

    /// Gives a gauge a value.
    pub fn set(&mut self, gauge: Gauge, value: u64)
        requires
            gauge.slot < old(self)@.len(),
        ensures
            final(self)@ == old(self)@.update(
                gauge.slot as int,
                GaugeView { metric: old(self)@[gauge.slot as int].metric, value },
            ),
            old(self).wf() ==> final(self).wf(),
    {
        let ghost before = self@;
        let metric: MetricDef = self.gauges[gauge.slot].metric;
        self.gauges.set(gauge.slot, GaugeSlot { metric, value });
        assert(self@ =~= before.update(gauge.slot as int, GaugeView { metric: metric@, value }));
    }

    /// Adds to a gauge, modulo the range of 64-bit numbers.
    pub fn add_value(&mut self, gauge: Gauge, amount: u64)
        requires
            gauge.slot < old(self)@.len(),
        ensures
            final(self)@ == old(self)@.update(
                gauge.slot as int,
                GaugeView {
                    metric: old(self)@[gauge.slot as int].metric,
                    value: ((old(self)@[gauge.slot as int].value + amount) % 0x1_0000_0000_0000_0000) as u64,
                },
            ),
            old(self).wf() ==> final(self).wf(),
    {
        let value: u64 = self.value(gauge).wrapping_add(amount);
        self.set(gauge, value);
    }

    /// The value of a metric's gauge, or zero if it has none.
    pub fn get(&self, metric: &MetricDef) -> (value: u64)
        requires
            self.wf(),
        ensures
            has_metric(self@, metric@.name) ==> exists|i: int|
                0 <= i < self@.len() && (#[trigger] self@[i]).metric.name == metric@.name && value
                    == self@[i].value,
            !has_metric(self@, metric@.name) ==> value == 0,
    {
        match self.find(metric) {
            Some(slot) => self.gauges[slot].value,
            None => 0,
        }
    }

    /// The gauges and their values now.
    pub fn snapshot(&self) -> (slots: Vec<GaugeSlot>)
        ensures
            slots@.map_values(|slot: GaugeSlot| slot@) == self@,
    {
        let mut slots: Vec<GaugeSlot> = Vec::new();
        let mut i: usize = 0;
        while i < self.gauges.len()
            invariant
                i <= self.gauges@.len(),
                slots@ == self.gauges@.take(i as int),
            decreases self.gauges@.len() - i,
        {
            slots.push(self.gauges[i]);
            assert(self.gauges@.take(i + 1) =~= self.gauges@.take(i as int).push(self.gauges@[i as int]));
            i += 1;
        }
        assert(slots@ =~= self.gauges@);
        slots
    }

    /// Gauges of their own with the values of these.
    pub fn duplicate(&self) -> (metrics: Self)
        requires
            self.wf(),
        ensures
            metrics.wf(),
            metrics@ == self@,
    {
        let gauges: Vec<GaugeSlot> = self.snapshot();
        ExecutorMetrics { gauges }
    }

    /// Takes over the values of `other`, with a gauge for each of its metrics.
    pub fn copy_values_from(&mut self, other: &ExecutorMetrics)
        requires
            old(self).wf(),
        ensures
            final(self).wf(),
            final(self)@ == with_values(old(self)@, other@),
    {
        let ghost before = self@;
        let mut i: usize = 0;
        while i < other.gauges.len()
            invariant
                self.wf(),
                i <= other.gauges@.len(),
                self@ == with_values(before, other@.take(i as int)),
            decreases other.gauges@.len() - i,
        {
            let slot: GaugeSlot = other.gauges[i];
            let gauge: Gauge = self.ensure_gauge(&slot.metric);
            let ghost all = self@;
            self.set(gauge, slot.value);
            proof {
                assert(other@.take(i + 1).drop_last() =~= other@.take(i as int));
                assert(other@.take(i + 1).last() == slot@);
                let reached = with_values(before, other@.take(i as int));
                assert(self@ =~= with_value(reached, slot@.metric, slot.value)) by {
                    assert(all == with_metric(reached, slot@.metric));
                    assert(distinct_metrics(all));
                }
            }
            i += 1;
        }
        assert(other@.take(other@.len() as int) =~= other@);
    }

    /// The name, value, and description of each gauge.
    pub fn iter_with_descriptions(&self) -> (rows: Vec<(&'static str, u64, &'static str)>)
        ensures
            rows@.len() == self@.len(),
            forall|i: int| #![trigger rows@[i]]
                0 <= i < rows@.len() ==> rows@[i].0@ == self@[i].metric.name && rows@[i].1 == self@[i].value
                    && rows@[i].2@ == self@[i].metric.help,
    {
        let mut rows: Vec<(&'static str, u64, &'static str)> = Vec::new();
        let mut i: usize = 0;
        while i < self.gauges.len()
            invariant
                i <= self.gauges@.len(),
                rows@.len() == i,
                forall|j: int| #![trigger rows@[j]]
                    0 <= j < i ==> rows@[j].0@ == self@[j].metric.name && rows@[j].1 == self@[j].value
                        && rows@[j].2@ == self@[j].metric.help,
            decreases self.gauges@.len() - i,
        {
            let slot: GaugeSlot = self.gauges[i];
            rows.push((slot.metric.name, slot.value, slot.metric.help));
            i += 1;
        }
        rows
    }
}

/// A gauge keeps its slot and its metric when metrics are added or values are copied.
pub proof fn law_gauges_keep_their_slots(gauges: Seq<GaugeView>, values: Seq<GaugeView>, slot: int)
    requires
        0 <= slot < gauges.len(),
    ensures
        slot < with_values(gauges, values).len(),
        with_values(gauges, values)[slot].metric == gauges[slot].metric,
    decreases values.len(),
{
    if values.len() > 0 {
        law_gauges_keep_their_slots(gauges, values.drop_last(), slot);
    }
}

/// After a copy every copied metric has the copied value.
pub proof fn law_copied_values_are_read_back(gauges: Seq<GaugeView>, values: Seq<GaugeView>, row: int, slot: int)
    requires
        distinct_metrics(values),
        0 <= row < values.len(),
        0 <= slot < with_values(gauges, values).len(),
        with_values(gauges, values)[slot].metric.name == values[row].metric.name,
    ensures
        with_values(gauges, values)[slot].value == values[row].value,
    decreases values.len(),
{
    let earlier = with_values(gauges, values.drop_last());
    let last = values.last();
    let all = with_metric(earlier, last.metric);
    let after = with_value(earlier, last.metric, last.value);
    assert(with_values(gauges, values) == after);
    assert(after[slot].metric == all[slot].metric);
    if row < values.len() - 1 {
        assert(values[row].metric.name != last.metric.name);
        assert(values.drop_last()[row] == values[row]);
        assert(slot < earlier.len());
        assert(all[slot] == earlier[slot]);
        law_copied_values_are_read_back(gauges, values.drop_last(), row, slot);
    }
}

/// The gauges of several executors.
pub struct ExecutorMetricsChain<'a> {
    parts: Vec<&'a ExecutorMetrics>,
}

/// The gauges of `parts`, one part after the other.
pub open spec fn joined(parts: Seq<Seq<GaugeView>>) -> Seq<GaugeView>
    decreases parts.len(),
{
    if parts.len() == 0 {
        Seq::empty()
    } else {
        joined(parts.drop_last()) + parts.last()
    }
}

/// The first gauge of each metric, in order.
pub open spec fn first_of_each(gauges: Seq<GaugeView>) -> Seq<GaugeView>
    decreases gauges.len(),
{
    if gauges.len() == 0 {
        Seq::empty()
    } else {
        let earlier = first_of_each(gauges.drop_last());
        if has_metric(earlier, gauges.last().metric.name) {
            earlier
        } else {
            earlier.push(gauges.last())
        }
    }
}

impl<'a> View for ExecutorMetricsChain<'a> {
    type V = Seq<Seq<GaugeView>>;

    closed spec fn view(&self) -> Seq<Seq<GaugeView>> {
        self.parts@.map_values(|metrics: &'a ExecutorMetrics| metrics@)
    }
}

/// Whether `slot` belongs to the same metric as one of `slots`.
fn seen_metric(slots: &Vec<GaugeSlot>, metric: &MetricDef) -> (seen: bool)
    ensures
        seen == has_metric(slots@.map_values(|slot: GaugeSlot| slot@), metric@.name),
{
    let ghost views = slots@.map_values(|slot: GaugeSlot| slot@);
    let mut i: usize = 0;
    while i < slots.len()
        invariant
            i <= slots@.len(),
            views == slots@.map_values(|slot: GaugeSlot| slot@),
            forall|j: int| 0 <= j < i ==> (#[trigger] views[j]).metric.name != metric@.name,
        decreases slots@.len() - i,
    {
        if slots[i].metric.same_metric(metric) {
            assert(views[i as int].metric.name == metric@.name);
            return true;
        }
        i += 1;
    }
    false
}

impl<'a> ExecutorMetricsChain<'a> {
    pub fn new() -> (chain: Self)
        ensures
            chain@ == Seq::<Seq<GaugeView>>::empty(),
    {
        let chain = ExecutorMetricsChain { parts: Vec::new() };
        assert(chain@ =~= Seq::<Seq<GaugeView>>::empty());
        chain
    }

    pub fn push(self, metrics: &'a ExecutorMetrics) -> (chain: Self)
        ensures
            chain@ == self@.push(metrics@),
    {
        let mut parts = self.parts;
        parts.push(metrics);
        let chain = ExecutorMetricsChain { parts };
        assert(chain@ =~= self@.push(metrics@));
        chain
    }

    pub fn chain(self, metrics: ExecutorMetricsChain<'a>) -> (chain: Self)
        ensures
            chain@ == self@ + metrics@,
    {
        let mut parts = self.parts;
        let ghost before = parts@;
        let mut i: usize = 0;
        while i < metrics.parts.len()
            invariant
                i <= metrics.parts@.len(),
                parts@ == before + metrics.parts@.take(i as int),
            decreases metrics.parts@.len() - i,
        {
            let part: &'a ExecutorMetrics = metrics.parts[i];
            parts.push(part);
            assert(metrics.parts@.take(i + 1) =~= metrics.parts@.take(i as int).push(
                metrics.parts@[i as int],
            ));
            i += 1;
        }
        assert(metrics.parts@.take(metrics.parts@.len() as int) =~= metrics.parts@);
        let chain = ExecutorMetricsChain { parts };
        assert(chain@ =~= self@ + metrics@);
        chain
    }

    /// The gauges of the chain; of two gauges of one metric, the first.
    pub fn metric_handles(&self) -> (slots: Vec<GaugeSlot>)
        ensures
            slots@.map_values(|slot: GaugeSlot| slot@) == first_of_each(joined(self@)),
    {
        let mut slots: Vec<GaugeSlot> = Vec::new();
        let mut i: usize = 0;
        assert(slots@.map_values(|slot: GaugeSlot| slot@) =~= first_of_each(Seq::empty()));
        assert(self@.take(0) =~= Seq::empty());
        while i < self.parts.len()
            invariant
                i <= self.parts@.len(),
                slots@.map_values(|slot: GaugeSlot| slot@) == first_of_each(joined(self@.take(i as int))),
            decreases self.parts@.len() - i,
        {
            let part: &'a ExecutorMetrics = self.parts[i];
            let ghost earlier = joined(self@.take(i as int));
            let mut k: usize = 0;
            assert(earlier + part@.take(0) =~= earlier);
            while k < part.gauges.len()
                invariant
                    k <= part.gauges@.len(),
                    slots@.map_values(|slot: GaugeSlot| slot@) == first_of_each(
                        earlier + part@.take(k as int),
                    ),
                decreases part.gauges@.len() - k,
            {
                let slot: GaugeSlot = part.gauges[k];
                let ghost before = slots@;
                proof {
                    let reached = earlier + part@.take(k + 1);
                    assert(reached.drop_last() =~= earlier + part@.take(k as int));
                    assert(reached.last() == slot@);
                }
                if !seen_metric(&slots, &slot.metric) {
                    slots.push(slot);
                    assert(slots@.map_values(|slot: GaugeSlot| slot@) =~= before.map_values(
                        |slot: GaugeSlot| slot@,
                    ).push(slot@));
                }
                k += 1;
            }
            proof {
                assert(part@.take(part@.len() as int) =~= part@);
                assert(self@.take(i + 1).drop_last() =~= self@.take(i as int));
                assert(self@.take(i + 1).last() == part@);
            }
            i += 1;
        }
        assert(self@.take(self@.len() as int) =~= self@);
        slots
    }

    /// The name, value, and description of each gauge of the chain.
    pub fn into_inner(self) -> (rows: Vec<(&'static str, u64, &'static str)>)
        ensures
            rows@.len() == first_of_each(joined(self@)).len(),
            forall|i: int| #![trigger rows@[i]]
                0 <= i < rows@.len() ==> {
                    let gauge = first_of_each(joined(self@))[i];
                    rows@[i].0@ == gauge.metric.name && rows@[i].1 == gauge.value && rows@[i].2@
                        == gauge.metric.help
                },
    {
        let gauges: Vec<GaugeSlot> = self.metric_handles();
        let metrics = ExecutorMetrics { gauges };
        metrics.iter_with_descriptions()
    }
}

/// A chain reports no metric twice.
pub proof fn law_chain_reports_each_metric_once(gauges: Seq<GaugeView>)
    ensures
        distinct_metrics(first_of_each(gauges)),
        forall|i: int| 0 <= i < gauges.len() ==> has_metric(
            first_of_each(gauges),
            (#[trigger] gauges[i]).metric.name,
        ),
    decreases gauges.len(),
{
    if gauges.len() > 0 {
        let front = gauges.drop_last();
        let earlier = first_of_each(front);
        law_chain_reports_each_metric_once(front);
        assert forall|i: int| 0 <= i < gauges.len() implies has_metric(
            first_of_each(gauges),
            (#[trigger] gauges[i]).metric.name,
        ) by {
            let name = gauges[i].metric.name;
            if i < gauges.len() - 1 {
                assert(front[i] == gauges[i]);
                assert(has_metric(earlier, name));
                let k = choose|k: int| 0 <= k < earlier.len() && (#[trigger] earlier[k]).metric.name == name;
                assert(first_of_each(gauges)[k] == earlier[k]);
            } else if !has_metric(earlier, name) {
                assert(first_of_each(gauges)[earlier.len() as int].metric.name == name);
            }
        }
    }
}

/// Adding metrics gives each of them a gauge, keeps the gauges that are there with
/// their values, and starts every new gauge at zero.
pub proof fn law_added_metrics_start_at_zero(gauges: Seq<GaugeView>, metrics: Seq<MetricDef>, i: int)
    ensures
        with_metrics(gauges, metrics).len() >= gauges.len(),
        with_metrics(gauges, metrics).len() <= gauges.len() + metrics.len(),
        0 <= i < gauges.len() ==> with_metrics(gauges, metrics)[i] == gauges[i],
        gauges.len() <= i < with_metrics(gauges, metrics).len() ==> with_metrics(
            gauges,
            metrics,
        )[i].value == 0,
        0 <= i < metrics.len() ==> has_metric(with_metrics(gauges, metrics), metrics[i]@.name),
    decreases metrics.len(),
{
    if metrics.len() > 0 {
        let fewer = metrics.drop_last();
        let earlier = with_metrics(gauges, fewer);
        let all = with_metrics(gauges, metrics);
        let name = metrics.last()@.name;
        law_added_metrics_start_at_zero(gauges, fewer, i);
        if 0 <= i < fewer.len() {
            assert(fewer[i] == metrics[i]);
            let k = choose|k: int|
                0 <= k < earlier.len() && (#[trigger] earlier[k]).metric.name == metrics[i]@.name;
            assert(all[k] == earlier[k]);
        } else if i == fewer.len() {
            assert(metrics[i] == metrics.last());
            if !has_metric(earlier, name) {
                assert(all[earlier.len() as int].metric.name == name);
            }
        }
    }
}

/// Copying a value gives its metric a gauge with that value and leaves the gauges of
/// other metrics as they are.
pub proof fn law_copied_value_spares_other_metrics(
    gauges: Seq<GaugeView>,
    metric: MetricView,
    value: u64,
    i: int,
)
    ensures
        has_metric(with_value(gauges, metric, value), metric.name),
        with_value(gauges, metric, value).len() >= gauges.len(),
        with_value(gauges, metric, value).len() <= gauges.len() + 1,
        0 <= i < gauges.len() && gauges[i].metric.name != metric.name ==> with_value(
            gauges,
            metric,
            value,
        )[i] == gauges[i],
        0 <= i < gauges.len() && gauges[i].metric.name == metric.name ==> with_value(
            gauges,
            metric,
            value,
        )[i] == (GaugeView { metric: gauges[i].metric, value }),
        gauges.len() <= i < with_value(gauges, metric, value).len() ==> with_value(
            gauges,
            metric,
            value,
        )[i] == (GaugeView { metric, value }),
{
    let all = with_metric(gauges, metric);
    let after = with_value(gauges, metric, value);
    if has_metric(gauges, metric.name) {
        let k = choose|k: int| 0 <= k < gauges.len() && (#[trigger] gauges[k]).metric.name
            == metric.name;
        assert(after[k].metric.name == metric.name);
    } else {
        assert(after[gauges.len() as int].metric.name == metric.name);
    }
}

/// An exported name has the characters of the metric's name in their order, each that
/// is no letter, digit, underscore or colon as an underscore, and an underscore in
/// front of a digit.
pub proof fn law_exported_name_follows_the_name(name: Seq<char>, i: int)
    requires
        0 <= i < name.len(),
    ensures
        ({
            let exported = exported_name(name);
            let shift: int = if '0' <= name[0] <= '9' {
                1
            } else {
                0
            };
            let plain = ('a' <= name[i] <= 'z') || ('A' <= name[i] <= 'Z') || ('0' <= name[i] <= '9')
                || name[i] == '_' || name[i] == ':';
            &&& exported.len() == name.len() + shift
            &&& shift == 1 ==> exported[0] == '_'
            &&& plain ==> exported[i + shift] == name[i]
            &&& !plain ==> exported[i + shift] == '_'
        }),
{
}

/// A chain reports the first gauge of each metric: one that has no gauge of its metric
/// in front of it.
pub proof fn law_chain_reports_the_first_gauge(gauges: Seq<GaugeView>, i: int)
    requires
        0 <= i < gauges.len(),
        forall|j: int| 0 <= j < i ==> (#[trigger] gauges[j]).metric.name != gauges[i].metric.name,
    ensures
        first_of_each(gauges).contains(gauges[i]),
    decreases gauges.len(),
{
    let front = gauges.drop_last();
    let earlier = first_of_each(front);
    if i < front.len() {
        assert(front[i] == gauges[i]);
        assert forall|j: int| 0 <= j < i implies (#[trigger] front[j]).metric.name
            != front[i].metric.name by {
            assert(front[j] == gauges[j]);
        }
        law_chain_reports_the_first_gauge(front, i);
        let k = choose|k: int| 0 <= k < earlier.len() && earlier[k] == gauges[i];
        assert(first_of_each(gauges)[k] == gauges[i]);
    } else {
        assert(gauges[i] == gauges.last());
        if has_metric(earlier, gauges[i].metric.name) {
            let k = choose|k: int|
                0 <= k < earlier.len() && (#[trigger] earlier[k]).metric.name
                    == gauges[i].metric.name;
            lemma_reported_gauge_is_there(front, k);
            let j = choose|j: int| 0 <= j < front.len() && front[j] == earlier[k];
            assert(front[j] == gauges[j]);
        } else {
            assert(first_of_each(gauges)[earlier.len() as int] == gauges[i]);
        }
    }
}

proof fn lemma_reported_gauge_is_there(gauges: Seq<GaugeView>, k: int)
    requires
        0 <= k < first_of_each(gauges).len(),
    ensures
        gauges.contains(first_of_each(gauges)[k]),
    decreases gauges.len(),
{
    if gauges.len() > 0 {
        let front = gauges.drop_last();
        let earlier = first_of_each(front);
        if k < earlier.len() {
            lemma_reported_gauge_is_there(front, k);
            let j = choose|j: int| 0 <= j < front.len() && front[j] == earlier[k];
            assert(gauges[j] == earlier[k]);
        } else {
            assert(gauges[gauges.len() - 1] == first_of_each(gauges)[k]);
        }
    }
}

/// The gauges of a chain are those of every part of it.
pub proof fn law_chain_holds_every_part(parts: Seq<Seq<GaugeView>>, p: int, i: int)
    requires
        0 <= p < parts.len(),
        0 <= i < parts[p].len(),
    ensures
        joined(parts).contains(parts[p][i]),
    decreases parts.len(),
{
    let front = parts.drop_last();
    let earlier = joined(front);
    if p < front.len() {
        assert(front[p] == parts[p]);
        law_chain_holds_every_part(front, p, i);
        let k = choose|k: int| 0 <= k < earlier.len() && earlier[k] == parts[p][i];
        assert(joined(parts)[k] == parts[p][i]);
    } else {
        assert(parts[p] == parts.last());
        assert(joined(parts)[earlier.len() + i] == parts[p][i]);
    }
}

} // verus!
