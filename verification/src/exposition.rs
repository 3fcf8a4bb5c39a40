//! Metric families and their text for Prometheus, by the `prometheus` crate.

use crate::text::texts;
use prometheus::{Encoder, IntCounterVec, IntGaugeVec, Opts, Registry, TextEncoder};
use vstd::prelude::*;

verus! {

/// A counter's label values and count.
#[derive(Debug)]
pub struct CounterSample {
    pub labels: Vec<String>,
    pub count: u64,
}

/// A named counter with labels.
#[derive(Debug)]
pub struct CounterFamily {
    pub name: String,
    pub help: String,
    pub labels: Vec<String>,
    pub samples: Vec<CounterSample>,
}

/// A gauge's label values and level.
#[derive(Debug)]
pub struct GaugeSample {
    pub labels: Vec<String>,
    pub level: i64,
}

/// A named gauge with labels.
#[derive(Debug)]
pub struct GaugeFamily {
    pub name: String,
    pub help: String,
    pub labels: Vec<String>,
    pub samples: Vec<GaugeSample>,
}

/// A metric family as plain values: what it is, its name and help text, the
/// names of its labels, and its samples as label values and a number.
#[verifier::ext_equal]
pub struct FamilyModel {
    pub counts: bool,
    pub name: Seq<char>,
    pub help: Seq<char>,
    pub labels: Seq<Seq<char>>,
    pub samples: Seq<(Seq<Seq<char>>, int)>,
}

/// The label values and counts of counter samples.
pub open spec fn counter_samples(samples: Seq<CounterSample>) -> Seq<(Seq<Seq<char>>, int)> {
    samples.map_values(|sample: CounterSample| (texts(sample.labels@), sample.count as int))
}

/// The label values and levels of gauge samples.
pub open spec fn gauge_samples(samples: Seq<GaugeSample>) -> Seq<(Seq<Seq<char>>, int)> {
    samples.map_values(|sample: GaugeSample| (texts(sample.labels@), sample.level as int))
}

impl View for CounterFamily {
    type V = FamilyModel;

    open spec fn view(&self) -> FamilyModel {
        FamilyModel {
            counts: true,
            name: self.name@,
            help: self.help@,
            labels: texts(self.labels@),
            samples: counter_samples(self.samples@),
        }
    }
}

impl View for GaugeFamily {
    type V = FamilyModel;

    open spec fn view(&self) -> FamilyModel {
        FamilyModel {
            counts: false,
            name: self.name@,
            help: self.help@,
            labels: texts(self.labels@),
            samples: gauge_samples(self.samples@),
        }
    }
}

impl FamilyModel {
    /// Whether every sample has a value for every label.
    pub open spec fn is_consistent(self) -> bool {
        forall|i: int|
            0 <= i < self.samples.len() ==> (#[trigger] self.samples[i]).0.len()
                == self.labels.len()
    }
}

/// `prometheus::Registry`.
#[verifier::external_type_specification]
#[verifier::external_body]
pub struct ExRegistry(Registry);

/// `prometheus::Error`.
#[verifier::external_type_specification]
#[verifier::external_body]
pub struct ExError(prometheus::Error);

/// The families that were registered with a `prometheus::Registry`, in order.
pub uninterp spec fn registered(registry: Registry) -> Seq<FamilyModel>;

/// Whether a vector of metrics can be made for a family, by `IntCounterVec::new`
/// or `IntGaugeVec::new`, and `prometheus::Registry::register` then takes it,
/// where these families were registered before.
pub uninterp spec fn accepted(families: Seq<FamilyModel>, family: FamilyModel) -> bool;

/// The text that `prometheus::TextEncoder` writes for what a registry gathers
/// from the families registered with it, or nothing where it fails.
pub uninterp spec fn exposition_text(families: Seq<FamilyModel>) -> Option<Seq<u8>>;

/// `prometheus::Registry::new`: nothing is registered.
#[verifier::external_body]
fn new_registry() -> (registry: Registry)
    ensures
        registered(registry) == Seq::<FamilyModel>::empty(),
{
    Registry::new()
}

/// `prometheus::Registry::register`, of a `prometheus::IntCounterVec` that was
/// counted up to the samples: whether the family is taken depends on it and on
/// those before, and one that is taken is registered behind them. Nothing is
/// claimed of a registry that has refused a family.
#[verifier::external_body]
fn register_counters(registry: &mut Registry, family: &CounterFamily) -> (result: Result<
    (),
    prometheus::Error,
>)
    requires
        family@.is_consistent(),
    ensures
        result is Ok <==> accepted(registered(*old(registry)), family@),
        result is Ok ==> registered(*final(registry)) == registered(*old(registry)).push(family@),
{
    let names: Vec<&str> = family.labels.iter().map(|name| name.as_str()).collect();
    let options = Opts::new(family.name.as_str(), family.help.as_str());
    let counters = IntCounterVec::new(options, &names)?;
    for sample in family.samples.iter() {
        counters.with_label_values(&sample.labels).inc_by(sample.count);
    }
    registry.register(Box::new(counters))
}

/// `prometheus::Registry::register`, of a `prometheus::IntGaugeVec` that was set
/// to the samples: whether the family is taken depends on it and on those
/// before, and one that is taken is registered behind them. Nothing is claimed
/// of a registry that has refused a family.
#[verifier::external_body]
fn register_gauges(registry: &mut Registry, family: &GaugeFamily) -> (result: Result<
    (),
    prometheus::Error,
>)
    requires
        family@.is_consistent(),
    ensures
        result is Ok <==> accepted(registered(*old(registry)), family@),
        result is Ok ==> registered(*final(registry)) == registered(*old(registry)).push(family@),
{
    let names: Vec<&str> = family.labels.iter().map(|name| name.as_str()).collect();
    let options = Opts::new(family.name.as_str(), family.help.as_str());
    let gauges = IntGaugeVec::new(options, &names)?;
    for sample in family.samples.iter() {
        gauges.with_label_values(&sample.labels).set(sample.level);
    }
    registry.register(Box::new(gauges))
}

/// `prometheus::TextEncoder::encode`, of what `prometheus::Registry::gather`
/// gives: the text for the registered families, which depends on them alone.
#[verifier::external_body]
fn encode_registry(registry: &Registry) -> (result: Result<Vec<u8>, prometheus::Error>)
    ensures
        match result {
            Ok(text) => exposition_text(registered(*registry)) == Some(text@),
            Err(_) => exposition_text(registered(*registry)) is None,
        },
{
    let mut output = Vec::new();
    TextEncoder::new().encode(&registry.gather(), &mut output)?;
    Ok(output)
}

/// The models of counter families.
pub open spec fn counter_models(families: Seq<CounterFamily>) -> Seq<FamilyModel> {
    families.map_values(|family: CounterFamily| family@)
}

/// The models of gauge families.
pub open spec fn gauge_models(families: Seq<GaugeFamily>) -> Seq<FamilyModel> {
    families.map_values(|family: GaugeFamily| family@)
}

/// Whether a registry takes all families, one after the other.
pub open spec fn all_accepted(families: Seq<FamilyModel>) -> bool
    decreases families.len(),
{
    families.len() == 0 || (all_accepted(families.drop_last()) && accepted(
        families.drop_last(),
        families.last(),
    ))
}

/// The text for families, or nothing where one is refused or the encoder fails.
pub open spec fn exposed(families: Seq<FamilyModel>) -> Option<Seq<u8>> {
    if all_accepted(families) {
        exposition_text(families)
    } else {
        None
    }
}

/// Families are taken only where all before them are.
proof fn lemma_accepted_prefix(families: Seq<FamilyModel>, count: int)
    requires
        0 <= count <= families.len(),
        all_accepted(families),
    ensures
        all_accepted(families.take(count)),
    decreases families.len(),
{
    if count == families.len() {
        assert(families.take(count) =~= families);
    } else {
        lemma_accepted_prefix(families.drop_last(), count);
        assert(families.drop_last().take(count) =~= families.take(count));
    }
}

/// A family that is refused refuses the families from it on.
proof fn lemma_refused(families: Seq<FamilyModel>, count: int)
    requires
        0 <= count < families.len(),
        !accepted(families.take(count), families[count]),
    ensures
        exposed(families) is None,
{
    if all_accepted(families) {
        lemma_accepted_prefix(families, count + 1);
        assert(families.take(count + 1).drop_last() =~= families.take(count));
    }
}

/// One more family that is taken.
proof fn lemma_taken(families: Seq<FamilyModel>, count: int)
    requires
        0 <= count < families.len(),
        all_accepted(families.take(count)),
        accepted(families.take(count), families[count]),
    ensures
        all_accepted(families.take(count + 1)),
        families.take(count + 1) == families.take(count).push(families[count]),
{
    assert(families.take(count + 1).drop_last() =~= families.take(count));
    assert(families.take(count + 1) =~= families.take(count).push(families[count]));
}

/// Writes the text for counters and gauges. Any refusal by the registry or the
/// encoder is handed back.
pub fn expose(counters: &Vec<CounterFamily>, gauges: &Vec<GaugeFamily>) -> (result: Result<
    Vec<u8>,
    prometheus::Error,
>)
    requires
        forall|i: int| 0 <= i < counters@.len() ==> (#[trigger] counters@[i])@.is_consistent(),
        forall|i: int| 0 <= i < gauges@.len() ==> (#[trigger] gauges@[i])@.is_consistent(),
    ensures
        match result {
            Ok(text) => exposed(counter_models(counters@) + gauge_models(gauges@)) == Some(text@),
            Err(_) => exposed(counter_models(counters@) + gauge_models(gauges@)) is None,
        },
{
    let ghost families = counter_models(counters@) + gauge_models(gauges@);
    let mut registry: Registry = new_registry();
    let mut index: usize = 0;
    assert(families.take(0) =~= Seq::<FamilyModel>::empty());
    while index < counters.len()
        invariant
            0 <= index <= counters@.len(),
            forall|i: int| 0 <= i < counters@.len() ==> (#[trigger] counters@[i])@.is_consistent(),
            families == counter_models(counters@) + gauge_models(gauges@),
            registered(registry) == families.take(index as int),
            all_accepted(families.take(index as int)),
        decreases counters@.len() - index,
    {
        assert(families[index as int] == counters@[index as int]@);
        match register_counters(&mut registry, &counters[index]) {
            Err(error) => {
                proof {
                    lemma_refused(families, index as int);
                }
                return Err(error);
            },
            Ok(()) => {},
        }
        proof {
            lemma_taken(families, index as int);
        }
        index = index + 1;
    }
    let counted: usize = index;
    let mut index: usize = 0;
    while index < gauges.len()
        invariant
            0 <= index <= gauges@.len(),
            counted == counters@.len(),
            forall|i: int| 0 <= i < gauges@.len() ==> (#[trigger] gauges@[i])@.is_consistent(),
            families == counter_models(counters@) + gauge_models(gauges@),
            registered(registry) == families.take(counted + index),
            all_accepted(families.take(counted + index)),
        decreases gauges@.len() - index,
    {
        assert(families[counted + index] == gauges@[index as int]@);
        match register_gauges(&mut registry, &gauges[index]) {
            Err(error) => {
                proof {
                    lemma_refused(families, counted + index);
                }
                return Err(error);
            },
            Ok(()) => {},
        }
        proof {
            lemma_taken(families, counted + index);
        }
        index = index + 1;
    }
    assert(families.take(counted + index) =~= families);
    encode_registry(&registry)
}

} // verus!
