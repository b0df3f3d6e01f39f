//! Latency percentiles.

use hdrhistogram::Histogram as HdrHistogram;
use vstd::multiset::Multiset;
use vstd::prelude::*;

verus! {

/// A `hdrhistogram::Histogram` of 64-bit counts.
#[verifier::external_body]
pub struct Samples {
    histogram: HdrHistogram<u64>,
}

/// Why a histogram cannot be made.
#[verifier::external_type_specification]
#[verifier::external_body]
pub struct ExCreationError(hdrhistogram::CreationError);

/// Why a sample cannot be recorded.
#[verifier::external_type_specification]
#[verifier::external_body]
pub struct ExRecordError(hdrhistogram::RecordError);

/// The samples that a histogram holds.
pub uninterp spec fn histogram_samples(samples: Samples) -> Multiset<u64>;

/// The smallest sample that a histogram tells from zero.
pub uninterp spec fn histogram_low(samples: Samples) -> u64;

/// The largest sample that a histogram was made for.
pub uninterp spec fn histogram_high(samples: Samples) -> u64;

/// The significant decimal digits that a histogram was made for.
pub uninterp spec fn histogram_digits(samples: Samples) -> u8;

/// The value at a percentile of `samples`, in a histogram made for samples from
/// `low` up to `high` with `digits` significant digits.
pub uninterp spec fn histogram_percentile(
    samples: Multiset<u64>,
    low: u64,
    high: u64,
    digits: u8,
    percentile: u8,
) -> u64;

/// Calls `hdrhistogram::Histogram::new_with_bounds`. Claims that it takes only a
/// positive lower bound, an upper bound of at least twice that, and at most 5
/// digits, that with the lower bound 1 it refuses nothing else, and that it gives
/// an empty histogram.
#[verifier::external_body]
fn new_histogram(low: u64, high: u64, digits: u8) -> (result: Result<
    Samples,
    hdrhistogram::CreationError,
>)
    ensures
        match result {
            Ok(samples) => {
                &&& low >= 1 && high >= 2 * low && digits <= 5
                &&& histogram_samples(samples) == Multiset::<u64>::empty()
                &&& histogram_low(samples) == low
                &&& histogram_high(samples) == high
                &&& histogram_digits(samples) == digits
            },
            Err(_) => low == 1 ==> high < 2 || digits > 5,
        },
{
    Ok(Samples { histogram: HdrHistogram::new_with_bounds(low, high, digits)? })
}

/// Calls `hdrhistogram::Histogram::record`. Claims that a sample up to the upper
/// bound is always taken, that a taken sample joins the others, and that a
/// refused one changes nothing. Whether a sample above the bound is taken
/// depends on the rounding of the histogram's last bucket.
#[verifier::external_body]
fn record_sample(samples: &mut Samples, value: u64) -> (result: Result<
    (),
    hdrhistogram::RecordError,
>)
    ensures
        value <= histogram_high(*old(samples)) ==> result is Ok,
        histogram_samples(*final(samples)) == (if result is Ok {
            histogram_samples(*old(samples)).insert(value)
        } else {
            histogram_samples(*old(samples))
        }),
        histogram_low(*final(samples)) == histogram_low(*old(samples)),
        histogram_high(*final(samples)) == histogram_high(*old(samples)),
        histogram_digits(*final(samples)) == histogram_digits(*old(samples)),
{
    samples.histogram.record(value)
}

/// Calls `hdrhistogram::Histogram::value_at_percentile`. Claims that the value
/// depends on the samples, the bounds, the digits, and the percentile alone,
/// named [`histogram_percentile`]. More samples than a 64-bit number can count
/// are left out.
#[verifier::external_body]
fn percentile_value(samples: &Samples, percentile: u8) -> (value: u64)
    requires
        histogram_samples(*samples).len() <= u64::MAX,
    ensures
        value == histogram_percentile(
            histogram_samples(*samples),
            histogram_low(*samples),
            histogram_high(*samples),
            histogram_digits(*samples),
            percentile,
        ),
{
    samples.histogram.value_at_percentile(percentile.into())
}

/// Calls `hdrhistogram::Histogram::len`. Claims that it counts the samples, up
/// to the largest 64-bit number.
#[verifier::external_body]
fn sample_count(samples: &Samples) -> (count: u64)
    ensures
        count == (if histogram_samples(*samples).len() <= u64::MAX {
            histogram_samples(*samples).len()
        } else {
            u64::MAX as nat
        }),
{
    samples.histogram.len()
}

/// Calls `hdrhistogram::Histogram::clear`. Claims that it drops every sample and
/// keeps the bounds and the digits.
#[verifier::external_body]
fn clear_samples(samples: &mut Samples)
    ensures
        histogram_samples(*final(samples)) == Multiset::<u64>::empty(),
        histogram_low(*final(samples)) == histogram_low(*old(samples)),
        histogram_high(*final(samples)) == histogram_high(*old(samples)),
        histogram_digits(*final(samples)) == histogram_digits(*old(samples)),
{
    samples.histogram.clear()
}

/// A histogram cannot be made with these bounds.
#[derive(Clone, Copy, Debug, PartialEq, Eq, Structural)]
pub struct HistogramBoundsError;

/// A sample is too large for a histogram.
#[derive(Clone, Copy, Debug, PartialEq, Eq, Structural)]
pub struct SampleOutOfRange;

/// Samples of a latency, for percentiles.
pub struct Histogram {
    samples: Samples,
}

impl View for Histogram {
    type V = Multiset<u64>;

    closed spec fn view(&self) -> Multiset<u64> {
        histogram_samples(self.samples)
    }
}

impl Histogram {
    /// The smallest sample that is told from zero.
    pub closed spec fn low(self) -> u64 {
        histogram_low(self.samples)
    }

    /// The largest sample that is sure to be taken.
    pub closed spec fn high(self) -> u64 {
        histogram_high(self.samples)
    }

    /// The significant digits of a percentile.
    pub closed spec fn digits(self) -> u8 {
        histogram_digits(self.samples)
    }

    /// The value at a percentile.
    pub open spec fn percentile(self, percentile: u8) -> u64 {
        histogram_percentile(self@, self.low(), self.high(), self.digits(), percentile)
    }

    /// An empty histogram for samples up to `high`.
    pub fn new(high: u64, sigfig: u8) -> (result: Result<Self, HistogramBoundsError>)
        ensures
            result is Ok <==> high >= 2 && sigfig <= 5,
            result matches Ok(histogram) ==> histogram@ == Multiset::<u64>::empty()
                && histogram.low() == 1 && histogram.high() == high && histogram.digits() == sigfig,
    {
        match new_histogram(1, high, sigfig) {
            Ok(samples) => Ok(Histogram { samples }),
            Err(_) => Err(HistogramBoundsError),
        }
    }

    /// Adds a sample. Whether one above the bound is taken depends on the
    /// rounding of the last bucket.
    pub fn record(&mut self, value: u64) -> (result: Result<(), SampleOutOfRange>)
        ensures
            value <= old(self).high() ==> result is Ok,
            final(self)@ == (if result is Ok {
                old(self)@.insert(value)
            } else {
                old(self)@
            }),
            final(self).low() == old(self).low(),
            final(self).high() == old(self).high(),
            final(self).digits() == old(self).digits(),
    {
        match record_sample(&mut self.samples, value) {
            Ok(()) => Ok(()),
            Err(_) => Err(SampleOutOfRange),
        }
    }

    pub fn p50(&self) -> (value: u64)
        requires
            self@.len() <= u64::MAX,
        ensures
            value == self.percentile(50),
    {
        percentile_value(&self.samples, 50)
    }

    pub fn p90(&self) -> (value: u64)
        requires
            self@.len() <= u64::MAX,
        ensures
            value == self.percentile(90),
    {
        percentile_value(&self.samples, 90)
    }

    pub fn p99(&self) -> (value: u64)
        requires
            self@.len() <= u64::MAX,
        ensures
            value == self.percentile(99),
    {
        percentile_value(&self.samples, 99)
    }

    /// The number of samples, up to the largest 64-bit number.
    pub fn count(&self) -> (count: u64)
        ensures
            count == (if self@.len() <= u64::MAX {
                self@.len()
            } else {
                u64::MAX as nat
            }),
    {
        sample_count(&self.samples)
    }

    /// Drops every sample.
    pub fn clear(&mut self)
        ensures
            final(self)@ == Multiset::<u64>::empty(),
            final(self).low() == old(self).low(),
            final(self).high() == old(self).high(),
            final(self).digits() == old(self).digits(),
    {
        clear_samples(&mut self.samples)
    }
}

/// A percentile is that of all samples, in the bounds and with the digits of the
/// histogram.
pub proof fn law_percentile_is_of_every_sample(left: Histogram, right: Histogram, percentile: u8)
    requires
        left@ == right@,
        left.low() == right.low(),
        left.high() == right.high(),
        left.digits() == right.digits(),
    ensures
        left.percentile(percentile) == right.percentile(percentile),
        left.percentile(percentile) == histogram_percentile(
            left@,
            right.low(),
            right.high(),
            right.digits(),
            percentile,
        ),
{
}

} // verus!
