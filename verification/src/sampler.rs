//! The sampler's per-tick step: what one tick of the background sampling
//! loop decides and writes.
//!
//! On each tick the loop reads the sensor and hands the outcome here. A
//! successful reading overwrites the gauge for the fixed label set and
//! yields an informational line with the value rounded to one decimal
//! place; a failed reading changes nothing, yields an error line, and never
//! ends the loop — sensor unavailability degrades freshness, not service.

use vstd::prelude::*;

use crate::labels::LabelSet;
use crate::num::{dec_digits, digit_char, push_digit, push_u64_decimal};
use crate::read::ReadError;
use crate::shared::SharedStore;
use crate::store::{get_or_create_model, set_model, MetricStore};
use crate::value::{round_to_tenths, spec_tenths, DecValue};

verus! {

/// The informational line a successful sample emits: the reading rounded
/// to one decimal place.
pub open spec fn success_line(v: DecValue) -> Seq<char> {
    let t = spec_tenths(v.mantissa as nat, v.scale as nat);
    "CPU Temp: "@ + (if v.neg {
        seq!['-']
    } else {
        Seq::<char>::empty()
    }) + dec_digits(t / 10) + seq!['.'] + seq![digit_char(t % 10)] + " C"@
}

/// The error line a failed sample emits.
pub open spec fn failure_line(e: ReadError) -> Seq<char> {
    "Failed to read CPU temp: "@ + (match e {
        ReadError::Io => "I/O error"@,
        ReadError::Parse => "parse error"@,
    })
}

/// What one tick reports: an observation to log on standard output, or a
/// swallowed failure to log on standard error.
#[derive(Debug)]
pub enum SampleLog {
    Updated(String),
    Failed(String),
}

fn success_line_of(v: &DecValue) -> (r: String)
    ensures
        r@ == success_line(*v),
{
    let mut line = String::new();
    line.append("CPU Temp: ");
    if v.neg {
        line.append("-");
    }
    let parts = round_to_tenths(v);
    push_u64_decimal(&mut line, parts.0);
    line.append(".");
    push_digit(&mut line, parts.1);
    line.append(" C");
    proof {
        reveal_strlit("-");
        reveal_strlit(".");
        assert(line@ =~= success_line(*v));
    }
    line
}

fn failure_line_of(e: &ReadError) -> (r: String)
    ensures
        r@ == failure_line(*e),
{
    let mut line = String::new();
    line.append("Failed to read CPU temp: ");
    line.append(e.describe());
    proof {
        assert(line@ =~= failure_line(*e));
    }
    line
}

/// One sampler tick against a plain store: a successful reading is written
/// through get-or-create and set, a failure leaves the store exactly as it
/// was; either way the tick reports its log line and the loop goes on.
pub fn sample_apply(
    store: &mut MetricStore,
    labels: &LabelSet,
    outcome: Result<DecValue, ReadError>,
) -> (log: SampleLog)
    requires
        old(store).wf(),
    ensures
        final(store).wf(),
        match outcome {
            Ok(v) => {
                &&& final(store)@ == set_model(
                    get_or_create_model(old(store)@, labels@).0,
                    get_or_create_model(old(store)@, labels@).1,
                    v,
                )
                &&& log matches SampleLog::Updated(line) && line@ == success_line(v)
            },
            Err(e) => {
                &&& *final(store) == *old(store)
                &&& log matches SampleLog::Failed(line) && line@ == failure_line(e)
            },
        },
{
    match outcome {
        Ok(v) => {
            let h = store.get_or_create(labels);
            store.set(h, v);
            SampleLog::Updated(success_line_of(&v))
        },
        Err(e) => SampleLog::Failed(failure_line_of(&e)),
    }
}

/// One sampler tick against the shared store, written atomically: the
/// version the concurrent exporter runs.
pub fn sample_shared(
    store: &SharedStore,
    labels: &LabelSet,
    outcome: Result<DecValue, ReadError>,
) -> (log: SampleLog)
    ensures
        match outcome {
            Ok(v) => log matches SampleLog::Updated(line) && line@ == success_line(v),
            Err(e) => log matches SampleLog::Failed(line) && line@ == failure_line(e),
        },
{
    match outcome {
        Ok(v) => {
            store.set_labeled(labels, v);
            SampleLog::Updated(success_line_of(&v))
        },
        Err(e) => SampleLog::Failed(failure_line_of(&e)),
    }
}

} // verus!
