//! The metric store: get-or-create idempotence, last-writer-wins sets, and
//! isolation between distinct label sets.

use temp_exporter::labels::LabelSet;
use temp_exporter::read::ReadError;
use temp_exporter::sampler::{sample_apply, SampleLog};
use temp_exporter::shared::SharedStore;
use temp_exporter::store::MetricStore;
use temp_exporter::value::DecValue;

fn val(millis: u64) -> DecValue {
    DecValue {
        neg: false,
        mantissa: millis,
        scale: 3,
    }
}

#[test]
fn get_or_create_starts_at_zero() {
    let mut store = MetricStore::new();
    let labels = LabelSet::single("zone", "zone0");
    let h = store.get_or_create(&labels);
    assert_eq!(store.value_at(h), DecValue { neg: false, mantissa: 0, scale: 0 });
}

#[test]
fn get_or_create_is_idempotent() {
    let mut store = MetricStore::new();
    let labels = LabelSet::single("zone", "zone0");
    let h1 = store.get_or_create(&labels);
    let h2 = store.get_or_create(&LabelSet::single("zone", "zone0"));
    assert_eq!(h1, h2);
    assert_eq!(store.len(), 1);
}

#[test]
fn distinct_labels_get_distinct_gauges() {
    let mut store = MetricStore::new();
    let h0 = store.get_or_create(&LabelSet::single("zone", "zone0"));
    let h1 = store.get_or_create(&LabelSet::single("zone", "zone1"));
    assert_ne!(h0, h1);
    assert_eq!(store.len(), 2);
}

#[test]
fn snapshot_reflects_last_of_sequential_sets() {
    let mut store = MetricStore::new();
    let labels = LabelSet::single("zone", "zone0");
    let h = store.get_or_create(&labels);
    for millis in [100u64, 2500, 45210, 31000, 7] {
        store.set(h, val(millis));
    }
    let snap = store.snapshot();
    assert_eq!(snap.len(), 1);
    assert_eq!(snap[0].1, val(7));
}

#[test]
fn interleaved_sets_to_distinct_labels_do_not_cross() {
    let mut store = MetricStore::new();
    let h0 = store.get_or_create(&LabelSet::single("zone", "zone0"));
    let h1 = store.get_or_create(&LabelSet::single("zone", "zone1"));
    let h2 = store.get_or_create(&LabelSet::single("zone", "zone2"));
    store.set(h0, val(1));
    store.set(h1, val(10));
    store.set(h2, val(100));
    store.set(h1, val(20));
    store.set(h0, val(2));
    store.set(h2, val(200));
    let snap = store.snapshot();
    assert_eq!(snap[0].1, val(2));
    assert_eq!(snap[1].1, val(20));
    assert_eq!(snap[2].1, val(200));
}

#[test]
fn snapshot_is_detached_from_later_sets() {
    let mut store = MetricStore::new();
    let labels = LabelSet::single("zone", "zone0");
    let h = store.get_or_create(&labels);
    store.set(h, val(45210));
    let snap = store.snapshot();
    store.set(h, val(99999));
    assert_eq!(snap[0].1, val(45210));
}

#[test]
fn failed_sample_leaves_store_unchanged() {
    let mut store = MetricStore::new();
    let labels = LabelSet::single("zone", "zone0");
    let h = store.get_or_create(&labels);
    store.set(h, val(45210));
    let log = sample_apply(&mut store, &labels, Err(ReadError::Parse));
    assert!(matches!(log, SampleLog::Failed(_)));
    assert_eq!(store.value_at(h), val(45210));
    assert_eq!(store.len(), 1);
}

#[test]
fn successful_sample_overwrites_gauge() {
    let mut store = MetricStore::new();
    let labels = LabelSet::single("zone", "zone0");
    let log = sample_apply(&mut store, &labels, Ok(val(45210)));
    match log {
        SampleLog::Updated(line) => assert_eq!(line, "CPU Temp: 45.2 C"),
        SampleLog::Failed(line) => panic!("unexpected failure log: {}", line),
    }
    let h = store.get_or_create(&labels);
    assert_eq!(store.value_at(h), val(45210));
}

#[test]
fn shared_store_set_labeled_and_snapshot() {
    let store = SharedStore::new();
    let labels = LabelSet::single("zone", "zone0");
    store.set_labeled(&labels, val(45210));
    store.set_labeled(&labels, val(46000));
    let snap = store.snapshot();
    assert_eq!(snap.len(), 1);
    assert_eq!(snap[0].1, val(46000));
}

#[test]
fn shared_store_handles_stay_valid() {
    let store = SharedStore::new();
    let labels = LabelSet::single("zone", "zone0");
    let h = store.get_or_create(&labels);
    store.set(h, val(45210));
    let snap = store.snapshot();
    assert_eq!(snap[0].1, val(45210));
}
