//! The registry and end-to-end scrape scenarios: sample, then render the
//! whole exposition payload.

use temp_exporter::labels::LabelSet;
use temp_exporter::read::read;
use temp_exporter::registry::Registry;
use temp_exporter::sampler::{sample_shared, SampleLog};

const HELP: &str = "Current CPU temperature in Celsius";

fn exporter() -> (Registry, usize) {
    let mut registry = Registry::new();
    let added = registry.register("cpu_temp", HELP);
    assert!(added);
    let idx = registry.find_family("cpu_temp").unwrap();
    // The fixed series exists from startup on, so a scrape before the
    // first successful sample still shows its zero value.
    registry.store_at(idx).get_or_create(&LabelSet::single("zone", "zone0"));
    (registry, idx)
}

#[test]
fn register_is_unique_per_name() {
    let mut registry = Registry::new();
    assert!(registry.register("cpu_temp", HELP));
    assert!(!registry.register("cpu_temp", HELP));
    assert_eq!(registry.len(), 1);
}

#[test]
fn find_family_misses_unknown_names() {
    let (registry, _) = exporter();
    assert!(registry.find_family("memory").is_none());
}

#[test]
fn scrape_after_successful_sample() {
    let (registry, idx) = exporter();
    let labels = LabelSet::single("zone", "zone0");
    let log = sample_shared(registry.store_at(idx), &labels, read(Some("45210\n")));
    match log {
        SampleLog::Updated(line) => assert_eq!(line, "CPU Temp: 45.2 C"),
        SampleLog::Failed(line) => panic!("unexpected failure: {}", line),
    }
    let payload = registry.render();
    assert!(payload.contains("cpu_temp{zone=\"zone0\"} 45.21\n"));
    assert_eq!(
        payload,
        "# HELP cpu_temp Current CPU temperature in Celsius\n\
         # TYPE cpu_temp gauge\n\
         cpu_temp{zone=\"zone0\"} 45.21\n"
    );
}

#[test]
fn scrape_during_sensor_outage_serves_zero() {
    let (registry, idx) = exporter();
    let labels = LabelSet::single("zone", "zone0");
    let log = sample_shared(registry.store_at(idx), &labels, read(None));
    match log {
        SampleLog::Failed(line) => assert_eq!(line, "Failed to read CPU temp: I/O error"),
        SampleLog::Updated(line) => panic!("unexpected success: {}", line),
    }
    let payload = registry.render();
    assert!(payload.contains("cpu_temp{zone=\"zone0\"} 0\n"));
}

#[test]
fn scrape_keeps_last_value_through_outage() {
    let (registry, idx) = exporter();
    let labels = LabelSet::single("zone", "zone0");
    sample_shared(registry.store_at(idx), &labels, read(Some("45210")));
    sample_shared(registry.store_at(idx), &labels, read(None));
    let payload = registry.render();
    assert!(payload.contains("cpu_temp{zone=\"zone0\"} 45.21\n"));
}

#[test]
fn parse_failure_keeps_gauge_unchanged() {
    let (registry, idx) = exporter();
    let labels = LabelSet::single("zone", "zone0");
    sample_shared(registry.store_at(idx), &labels, read(Some("45210")));
    let log = sample_shared(registry.store_at(idx), &labels, read(Some("abc")));
    match log {
        SampleLog::Failed(line) => assert_eq!(line, "Failed to read CPU temp: parse error"),
        SampleLog::Updated(line) => panic!("unexpected success: {}", line),
    }
    let payload = registry.render();
    assert!(payload.contains("cpu_temp{zone=\"zone0\"} 45.21\n"));
}

#[test]
fn two_scrapes_without_samples_between_match() {
    let (registry, idx) = exporter();
    let labels = LabelSet::single("zone", "zone0");
    sample_shared(registry.store_at(idx), &labels, read(Some("38500")));
    let first = registry.render();
    let second = registry.render();
    assert_eq!(first, second);
    assert!(first.contains("cpu_temp{zone=\"zone0\"} 38.5\n"));
}

#[test]
fn negative_sample_logs_signed_rounding() {
    let (registry, idx) = exporter();
    let labels = LabelSet::single("zone", "zone0");
    let log = sample_shared(registry.store_at(idx), &labels, read(Some("-45250")));
    match log {
        SampleLog::Updated(line) => assert_eq!(line, "CPU Temp: -45.3 C"),
        SampleLog::Failed(line) => panic!("unexpected failure: {}", line),
    }
    let payload = registry.render();
    assert!(payload.contains("cpu_temp{zone=\"zone0\"} -45.25\n"));
}

#[test]
fn zero_sample_logs_one_decimal() {
    let (registry, idx) = exporter();
    let labels = LabelSet::single("zone", "zone0");
    let log = sample_shared(registry.store_at(idx), &labels, read(Some("0")));
    match log {
        SampleLog::Updated(line) => assert_eq!(line, "CPU Temp: 0.0 C"),
        SampleLog::Failed(line) => panic!("unexpected failure: {}", line),
    }
}

#[test]
fn sample_log_rounds_half_away_from_zero() {
    let (registry, idx) = exporter();
    let labels = LabelSet::single("zone", "zone0");
    let log = sample_shared(registry.store_at(idx), &labels, read(Some("45999")));
    match log {
        SampleLog::Updated(line) => assert_eq!(line, "CPU Temp: 46.0 C"),
        SampleLog::Failed(line) => panic!("unexpected failure: {}", line),
    }
    let log = sample_shared(registry.store_at(idx), &labels, read(Some("45240")));
    match log {
        SampleLog::Updated(line) => assert_eq!(line, "CPU Temp: 45.2 C"),
        SampleLog::Failed(line) => panic!("unexpected failure: {}", line),
    }
}

#[test]
fn two_families_render_in_registration_order() {
    let mut registry = Registry::new();
    registry.register("cpu_temp", HELP);
    registry.register("gpu_temp", "Current GPU temperature in Celsius");
    let cpu = registry.find_family("cpu_temp").unwrap();
    let gpu = registry.find_family("gpu_temp").unwrap();
    let labels = LabelSet::single("zone", "zone0");
    sample_shared(registry.store_at(cpu), &labels, read(Some("41000")));
    sample_shared(registry.store_at(gpu), &labels, read(Some("52500")));
    let payload = registry.render();
    let cpu_at = payload.find("# HELP cpu_temp").unwrap();
    let gpu_at = payload.find("# HELP gpu_temp").unwrap();
    assert!(cpu_at < gpu_at);
    assert!(payload.contains("cpu_temp{zone=\"zone0\"} 41\n"));
    assert!(payload.contains("gpu_temp{zone=\"zone0\"} 52.5\n"));
}
