//! Exposition rendering: byte-exact payloads, decimal values in plain
//! notation, braces only for non-empty label sets.

use temp_exporter::labels::LabelSet;
use temp_exporter::render::render_family;
use temp_exporter::value::DecValue;

fn entry(labels: LabelSet, neg: bool, mantissa: u64, scale: usize) -> (LabelSet, DecValue) {
    (labels, DecValue { neg, mantissa, scale })
}

#[test]
fn renders_one_labeled_gauge() {
    let snap = vec![entry(LabelSet::single("zone", "zone0"), false, 45210, 3)];
    let text = render_family("cpu_temp", "Current CPU temperature in Celsius", &snap);
    assert_eq!(
        text,
        "# HELP cpu_temp Current CPU temperature in Celsius\n\
         # TYPE cpu_temp gauge\n\
         cpu_temp{zone=\"zone0\"} 45.21\n"
    );
}

#[test]
fn renders_empty_family_as_metadata_only() {
    let snap: Vec<(LabelSet, DecValue)> = Vec::new();
    let text = render_family("cpu_temp", "Current CPU temperature in Celsius", &snap);
    assert_eq!(
        text,
        "# HELP cpu_temp Current CPU temperature in Celsius\n# TYPE cpu_temp gauge\n"
    );
}

#[test]
fn renders_empty_label_set_without_braces() {
    let snap = vec![entry(LabelSet::empty(), false, 45210, 3)];
    let text = render_family("cpu_temp", "help", &snap);
    assert_eq!(text, "# HELP cpu_temp help\n# TYPE cpu_temp gauge\ncpu_temp 45.21\n");
}

#[test]
fn renders_two_labels_comma_separated() {
    let mut labels = LabelSet::single("zone", "zone0");
    labels.push_label("host", "a");
    let snap = vec![entry(labels, false, 1500, 3)];
    let text = render_family("cpu_temp", "help", &snap);
    assert_eq!(
        text,
        "# HELP cpu_temp help\n# TYPE cpu_temp gauge\ncpu_temp{zone=\"zone0\",host=\"a\"} 1.5\n"
    );
}

#[test]
fn renders_zero_gauge_as_bare_zero() {
    let snap = vec![entry(LabelSet::single("zone", "zone0"), false, 0, 0)];
    let text = render_family("cpu_temp", "help", &snap);
    assert_eq!(text, "# HELP cpu_temp help\n# TYPE cpu_temp gauge\ncpu_temp{zone=\"zone0\"} 0\n");
}

#[test]
fn renders_integral_value_without_fraction() {
    let snap = vec![entry(LabelSet::single("zone", "zone0"), false, 45000, 3)];
    let text = render_family("t", "h", &snap);
    assert_eq!(text, "# HELP t h\n# TYPE t gauge\nt{zone=\"zone0\"} 45\n");
}

#[test]
fn renders_negative_value_with_sign() {
    let snap = vec![entry(LabelSet::single("zone", "zone0"), true, 5250, 3)];
    let text = render_family("t", "h", &snap);
    assert_eq!(text, "# HELP t h\n# TYPE t gauge\nt{zone=\"zone0\"} -5.25\n");
}

#[test]
fn renders_small_fraction_with_leading_zeros() {
    let snap = vec![entry(LabelSet::single("zone", "zone0"), false, 7, 3)];
    let text = render_family("t", "h", &snap);
    assert_eq!(text, "# HELP t h\n# TYPE t gauge\nt{zone=\"zone0\"} 0.007\n");
}

#[test]
fn renders_scale_beyond_u64_powers() {
    let snap = vec![entry(LabelSet::single("zone", "zone0"), false, 1, 24)];
    let text = render_family("t", "h", &snap);
    assert_eq!(
        text,
        "# HELP t h\n# TYPE t gauge\nt{zone=\"zone0\"} 0.000000000000000000000001\n"
    );
}

#[test]
fn renders_multiple_series_in_snapshot_order() {
    let snap = vec![
        entry(LabelSet::single("zone", "zone0"), false, 45210, 3),
        entry(LabelSet::single("zone", "zone1"), false, 38000, 3),
    ];
    let text = render_family("cpu_temp", "help", &snap);
    assert_eq!(
        text,
        "# HELP cpu_temp help\n# TYPE cpu_temp gauge\n\
         cpu_temp{zone=\"zone0\"} 45.21\ncpu_temp{zone=\"zone1\"} 38\n"
    );
}
