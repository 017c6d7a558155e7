use destination::prom::{and_then, precise_value, Counter, CounterReport, DisplayMetrics,
    FmtLabels, Gauge, Histogram, LabelPair, Metric, MAX_PRECISE_VALUE};

fn one(value: u64) -> CounterReport {
    CounterReport { metric: Metric::new("one_total", "a counter"), value: Counter::new(value) }
}

#[test]
fn p4_exposed_value_wraps_at_two_to_the_fifty_three() {
    assert_eq!(precise_value(0), 0);
    assert_eq!(precise_value(MAX_PRECISE_VALUE - 1), MAX_PRECISE_VALUE - 1);
    assert_eq!(precise_value(MAX_PRECISE_VALUE), 0);
    assert_eq!(precise_value(MAX_PRECISE_VALUE + 7), 7);
    assert_eq!(precise_value(u64::MAX), u64::MAX % MAX_PRECISE_VALUE);
}

#[test]
fn s6_counter_above_the_bound_renders_wrapped() {
    // 2^53 + 7 renders as 7.
    let c = Counter::new(9007199254740999);
    let m: Metric<Counter> = Metric::new("foo", "help");
    let mut out = String::new();
    m.fmt_metric(&mut out, &c);
    assert_eq!(out, "foo 7\n");
}

#[test]
fn help_and_type_preamble() {
    let m: Metric<Counter> = Metric::new("req_total", "Total requests");
    let mut out = String::new();
    m.fmt_help(&mut out);
    assert_eq!(out, "# HELP req_total Total requests\n# TYPE req_total counter\n");
    let g: Metric<Gauge> = Metric::new("open_conns", "Open connections");
    let mut out = String::new();
    g.fmt_help(&mut out);
    assert_eq!(out, "# HELP open_conns Open connections\n# TYPE open_conns gauge\n");
}

#[test]
fn labeled_samples_and_scopes() {
    let m: Metric<Counter> = Metric::new("req_total", "Total requests");
    let scopes = vec![
        (LabelPair { key: "code", value: "200".to_string() }, Counter::new(3)),
        (LabelPair { key: "code", value: "500".to_string() }, Counter::new(1)),
    ];
    let mut out = String::new();
    m.fmt_scopes(&mut out, &scopes);
    assert_eq!(out, "req_total{code=\"200\"} 3\nreq_total{code=\"500\"} 1\n");
}

#[test]
fn label_pairs_and_optional_sides() {
    let a = LabelPair { key: "a", value: "1".to_string() };
    let b = LabelPair { key: "b", value: "2".to_string() };
    let mut out = String::new();
    (&a, &b).fmt_labels(&mut out);
    assert_eq!(out, "a=\"1\",b=\"2\"");

    let mut out = String::new();
    (&a, None::<&LabelPair>).fmt_labels(&mut out);
    assert_eq!(out, "a=\"1\"", "the comma and the absent side are both elided");

    let mut out = String::new();
    (None::<&LabelPair>, &b).fmt_labels(&mut out);
    assert_eq!(out, "b=\"2\"");

    let mut out = String::new();
    (Some(&a), &b).fmt_labels(&mut out);
    assert_eq!(out, "a=\"1\",b=\"2\"");
}

#[test]
fn and_then_concatenates_and_empty_writes_nothing() {
    let both = and_then(one(1), one(2));
    let page = DisplayMetrics(&both).render();
    assert_eq!(
        page,
        "# HELP one_total a counter\n# TYPE one_total counter\none_total 1\n\
         # HELP one_total a counter\n# TYPE one_total counter\none_total 2\n"
    );
    let empty = DisplayMetrics(()).render();
    assert_eq!(empty, "");
}

#[test]
fn counter_adds_with_sixty_four_bit_wrap() {
    let mut c = Counter::new(u64::MAX);
    c.add(1);
    assert_eq!(c.value, 0, "storage wraps in 64 bits at mutation time");
    let mut c = Counter::new(5);
    c.add(10);
    assert_eq!(c.exposed(), 15);
}

#[test]
fn gauge_renders_current_value() {
    let mut g = Gauge::new(41);
    g.set(42);
    let m: Metric<Gauge> = Metric::new("answer", "the answer");
    let mut out = String::new();
    m.fmt_metric(&mut out, &g);
    assert_eq!(out, "answer 42\n");
}

#[test]
fn histogram_renders_buckets_count_and_sum() {
    let h = Histogram::new(vec![(10, 1), (100, 3)], 4, 250);
    let m: Metric<Histogram> = Metric::new("lat", "latency");
    let mut out = String::new();
    m.fmt_help(&mut out);
    assert_eq!(out, "# HELP lat latency\n# TYPE lat histogram\n");
    let mut out = String::new();
    m.fmt_metric(&mut out, &h);
    assert_eq!(
        out,
        "lat_bucket{le=\"10\"} 1\nlat_bucket{le=\"100\"} 3\nlat_bucket{le=\"+Inf\"} 4\n\
         lat_count 4\nlat_sum 250\n"
    );
}

#[test]
fn labeled_histogram_repeats_labels_per_line() {
    let m: Metric<Histogram> = Metric::new("lat", "latency");
    let scopes = vec![(
        LabelPair { key: "svc", value: "a".to_string() },
        Histogram::new(vec![(10, 2)], 2, 9),
    )];
    let mut out = String::new();
    m.fmt_scopes(&mut out, &scopes);
    assert_eq!(
        out,
        "lat_bucket{svc=\"a\",le=\"10\"} 2\nlat_bucket{svc=\"a\",le=\"+Inf\"} 2\n\
         lat_count{svc=\"a\"} 2\nlat_sum{svc=\"a\"} 9\n"
    );
}
