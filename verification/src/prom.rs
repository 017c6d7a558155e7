use core::marker::PhantomData;
use vstd::prelude::*;
use vstd::string::StringExecFns;

verus! {

/// Largest `u64` that fits without loss of precision in an IEEE-754 double
/// (2^53). Exposition output models values as doubles (52-bit mantissa), so
/// integers above this bound are not exposed faithfully: values wrap here,
/// at render time.
pub const MAX_PRECISE_VALUE: u64 = 0x20_0000_0000_0000;

/// The value a 64-bit counter or gauge exposes: the stored value modulo
/// 2^53.
pub fn precise_value(v: u64) -> (r: u64)
    ensures
        r == v % 0x20_0000_0000_0000u64,
{
    v % MAX_PRECISE_VALUE
}

/// The decimal digit characters.
pub open spec fn dec_digit(d: int) -> char {
    if d == 0 {
        '0'
    } else if d == 1 {
        '1'
    } else if d == 2 {
        '2'
    } else if d == 3 {
        '3'
    } else if d == 4 {
        '4'
    } else if d == 5 {
        '5'
    } else if d == 6 {
        '6'
    } else if d == 7 {
        '7'
    } else if d == 8 {
        '8'
    } else {
        '9'
    }
}

/// The decimal rendering of a non-negative integer, most significant digit
/// first, no leading zeroes (except for zero itself).
pub open spec fn dec_str(n: int) -> Seq<char>
    decreases n,
{
    if n < 10 {
        seq![dec_digit(n)]
    } else {
        dec_str(n / 10).push(dec_digit(n % 10))
    }
}

/// One decimal digit as a string slice.
fn digit_str(d: u64) -> (r: &'static str)
    requires
        d < 10,
    ensures
        r@ == seq![dec_digit(d as int)],
{
    if d == 0 {
        proof {
            reveal_strlit("0");
        }
        let r = "0";
        proof {
            assert(r@ =~= seq![dec_digit(0)]);
        }
        r
    } else if d == 1 {
        proof {
            reveal_strlit("1");
        }
        let r = "1";
        proof {
            assert(r@ =~= seq![dec_digit(1)]);
        }
        r
    } else if d == 2 {
        proof {
            reveal_strlit("2");
        }
        let r = "2";
        proof {
            assert(r@ =~= seq![dec_digit(2)]);
        }
        r
    } else if d == 3 {
        proof {
            reveal_strlit("3");
        }
        let r = "3";
        proof {
            assert(r@ =~= seq![dec_digit(3)]);
        }
        r
    } else if d == 4 {
        proof {
            reveal_strlit("4");
        }
        let r = "4";
        proof {
            assert(r@ =~= seq![dec_digit(4)]);
        }
        r
    } else if d == 5 {
        proof {
            reveal_strlit("5");
        }
        let r = "5";
        proof {
            assert(r@ =~= seq![dec_digit(5)]);
        }
        r
    } else if d == 6 {
        proof {
            reveal_strlit("6");
        }
        let r = "6";
        proof {
            assert(r@ =~= seq![dec_digit(6)]);
        }
        r
    } else if d == 7 {
        proof {
            reveal_strlit("7");
        }
        let r = "7";
        proof {
            assert(r@ =~= seq![dec_digit(7)]);
        }
        r
    } else if d == 8 {
        proof {
            reveal_strlit("8");
        }
        let r = "8";
        proof {
            assert(r@ =~= seq![dec_digit(8)]);
        }
        r
    } else {
        proof {
            reveal_strlit("9");
        }
        let r = "9";
        proof {
            assert(r@ =~= seq![dec_digit(9)]);
        }
        r
    }
}

/// Append the decimal rendering of `n` to the output.
pub fn fmt_u64(f: &mut String, n: u64)
    ensures
        final(f)@ == old(f)@ + dec_str(n as int),
    decreases n,
{
    if n < 10 {
        f.append(digit_str(n));
    } else {
        fmt_u64(f, n / 10);
        f.append(digit_str(n % 10));
        proof {
            assert(final(f)@ =~= old(f)@ + dec_str(n as int));
        }
    }
}

/// Writes a block of metrics in exposition-formatted output.
pub trait FmtMetrics {
    /// Everything this producer writes.
    spec fn metrics_view(&self) -> Seq<char>;

    fn fmt_metrics(&self, f: &mut String)
        ensures
            final(f)@ == old(f)@ + self.metrics_view(),
    ;

    /// Package this producer for rendering to an owned string.
    fn as_display(&self) -> (r: DisplayMetrics<&Self>) where Self: Sized
        ensures
            r.0 == self,
    {
        DisplayMetrics(self)
    }

}

/// Writes a comma-separated `key="value"` label list fragment.
pub trait FmtLabels {
    /// The fragment this producer writes.
    spec fn labels_view(&self) -> Seq<char>;

    fn fmt_labels(&self, f: &mut String)
        ensures
            final(f)@ == old(f)@ + self.labels_view(),
    ;
}

/// Writes a metric's sample lines. Counters and gauges write one line;
/// richer kinds may write several per sample.
pub trait FmtMetric {
    /// The metric's kind tag for `# TYPE` lines.
    spec fn kind_view() -> Seq<char>;

    fn kind() -> (r: &'static str)
        ensures
            r@ == Self::kind_view(),
    ;

    /// The sample line(s) written for a bare name.
    spec fn sample_view(&self, name: Seq<char>) -> Seq<char>;

    /// The sample line(s) written for a name and a label fragment.
    spec fn labeled_view(&self, name: Seq<char>, labels: Seq<char>) -> Seq<char>;

    fn fmt_metric(&self, f: &mut String, name: &str)
        ensures
            final(f)@ == old(f)@ + self.sample_view(name@),
    ;

    fn fmt_metric_labeled<L: FmtLabels>(&self, f: &mut String, name: &str, labels: &L)
        ensures
            final(f)@ == old(f)@ + self.labeled_view(name@, labels.labels_view()),
    ;
}

/// Renders a metrics producer into an owned string.
pub struct DisplayMetrics<F>(pub F);

impl<F: FmtMetrics> DisplayMetrics<F> {
    pub fn render(&self) -> (r: String)
        ensures
            r@ == self.0.metrics_view(),
    {
        let mut out = String::new();
        self.0.fmt_metrics(&mut out);
        out
    }
}

/// Writes `a`, then `b`.
pub struct AndThen<A, B>(pub A, pub B);

/// Chain two producers: the combinator an `AndThen` writer is built with.
pub fn and_then<A: FmtMetrics, N: FmtMetrics>(first: A, next: N) -> (r: AndThen<A, N>)
    ensures
        r.0 == first,
        r.1 == next,
{
    AndThen(first, next)
}

impl<A: FmtMetrics, B: FmtMetrics> FmtMetrics for AndThen<A, B> {
    open spec fn metrics_view(&self) -> Seq<char> {
        self.0.metrics_view() + self.1.metrics_view()
    }

    fn fmt_metrics(&self, f: &mut String)
        ensures
            final(f)@ == old(f)@ + self.metrics_view(),
    {
        self.0.fmt_metrics(f);
        self.1.fmt_metrics(f);
        proof {
            assert(final(f)@ =~= old(f)@ + self.metrics_view());
        }
    }
}

/// The empty producer writes nothing.
impl FmtMetrics for () {
    open spec fn metrics_view(&self) -> Seq<char> {
        Seq::<char>::empty()
    }

    fn fmt_metrics(&self, f: &mut String)
        ensures
            final(f)@ == old(f)@ + self.metrics_view(),
    {
        proof {
            assert(f@ =~= f@ + Seq::<char>::empty());
        }
    }
}

impl<'a, A: FmtMetrics> FmtMetrics for &'a A {
    open spec fn metrics_view(&self) -> Seq<char> {
        (**self).metrics_view()
    }

    fn fmt_metrics(&self, f: &mut String)
        ensures
            final(f)@ == old(f)@ + self.metrics_view(),
    {
        (*self).fmt_metrics(f)
    }
}

impl<'a, A: FmtLabels> FmtLabels for &'a A {
    open spec fn labels_view(&self) -> Seq<char> {
        (**self).labels_view()
    }

    fn fmt_labels(&self, f: &mut String)
        ensures
            final(f)@ == old(f)@ + self.labels_view(),
    {
        (*self).fmt_labels(f)
    }
}

/// A pair writes its left side, a comma, then its right side.
impl<A: FmtLabels, B: FmtLabels> FmtLabels for (A, B) {
    open spec fn labels_view(&self) -> Seq<char> {
        self.0.labels_view() + ","@ + self.1.labels_view()
    }

    fn fmt_labels(&self, f: &mut String)
        ensures
            final(f)@ == old(f)@ + self.labels_view(),
    {
        self.0.fmt_labels(f);
        f.append(",");
        self.1.fmt_labels(f);
        proof {
            assert(final(f)@ =~= old(f)@ + self.labels_view());
        }
    }
}

/// An absent right side elides both the comma and itself.
impl<A: FmtLabels, B: FmtLabels> FmtLabels for (A, Option<B>) {
    open spec fn labels_view(&self) -> Seq<char> {
        match self.1 {
            Some(b) => self.0.labels_view() + ","@ + b.labels_view(),
            None => self.0.labels_view(),
        }
    }

    fn fmt_labels(&self, f: &mut String)
        ensures
            final(f)@ == old(f)@ + self.labels_view(),
    {
        self.0.fmt_labels(f);
        match &self.1 {
            Some(b) => {
                f.append(",");
                b.fmt_labels(f);
                proof {
                    assert(final(f)@ =~= old(f)@ + self.labels_view());
                }
            },
            None => {},
        }
    }
}

/// An absent left side elides both itself and the comma.
impl<A: FmtLabels, B: FmtLabels> FmtLabels for (Option<A>, B) {
    open spec fn labels_view(&self) -> Seq<char> {
        match self.0 {
            Some(a) => a.labels_view() + ","@ + self.1.labels_view(),
            None => self.1.labels_view(),
        }
    }

    fn fmt_labels(&self, f: &mut String)
        ensures
            final(f)@ == old(f)@ + self.labels_view(),
    {
        match &self.0 {
            Some(a) => {
                a.fmt_labels(f);
                f.append(",");
                self.1.fmt_labels(f);
                proof {
                    assert(final(f)@ =~= old(f)@ + self.labels_view());
                }
            },
            None => {
                self.1.fmt_labels(f);
            },
        }
    }
}

/// One `key="value"` label.
pub struct LabelPair {
    pub key: &'static str,
    pub value: String,
}

impl FmtLabels for LabelPair {
    open spec fn labels_view(&self) -> Seq<char> {
        self.key@ + "=\""@ + self.value@ + "\""@
    }

    fn fmt_labels(&self, f: &mut String)
        ensures
            final(f)@ == old(f)@ + self.labels_view(),
    {
        f.append(self.key);
        f.append("=\"");
        f.append(self.value.as_str());
        f.append("\"");
        proof {
            assert(final(f)@ =~= old(f)@ + self.labels_view());
        }
    }
}

/// A monotone counter, stored in 64 bits and exposed modulo 2^53.
pub struct Counter {
    pub value: u64,
}

/// An instantaneous gauge, stored in 64 bits and exposed modulo 2^53.
pub struct Gauge {
    pub value: u64,
}

/// The single sample line `name value` (or `name{labels} value`) written
/// for a 64-bit value wrapped at 2^53.
pub open spec fn plain_sample(name: Seq<char>, v: u64) -> Seq<char> {
    name + " "@ + dec_str((v % 0x20_0000_0000_0000u64) as int) + "\n"@
}

pub open spec fn labeled_sample(name: Seq<char>, labels: Seq<char>, v: u64) -> Seq<char> {
    name + "{"@ + labels + "} "@ + dec_str((v % 0x20_0000_0000_0000u64) as int) + "\n"@
}

impl Counter {
    pub fn new(value: u64) -> (r: Counter)
        ensures
            r.value == value,
    {
        Counter { value }
    }

    /// Add, wrapping in 64 bits at mutation time; the 2^53 wrap happens
    /// only when the value is rendered.
    pub fn add(&mut self, n: u64)
        ensures
            final(self).value == (old(self).value + n) % 0x1_0000_0000_0000_0000,
    {
        self.value = self.value.wrapping_add(n);
    }

    /// The exposed value: the stored value modulo 2^53.
    pub fn exposed(&self) -> (r: u64)
        ensures
            r == self.value % 0x20_0000_0000_0000u64,
    {
        precise_value(self.value)
    }
}

impl FmtMetric for Counter {
    open spec fn kind_view() -> Seq<char> {
        "counter"@
    }

    fn kind() -> (r: &'static str)
        ensures
            r@ == Self::kind_view(),
    {
        "counter"
    }

    open spec fn sample_view(&self, name: Seq<char>) -> Seq<char> {
        plain_sample(name, self.value)
    }

    open spec fn labeled_view(&self, name: Seq<char>, labels: Seq<char>) -> Seq<char> {
        labeled_sample(name, labels, self.value)
    }

    fn fmt_metric(&self, f: &mut String, name: &str)
        ensures
            final(f)@ == old(f)@ + self.sample_view(name@),
    {
        f.append(name);
        f.append(" ");
        fmt_u64(f, self.exposed());
        f.append("\n");
        proof {
            assert(final(f)@ =~= old(f)@ + self.sample_view(name@));
        }
    }

    fn fmt_metric_labeled<L: FmtLabels>(&self, f: &mut String, name: &str, labels: &L)
        ensures
            final(f)@ == old(f)@ + self.labeled_view(name@, labels.labels_view()),
    {
        f.append(name);
        f.append("{");
        labels.fmt_labels(f);
        f.append("} ");
        fmt_u64(f, self.exposed());
        f.append("\n");
        proof {
            assert(final(f)@ =~= old(f)@ + self.labeled_view(name@, labels.labels_view()));
        }
    }
}

impl Gauge {
    pub fn new(value: u64) -> (r: Gauge)
        ensures
            r.value == value,
    {
        Gauge { value }
    }

    pub fn set(&mut self, n: u64)
        ensures
            final(self).value == n,
    {
        self.value = n;
    }
}

impl FmtMetric for Gauge {
    open spec fn kind_view() -> Seq<char> {
        "gauge"@
    }

    fn kind() -> (r: &'static str)
        ensures
            r@ == Self::kind_view(),
    {
        "gauge"
    }

    open spec fn sample_view(&self, name: Seq<char>) -> Seq<char> {
        plain_sample(name, self.value)
    }

    open spec fn labeled_view(&self, name: Seq<char>, labels: Seq<char>) -> Seq<char> {
        labeled_sample(name, labels, self.value)
    }

    fn fmt_metric(&self, f: &mut String, name: &str)
        ensures
            final(f)@ == old(f)@ + self.sample_view(name@),
    {
        f.append(name);
        f.append(" ");
        fmt_u64(f, precise_value(self.value));
        f.append("\n");
        proof {
            assert(final(f)@ =~= old(f)@ + self.sample_view(name@));
        }
    }

    fn fmt_metric_labeled<L: FmtLabels>(&self, f: &mut String, name: &str, labels: &L)
        ensures
            final(f)@ == old(f)@ + self.labeled_view(name@, labels.labels_view()),
    {
        f.append(name);
        f.append("{");
        labels.fmt_labels(f);
        f.append("} ");
        fmt_u64(f, precise_value(self.value));
        f.append("\n");
        proof {
            assert(final(f)@ =~= old(f)@ + self.labeled_view(name@, labels.labels_view()));
        }
    }
}

/// A self-contained exposition block: one described counter with its
/// current value, usable as a leaf under `AndThen`.
pub struct CounterReport {
    pub metric: Metric<Counter>,
    pub value: Counter,
}

impl FmtMetrics for CounterReport {
    open spec fn metrics_view(&self) -> Seq<char> {
        self.metric.help_view() + self.value.sample_view(self.metric.name@)
    }

    fn fmt_metrics(&self, f: &mut String)
        ensures
            final(f)@ == old(f)@ + self.metrics_view(),
    {
        self.metric.fmt_help(f);
        self.metric.fmt_metric(f, &self.value);
        proof {
            assert(final(f)@ =~= old(f)@ + self.metrics_view());
        }
    }
}

/// Describes a metric statically: its name and help text, tied to the kind
/// that renders it.
pub struct Metric<M> {
    pub name: &'static str,
    pub help: &'static str,
    pub _p: PhantomData<M>,
}

impl<M: FmtMetric> Metric<M> {
    pub fn new(name: &'static str, help: &'static str) -> (r: Metric<M>)
        ensures
            r.name == name,
            r.help == help,
    {
        Metric { name, help, _p: PhantomData }
    }

    /// The `# HELP` and `# TYPE` preamble this metric writes.
    pub open spec fn help_view(&self) -> Seq<char> {
        "# HELP "@ + self.name@ + " "@ + self.help@ + "\n"@ + "# TYPE "@ + self.name@ + " "@
            + M::kind_view() + "\n"@
    }

    /// Write the `# HELP` and `# TYPE` preamble, once.
    pub fn fmt_help(&self, f: &mut String)
        ensures
            final(f)@ == old(f)@ + self.help_view(),
    {
        f.append("# HELP ");
        f.append(self.name);
        f.append(" ");
        f.append(self.help);
        f.append("\n");
        f.append("# TYPE ");
        f.append(self.name);
        f.append(" ");
        f.append(M::kind());
        f.append("\n");
        proof {
            assert(final(f)@ =~= old(f)@ + self.help_view());
        }
    }

    /// Write a single unlabeled sample.
    pub fn fmt_metric(&self, f: &mut String, metric: &M)
        ensures
            final(f)@ == old(f)@ + metric.sample_view(self.name@),
    {
        metric.fmt_metric(f, self.name)
    }

    /// The labeled sample lines a list of scopes writes, in order.
    pub open spec fn scopes_view<L: FmtLabels>(&self, scopes: Seq<(L, M)>) -> Seq<char>
        decreases scopes.len(),
    {
        if scopes.len() == 0 {
            Seq::<char>::empty()
        } else {
            self.scopes_view(scopes.drop_last()) + scopes.last().1.labeled_view(
                self.name@,
                scopes.last().0.labels_view(),
            )
        }
    }

    /// Write one labeled sample per `(labels, metric)` scope, in order.
    #[verifier::loop_isolation(false)]
    pub fn fmt_scopes<L: FmtLabels>(&self, f: &mut String, scopes: &Vec<(L, M)>)
        ensures
            final(f)@ == old(f)@ + self.scopes_view(scopes@),
    {
        proof {
            assert(f@ =~= old(f)@ + self.scopes_view(scopes@.subrange(0, 0)));
        }
        let mut i: usize = 0;
        while i < scopes.len()
            invariant
                i <= scopes.len(),
                f@ == old(f)@ + self.scopes_view(scopes@.subrange(0, i as int)),
            decreases scopes.len() - i,
        {
            let pr: &(L, M) = vstd::slice::slice_index_get(scopes.as_slice(), i);
            pr.1.fmt_metric_labeled(f, self.name, &pr.0);
            proof {
                let ghost pre = scopes@.subrange(0, i + 1);
                assert(pre.drop_last() =~= scopes@.subrange(0, i as int));
                assert(pre.last() == scopes@[i as int]);
                assert(f@ =~= old(f)@ + self.scopes_view(pre));
            }
            i += 1;
        }
        proof {
            assert(scopes@.subrange(0, scopes@.len() as int) =~= scopes@);
        }
    }
}


/// A histogram over fixed upper bounds: each bucket holds its `le` bound
/// and the cumulative count of observations at or below it; `count` is the
/// total and `sum` the sum of all observations. Only rendering is offered
/// here: metric storage is the caller's affair.
pub struct Histogram {
    pub buckets: Vec<(u64, u64)>,
    pub count: u64,
    pub sum: u64,
}

/// One unlabeled `name_bucket{le="bound"} cum` line.
pub open spec fn plain_bucket_line(name: Seq<char>, b: (u64, u64)) -> Seq<char> {
    name + "_bucket{le=\""@ + dec_str(b.0 as int) + "\"} "@ + dec_str(
        (b.1 % 0x20_0000_0000_0000u64) as int,
    ) + "\n"@
}

pub open spec fn plain_bucket_lines(name: Seq<char>, bs: Seq<(u64, u64)>) -> Seq<char>
    decreases bs.len(),
{
    if bs.len() == 0 {
        Seq::<char>::empty()
    } else {
        plain_bucket_lines(name, bs.drop_last()) + plain_bucket_line(name, bs.last())
    }
}

/// One labeled `name_bucket{labels,le="bound"} cum` line.
pub open spec fn labeled_bucket_line(name: Seq<char>, labels: Seq<char>, b: (u64, u64)) -> Seq<
    char,
> {
    name + "_bucket{"@ + labels + ",le=\""@ + dec_str(b.0 as int) + "\"} "@ + dec_str(
        (b.1 % 0x20_0000_0000_0000u64) as int,
    ) + "\n"@
}

pub open spec fn labeled_bucket_lines(
    name: Seq<char>,
    labels: Seq<char>,
    bs: Seq<(u64, u64)>,
) -> Seq<char>
    decreases bs.len(),
{
    if bs.len() == 0 {
        Seq::<char>::empty()
    } else {
        labeled_bucket_lines(name, labels, bs.drop_last()) + labeled_bucket_line(
            name,
            labels,
            bs.last(),
        )
    }
}

impl Histogram {
    pub fn new(buckets: Vec<(u64, u64)>, count: u64, sum: u64) -> (r: Histogram)
        ensures
            r.buckets == buckets,
            r.count == count,
            r.sum == sum,
    {
        Histogram { buckets, count, sum }
    }
}

impl FmtMetric for Histogram {
    open spec fn kind_view() -> Seq<char> {
        "histogram"@
    }

    fn kind() -> (r: &'static str)
        ensures
            r@ == Self::kind_view(),
    {
        "histogram"
    }

    /// One counter line per bucket, the `+Inf` bucket, then the count and
    /// the sum, each wrapped at 2^53.
    open spec fn sample_view(&self, name: Seq<char>) -> Seq<char> {
        plain_bucket_lines(name, self.buckets@) + name + "_bucket{le=\"+Inf\"} "@ + dec_str(
            (self.count % 0x20_0000_0000_0000u64) as int,
        ) + "\n"@ + name + "_count "@ + dec_str(
            (self.count % 0x20_0000_0000_0000u64) as int,
        ) + "\n"@ + name + "_sum "@ + dec_str(
            (self.sum % 0x20_0000_0000_0000u64) as int,
        ) + "\n"@
    }

    open spec fn labeled_view(&self, name: Seq<char>, labels: Seq<char>) -> Seq<char> {
        labeled_bucket_lines(name, labels, self.buckets@) + name + "_bucket{"@ + labels
            + ",le=\"+Inf\"} "@ + dec_str(
            (self.count % 0x20_0000_0000_0000u64) as int,
        ) + "\n"@ + name + "_count{"@ + labels + "} "@ + dec_str(
            (self.count % 0x20_0000_0000_0000u64) as int,
        ) + "\n"@ + name + "_sum{"@ + labels + "} "@ + dec_str(
            (self.sum % 0x20_0000_0000_0000u64) as int,
        ) + "\n"@
    }

    #[verifier::loop_isolation(false)]
    fn fmt_metric(&self, f: &mut String, name: &str)
        ensures
            final(f)@ == old(f)@ + self.sample_view(name@),
    {
        proof {
            assert(f@ =~= old(f)@ + plain_bucket_lines(name@, self.buckets@.subrange(0, 0)));
        }
        let mut i: usize = 0;
        while i < self.buckets.len()
            invariant
                i <= self.buckets.len(),
                f@ == old(f)@ + plain_bucket_lines(name@, self.buckets@.subrange(0, i as int)),
            decreases self.buckets.len() - i,
        {
            let b: &(u64, u64) = vstd::slice::slice_index_get(self.buckets.as_slice(), i);
            f.append(name);
            f.append("_bucket{le=\"");
            fmt_u64(f, b.0);
            f.append("\"} ");
            fmt_u64(f, precise_value(b.1));
            f.append("\n");
            proof {
                let ghost pre = self.buckets@.subrange(0, i + 1);
                assert(pre.drop_last() =~= self.buckets@.subrange(0, i as int));
                assert(pre.last() == self.buckets@[i as int]);
                assert(f@ =~= old(f)@ + plain_bucket_lines(name@, pre));
            }
            i += 1;
        }
        proof {
            assert(self.buckets@.subrange(0, self.buckets@.len() as int) =~= self.buckets@);
        }
        f.append(name);
        f.append("_bucket{le=\"+Inf\"} ");
        fmt_u64(f, precise_value(self.count));
        f.append("\n");
        f.append(name);
        f.append("_count ");
        fmt_u64(f, precise_value(self.count));
        f.append("\n");
        f.append(name);
        f.append("_sum ");
        fmt_u64(f, precise_value(self.sum));
        f.append("\n");
        proof {
            assert(final(f)@ =~= old(f)@ + self.sample_view(name@));
        }
    }

    #[verifier::loop_isolation(false)]
    #[verifier::rlimit(60)]
    fn fmt_metric_labeled<L: FmtLabels>(&self, f: &mut String, name: &str, labels: &L)
        ensures
            final(f)@ == old(f)@ + self.labeled_view(name@, labels.labels_view()),
    {
        let ghost lv = labels.labels_view();
        proof {
            assert(f@ =~= old(f)@ + labeled_bucket_lines(
                name@,
                lv,
                self.buckets@.subrange(0, 0),
            ));
        }
        let mut i: usize = 0;
        while i < self.buckets.len()
            invariant
                i <= self.buckets.len(),
                f@ == old(f)@ + labeled_bucket_lines(
                    name@,
                    lv,
                    self.buckets@.subrange(0, i as int),
                ),
            decreases self.buckets.len() - i,
        {
            let b: &(u64, u64) = vstd::slice::slice_index_get(self.buckets.as_slice(), i);
            f.append(name);
            f.append("_bucket{");
            labels.fmt_labels(f);
            f.append(",le=\"");
            fmt_u64(f, b.0);
            f.append("\"} ");
            fmt_u64(f, precise_value(b.1));
            f.append("\n");
            proof {
                let ghost pre = self.buckets@.subrange(0, i + 1);
                assert(pre.drop_last() =~= self.buckets@.subrange(0, i as int));
                assert(pre.last() == self.buckets@[i as int]);
                assert(f@ =~= old(f)@ + labeled_bucket_lines(name@, lv, pre));
            }
            i += 1;
        }
        proof {
            assert(self.buckets@.subrange(0, self.buckets@.len() as int) =~= self.buckets@);
        }
        f.append(name);
        f.append("_bucket{");
        labels.fmt_labels(f);
        f.append(",le=\"+Inf\"} ");
        fmt_u64(f, precise_value(self.count));
        f.append("\n");
        f.append(name);
        f.append("_count{");
        labels.fmt_labels(f);
        f.append("} ");
        fmt_u64(f, precise_value(self.count));
        f.append("\n");
        f.append(name);
        f.append("_sum{");
        labels.fmt_labels(f);
        f.append("} ");
        fmt_u64(f, precise_value(self.sum));
        f.append("\n");
        proof {
            assert(final(f)@ =~= old(f)@ + self.labeled_view(name@, lv));
        }
    }
}

} // verus!
