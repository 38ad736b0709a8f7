//! The Prometheus text exposition format, written by hand.

use crate::text::{append_decimal, append_signed_decimal, signed_decimal};
use vstd::prelude::*;

verus! {

/// The text exposition of metrics, as far as it is written.
///
/// There is nothing to register here - every number is read from live state when
/// the scrape asks for it. What is left is a text format small enough to write.
pub struct MetricsWriter {
    pub out: String,
}

#[derive(Clone, Copy, PartialEq, Eq, Structural)]
pub enum MetricKind {
    Gauge,
    Counter,
}

impl MetricKind {
    pub open spec fn text(self) -> Seq<char> {
        match self {
            MetricKind::Gauge => "gauge"@,
            MetricKind::Counter => "counter"@,
        }
    }

    fn as_str(&self) -> (r: &'static str)
        ensures
            r@ == self.text(),
    {
        match self {
            MetricKind::Gauge => "gauge",
            MetricKind::Counter => "counter",
        }
    }
}

/// One number, and what it is a number of.
#[verifier::ext_equal]
pub struct Sample {
    pub labels: Seq<(Seq<char>, Seq<char>)>,
    pub value: int,
}

/// One metric with all its samples.
#[verifier::ext_equal]
pub struct Family {
    pub name: Seq<char>,
    pub help: Seq<char>,
    pub kind: MetricKind,
    pub samples: Seq<Sample>,
}

/// What a character of a label value is written as.
pub open spec fn escaped_char(c: char) -> Seq<char> {
    if c == '\\' {
        seq!['\\', '\\']
    } else if c == '"' {
        seq!['\\', '"']
    } else if c == '\n' {
        seq!['\\', 'n']
    } else {
        seq![c]
    }
}

/// What a label value is written as.
pub open spec fn escaped(text: Seq<char>) -> Seq<char>
    decreases text.len(),
{
    if text.len() == 0 {
        Seq::empty()
    } else {
        escaped(text.drop_last()) + escaped_char(text.last())
    }
}

/// What labels are written as, without the brackets around them.
pub open spec fn labels_inside(labels: Seq<(Seq<char>, Seq<char>)>) -> Seq<char>
    decreases labels.len(),
{
    if labels.len() == 0 {
        Seq::empty()
    } else {
        let (label, value) = labels.last();
        let before = if labels.len() == 1 {
            Seq::empty()
        } else {
            labels_inside(labels.drop_last()).push(',')
        };
        before + label + "=\""@ + escaped(value) + "\""@
    }
}

/// What labels are written as.
pub open spec fn labels_text(labels: Seq<(Seq<char>, Seq<char>)>) -> Seq<char> {
    if labels.len() == 0 {
        Seq::empty()
    } else {
        "{"@ + labels_inside(labels) + "}"@
    }
}

/// The line of a sample.
pub open spec fn sample_text(name: Seq<char>, sample: Sample) -> Seq<char> {
    name + labels_text(sample.labels) + " "@ + signed_decimal(sample.value) + "\n"@
}

/// The lines of some samples.
pub open spec fn samples_text(name: Seq<char>, samples: Seq<Sample>) -> Seq<char>
    decreases samples.len(),
{
    if samples.len() == 0 {
        Seq::empty()
    } else {
        samples_text(name, samples.drop_last()) + sample_text(name, samples.last())
    }
}

/// The two lines a metric declares itself with.
pub open spec fn header_text(name: Seq<char>, help: Seq<char>, kind: MetricKind) -> Seq<char> {
    "# HELP "@ + name + " "@ + help + "\n"@ + "# TYPE "@ + name + " "@ + kind.text() + "\n"@
}

/// What a metric is written as.
pub open spec fn family_text(family: Family) -> Seq<char> {
    header_text(family.name, family.help, family.kind) + samples_text(family.name, family.samples)
}

/// What metrics are written as, one after the other.
pub open spec fn exposition(families: Seq<Family>) -> Seq<char>
    decreases families.len(),
{
    if families.len() == 0 {
        Seq::empty()
    } else {
        exposition(families.drop_last()) + family_text(families.last())
    }
}

/// Metrics which are written in two goes are written as in one.
pub proof fn lemma_exposition_concat(a: Seq<Family>, b: Seq<Family>)
    ensures
        exposition(a + b) == exposition(a) + exposition(b),
    decreases b.len(),
{
    if b.len() == 0 {
        assert(a + b =~= a);
        assert(exposition(a) + exposition(b) =~= exposition(a));
    } else {
        assert((a + b).drop_last() =~= a + b.drop_last());
        lemma_exposition_concat(a, b.drop_last());
        assert(exposition(a) + exposition(b.drop_last()) + family_text(b.last()) =~= exposition(a)
            + exposition(b));
    }
}

/// What a scrape reads of a label value and of what follows it, from behind the
/// opening quote on: up to the first quote which is not escaped.
pub open spec fn read_label_value(text: Seq<char>) -> Option<(Seq<char>, Seq<char>)>
    decreases text.len(),
{
    if text.len() == 0 || text[0] == '\n' {
        None
    } else if text[0] == '"' {
        Some((Seq::empty(), text.skip(1)))
    } else if text[0] == '\\' {
        if text.len() < 2 {
            None
        } else {
            let c = if text[1] == 'n' {
                '\n'
            } else {
                text[1]
            };
            match read_label_value(text.skip(2)) {
                Some((value, rest)) => Some((seq![c] + value, rest)),
                None => None,
            }
        }
    } else {
        match read_label_value(text.skip(1)) {
            Some((value, rest)) => Some((seq![text[0]] + value, rest)),
            None => None,
        }
    }
}

proof fn lemma_escaped_first(text: Seq<char>)
    requires
        text.len() > 0,
    ensures
        escaped(text) == escaped_char(text[0]) + escaped(text.skip(1)),
    decreases text.len(),
{
    if text.len() == 1 {
        assert(text.drop_last() =~= Seq::<char>::empty());
        assert(text.skip(1) =~= Seq::<char>::empty());
        assert(escaped(text) =~= escaped_char(text[0]) + escaped(text.skip(1)));
    } else {
        let front = text.drop_last();
        lemma_escaped_first(front);
        assert(front.skip(1) =~= text.skip(1).drop_last());
        assert(escaped(text) =~= escaped_char(text[0]) + escaped(text.skip(1)));
    }
}

/// Whatever a label value holds, a scrape reads that value and ends where it
/// ends: a table name can not break what stands behind it.
pub proof fn a_label_value_can_not_break_the_scrape(value: Seq<char>, rest: Seq<char>)
    ensures
        read_label_value(escaped(value) + "\""@ + rest) == Some((value, rest)),
        !escaped(value).contains('\n'),
    decreases value.len(),
{
    reveal_strlit("\"");
    let text = escaped(value) + "\""@ + rest;
    if value.len() == 0 {
        assert(text.skip(1) =~= rest);
        assert(value =~= Seq::<char>::empty());
    } else {
        let c = value[0];
        let after = value.skip(1);
        lemma_escaped_first(value);
        a_label_value_can_not_break_the_scrape(after, rest);
        assert(seq![c] + after =~= value);
        if escaped_char(c).len() == 2 {
            assert(text.skip(2) =~= escaped(after) + "\""@ + rest);
            assert(text[0] == '\\');
            assert(text[1] == escaped_char(c)[1]);
        } else {
            assert(text.skip(1) =~= escaped(after) + "\""@ + rest);
            assert(text[0] == c);
        }
        if escaped(value).contains('\n') {
            let i = choose|i: int| 0 <= i < escaped(value).len() && escaped(value)[i] == '\n';
            if i >= escaped_char(c).len() {
                assert(escaped(after)[i - escaped_char(c).len()] == '\n');
            } else {
                assert(escaped_char(c)[i] == '\n');
            }
        }
    }
}

/// Something a sample can be a number of.
pub trait MetricValue: Sized {
    spec fn amount(&self) -> int;

    fn append_to(&self, dest: &mut String)
        ensures
            final(dest)@ == old(dest)@ + signed_decimal(self.amount()),
    ;
}

impl MetricValue for i32 {
    open spec fn amount(&self) -> int {
        *self as int
    }

    fn append_to(&self, dest: &mut String) {
        append_signed_decimal(dest, *self as i128);
    }
}

impl MetricValue for i64 {
    open spec fn amount(&self) -> int {
        *self as int
    }

    fn append_to(&self, dest: &mut String) {
        append_signed_decimal(dest, *self as i128);
    }
}

impl MetricValue for usize {
    open spec fn amount(&self) -> int {
        *self as int
    }

    fn append_to(&self, dest: &mut String) {
        append_decimal(dest, *self as u128);
    }
}

impl MetricValue for u64 {
    open spec fn amount(&self) -> int {
        *self as int
    }

    fn append_to(&self, dest: &mut String) {
        append_decimal(dest, *self as u128);
    }
}

impl MetricValue for u128 {
    open spec fn amount(&self) -> int {
        *self as int
    }

    fn append_to(&self, dest: &mut String) {
        append_decimal(dest, *self);
    }
}

/// Writes the samples of one metric.
pub struct FamilyWriter<'s> {
    pub out: String,
    pub name: &'s str,
}

/// What labels say.
pub open spec fn label_views(labels: Seq<(&str, &str)>) -> Seq<(Seq<char>, Seq<char>)> {
    Seq::new(labels.len(), |i: int| (labels[i].0@, labels[i].1@))
}

/// The sample with these labels and this value.
pub open spec fn sample_of(labels: Seq<(&str, &str)>, value: int) -> Sample {
    Sample { labels: label_views(labels), value }
}

impl<'s> FamilyWriter<'s> {
    pub fn sample<V: MetricValue>(&mut self, labels: &[(&str, &str)], value: V)
        ensures
            final(self).name == old(self).name,
            final(self).out@ == old(self).out@ + sample_text(
                old(self).name@,
                sample_of(labels@, value.amount()),
            ),
    {
        let ghost before = self.out@;
        let ghost views = label_views(labels@);
        let mut out = String::new();
        std::mem::swap(&mut out, &mut self.out);
        out.append(self.name);
        let ghost named = out@;
        if labels.len() > 0 {
            out.append("{");
            proof {
                assert(views.take(0) =~= Seq::<(Seq<char>, Seq<char>)>::empty());
                assert(out@ =~= named + "{"@ + labels_inside(views.take(0)));
            }
            for at in 0..labels.len()
                invariant
                    views == label_views(labels@),
                    out@ == named + "{"@ + labels_inside(views.take(at as int)),
            {
                if at > 0 {
                    out.push(',');
                }
                let (label, label_value) = labels[at];
                out.append(label);
                out.append("=\"");
                write_escaped(&mut out, label_value);
                out.append("\"");
                proof {
                    let so_far = views.take(at + 1);
                    assert(so_far.drop_last() =~= views.take(at as int));
                    assert(so_far.last() == (label@, label_value@));
                    assert(out@ =~= named + "{"@ + labels_inside(so_far));
                }
            }
            assert(views.take(labels@.len() as int) =~= views);
            out.append("}");
        }
        assert(out@ =~= named + labels_text(views));
        out.append(" ");
        value.append_to(&mut out);
        out.append("\n");
        self.out = out;
        assert(self.out@ =~= before + sample_text(
            self.name@,
            sample_of(labels@, value.amount()),
        ));
    }
}

/// A label value carries a table name, and table names are not validated
/// anywhere - a client may create one with a quote in it. Unescaped, that single
/// name would make the whole scrape unparseable for every other metric too.
fn write_escaped(dest: &mut String, src: &str)
    ensures
        final(dest)@ == old(dest)@ + escaped(src@),
{
    proof {
        reveal_strlit("\\\\");
        reveal_strlit("\\\"");
        reveal_strlit("\\n");
        assert(src@.take(0) =~= Seq::<char>::empty());
        assert(dest@ =~= old(dest)@ + escaped(src@.take(0)));
    }
    for c in it: src.chars()
        invariant
            it.seq() == src@,
            dest@ == old(dest)@ + escaped(src@.take(it.index() as int)),
            "\\\\"@ == seq!['\\', '\\'],
            "\\\""@ == seq!['\\', '"'],
            "\\n"@ == seq!['\\', 'n'],
    {
        proof {
            let so_far = src@.take(it.index() + 1);
            assert(so_far.drop_last() =~= src@.take(it.index() as int));
            assert(so_far.last() == c);
        }
        let ghost before = dest@;
        if c == '\\' {
            dest.append("\\\\");
        } else if c == '"' {
            dest.append("\\\"");
        } else if c == '\n' {
            dest.append("\\n");
        } else {
            dest.push(c);
        }
        assert(dest@ =~= before + escaped_char(c));
        assert(dest@ =~= old(dest)@ + escaped(src@.take(it.index() + 1)));
    }
    assert(src@.take(src@.len() as int) =~= src@);
}

impl MetricsWriter {
    pub fn new() -> (r: Self)
        ensures
            r.out@ == Seq::<char>::empty(),
    {
        MetricsWriter { out: String::new() }
    }

    /// One metric family: its two header lines, then its samples. Writing them
    /// through here is what keeps a family from being declared twice or a sample
    /// from being emitted without its `# TYPE`.
    pub fn family<'s, F: FnOnce(&mut FamilyWriter<'s>)>(
        &mut self,
        name: &'s str,
        help: &str,
        kind: MetricKind,
        write: F,
    )
        requires
            forall|family: &mut FamilyWriter<'s>| #[trigger] call_requires(write, (family,)),
        ensures
            exists|family: &mut FamilyWriter<'s>| #[trigger]
                call_ensures(write, (family,), ()) && family.name@ == name@ && family.out@ == old(
                    self,
                ).out@ + header_text(name@, help@, kind) && final(self).out@ == final(family).out@,
    {
        let ghost before = self.out@;
        let mut out = String::new();
        std::mem::swap(&mut out, &mut self.out);
        out.append("# HELP ");
        out.append(name);
        out.append(" ");
        out.append(help);
        out.append("\n");
        out.append("# TYPE ");
        out.append(name);
        out.append(" ");
        out.append(kind.as_str());
        out.append("\n");
        assert(out@ =~= before + header_text(name@, help@, kind));
        let mut family = FamilyWriter { out, name };
        write(&mut family);
        self.out = family.out;
    }

    pub fn build(self) -> (r: String)
        ensures
            r@ == self.out@,
    {
        self.out
    }
}

}
