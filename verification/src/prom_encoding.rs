//! How a remote-write request is encoded, and that what is encoded is read back.

use vstd::prelude::*;

use crate::prom_wire;
use crate::prom_wire::WireType;
use crate::proto;
use crate::proto::{Fault, LabelView, RequestView, Sample, SeriesView};

verus! {

/// A number: its digits in base 128, least significant first, all but the last with the high
/// bit set.
pub open spec fn encoded_varint(n: nat) -> Seq<u8>
    decreases n,
{
    if n < 128 {
        seq![n as u8]
    } else {
        seq![(128 + n % 128) as u8] + encoded_varint(n / 128)
    }
}

/// The digits of a number in base 256, least significant first.
pub open spec fn little_endian_bytes(n: nat, len: nat) -> Seq<u8>
    decreases len,
{
    if len == 0 {
        Seq::empty()
    } else {
        seq![(n % 256) as u8] + little_endian_bytes(n / 256, (len - 1) as nat)
    }
}

/// A number of 64 bits for a signed one.
pub open spec fn as_unsigned(n: i64) -> nat {
    if n >= 0 {
        n as nat
    } else {
        (n + 0x1_0000_0000_0000_0000) as nat
    }
}

/// A field of bytes.
pub open spec fn encoded_bytes(tag: nat, b: Seq<u8>) -> Seq<u8> {
    seq![(tag * 8 + 2) as u8] + (encoded_varint(b.len()) + b)
}

/// The fields of a label.
pub open spec fn encoded_label(label: LabelView) -> Seq<u8> {
    encoded_bytes(1, label.name) + encoded_bytes(2, label.value)
}

/// The fields of a sample.
pub open spec fn encoded_sample(sample: Sample) -> Seq<u8> {
    (seq![9u8] + little_endian_bytes(sample.value_bits as nat, 8)) + (seq![16u8] + encoded_varint(
        as_unsigned(sample.timestamp),
    ))
}

/// Labels, each as a field of a series.
pub open spec fn encoded_labels(labels: Seq<LabelView>) -> Seq<u8>
    decreases labels.len(),
{
    if labels.len() == 0 {
        Seq::empty()
    } else {
        encoded_bytes(1, encoded_label(labels[0])) + encoded_labels(labels.drop_first())
    }
}

/// Samples, each as a field of a series.
pub open spec fn encoded_samples(samples: Seq<Sample>) -> Seq<u8>
    decreases samples.len(),
{
    if samples.len() == 0 {
        Seq::empty()
    } else {
        encoded_bytes(2, encoded_sample(samples[0])) + encoded_samples(samples.drop_first())
    }
}

/// The label that names the table of a series.
pub open spec fn name_label(series: SeriesView) -> LabelView {
    LabelView {
        name: proto::metric_name_label(),
        value: vstd::utf8::encode_utf8(series.table_name),
    }
}

/// The fields of a series.
pub open spec fn encoded_series(series: SeriesView) -> Seq<u8> {
    encoded_bytes(1, encoded_label(name_label(series))) + (encoded_labels(series.labels)
        + encoded_samples(series.samples))
}

/// The fields of a request.
pub open spec fn encoded_request(series: Seq<SeriesView>) -> Seq<u8>
    decreases series.len(),
{
    if series.len() == 0 {
        Seq::empty()
    } else {
        encoded_bytes(1, encoded_series(series[0])) + encoded_request(series.drop_first())
    }
}

/// The number that the digits from a place on stay below.
spec fn bound(at: nat) -> nat {
    if at == 0 {
        0x1_0000_0000_0000_0000
    } else if at == 1 {
        0x200_0000_0000_0000
    } else if at == 2 {
        0x4_0000_0000_0000
    } else if at == 3 {
        0x800_0000_0000
    } else if at == 4 {
        0x10_0000_0000
    } else if at == 5 {
        0x2000_0000
    } else if at == 6 {
        0x40_0000
    } else if at == 7 {
        0x8000
    } else if at == 8 {
        0x100
    } else {
        2
    }
}

proof fn lemma_varint_from(n: nat, at: nat, t: Seq<u8>)
    requires
        at <= 9,
        n < bound(at),
    ensures
        prom_wire::varint_from(encoded_varint(n) + t, at) == Some((n, encoded_varint(n).len())),
    decreases n,
{
    let s = encoded_varint(n) + t;
    if n >= 128 {
        lemma_varint_from(n / 128, at + 1, t);
        assert(s.drop_first() =~= encoded_varint(n / 128) + t);
        assert(s[0] == 128 + n % 128);
    }
}

/// An encoded number is read back, and what follows it is left.
proof fn lemma_varint(n: nat, t: Seq<u8>)
    requires
        n <= u64::MAX,
    ensures
        prom_wire::varint(encoded_varint(n) + t) == Some((n, t)),
{
    lemma_varint_from(n, 0, t);
    assert((encoded_varint(n) + t).skip(encoded_varint(n).len() as int) =~= t);
}

/// A key of one byte is read back.
proof fn lemma_key(b: u8, t: Seq<u8>)
    requires
        8 <= b < 128,
        prom_wire::wire_type((b % 8) as nat) is Some,
    ensures
        prom_wire::key(seq![b] + t) == Some(
            ((b / 8) as u32, prom_wire::wire_type((b % 8) as nat)->0, t),
        ),
{
    assert((seq![b] + t).skip(1) =~= t);
}

/// Encoded bytes are read back, key first, and what follows them is left.
proof fn lemma_bytes(tag: nat, b: Seq<u8>, t: Seq<u8>, value: Seq<u8>)
    requires
        1 <= tag <= 3,
        b.len() <= u64::MAX,
    ensures
        ({
            let body = encoded_varint(b.len()) + (b + t);
            &&& prom_wire::key(encoded_bytes(tag, b) + t) == Some(
                (tag as u32, WireType::LengthDelimited, body),
            )
            &&& prom_wire::varint(body) == Some((b.len(), b + t))
            &&& proto::merged_bytes(value, body) == (b, Ok::<Seq<u8>, Fault>(t))
            &&& body.len() < (encoded_bytes(tag, b) + t).len()
            &&& (b + t).len() < body.len()
        }),
{
    let body = encoded_varint(b.len()) + (b + t);
    let k = (tag * 8 + 2) as u8;
    assert(encoded_bytes(tag, b) + t =~= seq![k] + body);
    lemma_key(k, body);
    lemma_varint(b.len(), b + t);
    assert((b + t).take(b.len() as int) =~= b);
    assert((b + t).skip(b.len() as int) =~= t);
    prom_wire::lemma_rest_shorter(body);
}

proof fn lemma_label(label: LabelView, t: Seq<u8>)
    requires
        label.name.len() <= u64::MAX,
        label.value.len() <= u64::MAX,
    ensures
        proto::label_fields(proto::no_label(), encoded_label(label) + t, t.len()) == (
            label,
            Ok::<Seq<u8>, Fault>(t),
        ),
{
    let value = encoded_bytes(2, label.value) + t;
    assert(encoded_label(label) + t =~= encoded_bytes(1, label.name) + value);
    lemma_bytes(1, label.name, value, Seq::empty());
    lemma_bytes(2, label.value, t, Seq::empty());
    reveal_with_fuel(proto::label_fields, 3);
}

spec fn pow256(n: nat) -> nat
    decreases n,
{
    if n == 0 {
        1
    } else {
        256 * pow256((n - 1) as nat)
    }
}

proof fn lemma_little_endian(n: nat, len: nat)
    requires
        n < pow256(len),
    ensures
        little_endian_bytes(n, len).len() == len,
        prom_wire::little_endian(little_endian_bytes(n, len)) == n,
    decreases len,
{
    if len > 0 {
        lemma_little_endian(n / 256, (len - 1) as nat);
        assert(little_endian_bytes(n, len).drop_first() =~= little_endian_bytes(
            n / 256,
            (len - 1) as nat,
        ));
    }
}

proof fn lemma_sample(sample: Sample, t: Seq<u8>)
    ensures
        proto::sample_fields(proto::no_sample(), encoded_sample(sample) + t, t.len()) == (
            sample,
            Ok::<Seq<u8>, Fault>(t),
        ),
{
    let bits = little_endian_bytes(sample.value_bits as nat, 8);
    assert(pow256(8) == 0x1_0000_0000_0000_0000) by {
        reveal_with_fuel(pow256, 9);
    }
    lemma_little_endian(sample.value_bits as nat, 8);
    let n = as_unsigned(sample.timestamp);
    let time = encoded_varint(n) + t;
    let all = encoded_sample(sample) + t;
    assert(all =~= seq![9u8] + (bits + (seq![16u8] + time)));
    lemma_key(9, bits + (seq![16u8] + time));
    lemma_key(16, time);
    lemma_varint(n, t);
    assert((bits + (seq![16u8] + time)).take(8) =~= bits);
    assert((bits + (seq![16u8] + time)).skip(8) =~= seq![16u8] + time);
    prom_wire::lemma_rest_shorter(time);
    assert(proto::as_signed(n) == sample.timestamp);
    reveal_with_fuel(proto::sample_fields, 3);
}

/// A series with an encoded label read.
proof fn lemma_label_read(series: SeriesView, label: LabelView, t: Seq<u8>, limit: nat)
    requires
        label.name.len() <= u64::MAX,
        label.value.len() <= u64::MAX,
        encoded_label(label).len() <= u64::MAX,
        limit <= t.len(),
        series.labelled(label, t).1 is Ok,
    ensures
        proto::series_fields(series, encoded_bytes(1, encoded_label(label)) + t, limit)
            == proto::series_fields(series.labelled(label, t).0, t, limit),
{
    lemma_bytes(1, encoded_label(label), t, Seq::empty());
    lemma_label(label, t);
    assert(((encoded_label(label) + t).len() - encoded_label(label).len()) as nat == t.len());
}

/// A series with encoded labels read.
proof fn lemma_labels_read(series: SeriesView, labels: Seq<LabelView>, t: Seq<u8>, limit: nat)
    requires
        forall|i: int| 0 <= i < labels.len() ==> #[trigger] labels[i].name
            != proto::metric_name_label(),
        encoded_labels(labels).len() <= u64::MAX,
        limit <= t.len(),
    ensures
        proto::series_fields(series, encoded_labels(labels) + t, limit) == proto::series_fields(
            SeriesView {
                table_name: series.table_name,
                labels: series.labels + labels,
                samples: series.samples,
            },
            t,
            limit,
        ),
    decreases labels.len(),
{
    if labels.len() == 0 {
        assert(encoded_labels(labels) + t =~= t);
        assert(series.labels + labels =~= series.labels);
    } else {
        let tail = labels.drop_first();
        let rest = encoded_labels(tail) + t;
        assert(encoded_labels(labels) + t =~= encoded_bytes(1, encoded_label(labels[0])) + rest);
        assert forall|i: int| 0 <= i < tail.len() implies #[trigger] tail[i].name
            != proto::metric_name_label() by {
            assert(labels[i + 1].name != proto::metric_name_label());
        }
        assert(labels[0].name != proto::metric_name_label());
        lemma_label_read(series, labels[0], rest, limit);
        let next = series.with_label(labels[0]);
        lemma_labels_read(next, tail, t, limit);
        assert(next.labels + tail =~= series.labels + labels);
    }
}

/// A series with encoded samples read.
proof fn lemma_samples_read(series: SeriesView, samples: Seq<Sample>, t: Seq<u8>, limit: nat)
    requires
        encoded_samples(samples).len() <= u64::MAX,
        limit <= t.len(),
    ensures
        proto::series_fields(series, encoded_samples(samples) + t, limit) == proto::series_fields(
            SeriesView {
                table_name: series.table_name,
                labels: series.labels,
                samples: series.samples + samples,
            },
            t,
            limit,
        ),
    decreases samples.len(),
{
    if samples.len() == 0 {
        assert(encoded_samples(samples) + t =~= t);
        assert(series.samples + samples =~= series.samples);
    } else {
        let tail = samples.drop_first();
        let rest = encoded_samples(tail) + t;
        let sample = encoded_sample(samples[0]);
        assert(encoded_samples(samples) + t =~= encoded_bytes(2, sample) + rest);
        lemma_bytes(2, sample, rest, Seq::empty());
        lemma_sample(samples[0], rest);
        assert(((sample + rest).len() - sample.len()) as nat == rest.len());
        let next = series.with_sample(samples[0]);
        lemma_samples_read(next, tail, t, limit);
        assert(next.samples + tail =~= series.samples + samples);
    }
}

/// A series whose labels are not the one that names its table.
pub open spec fn is_plain(series: SeriesView) -> bool {
    forall|i: int| 0 <= i < series.labels.len() ==> #[trigger] series.labels[i].name
        != proto::metric_name_label()
}

proof fn lemma_series(series: SeriesView, t: Seq<u8>)
    requires
        is_plain(series),
        encoded_series(series).len() <= u64::MAX,
    ensures
        proto::series_fields(proto::no_series(), encoded_series(series) + t, t.len()) == (
            series,
            Ok::<Seq<u8>, Fault>(t),
        ),
{
    let name = name_label(series);
    let samples = encoded_samples(series.samples) + t;
    let rest = encoded_labels(series.labels) + samples;
    assert(encoded_series(series) + t =~= encoded_bytes(1, encoded_label(name)) + rest);
    vstd::utf8::encode_utf8_valid_utf8(series.table_name);
    vstd::utf8::encode_utf8_decode_utf8(series.table_name);
    lemma_label_read(proto::no_series(), name, rest, t.len());
    let named = proto::no_series().labelled(name, rest).0;
    lemma_labels_read(named, series.labels, samples, t.len());
    let labelled = SeriesView {
        table_name: named.table_name,
        labels: named.labels + series.labels,
        samples: named.samples,
    };
    lemma_samples_read(labelled, series.samples, t, t.len());
    assert(labelled.samples + series.samples =~= series.samples);
    assert(labelled.labels =~= series.labels);
}

/// A request with an encoded series read.
proof fn lemma_series_read(request: RequestView, series: SeriesView, t: Seq<u8>)
    requires
        request.series == proto::no_series(),
        is_plain(series),
        encoded_series(series).len() <= u64::MAX,
    ensures
        proto::request_fields(request, encoded_bytes(1, encoded_series(series)) + t)
            == proto::request_fields(request.with_series(series).handed_over(), t),
{
    let fields = encoded_series(series);
    let body = encoded_varint(fields.len()) + (fields + t);
    lemma_bytes(1, fields, t, Seq::empty());
    lemma_series(series, t);
    assert(((fields + t).len() - fields.len()) as nat == t.len());
    let next = request.with_series(series).handed_over();
    assert(proto::series_message(request, body) == (next, Ok::<Seq<u8>, Fault>(t)));
    assert(proto::request_field(request, WireType::LengthDelimited, 1, body) == (
        next,
        Ok::<Seq<u8>, Fault>(t),
    ));
}

/// A request that is encoded is read back: the series that are read are those that were
/// encoded, in their order, after the ones that were there before.
pub proof fn law_request_read_back(request: RequestView, series: Seq<SeriesView>)
    requires
        request.series == proto::no_series(),
        forall|i: int| 0 <= i < series.len() ==> is_plain(#[trigger] series[i]),
        encoded_request(series).len() <= u64::MAX,
    ensures
        proto::request_fields(request, encoded_request(series)) == (
            RequestView {
                table_data: request.table_data + series,
                series: proto::no_series(),
            },
            None::<Fault>,
        ),
    decreases series.len(),
{
    if series.len() == 0 {
        assert(request.table_data + series =~= request.table_data);
    } else {
        let tail = series.drop_first();
        let rest = encoded_request(tail);
        assert(is_plain(series[0]));
        lemma_series_read(request, series[0], rest);
        let next = request.with_series(series[0]).handed_over();
        assert forall|i: int| 0 <= i < tail.len() implies is_plain(#[trigger] tail[i]) by {
            assert(is_plain(series[i + 1]));
        }
        law_request_read_back(next, tail);
        assert(next.table_data + tail =~= request.table_data + series);
    }
}

/// A field of bytes that is not known is passed over: a request with one reads as one without,
/// and so does a series.
pub proof fn law_unknown_field_is_passed_over(
    request: RequestView,
    series: SeriesView,
    b: Seq<u8>,
    t: Seq<u8>,
)
    requires
        b.len() <= u64::MAX,
    ensures
        proto::request_fields(request, encoded_bytes(2, b) + t) == proto::request_fields(request, t),
        proto::request_fields(request, encoded_bytes(3, b) + t) == proto::request_fields(request, t),
        proto::series_fields(series, encoded_bytes(3, b) + t, t.len()) == (
            series,
            Ok::<Seq<u8>, Fault>(t),
        ),
{
    lemma_bytes(2, b, t, Seq::empty());
    lemma_bytes(3, b, t, Seq::empty());
    assert((b + t).skip(b.len() as int) =~= t);
    reveal_with_fuel(proto::series_fields, 2);
}

/// A request that is cut short is refused: where a series is said to be longer than what follows,
/// and where a key or a length is missing. So is a field of another layout than bytes. What was
/// read before stays.
pub proof fn law_broken_request_is_refused(request: RequestView, n: nat, b: Seq<u8>, t: Seq<u8>)
    requires
        b.len() < n <= u64::MAX,
    ensures
        proto::request_fields(request, seq![10u8] + (encoded_varint(n) + b)) == (
            request,
            Some(proto::fault(proto::FaultKind::BufferUnderflow)),
        ),
        proto::request_fields(request, seq![8u8] + t) == (
            request,
            Some(proto::fault(proto::FaultKind::UnexpectedWireType)),
        ),
        proto::request_fields(request, seq![0u8] + t) == (
            request,
            Some(proto::fault(proto::FaultKind::InvalidKey)),
        ),
        proto::request_fields(request, seq![10u8]).1 is Some,
        proto::request_fields(request, seq![10u8]).0 == request,
{
    let body = encoded_varint(n) + b;
    lemma_key(10, body);
    lemma_varint(n, b);
    lemma_key(8, t);
    lemma_key(10, Seq::empty());
    assert(seq![10u8] + Seq::<u8>::empty() =~= seq![10u8]);
    assert((seq![0u8] + t)[0] == 0);
    assert(prom_wire::varint_from(seq![0u8] + t, 0) == Some((0nat, 1nat)));
    assert(prom_wire::varint_from(Seq::<u8>::empty(), 0) is None);
}

/// The samples of series are counted: those of two lists together are those of the one and those
/// of the other, and one series has as many as it holds.
pub proof fn law_samples_are_counted(
    a: Seq<SeriesView>,
    b: Seq<SeriesView>,
    series: SeriesView,
)
    ensures
        proto::total_samples(a + b) == proto::total_samples(a) + proto::total_samples(b),
        proto::total_samples(seq![series]) == series.samples.len(),
        proto::total_samples(Seq::empty()) == 0,
    decreases b.len(),
{
    reveal_with_fuel(proto::total_samples, 2);
    assert(seq![series].drop_last() =~= Seq::<SeriesView>::empty());
    if b.len() == 0 {
        assert(a + b =~= a);
    } else {
        law_samples_are_counted(a, b.drop_last(), series);
        assert((a + b).drop_last() =~= a + b.drop_last());
    }
}

/// A field that is read takes the place of what was read of it before, and leaves the other
/// fields; so of a field that comes twice the last counts, and the order of the fields does not.
/// What follows the field is left.
pub proof fn law_field_replaces(
    label: LabelView,
    sample: Sample,
    b: Seq<u8>,
    value_bits: u64,
    timestamp: i64,
    t: Seq<u8>,
)
    requires
        b.len() <= u64::MAX,
    ensures
        proto::label_field(label, WireType::LengthDelimited, 1, encoded_varint(b.len()) + (b + t))
            == (LabelView { name: b, value: label.value }, Ok::<Seq<u8>, Fault>(t)),
        proto::label_field(label, WireType::LengthDelimited, 2, encoded_varint(b.len()) + (b + t))
            == (LabelView { name: label.name, value: b }, Ok::<Seq<u8>, Fault>(t)),
        proto::label_field(label, WireType::LengthDelimited, 3, encoded_varint(b.len()) + (b + t))
            == (label, Ok::<Seq<u8>, Fault>(t)),
        proto::sample_field(
            sample,
            WireType::SixtyFourBit,
            1,
            little_endian_bytes(value_bits as nat, 8) + t,
        ) == (Sample { value_bits, timestamp: sample.timestamp }, Ok::<Seq<u8>, Fault>(t)),
        proto::sample_field(
            sample,
            WireType::Varint,
            2,
            encoded_varint(as_unsigned(timestamp)) + t,
        ) == (Sample { value_bits: sample.value_bits, timestamp }, Ok::<Seq<u8>, Fault>(t)),
        proto::sample_field(
            sample,
            WireType::LengthDelimited,
            3,
            encoded_varint(b.len()) + (b + t),
        ) == (sample, Ok::<Seq<u8>, Fault>(t)),
{
    lemma_varint(b.len(), b + t);
    assert((b + t).take(b.len() as int) =~= b);
    assert((b + t).skip(b.len() as int) =~= t);
    let bits = little_endian_bytes(value_bits as nat, 8);
    assert(pow256(8) == 0x1_0000_0000_0000_0000) by {
        reveal_with_fuel(pow256, 9);
    }
    lemma_little_endian(value_bits as nat, 8);
    assert((bits + t).take(8) =~= bits);
    assert((bits + t).skip(8) =~= t);
    lemma_varint(as_unsigned(timestamp), t);
    assert(proto::as_signed(as_unsigned(timestamp)) == timestamp);
}

/// A broken field is told by where it is: a name or a value of a label and a value or a time of a
/// sample that are cut short, or laid out in another way, with their own place, and a sample's
/// also with that of the samples of the series.
pub proof fn law_broken_field_is_told(
    label: LabelView,
    sample: Sample,
    series: SeriesView,
    n: nat,
    b: Seq<u8>,
)
    requires
        b.len() < n <= u64::MAX,
    ensures
        proto::label_field(label, WireType::LengthDelimited, 1, encoded_varint(n) + b) == (
            label,
            Err::<Seq<u8>, Fault>(
                Fault {
                    kind: proto::FaultKind::BufferUnderflow,
                    stack: seq![proto::Place::LabelName],
                },
            ),
        ),
        proto::label_field(label, WireType::LengthDelimited, 2, encoded_varint(n) + b) == (
            label,
            Err::<Seq<u8>, Fault>(
                Fault {
                    kind: proto::FaultKind::BufferUnderflow,
                    stack: seq![proto::Place::LabelValue],
                },
            ),
        ),
        proto::label_field(label, WireType::LengthDelimited, 1, Seq::empty()).1 == Err::<
            Seq<u8>,
            Fault,
        >(
            Fault {
                kind: proto::FaultKind::InvalidVarint,
                stack: seq![proto::Place::LabelName],
            },
        ),
        b.len() < 8 ==> proto::sample_field(sample, WireType::SixtyFourBit, 1, b) == (
            sample,
            Err::<Seq<u8>, Fault>(
                Fault {
                    kind: proto::FaultKind::BufferUnderflow,
                    stack: seq![proto::Place::SampleValue],
                },
            ),
        ),
        proto::sample_field(sample, WireType::Varint, 1, b) == (
            sample,
            Err::<Seq<u8>, Fault>(
                Fault {
                    kind: proto::FaultKind::UnexpectedWireType,
                    stack: seq![proto::Place::SampleValue],
                },
            ),
        ),
        proto::sample_field(sample, WireType::SixtyFourBit, 2, b) == (
            sample,
            Err::<Seq<u8>, Fault>(
                Fault {
                    kind: proto::FaultKind::UnexpectedWireType,
                    stack: seq![proto::Place::SampleTimestamp],
                },
            ),
        ),
        proto::sample_field(sample, WireType::Varint, 2, Seq::empty()) == (
            sample,
            Err::<Seq<u8>, Fault>(
                Fault {
                    kind: proto::FaultKind::InvalidVarint,
                    stack: seq![proto::Place::SampleTimestamp],
                },
            ),
        ),
        proto::series_field(series, WireType::LengthDelimited, 2, encoded_varint(n) + b).1 == Err::<
            Seq<u8>,
            Fault,
        >(
            Fault {
                kind: proto::FaultKind::BufferUnderflow,
                stack: seq![proto::Place::SeriesSamples],
            },
        ),
        proto::series_field(series, WireType::LengthDelimited, 1, Seq::empty()).1 == Err::<
            Seq<u8>,
            Fault,
        >(
            Fault {
                kind: proto::FaultKind::InvalidVarint,
                stack: seq![proto::Place::SeriesLabels],
            },
        ),
{
    lemma_varint(n, b);
    assert(prom_wire::varint_from(Seq::<u8>::empty(), 0) is None);
    assert(Seq::<proto::Place>::empty().push(proto::Place::LabelName)
        =~= seq![proto::Place::LabelName]);
    assert(Seq::<proto::Place>::empty().push(proto::Place::LabelValue)
        =~= seq![proto::Place::LabelValue]);
    assert(Seq::<proto::Place>::empty().push(proto::Place::SampleValue)
        =~= seq![proto::Place::SampleValue]);
    assert(Seq::<proto::Place>::empty().push(proto::Place::SampleTimestamp)
        =~= seq![proto::Place::SampleTimestamp]);
    assert(Seq::<proto::Place>::empty().push(proto::Place::SeriesSamples)
        =~= seq![proto::Place::SeriesSamples]);
    assert(Seq::<proto::Place>::empty().push(proto::Place::SeriesLabels)
        =~= seq![proto::Place::SeriesLabels]);
}

/// The label `__name__` names the table of a series and is not kept among the labels; any other
/// label is kept, at the end. A name that is no text is refused.
pub proof fn law_name_label_names_the_table(series: SeriesView, label: LabelView, t: Seq<u8>)
    ensures
        ({
            let (next, rest) = series.labelled(label, t);
            let is_name = label.name == seq![95u8, 95, 110, 97, 109, 101, 95, 95];
            let is_text = vstd::utf8::valid_utf8(label.value);
            &&& next.samples == series.samples
            &&& is_name && is_text ==> rest == Ok::<Seq<u8>, Fault>(t) && next.labels
                == series.labels && vstd::utf8::encode_utf8(next.table_name) == label.value
            &&& is_name && !is_text ==> (rest matches Err(e) && e.kind
                == proto::FaultKind::NotUtf8 && e.stack.len() == 0)
            &&& !is_name ==> rest == Ok::<Seq<u8>, Fault>(t) && next.table_name
                == series.table_name && next.labels == series.labels.push(label)
        }),
{
    assert(proto::metric_name_label() =~= seq![95u8, 95, 110, 97, 109, 101, 95, 95]);
    if vstd::utf8::valid_utf8(label.value) {
        vstd::utf8::decode_utf8_encode_utf8(label.value);
    }
}

/// The series of a request that a client encoded are those that are read of it, in order, each
/// with its table, its labels and its samples.
pub proof fn law_encoded_request_is_decoded(
    request: &mut proto::PromWriteRequest,
    series: Seq<SeriesView>,
    buf: Vec<u8>,
    r: Result<Vec<proto::PromTimeSeries>, crate::prom_store::WriteError>,
    i: int,
)
    requires
        old(request)@.table_data.len() == 0,
        old(request)@.series == proto::no_series(),
        forall|k: int| 0 <= k < series.len() ==> is_plain(#[trigger] series[k]),
        encoded_request(series).len() <= u64::MAX,
        buf@ == encoded_request(series),
        call_ensures(crate::prom_store::decode_remote_write_request, (request, buf), r),
        0 <= i < series.len(),
    ensures
        r matches Ok(read) && read@.len() == series.len() && read@[i].table_name@
            == series[i].table_name && read@[i].samples@ == series[i].samples
            && read@[i].labels@.len() == series[i].labels.len(),
{
    law_request_read_back(old(request)@, series);
    assert(old(request)@.table_data + series =~= series);
    if let Ok(read) = r {
        assert(proto::series_views(read@) == series);
        assert(proto::series_views(read@).len() == read@.len());
        assert(proto::series_views(read@)[i] == read@[i]@);
        assert(read@[i]@.labels.len() == read@[i].labels@.len());
    }
}

} // verus!
