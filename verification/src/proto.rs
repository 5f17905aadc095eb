//! The remote-write request of Prometheus, read straight from its protobuf encoding.
//!
//! A request is a list of time series. The label `__name__` of a series names the table that
//! it goes to; it is not kept among the labels.

use bytes::Bytes;
use vstd::prelude::*;

use crate::prom_wire;
use crate::prom_wire::WireType;
use crate::text;

verus! {

/// What keeps a request from being read.
#[derive(Clone, Copy, Debug, PartialEq, Eq, Structural)]
pub enum FaultKind {
    /// A number is not encoded as one.
    InvalidVarint,
    /// A field does not start with a key.
    InvalidKey,
    /// A field that is passed over has no end.
    InvalidField,
    /// There are fewer bytes than announced.
    BufferUnderflow,
    /// The fields of a message do not end where it ends.
    DelimitedLengthExceeded,
    /// A field is laid out in another way than its type says.
    UnexpectedWireType,
    /// The name of a table is not UTF-8.
    NotUtf8,
}

/// A field, by the message that it belongs to and its name.
#[derive(Clone, Copy, Debug, PartialEq, Eq, Structural)]
pub enum Place {
    LabelName,
    LabelValue,
    SampleValue,
    SampleTimestamp,
    SeriesLabels,
    SeriesSamples,
    RequestTimeseries,
}

/// Why a request cannot be read: what is wrong, the decoder's own account of it where it gave
/// one, and the fields that it is in, from the innermost out.
#[derive(Debug)]
pub struct PromDecodeError {
    pub kind: FaultKind,
    pub cause: Option<prost::DecodeError>,
    pub stack: Vec<Place>,
}

/// The view of a [`PromDecodeError`].
pub struct Fault {
    pub kind: FaultKind,
    pub stack: Seq<Place>,
}

impl Fault {
    /// The same fault, in a field.
    pub open spec fn within(self, place: Place) -> Fault {
        Fault { kind: self.kind, stack: self.stack.push(place) }
    }
}

/// A fault that is in no field.
pub open spec fn fault(kind: FaultKind) -> Fault {
    Fault { kind, stack: Seq::empty() }
}

impl View for PromDecodeError {
    type V = Fault;

    open spec fn view(&self) -> Fault {
        Fault { kind: self.kind, stack: self.stack@ }
    }
}

impl PromDecodeError {
    fn of(kind: FaultKind) -> (r: Self)
        ensures
            r@ == fault(kind),
    {
        PromDecodeError { kind, cause: None, stack: Vec::new() }
    }

    fn caused(kind: FaultKind, cause: prost::DecodeError) -> (r: Self)
        ensures
            r@ == fault(kind),
    {
        PromDecodeError { kind, cause: Some(cause), stack: Vec::new() }
    }

    fn within(self, place: Place) -> (r: Self)
        ensures
            r@ == self@.within(place),
    {
        let mut stack = self.stack;
        stack.push(place);
        PromDecodeError { kind: self.kind, cause: self.cause, stack }
    }
}

/// What follows, or what keeps it from being found.
pub type Rest = Result<Seq<u8>, Fault>;

/// What was read off the front of `before` and left `after` ends as `rest` says.
pub open spec fn reads(
    r: Result<(), PromDecodeError>,
    rest: Rest,
    before: Seq<u8>,
    after: Seq<u8>,
) -> bool {
    match r {
        Ok(_) => rest == Ok::<Seq<u8>, Fault>(after) && after.len() <= before.len(),
        Err(e) => rest == Err::<Seq<u8>, Fault>(e@),
    }
}

/// The same, in a field.
pub open spec fn rest_within(rest: Rest, place: Place) -> Rest {
    match rest {
        Ok(rest) => Ok(rest),
        Err(e) => Err(e.within(place)),
    }
}

/// A label of a series.
pub struct PromLabel {
    pub name: Bytes,
    pub value: Bytes,
}

/// The view of a [`PromLabel`].
pub struct LabelView {
    pub name: Seq<u8>,
    pub value: Seq<u8>,
}

impl View for PromLabel {
    type V = LabelView;

    open spec fn view(&self) -> LabelView {
        LabelView {
            name: prom_wire::contents(self.name),
            value: prom_wire::contents(self.value),
        }
    }
}

/// A value at a time. The value is held as the bits of a 64-bit floating-point number.
#[derive(Clone, Copy, Debug, PartialEq, Eq, Structural)]
pub struct Sample {
    pub value_bits: u64,
    pub timestamp: i64,
}

/// Bytes behind a length, at the front of `s`, and what follows them.
pub open spec fn merged_bytes(value: Seq<u8>, s: Seq<u8>) -> (Seq<u8>, Rest) {
    match prom_wire::varint(s) {
        None => (value, Err(fault(FaultKind::InvalidVarint))),
        Some((len, rest)) => if len > rest.len() {
            (value, Err(fault(FaultKind::BufferUnderflow)))
        } else {
            (rest.take(len as int), Ok(rest.skip(len as int)))
        },
    }
}

/// What follows a field that is passed over.
pub open spec fn passed_over(wire: WireType, tag: u32, s: Seq<u8>) -> Rest {
    match prom_wire::field_rest(wire, tag, s) {
        Some(rest) => Ok(rest),
        None => Err(fault(FaultKind::InvalidField)),
    }
}

fn skip_field(wire: WireType, tag: u32, buf: &mut Bytes) -> (r: Result<(), PromDecodeError>)
    ensures
        reads(
            r,
            passed_over(wire, tag, prom_wire::contents(*old(buf))),
            prom_wire::contents(*old(buf)),
            prom_wire::contents(*final(buf)),
        ),
{
    match prom_wire::skip_field(wire, tag, buf) {
        Ok(_) => Ok(()),
        Err(e) => Err(PromDecodeError::caused(FaultKind::InvalidField, e)),
    }
}

/// Takes bytes off the front.
fn copy_to_bytes(data: &mut Bytes, len: usize) -> (r: Bytes)
    requires
        len <= prom_wire::contents(*old(data)).len(),
    ensures
        prom_wire::contents(r) == prom_wire::contents(*old(data)).take(len as int),
        prom_wire::contents(*final(data)) == prom_wire::contents(*old(data)).skip(len as int),
{
    let ghost all = prom_wire::contents(*data);
    if len == prom_wire::bytes_len(data) {
        let mut taken: Bytes = prom_wire::bytes_new();
        std::mem::swap(data, &mut taken);
        assert(all.take(len as int) =~= all);
        assert(all.skip(len as int) =~= Seq::<u8>::empty());
        taken
    } else {
        prom_wire::bytes_split_to(data, len)
    }
}

/// Takes bytes behind a length off the front.
fn merge_bytes(value: &mut Bytes, buf: &mut Bytes) -> (r: Result<(), PromDecodeError>)
    ensures
        ({
            let (merged, rest) = merged_bytes(
                prom_wire::contents(*old(value)),
                prom_wire::contents(*old(buf)),
            );
            &&& prom_wire::contents(*final(value)) == merged
            &&& reads(
                r,
                rest,
                prom_wire::contents(*old(buf)),
                prom_wire::contents(*final(buf)),
            )
        }),
{
    proof {
        prom_wire::lemma_rest_shorter(prom_wire::contents(*buf));
    }
    let len: u64 = match prom_wire::decode_varint(buf) {
        Ok(len) => len,
        Err(e) => {
            return Err(PromDecodeError::caused(FaultKind::InvalidVarint, e));
        },
    };
    if len > prom_wire::bytes_len(buf) as u64 {
        return Err(PromDecodeError::of(FaultKind::BufferUnderflow));
    }
    *value = copy_to_bytes(buf, len as usize);
    Ok(())
}

/// A label with a field of it read, and what follows.
pub open spec fn label_field(label: LabelView, wire: WireType, tag: u32, s: Seq<u8>) -> (
    LabelView,
    Rest,
) {
    if tag == 1 {
        let (name, rest) = merged_bytes(label.name, s);
        (LabelView { name, value: label.value }, rest_within(rest, Place::LabelName))
    } else if tag == 2 {
        let (value, rest) = merged_bytes(label.value, s);
        (LabelView { name: label.name, value }, rest_within(rest, Place::LabelValue))
    } else {
        (label, passed_over(wire, tag, s))
    }
}

/// A label with fields of it read, until no more than `limit` bytes follow.
pub open spec fn label_fields(label: LabelView, s: Seq<u8>, limit: nat) -> (LabelView, Rest)
    decreases s.len(),
{
    if s.len() <= limit {
        (label, Ok(s))
    } else {
        match prom_wire::key(s) {
            None => (label, Err(fault(FaultKind::InvalidKey))),
            Some((tag, wire, body)) => {
                let (next, rest) = label_field(label, wire, tag, body);
                match rest {
                    Ok(rest) if rest.len() < s.len() => label_fields(next, rest, limit),
                    _ => (next, rest),
                }
            },
        }
    }
}

impl PromLabel {
    /// A label without a name and a value.
    pub fn new() -> (r: Self)
        ensures
            r@ == (LabelView { name: Seq::empty(), value: Seq::empty() }),
    {
        PromLabel { name: prom_wire::bytes_new(), value: prom_wire::bytes_new() }
    }

    /// Reads a field of a label, whose key was read.
    pub fn merge_field(&mut self, tag: u32, wire_type: WireType, buf: &mut Bytes) -> (r: Result<
        (),
        PromDecodeError,
    >)
        ensures
            ({
                let (label, rest) = label_field(
                    old(self)@,
                    wire_type,
                    tag,
                    prom_wire::contents(*old(buf)),
                );
                &&& final(self)@ == label
                &&& reads(
                    r,
                    rest,
                    prom_wire::contents(*old(buf)),
                    prom_wire::contents(*final(buf)),
                )
            }),
    {
        if tag == 1 {
            match merge_bytes(&mut self.name, buf) {
                Ok(_) => Ok(()),
                Err(e) => Err(e.within(Place::LabelName)),
            }
        } else if tag == 2 {
            match merge_bytes(&mut self.value, buf) {
                Ok(_) => Ok(()),
                Err(e) => Err(e.within(Place::LabelValue)),
            }
        } else {
            skip_field(wire_type, tag, buf)
        }
    }
}

/// Reads fields of a label, until no more than `limit` bytes follow.
fn merge_label_fields(label: &mut PromLabel, buf: &mut Bytes, limit: usize) -> (r: Result<
    (),
    PromDecodeError,
>)
    ensures
        ({
            let (merged, rest) = label_fields(
                old(label)@,
                prom_wire::contents(*old(buf)),
                limit as nat,
            );
            &&& final(label)@ == merged
            &&& reads(
                r,
                rest,
                prom_wire::contents(*old(buf)),
                prom_wire::contents(*final(buf)),
            )
        }),
{
    let ghost start = label@;
    let ghost all = prom_wire::contents(*buf);
    while prom_wire::bytes_len(buf) > limit
        invariant
            label_fields(start, all, limit as nat) == label_fields(
                label@,
                prom_wire::contents(*buf),
                limit as nat,
            ),
            prom_wire::contents(*buf).len() <= all.len(),
            start == old(label)@,
            all == prom_wire::contents(*old(buf)),
        decreases prom_wire::contents(*buf).len(),
    {
        proof {
            prom_wire::lemma_rest_shorter(prom_wire::contents(*buf));
        }
        let (tag, wire) = match prom_wire::decode_key(buf) {
            Ok(key) => key,
            Err(e) => {
                return Err(PromDecodeError::caused(FaultKind::InvalidKey, e));
            },
        };
        match label.merge_field(tag, wire, buf) {
            Ok(_) => {},
            Err(e) => {
                return Err(e);
            },
        }
    }
    Ok(())
}

/// A number as a signed one: its upper half stands for the numbers below zero.
pub open spec fn as_signed(n: nat) -> int {
    if n <= i64::MAX {
        n as int
    } else {
        n - 0x1_0000_0000_0000_0000
    }
}

/// A sample with a field of it read, and what follows.
pub open spec fn sample_field(sample: Sample, wire: WireType, tag: u32, s: Seq<u8>) -> (
    Sample,
    Rest,
) {
    if tag == 1 {
        if wire != WireType::SixtyFourBit {
            (sample, Err(fault(FaultKind::UnexpectedWireType).within(Place::SampleValue)))
        } else if s.len() < 8 {
            (sample, Err(fault(FaultKind::BufferUnderflow).within(Place::SampleValue)))
        } else {
            (
                Sample {
                    value_bits: prom_wire::little_endian(s.take(8)) as u64,
                    timestamp: sample.timestamp,
                },
                Ok(s.skip(8)),
            )
        }
    } else if tag == 2 {
        if wire != WireType::Varint {
            (sample, Err(fault(FaultKind::UnexpectedWireType).within(Place::SampleTimestamp)))
        } else {
            match prom_wire::varint(s) {
                None => (sample, Err(fault(FaultKind::InvalidVarint).within(Place::SampleTimestamp))),
                Some((n, rest)) => (
                    Sample { value_bits: sample.value_bits, timestamp: as_signed(n) as i64 },
                    Ok(rest),
                ),
            }
        }
    } else {
        (sample, passed_over(wire, tag, s))
    }
}

/// A sample with fields of it read, until no more than `limit` bytes follow.
pub open spec fn sample_fields(sample: Sample, s: Seq<u8>, limit: nat) -> (Sample, Rest)
    decreases s.len(),
{
    if s.len() <= limit {
        (sample, Ok(s))
    } else {
        match prom_wire::key(s) {
            None => (sample, Err(fault(FaultKind::InvalidKey))),
            Some((tag, wire, body)) => {
                let (next, rest) = sample_field(sample, wire, tag, body);
                match rest {
                    Ok(rest) if rest.len() < s.len() => sample_fields(next, rest, limit),
                    _ => (next, rest),
                }
            },
        }
    }
}

/// What follows a message, whose fields were read until no more than `limit` bytes followed.
pub open spec fn ends_at(rest: Rest, limit: nat) -> Rest {
    match rest {
        Ok(after) if after.len() != limit => Err(fault(FaultKind::DelimitedLengthExceeded)),
        _ => rest,
    }
}

/// A sample that nothing was read of.
pub open spec fn no_sample() -> Sample {
    Sample { value_bits: 0, timestamp: 0 }
}

/// The sample behind a length, and what follows it.
pub open spec fn sample_message(s: Seq<u8>) -> (Sample, Rest) {
    match prom_wire::varint(s) {
        None => (no_sample(), Err(fault(FaultKind::InvalidVarint))),
        Some((len, body)) => if len > body.len() {
            (no_sample(), Err(fault(FaultKind::BufferUnderflow)))
        } else {
            let limit = (body.len() - len) as nat;
            let (sample, rest) = sample_fields(no_sample(), body, limit);
            (sample, ends_at(rest, limit))
        },
    }
}

impl Sample {
    /// Reads a field of a sample, whose key was read.
    pub fn merge_field(&mut self, tag: u32, wire_type: WireType, buf: &mut Bytes) -> (r: Result<
        (),
        PromDecodeError,
    >)
        ensures
            ({
                let (sample, rest) = sample_field(
                    *old(self),
                    wire_type,
                    tag,
                    prom_wire::contents(*old(buf)),
                );
                &&& *final(self) == sample
                &&& reads(
                    r,
                    rest,
                    prom_wire::contents(*old(buf)),
                    prom_wire::contents(*final(buf)),
                )
            }),
    {
        if tag == 1 {
            if wire_type != WireType::SixtyFourBit {
                return Err(
                    PromDecodeError::of(FaultKind::UnexpectedWireType).within(Place::SampleValue),
                );
            }
            if prom_wire::bytes_len(buf) < 8 {
                return Err(
                    PromDecodeError::of(FaultKind::BufferUnderflow).within(Place::SampleValue),
                );
            }
            self.value_bits = prom_wire::bytes_get_u64_le(buf);
            Ok(())
        } else if tag == 2 {
            if wire_type != WireType::Varint {
                return Err(
                    PromDecodeError::of(FaultKind::UnexpectedWireType).within(
                        Place::SampleTimestamp,
                    ),
                );
            }
            proof {
                prom_wire::lemma_rest_shorter(prom_wire::contents(*buf));
            }
            match prom_wire::decode_varint(buf) {
                Ok(n) => {
                    self.timestamp =
                    if n <= 0x7fff_ffff_ffff_ffff {
                        n as i64
                    } else {
                        (n - 0x8000_0000_0000_0000) as i64 + i64::MIN
                    };
                    Ok(())
                },
                Err(e) => Err(
                    PromDecodeError::caused(FaultKind::InvalidVarint, e).within(
                        Place::SampleTimestamp,
                    ),
                ),
            }
        } else {
            skip_field(wire_type, tag, buf)
        }
    }
}

/// Reads a sample behind a length.
fn merge_sample(sample: &mut Sample, buf: &mut Bytes) -> (r: Result<(), PromDecodeError>)
    requires
        *old(sample) == no_sample(),
    ensures
        ({
            let (merged, rest) = sample_message(prom_wire::contents(*old(buf)));
            &&& *final(sample) == merged
            &&& reads(
                r,
                rest,
                prom_wire::contents(*old(buf)),
                prom_wire::contents(*final(buf)),
            )
        }),
{
    let ghost before = prom_wire::contents(*buf);
    proof {
        prom_wire::lemma_rest_shorter(before);
    }
    let len: u64 = match prom_wire::decode_varint(buf) {
        Ok(len) => len,
        Err(e) => {
            return Err(PromDecodeError::caused(FaultKind::InvalidVarint, e));
        },
    };
    let remaining: usize = prom_wire::bytes_len(buf);
    if len > remaining as u64 {
        return Err(PromDecodeError::of(FaultKind::BufferUnderflow));
    }
    let limit: usize = remaining - len as usize;
    let ghost body = prom_wire::contents(*buf);
    while prom_wire::bytes_len(buf) > limit
        invariant
            sample_fields(no_sample(), body, limit as nat) == sample_fields(
                *sample,
                prom_wire::contents(*buf),
                limit as nat,
            ),
            prom_wire::contents(*buf).len() <= body.len() < before.len(),
            before == prom_wire::contents(*old(buf)),
            prom_wire::varint(before) == Some((len as nat, body)),
            len <= body.len(),
            limit == body.len() - len,
        decreases prom_wire::contents(*buf).len(),
    {
        proof {
            prom_wire::lemma_rest_shorter(prom_wire::contents(*buf));
        }
        let (tag, wire) = match prom_wire::decode_key(buf) {
            Ok(key) => key,
            Err(e) => {
                return Err(PromDecodeError::caused(FaultKind::InvalidKey, e));
            },
        };
        match sample.merge_field(tag, wire, buf) {
            Ok(_) => {},
            Err(e) => {
                return Err(e);
            },
        }
    }
    if prom_wire::bytes_len(buf) != limit {
        return Err(PromDecodeError::of(FaultKind::DelimitedLengthExceeded));
    }
    Ok(())
}

/// A series: samples with the labels that they share, and the table that they go to.
pub struct PromTimeSeries {
    pub table_name: String,
    pub labels: Vec<PromLabel>,
    pub samples: Vec<Sample>,
}

/// The view of a [`PromTimeSeries`].
#[verifier::ext_equal]
pub struct SeriesView {
    pub table_name: Seq<char>,
    pub labels: Seq<LabelView>,
    pub samples: Seq<Sample>,
}

/// What a list of labels holds.
pub open spec fn label_views(labels: Seq<PromLabel>) -> Seq<LabelView> {
    labels.map_values(|l: PromLabel| l@)
}

impl View for PromTimeSeries {
    type V = SeriesView;

    open spec fn view(&self) -> SeriesView {
        SeriesView {
            table_name: self.table_name@,
            labels: label_views(self.labels@),
            samples: self.samples@,
        }
    }
}

/// A series that nothing was read of.
pub open spec fn no_series() -> SeriesView {
    SeriesView { table_name: Seq::empty(), labels: Seq::empty(), samples: Seq::empty() }
}

/// A label that nothing was read of.
pub open spec fn no_label() -> LabelView {
    LabelView { name: Seq::empty(), value: Seq::empty() }
}

/// The bytes `__name__`.
pub open spec fn metric_name_label() -> Seq<u8> {
    seq![95u8, 95, 110, 97, 109, 101, 95, 95]
}

impl SeriesView {
    /// The series with one more label.
    pub open spec fn with_label(self, label: LabelView) -> SeriesView {
        SeriesView {
            table_name: self.table_name,
            labels: self.labels.push(label),
            samples: self.samples,
        }
    }

    /// The series with one more sample.
    pub open spec fn with_sample(self, sample: Sample) -> SeriesView {
        SeriesView {
            table_name: self.table_name,
            labels: self.labels,
            samples: self.samples.push(sample),
        }
    }

    /// The series with a label that was read to its end: the label `__name__` names the table,
    /// any other is kept.
    pub open spec fn labelled(self, label: LabelView, rest: Seq<u8>) -> (SeriesView, Rest) {
        if label.name != metric_name_label() {
            (self.with_label(label), Ok(rest))
        } else if vstd::utf8::valid_utf8(label.value) {
            (
                SeriesView {
                    table_name: vstd::utf8::decode_utf8(label.value),
                    labels: self.labels,
                    samples: self.samples,
                },
                Ok(rest),
            )
        } else {
            (self.with_label(label), Err(fault(FaultKind::NotUtf8)))
        }
    }
}

/// A series with a label behind a length read, and what follows.
pub open spec fn label_message(series: SeriesView, s: Seq<u8>) -> (SeriesView, Rest) {
    match prom_wire::varint(s) {
        None => (
            series.with_label(no_label()),
            Err(fault(FaultKind::InvalidVarint).within(Place::SeriesLabels)),
        ),
        Some((len, body)) => if len > body.len() {
            (series.with_label(no_label()), Err(fault(FaultKind::BufferUnderflow)))
        } else {
            let limit = (body.len() - len) as nat;
            let (label, rest) = label_fields(no_label(), body, limit);
            match ends_at(rest, limit) {
                Ok(rest) => series.labelled(label, rest),
                Err(e) => (series.with_label(label), Err(e)),
            }
        },
    }
}

/// A series with a field of it read, and what follows.
pub open spec fn series_field(series: SeriesView, wire: WireType, tag: u32, s: Seq<u8>) -> (
    SeriesView,
    Rest,
) {
    if tag == 1 {
        label_message(series, s)
    } else if tag == 2 {
        let (sample, rest) = sample_message(s);
        (series.with_sample(sample), rest_within(rest, Place::SeriesSamples))
    } else {
        (series, passed_over(wire, tag, s))
    }
}

/// A series with fields of it read, until no more than `limit` bytes follow.
pub open spec fn series_fields(series: SeriesView, s: Seq<u8>, limit: nat) -> (SeriesView, Rest)
    decreases s.len(),
{
    if s.len() <= limit {
        (series, Ok(s))
    } else {
        match prom_wire::key(s) {
            None => (series, Err(fault(FaultKind::InvalidKey))),
            Some((tag, wire, body)) => {
                let (next, rest) = series_field(series, wire, tag, body);
                match rest {
                    Ok(rest) if rest.len() < s.len() => series_fields(next, rest, limit),
                    _ => (next, rest),
                }
            },
        }
    }
}

/// Whether bytes are `__name__`.
fn is_metric_name(name: &Bytes) -> (r: bool)
    ensures
        r == (prom_wire::contents(*name) == metric_name_label()),
{
    let bytes: Vec<u8> = prom_wire::bytes_to_vec(name);
    text::bytes_equal(bytes.as_slice(), &[95, 95, 110, 97, 109, 101, 95, 95])
}

impl PromTimeSeries {
    /// A series without labels and samples.
    pub fn new() -> (r: Self)
        ensures
            r@ == no_series(),
    {
        let r = PromTimeSeries {
            table_name: String::new(),
            labels: Vec::new(),
            samples: Vec::new(),
        };
        assert(r@ =~= no_series());
        r
    }

    /// Empties the series.
    pub fn clear(&mut self)
        ensures
            final(self)@ == no_series(),
    {
        *self = PromTimeSeries::new();
    }

    /// Adds a label.
    fn push_label(&mut self, label: PromLabel)
        ensures
            final(self)@ == old(self)@.with_label(label@),
    {
        self.labels.push(label);
        assert(self@ =~= old(self)@.with_label(label@));
    }

    /// Reads a label behind a length.
    fn merge_label(&mut self, buf: &mut Bytes) -> (r: Result<(), PromDecodeError>)
        ensures
            ({
                let (series, rest) = label_message(old(self)@, prom_wire::contents(*old(buf)));
                &&& final(self)@ == series
                &&& reads(
                    r,
                    rest,
                    prom_wire::contents(*old(buf)),
                    prom_wire::contents(*final(buf)),
                )
            }),
    {
        proof {
            prom_wire::lemma_rest_shorter(prom_wire::contents(*buf));
        }
        let mut label: PromLabel = PromLabel::new();
        let len: u64 = match prom_wire::decode_varint(buf) {
            Ok(len) => len,
            Err(e) => {
                self.push_label(label);
                return Err(
                    PromDecodeError::caused(FaultKind::InvalidVarint, e).within(
                        Place::SeriesLabels,
                    ),
                );
            },
        };
        let remaining: usize = prom_wire::bytes_len(buf);
        if len > remaining as u64 {
            self.push_label(label);
            return Err(PromDecodeError::of(FaultKind::BufferUnderflow));
        }
        let limit: usize = remaining - len as usize;
        match merge_label_fields(&mut label, buf, limit) {
            Ok(_) => {},
            Err(e) => {
                self.push_label(label);
                return Err(e);
            },
        }
        if prom_wire::bytes_len(buf) != limit {
            self.push_label(label);
            return Err(PromDecodeError::of(FaultKind::DelimitedLengthExceeded));
        }
        if is_metric_name(&label.name) {
            match text::utf8_string(prom_wire::bytes_to_vec(&label.value)) {
                Some(table_name) => {
                    proof {
                        vstd::utf8::encode_utf8_decode_utf8(table_name@);
                    }
                    self.table_name = table_name;
                },
                None => {
                    self.push_label(label);
                    return Err(PromDecodeError::of(FaultKind::NotUtf8));
                },
            }
        } else {
            self.push_label(label);
        }
        Ok(())
    }

    /// Reads a field of a series, whose key was read.
    pub fn merge_field(&mut self, tag: u32, wire_type: WireType, buf: &mut Bytes) -> (r: Result<
        (),
        PromDecodeError,
    >)
        ensures
            ({
                let (series, rest) = series_field(
                    old(self)@,
                    wire_type,
                    tag,
                    prom_wire::contents(*old(buf)),
                );
                &&& final(self)@ == series
                &&& reads(
                    r,
                    rest,
                    prom_wire::contents(*old(buf)),
                    prom_wire::contents(*final(buf)),
                )
            }),
    {
        if tag == 1 {
            self.merge_label(buf)
        } else if tag == 2 {
            let mut sample: Sample = Sample { value_bits: 0, timestamp: 0 };
            let r: Result<(), PromDecodeError> = merge_sample(&mut sample, buf);
            self.samples.push(sample);
            assert(self@ =~= old(self)@.with_sample(sample));
            match r {
                Ok(_) => Ok(()),
                Err(e) => Err(e.within(Place::SeriesSamples)),
            }
        } else {
            skip_field(wire_type, tag, buf)
        }
    }

    /// Hands the series over to the tables and leaves an empty one.
    fn add_to_table_data(&mut self, table_data: &mut Vec<PromTimeSeries>)
        ensures
            final(self)@ == no_series(),
            series_views(final(table_data)@) == series_views(old(table_data)@).push(old(self)@),
    {
        let mut series: PromTimeSeries = PromTimeSeries::new();
        std::mem::swap(self, &mut series);
        table_data.push(series);
        assert(series_views(table_data@) =~= series_views(old(table_data)@).push(old(self)@));
    }
}

/// What a list of series holds.
pub open spec fn series_views(series: Seq<PromTimeSeries>) -> Seq<SeriesView> {
    series.map_values(|s: PromTimeSeries| s@)
}

/// A request: the series that were read to their end, and one that may have been begun.
pub struct PromWriteRequest {
    pub table_data: Vec<PromTimeSeries>,
    pub series: PromTimeSeries,
}

/// The view of a [`PromWriteRequest`].
#[verifier::ext_equal]
pub struct RequestView {
    pub table_data: Seq<SeriesView>,
    pub series: SeriesView,
}

impl View for PromWriteRequest {
    type V = RequestView;

    open spec fn view(&self) -> RequestView {
        RequestView { table_data: series_views(self.table_data@), series: self.series@ }
    }
}

impl RequestView {
    /// The request with a series in the place of the one that was begun.
    pub open spec fn with_series(self, series: SeriesView) -> RequestView {
        RequestView { table_data: self.table_data, series }
    }

    /// The request with the series handed over.
    pub open spec fn handed_over(self) -> RequestView {
        RequestView { table_data: self.table_data.push(self.series), series: no_series() }
    }
}

/// A request with a series behind a length read, and what follows.
pub open spec fn series_message(request: RequestView, s: Seq<u8>) -> (RequestView, Rest) {
    match prom_wire::varint(s) {
        None => (
            request,
            Err(fault(FaultKind::InvalidVarint).within(Place::RequestTimeseries)),
        ),
        Some((len, body)) => if len > body.len() {
            (request, Err(fault(FaultKind::BufferUnderflow)))
        } else {
            let limit = (body.len() - len) as nat;
            let (series, rest) = series_fields(request.series, body, limit);
            match ends_at(rest, limit) {
                Ok(rest) => (request.with_series(series).handed_over(), Ok(rest)),
                Err(e) => (request.with_series(series), Err(e)),
            }
        },
    }
}

/// A request with a field of it read, and what follows.
pub open spec fn request_field(request: RequestView, wire: WireType, tag: u32, s: Seq<u8>) -> (
    RequestView,
    Rest,
) {
    if wire != WireType::LengthDelimited {
        (request, Err(fault(FaultKind::UnexpectedWireType)))
    } else if tag == 1 {
        series_message(request, s)
    } else {
        (request, passed_over(wire, tag, s))
    }
}

/// A request with all its fields read, or what keeps them from being read.
pub open spec fn request_fields(request: RequestView, s: Seq<u8>) -> (RequestView, Option<Fault>)
    decreases s.len(),
{
    if s.len() == 0 {
        (request, None)
    } else {
        match prom_wire::key(s) {
            None => (request, Some(fault(FaultKind::InvalidKey))),
            Some((tag, wire, body)) => {
                let (next, rest) = request_field(request, wire, tag, body);
                match rest {
                    Ok(rest) if rest.len() < s.len() => request_fields(next, rest),
                    Ok(_) => (next, None),
                    Err(e) => (next, Some(e)),
                }
            },
        }
    }
}

/// The number of samples in a list of series.
pub open spec fn total_samples(series: Seq<SeriesView>) -> nat
    decreases series.len(),
{
    if series.len() == 0 {
        0
    } else {
        total_samples(series.drop_last()) + series.last().samples.len()
    }
}

impl PromWriteRequest {
    /// A request without series.
    pub fn new() -> (r: Self)
        ensures
            r@ == (RequestView { table_data: Seq::empty(), series: no_series() }),
    {
        let r = PromWriteRequest { table_data: Vec::new(), series: PromTimeSeries::new() };
        assert(r@ =~= RequestView { table_data: Seq::empty(), series: no_series() });
        r
    }

    /// Forgets the series that were read to their end.
    pub fn clear(&mut self)
        ensures
            final(self)@ == (RequestView { table_data: Seq::empty(), series: old(self)@.series }),
    {
        self.table_data = Vec::new();
        assert(self@ =~= RequestView { table_data: Seq::empty(), series: old(self)@.series });
    }

    /// Takes the series that were read to their end.
    pub fn take_table_data(&mut self) -> (r: Vec<PromTimeSeries>)
        ensures
            series_views(r@) == old(self)@.table_data,
            final(self)@ == (RequestView { table_data: Seq::empty(), series: old(self)@.series }),
    {
        let mut series: Vec<PromTimeSeries> = Vec::new();
        std::mem::swap(&mut self.table_data, &mut series);
        assert(self@ =~= RequestView { table_data: Seq::empty(), series: old(self)@.series });
        series
    }

    /// Takes the series that were read to their end, and says how many samples they have.
    pub fn as_row_insert_requests(&mut self) -> (r: (Vec<PromTimeSeries>, usize))
        requires
            total_samples(old(self)@.table_data) <= usize::MAX,
        ensures
            series_views(r.0@) == old(self)@.table_data,
            r.1 == total_samples(old(self)@.table_data),
            final(self)@ == (RequestView { table_data: Seq::empty(), series: old(self)@.series }),
    {
        let series: Vec<PromTimeSeries> = self.take_table_data();
        let ghost views = series_views(series@);
        let mut samples: usize = 0;
        let mut i: usize = 0;
        assert(views.take(0) =~= Seq::<SeriesView>::empty());
        while i < series.len()
            invariant
                i <= series@.len(),
                views == series_views(series@),
                samples == total_samples(views.take(i as int)),
                total_samples(views) <= usize::MAX,
            decreases series@.len() - i,
        {
            proof {
                lemma_total_samples(views, i + 1);
            }
            assert(views.take(i + 1).drop_last() =~= views.take(i as int));
            assert(views.take(i + 1).last() == series@[i as int]@);
            samples = samples + series[i].samples.len();
            i = i + 1;
        }
        assert(views.take(i as int) =~= views);
        (series, samples)
    }

    /// Reads a series behind a length.
    fn merge_series(&mut self, buf: &mut Bytes) -> (r: Result<(), PromDecodeError>)
        ensures
            ({
                let (request, rest) = series_message(old(self)@, prom_wire::contents(*old(buf)));
                &&& final(self)@ == request
                &&& reads(
                    r,
                    rest,
                    prom_wire::contents(*old(buf)),
                    prom_wire::contents(*final(buf)),
                )
            }),
    {
        let ghost before = prom_wire::contents(*buf);
        let ghost start = self@;
        proof {
            prom_wire::lemma_rest_shorter(before);
        }
        let len: u64 = match prom_wire::decode_varint(buf) {
            Ok(len) => len,
            Err(e) => {
                return Err(
                    PromDecodeError::caused(FaultKind::InvalidVarint, e).within(
                        Place::RequestTimeseries,
                    ),
                );
            },
        };
        let remaining: usize = prom_wire::bytes_len(buf);
        if len > remaining as u64 {
            return Err(PromDecodeError::of(FaultKind::BufferUnderflow));
        }
        let limit: usize = remaining - len as usize;
        let ghost body = prom_wire::contents(*buf);
        while prom_wire::bytes_len(buf) > limit
            invariant
                series_fields(start.series, body, limit as nat) == series_fields(
                    self.series@,
                    prom_wire::contents(*buf),
                    limit as nat,
                ),
                self@ == start.with_series(self.series@),
                prom_wire::contents(*buf).len() <= body.len() < before.len(),
                start == old(self)@,
                before == prom_wire::contents(*old(buf)),
                prom_wire::varint(before) == Some((len as nat, body)),
                len <= body.len(),
                limit == body.len() - len,
            decreases prom_wire::contents(*buf).len(),
        {
            proof {
                prom_wire::lemma_rest_shorter(prom_wire::contents(*buf));
            }
            let (tag, wire) = match prom_wire::decode_key(buf) {
                Ok(key) => key,
                Err(e) => {
                    return Err(PromDecodeError::caused(FaultKind::InvalidKey, e));
                },
            };
            match self.series.merge_field(tag, wire, buf) {
                Ok(_) => {},
                Err(e) => {
                    return Err(e);
                },
            }
        }
        if prom_wire::bytes_len(buf) != limit {
            return Err(PromDecodeError::of(FaultKind::DelimitedLengthExceeded));
        }
        self.series.add_to_table_data(&mut self.table_data);
        assert(self@ =~= start.with_series(series_fields(start.series, body, limit as nat).0)
            .handed_over());
        Ok(())
    }

    /// Reads a request. Where it fails, the series that were read to their end before stay, and
    /// so does what was read of the one after them.
    pub fn merge(&mut self, buf: Bytes) -> (r: Result<(), PromDecodeError>)
        ensures
            ({
                let (request, failed) = request_fields(old(self)@, prom_wire::contents(buf));
                &&& final(self)@ == request
                &&& match r {
                    Ok(_) => failed is None,
                    Err(e) => failed == Some(e@),
                }
            }),
    {
        let ghost start = self@;
        let ghost all = prom_wire::contents(buf);
        let mut rest = buf;
        while prom_wire::bytes_len(&rest) > 0
            invariant
                request_fields(start, all) == request_fields(self@, prom_wire::contents(rest)),
                start == old(self)@,
                all == prom_wire::contents(buf),
            decreases prom_wire::contents(rest).len(),
        {
            proof {
                prom_wire::lemma_rest_shorter(prom_wire::contents(rest));
            }
            let (tag, wire) = match prom_wire::decode_key(&mut rest) {
                Ok(key) => key,
                Err(e) => {
                    return Err(PromDecodeError::caused(FaultKind::InvalidKey, e));
                },
            };
            if wire != WireType::LengthDelimited {
                return Err(PromDecodeError::of(FaultKind::UnexpectedWireType));
            }
            let field: Result<(), PromDecodeError> = if tag == 1 {
                self.merge_series(&mut rest)
            } else {
                skip_field(wire, tag, &mut rest)
            };
            match field {
                Ok(_) => {},
                Err(e) => {
                    return Err(e);
                },
            }
        }
        Ok(())
    }
}

/// The first of a list of series have no more samples than all of them.
proof fn lemma_total_samples(series: Seq<SeriesView>, n: int)
    requires
        0 <= n <= series.len(),
    ensures
        total_samples(series.take(n)) <= total_samples(series),
    decreases series.len() - n,
{
    if n < series.len() {
        lemma_total_samples(series, n + 1);
        assert(series.take(n + 1).drop_last() =~= series.take(n));
    } else {
        assert(series.take(n) =~= series);
    }
}

proof fn lemma_reads_alike(front: Seq<SeriesView>, request: RequestView, s: Seq<u8>)
    requires
        request.series == no_series(),
    ensures
        ({
            let used = RequestView {
                table_data: front + request.table_data,
                series: no_series(),
            };
            let (after, failed) = request_fields(used, s);
            let (fresh, fault) = request_fields(request, s);
            &&& failed == fault
            &&& after.series == fresh.series
            &&& after.table_data == front + fresh.table_data
            &&& failed is None ==> after.series == no_series()
        }),
    decreases s.len(),
{
    let used = RequestView { table_data: front + request.table_data, series: no_series() };
    if s.len() > 0 {
        if let Some((tag, wire, body)) = prom_wire::key(s) {
            let (next, rest) = request_field(request, wire, tag, body);
            let (used_next, used_rest) = request_field(used, wire, tag, body);
            assert(used_rest == rest);
            assert(used_next.series == next.series);
            assert(used_next.table_data =~= front + next.table_data);
            if let Ok(rest) = rest {
                assert(next.series == no_series());
                if rest.len() < s.len() {
                    lemma_reads_alike(front, next, rest);
                }
            }
        }
    }
}

/// A request that was read to its end can be used again: whatever bytes it then reads, it reads
/// as a new one does, behind the series that it has not handed over. Where it was cleared, there
/// are none.
pub proof fn law_request_used_again(request: RequestView, s: Seq<u8>)
    requires
        request.series == no_series(),
    ensures
        ({
            let new = RequestView { table_data: Seq::empty(), series: no_series() };
            let (after, failed) = request_fields(request, s);
            let (fresh, fault) = request_fields(new, s);
            &&& failed == fault
            &&& after.series == fresh.series
            &&& after.table_data == request.table_data + fresh.table_data
            &&& failed is None ==> after.series == no_series()
        }),
{
    let new = RequestView { table_data: Seq::empty(), series: no_series() };
    assert(request.table_data + new.table_data =~= request.table_data);
    lemma_reads_alike(request.table_data, new, s);
}

/// What is said of a request that was read is what it holds: each series with its table, its
/// labels and its samples, at their places.
pub proof fn law_request_as_it_is(request: PromWriteRequest, i: int, l: int)
    ensures
        request@.table_data.len() == request.table_data@.len(),
        request@.series.table_name == request.series.table_name@,
        request@.series.samples == request.series.samples@,
        request@.series.labels.len() == request.series.labels@.len(),
        0 <= i < request.table_data@.len() ==> {
            let series = request@.table_data[i];
            let given = request.table_data@[i];
            &&& series.table_name == given.table_name@
            &&& series.samples == given.samples@
            &&& series.labels.len() == given.labels@.len()
            &&& 0 <= l < given.labels@.len() ==> series.labels[l].name == prom_wire::contents(
                given.labels@[l].name,
            ) && series.labels[l].value == prom_wire::contents(given.labels@[l].value)
        },
{
}

/// What is said of a broken request is where it is broken: the fault, and the fields around it,
/// the innermost first.
pub proof fn law_fault_as_it_is(e: PromDecodeError, place: Place)
    ensures
        e@.kind == e.kind,
        e@.stack == e.stack@,
        e@.within(place).kind == e.kind,
        e@.within(place).stack == e.stack@.push(place),
{
}

} // verus!
