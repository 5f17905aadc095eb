//! The index of tables that have been dropped and can still be brought back.
//!
//! An entry says that a table was dropped, and holds what is needed to restore it or, once
//! its retention has passed, to drop it for good. Its key is
//! `__trash/{dropped_at_millis:020}/{table_id}`. The time is written with 20 digits, so that
//! the order of the keys as byte strings is the order in which the tables were dropped, and
//! one range of keys holds all entries from before a given time.

use vstd::prelude::*;
use vstd::slice::slice_to_vec;

use crate::text;

verus! {

/// The digits that the time takes in a key. The largest time has 19.
pub const DROPPED_AT_WIDTH: usize = 20;

/// The place of a dropped table in the index.
#[derive(Clone, Copy, Debug, PartialEq, Eq, Hash, Structural)]
pub struct TrashEntryKey {
    pub dropped_at_millis: i64,
    pub table_id: u32,
}

/// What keeps bytes from being a key.
#[derive(Clone, Debug, PartialEq, Eq)]
pub enum TrashKeyError {
    NotUtf8,
    MissingPrefix,
    MissingTableId,
    InvalidTableId,
    NonNumericDroppedAt { dropped_at: Vec<u8> },
    NonNumericTableId { table_id: Vec<u8> },
}

/// The view of a [`TrashKeyError`].
pub enum TrashKeyFault {
    NotUtf8,
    MissingPrefix,
    MissingTableId,
    InvalidTableId,
    NonNumericDroppedAt { dropped_at: Seq<u8> },
    NonNumericTableId { table_id: Seq<u8> },
}

impl View for TrashKeyError {
    type V = TrashKeyFault;

    open spec fn view(&self) -> TrashKeyFault {
        match self {
            TrashKeyError::NotUtf8 => TrashKeyFault::NotUtf8,
            TrashKeyError::MissingPrefix => TrashKeyFault::MissingPrefix,
            TrashKeyError::MissingTableId => TrashKeyFault::MissingTableId,
            TrashKeyError::InvalidTableId => TrashKeyFault::InvalidTableId,
            TrashKeyError::NonNumericDroppedAt { dropped_at } => {
                TrashKeyFault::NonNumericDroppedAt { dropped_at: dropped_at@ }
            },
            TrashKeyError::NonNumericTableId { table_id } => {
                TrashKeyFault::NonNumericTableId { table_id: table_id@ }
            },
        }
    }
}

/// The bytes `__trash/`.
pub open spec fn prefix_bytes() -> Seq<u8> {
    seq![95u8, 95, 116, 114, 97, 115, 104, 47]
}

/// A time as it stands in a key: no earlier than zero.
pub open spec fn clamped(millis: i64) -> nat {
    if millis < 0 {
        0
    } else {
        millis as nat
    }
}

/// A time as it is written in a key.
pub open spec fn dropped_at_bytes(millis: i64) -> Seq<u8> {
    text::zero_padded(clamped(millis), DROPPED_AT_WIDTH as nat)
}

/// The bytes of a key.
pub open spec fn key_bytes(key: TrashEntryKey) -> Seq<u8> {
    prefix_bytes() + dropped_at_bytes(key.dropped_at_millis) + seq![47u8] + text::decimal(
        key.table_id as nat,
    )
}

/// The bytes that no key of a table dropped before the given time reaches.
pub open spec fn cutoff_bytes(cutoff_millis: i64) -> Seq<u8> {
    prefix_bytes() + dropped_at_bytes(cutoff_millis) + seq![47u8]
}

/// The key that two of its segments stand for.
pub open spec fn parse_segments(dropped_at: Seq<u8>, table_id: Seq<u8>) -> Result<
    TrashEntryKey,
    TrashKeyFault,
> {
    if table_id.len() == 0 || table_id.contains(47) {
        Err(TrashKeyFault::InvalidTableId)
    } else {
        match text::signed_value(dropped_at) {
            Some(millis) if i64::MIN <= millis <= i64::MAX => match text::unsigned_value(table_id) {
                Some(id) if id <= u32::MAX => Ok(
                    TrashEntryKey { dropped_at_millis: millis as i64, table_id: id as u32 },
                ),
                _ => Err(TrashKeyFault::NonNumericTableId { table_id }),
            },
            _ => Err(TrashKeyFault::NonNumericDroppedAt { dropped_at }),
        }
    }
}

/// The first place of a slash.
pub open spec fn slash(rest: Seq<u8>) -> Option<int>
    decreases rest.len(),
{
    if rest.len() == 0 {
        None
    } else if rest[0] == 47 {
        Some(0)
    } else {
        match slash(rest.drop_first()) {
            Some(i) => Some(i + 1),
            None => None,
        }
    }
}

/// The key that bytes stand for, or what keeps them from being one.
pub open spec fn parse_key(bytes: Seq<u8>) -> Result<TrashEntryKey, TrashKeyFault> {
    if !vstd::utf8::valid_utf8(bytes) {
        Err(TrashKeyFault::NotUtf8)
    } else if bytes.len() < 8 || bytes.take(8) != prefix_bytes() {
        Err(TrashKeyFault::MissingPrefix)
    } else {
        let rest = bytes.skip(8);
        match slash(rest) {
            None => Err(TrashKeyFault::MissingTableId),
            Some(i) => parse_segments(rest.take(i), rest.skip(i + 1)),
        }
    }
}

/// What follows from the first slash being where it is.
proof fn lemma_slash(rest: Seq<u8>)
    ensures
        slash(rest) is None ==> !rest.contains(47),
        slash(rest) matches Some(i) ==> 0 <= i < rest.len() && rest[i] == 47 && forall|k: int|
            0 <= k < i ==> #[trigger] rest[k] != 47,
    decreases rest.len(),
{
    if rest.len() > 0 {
        let tail = rest.drop_first();
        lemma_slash(tail);
        if rest[0] != 47 {
            if rest.contains(47) {
                let k = choose|k: int| 0 <= k < rest.len() && rest[k] == 47;
                assert(tail[k - 1] == 47);
            }
            if slash(rest) is Some {
                let i = slash(rest)->0;
                assert forall|k: int| 0 <= k < i implies #[trigger] rest[k] != 47 by {
                    if k > 0 {
                        assert(tail[k - 1] == rest[k]);
                    }
                }
                assert(tail[i - 1] == rest[i]);
            }
        }
    }
}

/// A place of a slash with none before it is the first.
proof fn lemma_slash_at(rest: Seq<u8>, i: int)
    requires
        0 <= i < rest.len(),
        rest[i] == 47,
        forall|k: int| 0 <= k < i ==> #[trigger] rest[k] != 47,
    ensures
        slash(rest) == Some(i),
{
    lemma_slash(rest);
    assert(rest.contains(47));
}

/// The place of the first slash from `from` on.
fn find_slash(bytes: &[u8], from: usize) -> (r: Option<usize>)
    requires
        from <= bytes@.len(),
    ensures
        match r {
            Some(i) => from <= i < bytes@.len() && slash(bytes@.skip(from as int)) == Some(
                i - from,
            ),
            None => slash(bytes@.skip(from as int)) is None,
        },
{
    let ghost rest = bytes@.skip(from as int);
    let mut i: usize = from;
    while i < bytes.len()
        invariant
            from <= i <= bytes@.len(),
            rest == bytes@.skip(from as int),
            forall|k: int| 0 <= k < i - from ==> #[trigger] rest[k] != 47,
        decreases bytes@.len() - i,
    {
        assert(bytes@[i as int] == rest[i - from]);
        if bytes[i] == 47 {
            proof {
                lemma_slash_at(rest, i - from);
            }
            return Some(i);
        }
        i = i + 1;
    }
    proof {
        lemma_slash(rest);
    }
    None
}

/// Appends `__trash/`.
fn push_prefix(out: &mut Vec<u8>)
    ensures
        final(out)@ == old(out)@ + prefix_bytes(),
{
    text::push_bytes(out, &[95, 95, 116, 114, 97, 115, 104, 47]);
}

/// Appends a time as it is written in a key.
fn push_dropped_at(out: &mut Vec<u8>, dropped_at_millis: i64)
    ensures
        final(out)@ == old(out)@ + dropped_at_bytes(dropped_at_millis),
{
    let millis: u64 = if dropped_at_millis < 0 {
        0
    } else {
        dropped_at_millis as u64
    };
    text::push_zero_padded(out, millis, DROPPED_AT_WIDTH);
}

/// A time as it is written in a key: its digits, with zeros in front. A time before zero is
/// written as zero.
pub fn format_dropped_at(dropped_at_millis: i64) -> (r: String)
    ensures
        r@ == text::ascii_chars(dropped_at_bytes(dropped_at_millis)),
{
    let mut out: Vec<u8> = Vec::new();
    push_dropped_at(&mut out, dropped_at_millis);
    assert(out@ =~= dropped_at_bytes(dropped_at_millis));
    proof {
        text::lemma_zero_padded(clamped(dropped_at_millis), DROPPED_AT_WIDTH as nat);
    }
    text::ascii_string(out)
}

impl TrashEntryKey {
    /// The key of a table dropped at a time.
    pub fn new(dropped_at_millis: i64, table_id: u32) -> (r: Self)
        ensures
            r == (TrashEntryKey { dropped_at_millis, table_id }),
    {
        TrashEntryKey { dropped_at_millis, table_id }
    }

    /// What all keys of the index start with, and nothing else.
    pub fn range_prefix() -> (r: Vec<u8>)
        ensures
            r@ == prefix_bytes(),
    {
        let mut out: Vec<u8> = Vec::new();
        push_prefix(&mut out);
        assert(out@ =~= prefix_bytes());
        out
    }

    /// The end of the range of keys of the tables dropped before a time. A table dropped at
    /// that time is not in the range.
    pub fn upper_bound_for_cutoff(cutoff_millis: i64) -> (r: Vec<u8>)
        ensures
            r@ == cutoff_bytes(cutoff_millis),
    {
        let mut out: Vec<u8> = Vec::new();
        push_prefix(&mut out);
        push_dropped_at(&mut out, cutoff_millis);
        out.push(47);
        assert(out@ =~= cutoff_bytes(cutoff_millis));
        out
    }

    /// The key as bytes.
    pub fn to_bytes(&self) -> (r: Vec<u8>)
        ensures
            r@ == key_bytes(*self),
    {
        let mut out: Vec<u8> = TrashEntryKey::upper_bound_for_cutoff(self.dropped_at_millis);
        text::push_decimal(&mut out, self.table_id as u64);
        assert(out@ =~= key_bytes(*self));
        out
    }

    /// The key as text.
    pub fn to_string(&self) -> (r: String)
        ensures
            r@ == text::ascii_chars(key_bytes(*self)),
            vstd::utf8::encode_utf8(r@) == key_bytes(*self),
    {
        let bytes: Vec<u8> = self.to_bytes();
        proof {
            lemma_key_ascii(*self);
            text::lemma_ascii(bytes@);
        }
        text::ascii_string(bytes)
    }

    /// The key that bytes stand for.
    pub fn from_bytes(bytes: &[u8]) -> (r: Result<TrashEntryKey, TrashKeyError>)
        ensures
            match r {
                Ok(key) => parse_key(bytes@) == Ok::<TrashEntryKey, TrashKeyFault>(key),
                Err(e) => parse_key(bytes@) == Err::<TrashEntryKey, TrashKeyFault>(e@),
            },
    {
        if text::utf8_string(slice_to_vec(bytes)).is_none() {
            return Err(TrashKeyError::NotUtf8);
        }
        let prefix: Vec<u8> = TrashEntryKey::range_prefix();
        if bytes.len() < 8 || !text::bytes_equal(
            vstd::slice::slice_subrange(bytes, 0, 8),
            prefix.as_slice(),
        ) {
            return Err(TrashKeyError::MissingPrefix);
        }
        let ghost rest = bytes@.skip(8);
        let end: usize = match find_slash(bytes, 8) {
            Some(end) => end,
            None => {
                return Err(TrashKeyError::MissingTableId);
            },
        };
        let dropped_at: &[u8] = vstd::slice::slice_subrange(bytes, 8, end);
        let table_id: &[u8] = vstd::slice::slice_subrange(bytes, end + 1, bytes.len());
        assert(dropped_at@ =~= rest.take(end - 8));
        assert(table_id@ =~= rest.skip(end - 8 + 1));
        proof {
            lemma_slash(table_id@);
            assert(table_id@.skip(0) =~= table_id@);
        }
        if table_id.len() == 0 || find_slash(table_id, 0).is_some() {
            return Err(TrashKeyError::InvalidTableId);
        }
        let dropped_at_millis: i64 = match text::parse_i64(dropped_at) {
            Some(millis) => millis,
            None => {
                return Err(
                    TrashKeyError::NonNumericDroppedAt { dropped_at: slice_to_vec(dropped_at) },
                );
            },
        };
        match text::parse_u32(table_id) {
            Some(id) => Ok(TrashEntryKey { dropped_at_millis, table_id: id }),
            None => Err(TrashKeyError::NonNumericTableId { table_id: slice_to_vec(table_id) }),
        }
    }
}

/// The bytes of a key stand for characters of their own.
proof fn lemma_key_ascii(key: TrashEntryKey)
    ensures
        forall|i: int| 0 <= i < key_bytes(key).len() ==> #[trigger] key_bytes(key)[i] < 128,
{
    text::lemma_zero_padded(clamped(key.dropped_at_millis), DROPPED_AT_WIDTH as nat);
    text::lemma_decimal(key.table_id as nat);
    let digits = dropped_at_bytes(key.dropped_at_millis);
    let id = text::decimal(key.table_id as nat);
    let bytes = key_bytes(key);
    assert forall|i: int| 0 <= i < bytes.len() implies #[trigger] bytes[i] < 128 by {
        if i >= 8 {
            if i < 8 + digits.len() {
                assert(bytes[i] == digits[i - 8]);
                assert(text::is_digit(digits[i - 8]));
            } else if i > 8 + digits.len() {
                assert(bytes[i] == id[i - 8 - digits.len() - 1]);
                assert(text::is_digit(id[i - 8 - digits.len() - 1]));
            }
        }
    }
}

/// A time that is not before zero takes the whole width.
proof fn lemma_dropped_at(millis: i64)
    ensures
        dropped_at_bytes(millis).len() == DROPPED_AT_WIDTH,
        text::is_number(dropped_at_bytes(millis)),
        text::digits_value(dropped_at_bytes(millis)) == clamped(millis),
{
    reveal_with_fuel(text::pow10, 21);
    text::lemma_decimal_len(clamped(millis), DROPPED_AT_WIDTH as nat);
    text::lemma_zero_padded(clamped(millis), DROPPED_AT_WIDTH as nat);
}

/// A key is read back from its bytes, where the time is not before zero.
pub proof fn law_key_round_trip(key: TrashEntryKey)
    requires
        key.dropped_at_millis >= 0,
    ensures
        parse_key(key_bytes(key)) == Ok::<TrashEntryKey, TrashKeyFault>(key),
{
    let bytes = key_bytes(key);
    let digits = dropped_at_bytes(key.dropped_at_millis);
    let id = text::decimal(key.table_id as nat);
    lemma_key_ascii(key);
    text::lemma_ascii(bytes);
    lemma_dropped_at(key.dropped_at_millis);
    text::lemma_decimal(key.table_id as nat);
    assert(bytes.take(8) =~= prefix_bytes());
    let rest = bytes.skip(8);
    assert(rest =~= digits + seq![47u8] + id);
    assert forall|k: int| 0 <= k < digits.len() implies #[trigger] rest[k] != 47 by {
        assert(text::is_digit(digits[k]));
    }
    lemma_slash_at(rest, digits.len() as int);
    assert(rest.take(digits.len() as int) =~= digits);
    assert(rest.skip(digits.len() as int + 1) =~= id);
    assert(!id.contains(47)) by {
        if id.contains(47) {
            let k = choose|k: int| 0 <= k < id.len() && id[k] == 47;
            assert(text::is_digit(id[k]));
        }
    }
    assert(text::is_digit(digits[0]));
    assert(text::is_digit(id[0]));
}

/// No two keys have the same bytes, where the times are not before zero.
pub proof fn law_key_bytes_differ(a: TrashEntryKey, b: TrashEntryKey)
    requires
        a.dropped_at_millis >= 0,
        b.dropped_at_millis >= 0,
        key_bytes(a) == key_bytes(b),
    ensures
        a == b,
{
    law_key_round_trip(a);
    law_key_round_trip(b);
}

/// A time before zero stands in a key as zero does.
pub proof fn law_negative_clamps(key: TrashEntryKey)
    requires
        key.dropped_at_millis < 0,
    ensures
        key_bytes(key) == key_bytes(TrashEntryKey { dropped_at_millis: 0, ..key }),
{
}

/// Of two keys, the bytes of the one with the earlier time come first.
pub proof fn law_keys_in_order_of_time(a: TrashEntryKey, b: TrashEntryKey)
    requires
        clamped(a.dropped_at_millis) < clamped(b.dropped_at_millis),
    ensures
        text::lex_lt(key_bytes(a), key_bytes(b)),
        !text::lex_lt(key_bytes(b), key_bytes(a)),
{
    let x = dropped_at_bytes(a.dropped_at_millis);
    let y = dropped_at_bytes(b.dropped_at_millis);
    lemma_dropped_at(a.dropped_at_millis);
    lemma_dropped_at(b.dropped_at_millis);
    text::lemma_lex_digits(x, y);
    let s = seq![47u8] + text::decimal(a.table_id as nat);
    let t = seq![47u8] + text::decimal(b.table_id as nat);
    text::lemma_lex_differ(x, y, s, t);
    text::lemma_lex_common(prefix_bytes(), x + s, y + t);
    assert(key_bytes(a) =~= prefix_bytes() + (x + s));
    assert(key_bytes(b) =~= prefix_bytes() + (y + t));
    text::lemma_lex_asymmetric(key_bytes(a), key_bytes(b));
}

/// The range of keys for a cutoff holds the keys of the tables dropped before it, and no
/// other: each key is at or after the start of the range, and is before its end exactly where
/// its time is before the cutoff.
pub proof fn law_cutoff_range(key: TrashEntryKey, cutoff_millis: i64)
    ensures
        !text::lex_lt(key_bytes(key), prefix_bytes()),
        text::lex_lt(key_bytes(key), cutoff_bytes(cutoff_millis)) <==> clamped(
            key.dropped_at_millis,
        ) < clamped(cutoff_millis),
        key.dropped_at_millis >= 0 ==> (text::lex_lt(key_bytes(key), cutoff_bytes(cutoff_millis))
            <==> key.dropped_at_millis < cutoff_millis),
{
    let x = dropped_at_bytes(key.dropped_at_millis);
    let y = dropped_at_bytes(cutoff_millis);
    lemma_dropped_at(key.dropped_at_millis);
    lemma_dropped_at(cutoff_millis);
    let id = text::decimal(key.table_id as nat);
    let s = seq![47u8] + id;
    let t = seq![47u8];
    let empty = Seq::<u8>::empty();
    assert(key_bytes(key) =~= prefix_bytes() + (x + s));
    assert(cutoff_bytes(cutoff_millis) =~= prefix_bytes() + (y + t));
    assert(prefix_bytes() =~= prefix_bytes() + empty);
    text::lemma_lex_common(prefix_bytes(), x + s, empty);
    text::lemma_lex_common(prefix_bytes(), x + s, y + t);
    if clamped(key.dropped_at_millis) == clamped(cutoff_millis) {
        assert(x + s =~= (y + t) + id);
        assert(y + t =~= (y + t) + empty);
        text::lemma_lex_common(y + t, id, empty);
    } else {
        text::lemma_lex_digits(x, y);
        text::lemma_lex_digits(y, x);
        text::lemma_lex_differ(x, y, s, t);
    }
}

/// What is kept of a dropped table.
#[derive(Clone, Debug, PartialEq, Eq)]
pub struct TrashEntry {
    pub table_id: u32,
    pub original_catalog: String,
    pub original_schema: String,
    pub original_name: String,
    pub dropped_at_millis: i64,
    pub retention_millis: i64,
}

/// The nearest time to `millis` that can be held.
pub open spec fn saturated(millis: int) -> int {
    if millis < i64::MIN {
        i64::MIN as int
    } else if millis > i64::MAX {
        i64::MAX as int
    } else {
        millis
    }
}

impl TrashEntry {
    /// The time from which the table may be dropped for good.
    pub fn expires_at_millis(&self) -> (r: i64)
        ensures
            r == saturated(self.dropped_at_millis + self.retention_millis),
    {
        match self.dropped_at_millis.checked_add(self.retention_millis) {
            Some(millis) => millis,
            None => if self.retention_millis < 0 {
                i64::MIN
            } else {
                i64::MAX
            },
        }
    }
}

/// Why an operation on the index fails.
#[derive(Clone, Debug, PartialEq, Eq)]
pub enum TrashError {
    /// The bytes of a key are no key.
    InvalidKey { key: Vec<u8>, reason: TrashKeyError },
    /// The value under a key is no entry.
    InvalidValue { message: String },
    /// There is an entry under the key already.
    AlreadyExists { key: Vec<u8> },
}

/// A pair of the store: the bytes of its key, and its value, read as an entry, or why it is
/// none.
pub struct ScannedPair {
    pub key: Vec<u8>,
    pub value: Result<TrashEntry, String>,
}

/// Asks the store for a pair to be put, if there is none under the key.
pub struct PutIfAbsent {
    pub key: Vec<u8>,
    pub value: Vec<u8>,
}

/// Asks the store for the pairs of a range of keys.
pub enum RangeRequest {
    /// Those whose keys start so.
    Prefix { prefix: Vec<u8> },
    /// Those whose keys are at or after `start`, and before `end`.
    Between { start: Vec<u8>, end: Vec<u8> },
}

/// The view of a [`RangeRequest`].
pub enum RangeView {
    Prefix { prefix: Seq<u8> },
    Between { start: Seq<u8>, end: Seq<u8> },
}

impl View for RangeRequest {
    type V = RangeView;

    open spec fn view(&self) -> RangeView {
        match self {
            RangeRequest::Prefix { prefix } => RangeView::Prefix { prefix: prefix@ },
            RangeRequest::Between { start, end } => {
                RangeView::Between { start: start@, end: end@ }
            },
        }
    }
}

impl RangeView {
    /// Whether a key is one that is asked for.
    pub open spec fn holds(self, key: Seq<u8>) -> bool {
        match self {
            RangeView::Prefix { prefix } => prefix.is_prefix_of(key),
            RangeView::Between { start, end } => !text::lex_lt(key, start) && text::lex_lt(
                key,
                end,
            ),
        }
    }
}

/// What to ask the store for, and how many of the entries found to keep.
pub struct ListPlan {
    pub range: RangeRequest,
    pub limit: Option<usize>,
}

/// What a pair is read as.
pub open spec fn decodes(pair: ScannedPair, r: Result<(TrashEntryKey, TrashEntry), TrashError>) -> bool {
    match parse_key(pair.key@) {
        Err(fault) => r matches Err(TrashError::InvalidKey { key, reason }) && key@ == pair.key@
            && reason@ == fault,
        Ok(key) => match pair.value {
            Ok(entry) => r == Ok::<(TrashEntryKey, TrashEntry), TrashError>((key, entry)),
            Err(e) => r == Err::<(TrashEntryKey, TrashEntry), TrashError>(
                TrashError::InvalidValue { message: e },
            ),
        },
    }
}

/// Whether a pair is an entry under a key.
pub open spec fn is_entry(pair: ScannedPair) -> bool {
    parse_key(pair.key@) is Ok && pair.value is Ok
}

/// Reads a pair of the store.
pub fn trash_decoder(pair: ScannedPair) -> (r: Result<(TrashEntryKey, TrashEntry), TrashError>)
    ensures
        decodes(pair, r),
        r is Ok <==> is_entry(pair),
{
    let key: TrashEntryKey = match TrashEntryKey::from_bytes(pair.key.as_slice()) {
        Ok(key) => key,
        Err(reason) => {
            return Err(TrashError::InvalidKey { key: pair.key, reason });
        },
    };
    match pair.value {
        Ok(entry) => Ok((key, entry)),
        Err(message) => Err(TrashError::InvalidValue { message }),
    }
}

/// The limit that a number stands for: none where it is zero.
pub open spec fn limit_of(limit: usize) -> Option<usize> {
    if limit == 0 {
        None
    } else {
        Some(limit)
    }
}

/// The number of entries that a limit leaves.
pub open spec fn limited(found: nat, limit: Option<usize>) -> nat {
    match limit {
        Some(limit) if limit < found => limit as nat,
        _ => found,
    }
}

/// The entries are those that pairs are read as, in order, as many as the limit leaves.
pub open spec fn collects(
    pairs: Seq<ScannedPair>,
    limit: Option<usize>,
    entries: Seq<(TrashEntryKey, TrashEntry)>,
) -> bool {
    &&& entries.len() == limited(pairs.len(), limit)
    &&& forall|i: int|
        0 <= i < entries.len() ==> parse_key(pairs[i].key@) == Ok::<TrashEntryKey, TrashKeyFault>(
            (#[trigger] entries[i]).0,
        ) && pairs[i].value == Ok::<TrashEntry, String>(entries[i].1)
}

/// Reads the pairs of a scan, in the order in which they come, and keeps as many as the limit
/// leaves. The first pair that is no entry fails the whole.
pub fn collect(pairs: Vec<ScannedPair>, limit: Option<usize>) -> (r: Result<
    Vec<(TrashEntryKey, TrashEntry)>,
    TrashError,
>)
    ensures
        r is Ok <==> forall|i: int| 0 <= i < pairs@.len() ==> is_entry(#[trigger] pairs@[i]),
        match r {
            Ok(entries) => collects(pairs@, limit, entries@),
            Err(e) => exists|i: int|
                0 <= i < pairs@.len() && #[trigger] decodes(pairs@[i], Err(e)) && !is_entry(
                    pairs@[i],
                ) && forall|j: int| 0 <= j < i ==> is_entry(#[trigger] pairs@[j]),
        },
{
    let ghost all = pairs@;
    let mut rest = pairs;
    crate::lists::reverse(&mut rest);
    let ghost reversed = rest@;
    let mut entries: Vec<(TrashEntryKey, TrashEntry)> = Vec::new();
    let n: usize = rest.len();
    let mut i: usize = 0;
    while rest.len() > 0
        invariant
            n == all.len(),
            reversed.len() == all.len(),
            forall|k: int| 0 <= k < all.len() ==> #[trigger] reversed[k] == all[all.len() - 1 - k],
            rest@ == reversed.take(all.len() - i),
            i <= all.len(),
            i == entries@.len(),
            forall|k: int| 0 <= k < i ==> is_entry(#[trigger] all[k]),
            forall|k: int|
                0 <= k < i ==> parse_key(all[k].key@) == Ok::<TrashEntryKey, TrashKeyFault>(
                    (#[trigger] entries@[k]).0,
                ) && all[k].value == Ok::<TrashEntry, String>(entries@[k].1),
            all == pairs@,
        decreases rest@.len(),
    {
        if let Some(pair) = rest.pop() {
            assert(pair == all[i as int]);
            match trash_decoder(pair) {
                Ok(entry) => {
                    entries.push(entry);
                },
                Err(e) => {
                    assert(decodes(all[i as int], Err(e)));
                    return Err(e);
                },
            }
            i = i + 1;
        }
    }
    match limit {
        Some(limit) => {
            entries.truncate(limit);
        },
        None => {},
    }
    Ok(entries)
}

/// Keeps the entries of the index in a store of pairs. It says what to ask the store for, and
/// what an answer means.
pub struct TrashManager<B> {
    pub kv_backend: B,
}

impl<B> TrashManager<B> {
    /// A manager of the index in a store.
    pub fn new(kv_backend: B) -> (r: Self)
        ensures
            r.kv_backend == kv_backend,
    {
        TrashManager { kv_backend }
    }

    /// What to ask the store for to insert an entry, given as the bytes it is stored as.
    pub fn insert(&self, key: &TrashEntryKey, raw_value: Vec<u8>) -> (r: PutIfAbsent)
        ensures
            r.key@ == key_bytes(*key),
            r.value@ == raw_value@,
    {
        PutIfAbsent { key: key.to_bytes(), value: raw_value }
    }

    /// What an insertion comes to, given whether the store put the pair.
    pub fn inserted(&self, key: &TrashEntryKey, succeeded: bool) -> (r: Result<(), TrashError>)
        ensures
            r is Ok <==> succeeded,
            !succeeded ==> (r matches Err(TrashError::AlreadyExists { key: k }) && k@ == key_bytes(
                *key,
            )),
    {
        if succeeded {
            Ok(())
        } else {
            Err(TrashError::AlreadyExists { key: key.to_bytes() })
        }
    }

    /// The key to ask the store for to read an entry.
    pub fn get(&self, key: &TrashEntryKey) -> (r: Vec<u8>)
        ensures
            r@ == key_bytes(*key),
    {
        key.to_bytes()
    }

    /// What a reading comes to, given the value that the store found.
    pub fn found(&self, value: Option<Result<TrashEntry, String>>) -> (r: Result<
        Option<TrashEntry>,
        TrashError,
    >)
        ensures
            r == (match value {
                None => Ok(None),
                Some(Ok(entry)) => Ok(Some(entry)),
                Some(Err(message)) => Err(TrashError::InvalidValue { message }),
            }),
    {
        match value {
            None => Ok(None),
            Some(Ok(entry)) => Ok(Some(entry)),
            Some(Err(message)) => Err(TrashError::InvalidValue { message }),
        }
    }

    /// The keys to have the store delete to remove an entry.
    pub fn delete(&self, key: &TrashEntryKey) -> (r: Vec<Vec<u8>>)
        ensures
            r@.len() == 1,
            r@[0]@ == key_bytes(*key),
    {
        let mut keys: Vec<Vec<u8>> = Vec::new();
        keys.push(key.to_bytes());
        keys
    }

    /// What to ask the store for to list all entries, in the order of their times.
    pub fn list_all(&self) -> (r: ListPlan)
        ensures
            r.range@ == whole_range(),
            r.limit is None,
    {
        ListPlan { range: Self::scan_range(TrashEntryKey::range_prefix()), limit: None }
    }

    /// What to ask the store for to list the entries from before a time, at most `limit` of
    /// them; with 0, all of them.
    pub fn list_before(&self, cutoff_millis: i64, limit: usize) -> (r: ListPlan)
        ensures
            r.range@ == range_before(cutoff_millis),
            r.limit == limit_of(limit),
    {
        let start: Vec<u8> = TrashEntryKey::range_prefix();
        let end: Vec<u8> = TrashEntryKey::upper_bound_for_cutoff(cutoff_millis);
        let limit: Option<usize> = if limit == 0 {
            None
        } else {
            Some(limit)
        };
        ListPlan { range: Self::scan_range_with_end(start, end), limit }
    }

    fn scan_range(prefix: Vec<u8>) -> (r: RangeRequest)
        ensures
            r@ == (RangeView::Prefix { prefix: prefix@ }),
    {
        RangeRequest::Prefix { prefix }
    }

    fn scan_range_with_end(start: Vec<u8>, end: Vec<u8>) -> (r: RangeRequest)
        ensures
            r@ == (RangeView::Between { start: start@, end: end@ }),
    {
        RangeRequest::Between { start, end }
    }
}

/// The store after it was asked to put a pair if there is none under the key, and whether it
/// put it.
pub open spec fn put_if_absent<V>(store: Map<Seq<u8>, V>, key: Seq<u8>, value: V) -> (
    Map<Seq<u8>, V>,
    bool,
) {
    if store.contains_key(key) {
        (store, false)
    } else {
        (store.insert(key, value), true)
    }
}

/// An entry that was inserted is read back until it is deleted; a second insertion under its
/// key fails and leaves it; deleting what is not there changes nothing; and other entries are
/// not touched.
pub proof fn law_insert_get_delete(
    store: Map<Seq<u8>, Seq<u8>>,
    key: TrashEntryKey,
    value: Seq<u8>,
    other: TrashEntryKey,
    second: Seq<u8>,
)
    requires
        key.dropped_at_millis >= 0,
        other.dropped_at_millis >= 0,
        other != key,
        !store.contains_key(key_bytes(key)),
    ensures
        ({
            let (inserted, put) = put_if_absent(store, key_bytes(key), value);
            let (again, put_again) = put_if_absent(inserted, key_bytes(key), second);
            let deleted = inserted.remove(key_bytes(key));
            &&& put
            &&& inserted.contains_key(key_bytes(key))
            &&& inserted[key_bytes(key)] == value
            &&& !put_again
            &&& again == inserted
            &&& !deleted.contains_key(key_bytes(key))
            &&& deleted =~= store
            &&& deleted.remove(key_bytes(key)) =~= deleted
            &&& inserted.contains_key(key_bytes(other)) <==> store.contains_key(key_bytes(other))
            &&& store.contains_key(key_bytes(other)) ==> inserted[key_bytes(other)]
                == store[key_bytes(other)]
        }),
{
    if key_bytes(key) == key_bytes(other) {
        law_key_bytes_differ(key, other);
    }
}

/// Keys that a scan gives in the order of byte strings, each at most once.
pub open spec fn in_key_order(keys: Seq<TrashEntryKey>) -> bool {
    forall|i: int, j: int|
        0 <= i < j < keys.len() ==> text::lex_lt(
            key_bytes(#[trigger] keys[i]),
            key_bytes(#[trigger] keys[j]),
        )
}

/// The entries that a scan gives in the order of the keys come in the order of their times.
pub proof fn law_scan_in_order_of_time(keys: Seq<TrashEntryKey>)
    requires
        in_key_order(keys),
        forall|i: int| 0 <= i < keys.len() ==> (#[trigger] keys[i]).dropped_at_millis >= 0,
    ensures
        forall|i: int, j: int|
            0 <= i < j < keys.len() ==> (#[trigger] keys[i]).dropped_at_millis <= (
            #[trigger] keys[j]).dropped_at_millis,
{
    assert forall|i: int, j: int| 0 <= i < j < keys.len() implies (
    #[trigger] keys[i]).dropped_at_millis <= (#[trigger] keys[j]).dropped_at_millis by {
        if keys[j].dropped_at_millis < keys[i].dropped_at_millis {
            law_keys_in_order_of_time(keys[j], keys[i]);
        }
    }
}

/// [`TrashManager::list_all`] asks for every entry, and [`TrashManager::list_before`] for
/// those from before the cutoff and for no other.
pub proof fn law_ranges_hold(key: TrashEntryKey, cutoff_millis: i64)
    requires
        key.dropped_at_millis >= 0,
    ensures
        whole_range().holds(key_bytes(key)),
        range_before(cutoff_millis).holds(key_bytes(key)) <==> key.dropped_at_millis
            < cutoff_millis,
{
    law_cutoff_range(key, cutoff_millis);
    assert(key_bytes(key).take(8) =~= prefix_bytes());
    assert(prefix_bytes().is_prefix_of(key_bytes(key)));
}

/// The keys of pairs.
pub open spec fn pair_keys(pairs: Seq<ScannedPair>) -> Seq<Seq<u8>> {
    pairs.map_values(|p: ScannedPair| p.key@)
}

/// Each key comes before the ones after it.
pub open spec fn in_byte_order(keys: Seq<Seq<u8>>) -> bool {
    forall|i: int, j: int|
        0 <= i < j < keys.len() ==> text::lex_lt(#[trigger] keys[i], #[trigger] keys[j])
}

/// The store's answer to what it is asked for: the pairs of the range, each once, in the order
/// of their keys.
pub open spec fn scans(
    store: Map<Seq<u8>, TrashEntry>,
    range: RangeView,
    pairs: Seq<ScannedPair>,
) -> bool {
    &&& in_byte_order(pair_keys(pairs))
    &&& forall|i: int|
        0 <= i < pairs.len() ==> store.contains_key((#[trigger] pairs[i]).key@) && range.holds(
            pairs[i].key@,
        ) && pairs[i].value == Ok::<TrashEntry, String>(store[pairs[i].key@])
    &&& forall|key: Seq<u8>| #[trigger]
        store.contains_key(key) && range.holds(key) ==> pair_keys(pairs).contains(key)
}

/// The bytes are those of a key whose time is not before zero.
pub open spec fn is_key(bytes: Seq<u8>) -> bool {
    exists|key: TrashEntryKey| key.dropped_at_millis >= 0 && bytes == #[trigger] key_bytes(key)
}

/// Whatever is in the range of the index is there under a key.
pub open spec fn is_index(store: Map<Seq<u8>, TrashEntry>) -> bool {
    forall|key: Seq<u8>| #[trigger]
        store.contains_key(key) && prefix_bytes().is_prefix_of(key) ==> is_key(key)
}

/// The range that [`TrashManager::list_all`] asks for.
pub open spec fn whole_range() -> RangeView {
    RangeView::Prefix { prefix: prefix_bytes() }
}

/// The range that [`TrashManager::list_before`] asks for.
pub open spec fn range_before(cutoff_millis: i64) -> RangeView {
    RangeView::Between { start: prefix_bytes(), end: cutoff_bytes(cutoff_millis) }
}

/// The entries of the tables that were dropped before a time, in order.
pub open spec fn dropped_before(
    entries: Seq<(TrashEntryKey, TrashEntry)>,
    cutoff_millis: i64,
) -> Seq<(TrashEntryKey, TrashEntry)>
    decreases entries.len(),
{
    if entries.len() == 0 {
        Seq::empty()
    } else {
        let before = dropped_before(entries.drop_last(), cutoff_millis);
        if entries.last().0.dropped_at_millis < cutoff_millis {
            before.push(entries.last())
        } else {
            before
        }
    }
}

/// What comes no earlier than some bytes, and before the same bytes with more behind them,
/// starts with them.
proof fn lemma_between_starts(front: Seq<u8>, more: Seq<u8>, key: Seq<u8>)
    requires
        !text::lex_lt(key, front),
        text::lex_lt(key, front + more),
    ensures
        front.is_prefix_of(key),
    decreases front.len(),
{
    if front.len() > 0 {
        assert((front + more).drop_first() =~= front.drop_first() + more);
        assert((front + more)[0] == front[0]);
        assert(key.len() > 0);
        assert(key[0] == front[0]);
        lemma_between_starts(front.drop_first(), more, key.drop_first());
        assert(key.take(front.len() as int) =~= seq![key[0]] + key.drop_first().take(
            front.len() - 1,
        ));
        assert(front =~= seq![front[0]] + front.drop_first());
        assert(front.drop_first() =~= key.drop_first().take(front.len() - 1));
    }
}

/// What starts with some bytes comes no earlier than them.
proof fn lemma_starts_not_before(front: Seq<u8>, key: Seq<u8>)
    requires
        front.is_prefix_of(key),
    ensures
        !text::lex_lt(key, front),
{
    let empty = Seq::<u8>::empty();
    assert(key =~= front + key.skip(front.len() as int));
    assert(front =~= front + empty);
    text::lemma_lex_common(front, key.skip(front.len() as int), empty);
}

/// Keys in order are the same where they are the same, whatever their order.
proof fn lemma_same_keys(a: Seq<Seq<u8>>, b: Seq<Seq<u8>>)
    requires
        in_byte_order(a),
        in_byte_order(b),
        forall|key: Seq<u8>| #[trigger] a.contains(key) <==> b.contains(key),
    ensures
        a == b,
    decreases a.len(),
{
    if a.len() == 0 {
        if b.len() > 0 {
            assert(b.contains(b[0]));
            assert(a.contains(b[0]));
        }
        assert(a =~= b);
    } else {
        assert(a.contains(a.last()));
        assert(b.contains(a.last()));
        assert(b.contains(b.last()));
        assert(a.contains(b.last()));
        let i = choose|i: int| 0 <= i < b.len() && b[i] == a.last();
        let j = choose|j: int| 0 <= j < a.len() && a[j] == b.last();
        text::lemma_lex_asymmetric(a.last(), b.last());
        if i < b.len() - 1 {
            assert(text::lex_lt(b[i], b[b.len() - 1]));
            if j < a.len() - 1 {
                assert(text::lex_lt(a[j], a[a.len() - 1]));
            }
        }
        assert(a.last() == b.last());
        let x = a.drop_last();
        let y = b.drop_last();
        assert forall|key: Seq<u8>| #[trigger] x.contains(key) <==> y.contains(key) by {
            text::lemma_lex_asymmetric(key, key);
            if x.contains(key) {
                let k = choose|k: int| 0 <= k < x.len() && x[k] == key;
                assert(a[k] == key);
                assert(a.contains(key));
                assert(text::lex_lt(a[k], a[a.len() - 1]));
                let m = choose|m: int| 0 <= m < b.len() && b[m] == key;
                assert(y[m] == key);
            }
            if y.contains(key) {
                let k = choose|k: int| 0 <= k < y.len() && y[k] == key;
                assert(b[k] == key);
                assert(b.contains(key));
                assert(a.contains(key));
                assert(text::lex_lt(b[k], b[b.len() - 1]));
                let m = choose|m: int| 0 <= m < a.len() && a[m] == key;
                assert(x[m] == key);
            }
        }
        lemma_same_keys(x, y);
        assert(a =~= x.push(a.last()));
        assert(b =~= y.push(b.last()));
    }
}

/// Of keys in order, those before a bound come first.
proof fn lemma_cut(keys: Seq<Seq<u8>>, bound: Seq<u8>) -> (n: int)
    requires
        in_byte_order(keys),
    ensures
        0 <= n <= keys.len(),
        forall|i: int|
            0 <= i < keys.len() ==> (text::lex_lt(#[trigger] keys[i], bound) <==> i < n),
    decreases keys.len(),
{
    if keys.len() == 0 {
        0
    } else if text::lex_lt(keys.last(), bound) {
        assert forall|i: int| 0 <= i < keys.len() implies text::lex_lt(#[trigger] keys[i], bound) by {
            if i < keys.len() - 1 {
                text::lemma_lex_transitive(keys[i], keys[keys.len() - 1], bound);
            }
        }
        keys.len() as int
    } else {
        let rest = keys.drop_last();
        let n = lemma_cut(rest, bound);
        assert forall|i: int| 0 <= i < keys.len() implies (text::lex_lt(#[trigger] keys[i], bound)
            <==> i < n) by {
            if i < rest.len() {
                assert(rest[i] == keys[i]);
            }
        }
        n
    }
}

/// Where the entries from before a time come first, they are the first of all.
proof fn lemma_dropped_before(
    entries: Seq<(TrashEntryKey, TrashEntry)>,
    cutoff_millis: i64,
    n: int,
)
    requires
        0 <= n <= entries.len(),
        forall|i: int|
            0 <= i < entries.len() ==> ((#[trigger] entries[i]).0.dropped_at_millis < cutoff_millis
                <==> i < n),
    ensures
        dropped_before(entries, cutoff_millis) == entries.take(n),
    decreases entries.len(),
{
    if entries.len() == 0 {
        assert(entries.take(n) =~= Seq::<(TrashEntryKey, TrashEntry)>::empty());
    } else {
        let rest = entries.drop_last();
        assert(entries.last() == entries[entries.len() - 1]);
        assert forall|i: int| 0 <= i < rest.len() implies ((
        #[trigger] rest[i]).0.dropped_at_millis < cutoff_millis <==> i < n) by {
            assert(rest[i] == entries[i]);
        }
        if n == entries.len() {
            lemma_dropped_before(rest, cutoff_millis, n - 1);
            assert(entries.take(n) =~= rest.take(n - 1).push(entries.last()));
        } else {
            lemma_dropped_before(rest, cutoff_millis, n);
            assert(entries.take(n) =~= rest.take(n));
        }
    }
}

/// Every pair that the store gives of the index is an entry under the key that its bytes are.
proof fn lemma_scanned(
    store: Map<Seq<u8>, TrashEntry>,
    range: RangeView,
    pairs: Seq<ScannedPair>,
    i: int,
)
    requires
        is_index(store),
        scans(store, range, pairs),
        0 <= i < pairs.len(),
        prefix_bytes().is_prefix_of(pairs[i].key@),
    ensures
        parse_key(pairs[i].key@) is Ok,
        is_entry(pairs[i]),
        (parse_key(pairs[i].key@)->Ok_0).dropped_at_millis >= 0,
        pairs[i].key@ == key_bytes(parse_key(pairs[i].key@)->Ok_0),
{
    assert(store.contains_key(pairs[i].key@));
    assert(is_key(pairs[i].key@));
    let key = choose|key: TrashEntryKey|
        key.dropped_at_millis >= 0 && pairs[i].key@ == #[trigger] key_bytes(key);
    law_key_round_trip(key);
}

/// Listing the entries from before a time gives those of the whole list from before it, in the
/// same order, and cut to the limit where there is one. It asks the store for pairs alone, and
/// so leaves it as it is.
pub proof fn law_list_before_is_of_list_all(
    store: Map<Seq<u8>, TrashEntry>,
    cutoff_millis: i64,
    limit: usize,
    all_pairs: Seq<ScannedPair>,
    all: Seq<(TrashEntryKey, TrashEntry)>,
    pairs: Seq<ScannedPair>,
    listed: Seq<(TrashEntryKey, TrashEntry)>,
)
    requires
        is_index(store),
        scans(store, whole_range(), all_pairs),
        collects(all_pairs, None, all),
        scans(store, range_before(cutoff_millis), pairs),
        collects(pairs, limit_of(limit), listed),
    ensures
        forall|i: int| 0 <= i < all_pairs.len() ==> is_entry(#[trigger] all_pairs[i]),
        forall|i: int| 0 <= i < pairs.len() ==> is_entry(#[trigger] pairs[i]),
        listed == dropped_before(all, cutoff_millis).take(
            limited(dropped_before(all, cutoff_millis).len(), limit_of(limit)) as int,
        ),
{
    let prefix = prefix_bytes();
    let end = cutoff_bytes(cutoff_millis);
    let more = dropped_at_bytes(cutoff_millis) + seq![47u8];
    assert(end =~= prefix + more);
    let keys = pair_keys(all_pairs);
    let some = pair_keys(pairs);
    let n = lemma_cut(keys, end);
    let first = keys.take(n);
    assert forall|i: int| 0 <= i < pairs.len() implies prefix.is_prefix_of(
        (#[trigger] pairs[i]).key@,
    ) by {
        lemma_between_starts(prefix, more, pairs[i].key@);
    }
    assert forall|key: Seq<u8>| #[trigger] first.contains(key) <==> some.contains(key) by {
        if first.contains(key) {
            let i = choose|i: int| 0 <= i < first.len() && first[i] == key;
            assert(all_pairs[i].key@ == key && keys[i] == key);
            assert(store.contains_key(key));
            lemma_starts_not_before(prefix, key);
            assert(range_before(cutoff_millis).holds(key));
        }
        if some.contains(key) {
            let i = choose|i: int| 0 <= i < some.len() && some[i] == key;
            assert(pairs[i].key@ == key);
            assert(store.contains_key(key));
            assert(whole_range().holds(key));
            let k = choose|k: int| 0 <= k < keys.len() && keys[k] == key;
            assert(text::lex_lt(keys[k], end));
            assert(first[k] == key);
        }
    }
    assert(in_byte_order(first)) by {
        assert forall|i: int, j: int| 0 <= i < j < first.len() implies text::lex_lt(
            #[trigger] first[i],
            #[trigger] first[j],
        ) by {
            assert(text::lex_lt(keys[i], keys[j]));
        }
    }
    lemma_same_keys(first, some);
    assert(some.len() == pairs.len());
    assert forall|i: int| 0 <= i < all_pairs.len() implies is_entry(#[trigger] all_pairs[i]) by {
        lemma_scanned(store, whole_range(), all_pairs, i);
    }
    assert forall|i: int| 0 <= i < pairs.len() implies is_entry(#[trigger] pairs[i]) by {
        lemma_scanned(store, range_before(cutoff_millis), pairs, i);
    }
    assert forall|i: int| 0 <= i < all.len() implies ((
    #[trigger] all[i]).0.dropped_at_millis < cutoff_millis <==> i < n) by {
        lemma_scanned(store, whole_range(), all_pairs, i);
        assert(keys[i] == key_bytes(all[i].0));
        law_cutoff_range(all[i].0, cutoff_millis);
    }
    lemma_dropped_before(all, cutoff_millis, n);
    assert forall|i: int| 0 <= i < listed.len() implies listed[i] == all[i] by {
        assert(some[i] == first[i]);
        assert(pairs[i].key@ == all_pairs[i].key@);
        assert(listed[i].0 == all[i].0);
        assert(listed[i].1 == all[i].1);
    }
    assert(listed =~= all.take(n).take(limited(n as nat, limit_of(limit)) as int));
}

/// What is done to the index.
pub enum TrashChange {
    Insert { key: TrashEntryKey, entry: TrashEntry },
    Delete { key: TrashEntryKey },
}

impl TrashChange {
    /// The key of the entry that is inserted or deleted.
    pub open spec fn key(self) -> TrashEntryKey {
        match self {
            TrashChange::Insert { key, entry } => key,
            TrashChange::Delete { key } => key,
        }
    }
}

/// The store after changes to the index.
pub open spec fn store_after(store: Map<Seq<u8>, TrashEntry>, changes: Seq<TrashChange>) -> Map<
    Seq<u8>,
    TrashEntry,
>
    decreases changes.len(),
{
    if changes.len() == 0 {
        store
    } else {
        let before = store_after(store, changes.drop_last());
        match changes.last() {
            TrashChange::Insert { key, entry } => put_if_absent(before, key_bytes(key), entry).0,
            TrashChange::Delete { key } => before.remove(key_bytes(key)),
        }
    }
}

/// The entry that was inserted under a key and not deleted. An insertion while there is one is
/// refused.
pub open spec fn kept_entry(changes: Seq<TrashChange>, key: TrashEntryKey) -> Option<TrashEntry>
    decreases changes.len(),
{
    if changes.len() == 0 {
        None
    } else {
        let before = kept_entry(changes.drop_last(), key);
        match changes.last() {
            TrashChange::Insert { key: inserted, entry } => if inserted == key && before is None {
                Some(entry)
            } else {
                before
            },
            TrashChange::Delete { key: deleted } => if deleted == key {
                None
            } else {
                before
            },
        }
    }
}

/// No time is before zero.
pub open spec fn times_not_negative(changes: Seq<TrashChange>) -> bool {
    forall|i: int| 0 <= i < changes.len() ==> (#[trigger] changes[i]).key().dropped_at_millis >= 0
}

/// Nothing is in the range of the index.
pub open spec fn has_no_index(store: Map<Seq<u8>, TrashEntry>) -> bool {
    forall|key: Seq<u8>| #[trigger]
        store.contains_key(key) ==> !prefix_bytes().is_prefix_of(key)
}

proof fn lemma_store_after(
    store: Map<Seq<u8>, TrashEntry>,
    changes: Seq<TrashChange>,
    key: TrashEntryKey,
)
    requires
        has_no_index(store),
        times_not_negative(changes),
        key.dropped_at_millis >= 0,
    ensures
        is_index(store_after(store, changes)),
        store_after(store, changes).contains_key(key_bytes(key)) <==> kept_entry(
            changes,
            key,
        ) is Some,
        kept_entry(changes, key) matches Some(entry) ==> store_after(store, changes)[key_bytes(key)]
            == entry,
    decreases changes.len(),
{
    law_ranges_hold(key, 0);
    if changes.len() > 0 {
        let fewer = changes.drop_last();
        let changed = changes.last().key();
        assert(changes[changes.len() - 1].key().dropped_at_millis >= 0);
        assert forall|i: int| 0 <= i < fewer.len() implies (
        #[trigger] fewer[i]).key().dropped_at_millis >= 0 by {
            assert(changes[i].key().dropped_at_millis >= 0);
        }
        lemma_store_after(store, fewer, key);
        if changed != key && key_bytes(changed) == key_bytes(key) {
            law_key_bytes_differ(changed, key);
        }
        let after = store_after(store, changes);
        assert forall|k: Seq<u8>| #[trigger]
            after.contains_key(k) && prefix_bytes().is_prefix_of(k) implies is_key(k) by {
            if !store_after(store, fewer).contains_key(k) {
                assert(k == key_bytes(changed));
            }
        }
    }
}

/// The whole list holds each entry that was inserted and not deleted exactly once, under its
/// key, and nothing else, in the order of the times, whatever the order of the insertions.
pub proof fn law_list_all_holds_what_is_kept(
    store: Map<Seq<u8>, TrashEntry>,
    changes: Seq<TrashChange>,
    pairs: Seq<ScannedPair>,
    listed: Seq<(TrashEntryKey, TrashEntry)>,
)
    requires
        has_no_index(store),
        times_not_negative(changes),
        scans(store_after(store, changes), whole_range(), pairs),
        collects(pairs, None, listed),
    ensures
        is_index(store_after(store, changes)),
        forall|i: int| 0 <= i < pairs.len() ==> is_entry(#[trigger] pairs[i]),
        forall|i: int|
            0 <= i < listed.len() ==> (#[trigger] listed[i]).0.dropped_at_millis >= 0 && kept_entry(
                changes,
                listed[i].0,
            ) == Some(listed[i].1),
        forall|key: TrashEntryKey|
            key.dropped_at_millis >= 0 && #[trigger] kept_entry(changes, key) is Some ==> exists|
                i: int,
            |
                0 <= i < listed.len() && (#[trigger] listed[i]).0 == key,
        forall|i: int, j: int|
            0 <= i < j < listed.len() ==> (#[trigger] listed[i]).0 != (#[trigger] listed[j]).0
                && listed[i].0.dropped_at_millis <= listed[j].0.dropped_at_millis,
{
    let after = store_after(store, changes);
    let keys = pair_keys(pairs);
    lemma_store_after(store, changes, TrashEntryKey { dropped_at_millis: 0, table_id: 0 });
    assert forall|i: int| 0 <= i < pairs.len() implies is_entry(#[trigger] pairs[i]) by {
        lemma_scanned(after, whole_range(), pairs, i);
    }
    assert forall|i: int| 0 <= i < listed.len() implies (
    #[trigger] listed[i]).0.dropped_at_millis >= 0 && kept_entry(changes, listed[i].0) == Some(
        listed[i].1,
    ) && keys[i] == key_bytes(listed[i].0) by {
        lemma_scanned(after, whole_range(), pairs, i);
        assert(after.contains_key(pairs[i].key@));
        lemma_store_after(store, changes, listed[i].0);
    }
    assert forall|key: TrashEntryKey|
        key.dropped_at_millis >= 0 && #[trigger] kept_entry(changes, key) is Some implies exists|
        i: int,
    |
        0 <= i < listed.len() && (#[trigger] listed[i]).0 == key by {
        lemma_store_after(store, changes, key);
        law_ranges_hold(key, 0);
        assert(after.contains_key(key_bytes(key)));
        assert(keys.contains(key_bytes(key)));
        let i = choose|i: int| 0 <= i < keys.len() && keys[i] == key_bytes(key);
        law_key_bytes_differ(listed[i].0, key);
        assert(listed[i].0 == key);
    }
    assert forall|i: int, j: int| 0 <= i < j < listed.len() implies (#[trigger] listed[i]).0 != (
    #[trigger] listed[j]).0 && listed[i].0.dropped_at_millis <= listed[j].0.dropped_at_millis by {
        assert(text::lex_lt(keys[i], keys[j]));
        text::lemma_lex_asymmetric(keys[i], keys[j]);
        if listed[j].0.dropped_at_millis < listed[i].0.dropped_at_millis {
            law_keys_in_order_of_time(listed[j].0, listed[i].0);
        }
    }
}

/// Bytes are read as a key only where they are one: `__trash/`, a number that is the time, a
/// slash and a number that is the table's.
pub proof fn law_only_keys_are_read(bytes: Seq<u8>) -> (r: (Seq<u8>, Seq<u8>))
    ensures
        parse_key(bytes) matches Ok(key) ==> {
            &&& bytes == seq![95u8, 95, 116, 114, 97, 115, 104, 47] + r.0 + seq![47u8] + r.1
            &&& !r.0.contains(47)
            &&& !r.1.contains(47)
            &&& text::signed_value(r.0) == Some(key.dropped_at_millis as int)
            &&& text::unsigned_value(r.1) == Some(key.table_id as nat)
        },
{
    if parse_key(bytes) is Ok {
        let rest = bytes.skip(8);
        lemma_slash(rest);
        let i = slash(rest)->0;
        let dropped_at = rest.take(i);
        let table_id = rest.skip(i + 1);
        assert(bytes =~= bytes.take(8) + rest);
        assert(rest =~= dropped_at + seq![47u8] + table_id);
        assert(bytes =~= prefix_bytes() + dropped_at + seq![47u8] + table_id);
        if dropped_at.contains(47) {
            let k = choose|k: int| 0 <= k < dropped_at.len() && dropped_at[k] == 47;
            assert(rest[k] == 47);
        }
        (dropped_at, table_id)
    } else {
        (bytes, bytes)
    }
}

/// What keeps bytes from being a key is told: that they are no text, do not start with
/// `__trash/`, have no slash behind the time, or name no table, or that the time or the table is
/// no number that can be held; and the part that is no number is told with it.
pub proof fn law_broken_keys_are_told_apart(
    bytes: Seq<u8>,
    dropped_at: Seq<u8>,
    table_id: Seq<u8>,
)
    requires
        !dropped_at.contains(47),
    ensures
        parse_key(bytes) == Err::<TrashEntryKey, TrashKeyFault>(TrashKeyFault::NotUtf8)
            <==> !vstd::utf8::valid_utf8(bytes),
        parse_key(bytes) == Err::<TrashEntryKey, TrashKeyFault>(TrashKeyFault::MissingPrefix) <==> (
        vstd::utf8::valid_utf8(bytes) && !seq![
            95u8,
            95,
            116,
            114,
            97,
            115,
            104,
            47,
        ].is_prefix_of(bytes)),
        parse_key(bytes) == Err::<TrashEntryKey, TrashKeyFault>(TrashKeyFault::MissingTableId)
            <==> (vstd::utf8::valid_utf8(bytes) && seq![
            95u8,
            95,
            116,
            114,
            97,
            115,
            104,
            47,
        ].is_prefix_of(bytes) && !bytes.skip(8).contains(47)),
        bytes == seq![95u8, 95, 116, 114, 97, 115, 104, 47] + dropped_at + seq![47u8] + table_id
            && vstd::utf8::valid_utf8(bytes) ==> {
            let time = text::signed_value(dropped_at);
            let id = text::unsigned_value(table_id);
            let is_time = time matches Some(t) && i64::MIN <= t <= i64::MAX;
            let is_id = id matches Some(n) && n <= u32::MAX;
            &&& table_id.len() == 0 || table_id.contains(47) <==> parse_key(bytes) == Err::<
                TrashEntryKey,
                TrashKeyFault,
            >(TrashKeyFault::InvalidTableId)
            &&& table_id.len() > 0 && !table_id.contains(47) && !is_time ==> parse_key(bytes)
                == Err::<TrashEntryKey, TrashKeyFault>(
                TrashKeyFault::NonNumericDroppedAt { dropped_at },
            )
            &&& table_id.len() > 0 && !table_id.contains(47) && is_time && !is_id ==> parse_key(
                bytes,
            ) == Err::<TrashEntryKey, TrashKeyFault>(TrashKeyFault::NonNumericTableId { table_id })
            &&& table_id.len() > 0 && !table_id.contains(47) && is_time && is_id ==> (parse_key(
                bytes,
            ) matches Ok(key) && key.dropped_at_millis == time->0 && key.table_id == id->0)
        },
{
    let prefix = seq![95u8, 95, 116, 114, 97, 115, 104, 47];
    assert(prefix =~= prefix_bytes());
    assert(bytes.len() >= 8 && bytes.take(8) == prefix <==> prefix.is_prefix_of(bytes)) by {
        if prefix.is_prefix_of(bytes) {
            assert(bytes.take(8) =~= prefix);
        }
    }
    let rest = bytes.skip(8);
    lemma_slash(rest);
    if slash(rest) is Some {
        assert(rest[slash(rest)->0] == 47);
        assert(rest.contains(47));
    }
    if bytes == prefix + dropped_at + seq![47u8] + table_id {
        let i = dropped_at.len() as int;
        assert(rest =~= dropped_at + seq![47u8] + table_id);
        assert forall|k: int| 0 <= k < i implies #[trigger] rest[k] != 47 by {
            assert(dropped_at[k] == rest[k]);
            assert(dropped_at.contains(dropped_at[k]));
        }
        lemma_slash_at(rest, i);
        assert(rest.take(i) =~= dropped_at);
        assert(rest.skip(i + 1) =~= table_id);
        assert(bytes.take(8) =~= prefix);
    }
}

/// A table expires its retention after it was dropped, to the millisecond, wherever such a time
/// can be held; where it cannot, at the last or the first time that can.
pub proof fn law_expires_after_retention(dropped_at_millis: i64, retention_millis: i64)
    ensures
        ({
            let at = dropped_at_millis + retention_millis;
            let expires = saturated(at);
            &&& i64::MIN <= expires <= i64::MAX
            &&& i64::MIN <= at <= i64::MAX ==> expires - dropped_at_millis == retention_millis
            &&& at > i64::MAX ==> expires == i64::MAX
            &&& at < i64::MIN ==> expires == i64::MIN
            &&& retention_millis >= 0 ==> expires >= dropped_at_millis
            &&& retention_millis <= 0 ==> expires <= dropped_at_millis
        }),
{
}

/// A scan that succeeds gives every pair of it, each as it was read and at its place, as far as
/// the limit allows: no more than the limit, and fewer only where there are no more pairs.
/// Without a limit, and with one of zero, it gives them all.
pub proof fn law_collected_entries(
    pairs: Seq<ScannedPair>,
    limit: usize,
    entries: Seq<(TrashEntryKey, TrashEntry)>,
    all: Seq<(TrashEntryKey, TrashEntry)>,
    i: int,
)
    requires
        collects(pairs, limit_of(limit), entries),
        collects(pairs, None, all),
    ensures
        all.len() == pairs.len(),
        limit > 0 ==> entries.len() <= limit,
        entries.len() <= pairs.len(),
        limit == 0 || entries.len() < limit ==> entries.len() == pairs.len(),
        0 <= i < entries.len() ==> entries[i] == all[i],
        0 <= i < pairs.len() ==> parse_key(pairs[i].key@) == Ok::<TrashEntryKey, TrashKeyFault>(
            all[i].0,
        ) && pairs[i].value == Ok::<TrashEntry, String>(all[i].1),
        forall|k: TrashEntryKey|
            0 <= i < pairs.len() && k.dropped_at_millis >= 0 && pairs[i].key@ == #[trigger] key_bytes(
                k,
            ) ==> all[i].0 == k,
{
    if 0 <= i < pairs.len() {
        assert(all[i] == all[i]);
        if i < entries.len() {
            assert(entries[i] == entries[i]);
        }
        assert forall|k: TrashEntryKey|
            k.dropped_at_millis >= 0 && pairs[i].key@ == #[trigger] key_bytes(k) implies all[i].0
            == k by {
            law_key_round_trip(k);
        }
    }
}

/// A pair is read as the entry that it holds, under the key that its bytes are those of; a pair
/// with another key, or whose value is none, is not read, and is told with its own bytes or why
/// its value is none.
pub proof fn law_pair_is_read(
    pair: ScannedPair,
    r: Result<(TrashEntryKey, TrashEntry), TrashError>,
    key: TrashEntryKey,
)
    requires
        decodes(pair, r),
        key.dropped_at_millis >= 0,
    ensures
        pair.key@ == key_bytes(key) ==> match pair.value {
            Ok(entry) => r == Ok::<(TrashEntryKey, TrashEntry), TrashError>((key, entry)),
            Err(message) => r == Err::<(TrashEntryKey, TrashEntry), TrashError>(
                TrashError::InvalidValue { message },
            ),
        },
        r matches Ok(read) ==> pair.value == Ok::<TrashEntry, String>(read.1) && parse_key(
            pair.key@,
        ) == Ok::<TrashEntryKey, TrashKeyFault>(read.0),
        r matches Err(TrashError::InvalidKey { key: bytes, reason }) ==> bytes@ == pair.key@
            && parse_key(pair.key@) == Err::<TrashEntryKey, TrashKeyFault>(reason@),
        r matches Err(TrashError::InvalidValue { message }) ==> pair.value == Err::<
            TrashEntry,
            String,
        >(message),
        !(r matches Err(TrashError::AlreadyExists { key: bytes })),
{
    law_key_round_trip(key);
}

/// The entries from before a time are those of the list whose time is before it, all of them and
/// no other.
pub proof fn law_dropped_before(
    entries: Seq<(TrashEntryKey, TrashEntry)>,
    cutoff_millis: i64,
    e: (TrashEntryKey, TrashEntry),
)
    ensures
        dropped_before(entries, cutoff_millis).contains(e) <==> entries.contains(e)
            && e.0.dropped_at_millis < cutoff_millis,
    decreases entries.len(),
{
    let found = dropped_before(entries, cutoff_millis);
    if entries.len() > 0 {
        let rest = entries.drop_last();
        let before = dropped_before(rest, cutoff_millis);
        law_dropped_before(rest, cutoff_millis, e);
        if entries.contains(e) && e.0.dropped_at_millis < cutoff_millis {
            let i = choose|i: int| 0 <= i < entries.len() && entries[i] == e;
            if i < rest.len() {
                assert(rest[i] == e);
                let j = choose|j: int| 0 <= j < before.len() && before[j] == e;
                assert(found[j] == e);
            } else {
                assert(found[found.len() - 1] == e);
            }
        }
        if found.contains(e) {
            let j = choose|j: int| 0 <= j < found.len() && found[j] == e;
            if j < before.len() {
                assert(before[j] == e);
                let i = choose|i: int| 0 <= i < rest.len() && rest[i] == e;
                assert(entries[i] == e);
            } else {
                assert(entries[entries.len() - 1] == e);
            }
        }
    }
}

/// A key is read back from the bytes that it is written as.
pub proof fn law_written_key_is_read(
    key: TrashEntryKey,
    bytes: Vec<u8>,
    given: &[u8],
    r: Result<TrashEntryKey, TrashKeyError>,
)
    requires
        key.dropped_at_millis >= 0,
        call_ensures(TrashEntryKey::to_bytes, (&key,), bytes),
        given@ == bytes@,
        call_ensures(TrashEntryKey::from_bytes, (given,), r),
    ensures
        r matches Ok(read) && read.dropped_at_millis == key.dropped_at_millis && read.table_id
            == key.table_id,
{
    law_key_round_trip(key);
}

/// An entry is read and deleted under the very key that it was inserted under, which no other key
/// is; the bytes given for it are stored; and an insertion that the store refused is told with
/// that key.
pub proof fn law_one_key_for_an_entry<B>(
    manager: TrashManager<B>,
    key: TrashEntryKey,
    other: TrashEntryKey,
    raw: Vec<u8>,
    put: PutIfAbsent,
    got: Vec<u8>,
    got_other: Vec<u8>,
    deleted: Vec<Vec<u8>>,
    succeeded: bool,
    inserted: Result<(), TrashError>,
)
    requires
        key.dropped_at_millis >= 0,
        other.dropped_at_millis >= 0,
        key != other,
        call_ensures(TrashManager::<B>::insert, (&manager, &key, raw), put),
        call_ensures(TrashManager::<B>::get, (&manager, &key), got),
        call_ensures(TrashManager::<B>::get, (&manager, &other), got_other),
        call_ensures(TrashManager::<B>::delete, (&manager, &key), deleted),
        call_ensures(TrashManager::<B>::inserted, (&manager, &key, succeeded), inserted),
    ensures
        put.value@ == raw@,
        put.key@ == got@,
        got@ != got_other@,
        deleted@.len() == 1,
        deleted@[0]@ == put.key@,
        inserted is Ok <==> succeeded,
        inserted matches Err(e) ==> (e matches TrashError::AlreadyExists { key: told } && told@
            == put.key@),
{
    if key_bytes(key) == key_bytes(other) {
        law_key_bytes_differ(key, other);
    }
}

/// What is read of an entry is what the store found: none where it found none, the entry where it
/// is one, and else why it is none.
pub proof fn law_found_entry<B>(
    manager: TrashManager<B>,
    value: Option<Result<TrashEntry, String>>,
    r: Result<Option<TrashEntry>, TrashError>,
)
    requires
        call_ensures(TrashManager::<B>::found, (&manager, value), r),
    ensures
        value is None ==> r == Ok::<Option<TrashEntry>, TrashError>(None),
        value matches Some(Ok(entry)) ==> r == Ok::<Option<TrashEntry>, TrashError>(Some(entry)),
        value matches Some(Err(reason)) ==> (r matches Err(TrashError::InvalidValue { message })
            && message == reason),
{
}

/// The list of all entries asks for every key and has no limit; the list of those from before a
/// time asks for the keys of the tables dropped before it and for no other, and has the limit
/// that is given, and none where that is zero.
pub proof fn law_lists_ask_for_their_keys<B>(
    manager: TrashManager<B>,
    cutoff_millis: i64,
    limit: usize,
    all: ListPlan,
    before: ListPlan,
    key: TrashEntryKey,
)
    requires
        key.dropped_at_millis >= 0,
        call_ensures(TrashManager::<B>::list_all, (&manager,), all),
        call_ensures(TrashManager::<B>::list_before, (&manager, cutoff_millis, limit), before),
    ensures
        all.range@.holds(key_bytes(key)),
        all.limit is None,
        before.range@.holds(key_bytes(key)) <==> key.dropped_at_millis < cutoff_millis,
        limit == 0 ==> before.limit is None,
        limit > 0 ==> before.limit == Some(limit),
{
    law_ranges_hold(key, cutoff_millis);
}

/// A table expires its retention after it was dropped.
pub proof fn law_entry_expires(entry: TrashEntry, r: i64)
    requires
        call_ensures(TrashEntry::expires_at_millis, (&entry,), r),
    ensures
        i64::MIN <= entry.dropped_at_millis + entry.retention_millis <= i64::MAX ==> r
            - entry.dropped_at_millis == entry.retention_millis,
        entry.dropped_at_millis + entry.retention_millis > i64::MAX ==> r == i64::MAX,
        entry.dropped_at_millis + entry.retention_millis < i64::MIN ==> r == i64::MIN,
{
}

/// The pairs of a scan are collected in order, each under its own key, as many as the limit
/// allows, where all of them are entries; else the first that is none is told.
pub proof fn law_scan_is_collected(
    pairs: Vec<ScannedPair>,
    limit: Option<usize>,
    r: Result<Vec<(TrashEntryKey, TrashEntry)>, TrashError>,
    i: int,
    key: TrashEntryKey,
)
    requires
        call_ensures(collect, (pairs, limit), r),
        key.dropped_at_millis >= 0,
    ensures
        r matches Ok(entries) ==> {
            &&& entries@.len() <= pairs@.len()
            &&& limit matches Some(n) ==> entries@.len() <= n && (entries@.len() < n
                ==> entries@.len() == pairs@.len())
            &&& limit is None ==> entries@.len() == pairs@.len()
            &&& 0 <= i < entries@.len() ==> pairs@[i].value == Ok::<TrashEntry, String>(
                entries@[i].1,
            )
            &&& 0 <= i < entries@.len() && pairs@[i].key@ == key_bytes(key) ==> entries@[i].0
                == key
        },
        r is Ok && 0 <= i < pairs@.len() ==> pairs@[i].value is Ok,
        r is Err ==> exists|k: int|
            0 <= k < pairs@.len() && ((#[trigger] pairs@[k]).value is Err || parse_key(
                pairs@[k].key@,
            ) is Err),
{
    if let Ok(entries) = r {
        if 0 <= i < entries@.len() {
            assert(entries@[i] == entries@[i]);
            law_key_round_trip(key);
        }
        if 0 <= i < pairs@.len() {
            assert(is_entry(pairs@[i]));
        }
    }
}

} // verus!
