//! Decimal text, UTF-8 text and the order of byte strings.

use vstd::prelude::*;
use vstd::utf8::{encode_utf8, encode_utf8_decode_utf8, valid_utf8};

verus! {

/// The decimal digits of `n`, most significant first; `0` for zero.
pub open spec fn decimal(n: nat) -> Seq<u8>
    decreases n,
{
    if n < 10 {
        seq![(48 + n) as u8]
    } else {
        decimal(n / 10).push((48 + n % 10) as u8)
    }
}

/// The decimal digits of `n` as characters.
pub open spec fn decimal_chars(n: nat) -> Seq<char> {
    decimal(n).map_values(|b: u8| b as char)
}

/// The decimal digits of `n`, with zeros in front up to `width` digits.
pub open spec fn zero_padded(n: nat, width: nat) -> Seq<u8> {
    let digits = decimal(n);
    if digits.len() < width {
        Seq::new((width - digits.len()) as nat, |i: int| 48u8) + digits
    } else {
        digits
    }
}

/// Whether `b` is one of the bytes `0` to `9`.
pub open spec fn is_digit(b: u8) -> bool {
    48 <= b <= 57
}

/// The number that a string of digits stands for, read in base ten.
pub open spec fn digits_value(s: Seq<u8>) -> nat
    decreases s.len(),
{
    if s.len() == 0 {
        0
    } else {
        digits_value(s.drop_last()) * 10 + (s.last() - 48) as nat
    }
}

/// Whether `s` is one or more digits.
pub open spec fn is_number(s: Seq<u8>) -> bool {
    s.len() > 0 && forall|i: int| 0 <= i < s.len() ==> is_digit(#[trigger] s[i])
}

/// What an unsigned integer parses from `s`: digits, after an optional `+`.
pub open spec fn unsigned_value(s: Seq<u8>) -> Option<nat> {
    let body = if s.len() > 0 && s[0] == 43 {
        s.drop_first()
    } else {
        s
    };
    if is_number(body) {
        Some(digits_value(body))
    } else {
        None
    }
}

/// What a signed integer parses from `s`: digits, after an optional `+` or `-`.
pub open spec fn signed_value(s: Seq<u8>) -> Option<int> {
    if s.len() > 0 && s[0] == 45 {
        if is_number(s.drop_first()) {
            Some(-(digits_value(s.drop_first()) as int))
        } else {
            None
        }
    } else {
        match unsigned_value(s) {
            Some(n) => Some(n as int),
            None => None,
        }
    }
}

/// `a` comes before `b` in the order of byte strings: at the first place where
/// they differ `a` has the smaller byte, or `a` is a proper prefix of `b`.
pub open spec fn lex_lt(a: Seq<u8>, b: Seq<u8>) -> bool
    decreases a.len(),
{
    if b.len() == 0 {
        false
    } else if a.len() == 0 {
        true
    } else if a[0] != b[0] {
        a[0] < b[0]
    } else {
        lex_lt(a.drop_first(), b.drop_first())
    }
}

/// Of two byte strings, one comes before the other or they are the same.
pub proof fn lemma_lex_total(a: Seq<u8>, b: Seq<u8>)
    ensures
        lex_lt(a, b) || a == b || lex_lt(b, a),
    decreases a.len(),
{
    if a.len() == 0 || b.len() == 0 {
        if a.len() == 0 && b.len() == 0 {
            assert(a =~= b);
        }
    } else if a[0] == b[0] {
        lemma_lex_total(a.drop_first(), b.drop_first());
        if a.drop_first() == b.drop_first() {
            assert(a =~= seq![a[0]] + a.drop_first());
            assert(b =~= seq![b[0]] + b.drop_first());
        }
    }
}

/// No byte string comes before itself, nor before one that comes before it.
pub proof fn lemma_lex_asymmetric(a: Seq<u8>, b: Seq<u8>)
    ensures
        lex_lt(a, b) ==> !lex_lt(b, a),
        !lex_lt(a, a),
    decreases a.len(),
{
    if a.len() > 0 {
        lemma_lex_asymmetric(a.drop_first(), b.drop_first());
    }
}

/// What comes before a byte string comes before all that come after it.
pub proof fn lemma_lex_transitive(a: Seq<u8>, b: Seq<u8>, c: Seq<u8>)
    requires
        lex_lt(a, b),
        lex_lt(b, c),
    ensures
        lex_lt(a, c),
    decreases a.len(),
{
    if a.len() > 0 && a[0] == b[0] && b[0] == c[0] {
        lemma_lex_transitive(a.drop_first(), b.drop_first(), c.drop_first());
    }
}

/// Ten to the power `n`.
pub open spec fn pow10(n: nat) -> nat
    decreases n,
{
    if n == 0 {
        1
    } else {
        10 * pow10((n - 1) as nat)
    }
}

/// The decimal digits of a number are digits, and stand for it.
pub proof fn lemma_decimal(n: nat)
    ensures
        is_number(decimal(n)),
        digits_value(decimal(n)) == n,
    decreases n,
{
    if n < 10 {
        reveal_with_fuel(digits_value, 2);
    } else {
        lemma_decimal(n / 10);
        assert(decimal(n).drop_last() =~= decimal(n / 10));
        assert forall|i: int| 0 <= i < decimal(n).len() implies is_digit(
            #[trigger] decimal(n)[i],
        ) by {
            if i < decimal(n / 10).len() {
                assert(is_digit(decimal(n / 10)[i]));
            }
        }
    }
}

/// A number below ten to the power `k` has at most `k` digits.
pub proof fn lemma_decimal_len(n: nat, k: nat)
    requires
        k > 0,
        n < pow10(k),
    ensures
        decimal(n).len() <= k,
    decreases n,
{
    if n >= 10 {
        if k == 1 {
            reveal_with_fuel(pow10, 2);
        }
        lemma_decimal_len(n / 10, (k - 1) as nat);
    }
}

/// Zeros in front of the digits of a number leave what they stand for.
pub proof fn lemma_zero_padded(n: nat, width: nat)
    ensures
        is_number(zero_padded(n, width)),
        digits_value(zero_padded(n, width)) == n,
        forall|i: int|
            0 <= i < zero_padded(n, width).len() ==> #[trigger] zero_padded(n, width)[i] < 128,
        decimal(n).len() <= width ==> zero_padded(n, width).len() == width,
{
    lemma_decimal(n);
    let padded = zero_padded(n, width);
    let zeros = (padded.len() - decimal(n).len()) as nat;
    assert(padded =~= Seq::new(zeros, |i: int| 48u8) + decimal(n));
    lemma_leading_zeros(zeros, decimal(n));
    assert forall|i: int| 0 <= i < padded.len() implies is_digit(#[trigger] padded[i]) by {
        if i >= zeros {
            assert(is_digit(decimal(n)[i - zeros]));
        }
    }
    assert forall|i: int| 0 <= i < padded.len() implies #[trigger] padded[i] < 128 by {
        assert(is_digit(padded[i]));
    }
}

proof fn lemma_leading_zeros(zeros: nat, s: Seq<u8>)
    ensures
        digits_value(Seq::new(zeros, |i: int| 48u8) + s) == digits_value(s),
    decreases s.len() + zeros,
{
    let padded = Seq::new(zeros, |i: int| 48u8) + s;
    if s.len() > 0 {
        lemma_leading_zeros(zeros, s.drop_last());
        assert(padded.drop_last() =~= Seq::new(zeros, |i: int| 48u8) + s.drop_last());
    } else if zeros > 0 {
        lemma_leading_zeros((zeros - 1) as nat, s);
        assert(padded.drop_last() =~= Seq::new((zeros - 1) as nat, |i: int| 48u8) + s);
    } else {
        assert(padded =~= s);
    }
}

/// What digits stand for, read from the front.
proof fn lemma_digits_front(s: Seq<u8>)
    requires
        is_number(s),
    ensures
        digits_value(s) == (s[0] - 48) * pow10((s.len() - 1) as nat) + digits_value(
            s.drop_first(),
        ),
        digits_value(s) < pow10(s.len()),
    decreases s.len(),
{
    assert(is_digit(s[0]));
    assert(is_digit(s.last()));
    let init = s.drop_last();
    let d = s[0] - 48;
    if s.len() == 1 {
        assert(init =~= Seq::<u8>::empty());
        assert(s.drop_first() =~= Seq::<u8>::empty());
        reveal_with_fuel(pow10, 2);
        reveal_with_fuel(digits_value, 2);
        assert(pow10((s.len() - 1) as nat) == 1);
        assert(d * 1 == d);
    } else {
        assert forall|i: int| 0 <= i < init.len() implies is_digit(#[trigger] init[i]) by {
            assert(is_digit(s[i]));
        }
        lemma_digits_front(init);
        assert(s.drop_first().drop_last() =~= init.drop_first());
        assert(s.drop_first().last() == s.last());
        let p = pow10((init.len() - 1) as nat);
        assert(pow10((s.len() - 1) as nat) == 10 * p);
        assert(init[0] == s[0]);
        assert((d * p) * 10 == d * (10 * p)) by (nonlinear_arith);
    }
}

/// Among digits of one length, the order of byte strings is the order of the numbers.
pub proof fn lemma_lex_digits(a: Seq<u8>, b: Seq<u8>)
    requires
        is_number(a),
        is_number(b),
        a.len() == b.len(),
    ensures
        lex_lt(a, b) <==> digits_value(a) < digits_value(b),
        a == b <==> digits_value(a) == digits_value(b),
    decreases a.len(),
{
    lemma_digits_front(a);
    lemma_digits_front(b);
    assert(is_digit(a[0]) && is_digit(b[0]));
    let p = pow10((a.len() - 1) as nat);
    let x = a.drop_first();
    let y = b.drop_first();
    if a.len() == 1 {
        assert(x =~= Seq::<u8>::empty() && y =~= Seq::<u8>::empty());
        assert(p == 1);
        assert((a[0] - 48) * p == a[0] - 48 && (b[0] - 48) * p == b[0] - 48);
        reveal_with_fuel(lex_lt, 2);
        assert(a =~= seq![a[0]] && b =~= seq![b[0]]);
    } else {
        assert forall|i: int| 0 <= i < x.len() implies is_digit(#[trigger] x[i]) by {
            assert(is_digit(a[i + 1]));
        }
        assert forall|i: int| 0 <= i < y.len() implies is_digit(#[trigger] y[i]) by {
            assert(is_digit(b[i + 1]));
        }
        lemma_digits_front(x);
        lemma_digits_front(y);
        lemma_lex_digits(x, y);
        if a[0] < b[0] {
            let c = a[0] - 48;
            let d = b[0] - 48;
            assert(c * p + p <= d * p) by (nonlinear_arith)
                requires
                    c + 1 <= d,
                    p >= 0,
            ;
        } else if b[0] < a[0] {
            let c = b[0] - 48;
            let d = a[0] - 48;
            assert(c * p + p <= d * p) by (nonlinear_arith)
                requires
                    c + 1 <= d,
                    p >= 0,
            ;
        } else {
            assert(a =~= seq![a[0]] + x && b =~= seq![b[0]] + y);
        }
    }
}

/// What stands in front of both of two byte strings does not change their order.
pub proof fn lemma_lex_common(front: Seq<u8>, a: Seq<u8>, b: Seq<u8>)
    ensures
        lex_lt(front + a, front + b) == lex_lt(a, b),
    decreases front.len(),
{
    if front.len() == 0 {
        assert(front + a =~= a && front + b =~= b);
    } else {
        lemma_lex_common(front.drop_first(), a, b);
        assert((front + a).drop_first() =~= front.drop_first() + a);
        assert((front + b).drop_first() =~= front.drop_first() + b);
    }
}

/// What stands behind two byte strings of one length that differ does not change their order.
pub proof fn lemma_lex_differ(a: Seq<u8>, b: Seq<u8>, x: Seq<u8>, y: Seq<u8>)
    requires
        a.len() == b.len(),
        a != b,
    ensures
        lex_lt(a + x, b + y) == lex_lt(a, b),
    decreases a.len(),
{
    if a.len() == 0 {
        assert(a =~= b);
    } else {
        assert((a + x).drop_first() =~= a.drop_first() + x);
        assert((b + y).drop_first() =~= b.drop_first() + y);
        if a[0] == b[0] {
            if a.drop_first() == b.drop_first() {
                assert(a =~= seq![a[0]] + a.drop_first());
                assert(b =~= seq![b[0]] + b.drop_first());
            }
            lemma_lex_differ(a.drop_first(), b.drop_first(), x, y);
        }
    }
}

/// Appends the decimal digits of `n` to `out`.
pub fn push_decimal(out: &mut Vec<u8>, n: u64)
    ensures
        final(out)@ == old(out)@ + decimal(n as nat),
    decreases n,
{
    if n >= 10 {
        push_decimal(out, n / 10);
    }
    out.push((48 + n % 10) as u8);
    assert(out@ =~= old(out)@ + decimal(n as nat));
}

/// Appends the decimal digits of `n` to `out`, with zeros in front up to `width` digits.
pub fn push_zero_padded(out: &mut Vec<u8>, n: u64, width: usize)
    ensures
        final(out)@ == old(out)@ + zero_padded(n as nat, width as nat),
{
    let mut digits: Vec<u8> = Vec::new();
    push_decimal(&mut digits, n);
    assert(digits@ =~= decimal(n as nat));
    let mut i: usize = digits.len();
    let ghost before = out@;
    while i < width
        invariant
            digits@ == decimal(n as nat),
            before == old(out)@,
            digits.len() <= i,
            i <= width || i == digits.len(),
            out@ == before + Seq::new((i - digits.len()) as nat, |j: int| 48u8),
        decreases width - i,
    {
        out.push(48);
        i = i + 1;
        assert(out@ =~= before + Seq::new((i - digits.len()) as nat, |j: int| 48u8));
    }
    out.append(&mut digits);
    assert(out@ =~= old(out)@ + zero_padded(n as nat, width as nat));
}

/// Appends `bytes` to `out`.
pub fn push_bytes(out: &mut Vec<u8>, bytes: &[u8])
    ensures
        final(out)@ == old(out)@ + bytes@,
{
    let mut i: usize = 0;
    while i < bytes.len()
        invariant
            i <= bytes@.len(),
            out@ == old(out)@ + bytes@.take(i as int),
        decreases bytes@.len() - i,
    {
        out.push(bytes[i]);
        i = i + 1;
        assert(out@ =~= old(out)@ + bytes@.take(i as int));
    }
    assert(bytes@.take(i as int) =~= bytes@);
}

/// Reads one or more digits as a number that fits in 64 bits.
fn parse_digits(s: &[u8], from: usize) -> (r: Option<u64>)
    requires
        from <= s@.len(),
    ensures
        r is Some <==> is_number(s@.skip(from as int)) && digits_value(s@.skip(from as int))
            <= u64::MAX,
        r matches Some(v) ==> v == digits_value(s@.skip(from as int)),
{
    if from == s.len() {
        return None;
    }
    let ghost body = s@.skip(from as int);
    let mut value: u64 = 0;
    let mut i: usize = from;
    assert(body.take(0) =~= Seq::<u8>::empty());
    while i < s.len()
        invariant
            from <= i <= s@.len(),
            body == s@.skip(from as int),
            body.len() > 0,
            value == digits_value(body.take(i - from)),
            forall|k: int| 0 <= k < i - from ==> is_digit(#[trigger] body[k]),
        decreases s@.len() - i,
    {
        let b: u8 = s[i];
        assert(b == body[i - from]);
        if b < 48 || b > 57 {
            return None;
        }
        assert(body.take(i - from + 1).drop_last() =~= body.take(i - from));
        assert(digits_value(body.take(i - from + 1)) == value * 10 + (b - 48));
        proof {
            lemma_digits_value_monotonic(body, i - from + 1);
        }
        let next: Option<u64> = match value.checked_mul(10) {
            Some(scaled) => scaled.checked_add((b - 48) as u64),
            None => None,
        };
        match next {
            Some(v) => {
                value = v;
            },
            None => {
                return None;
            },
        }
        i = i + 1;
    }
    assert(body.take(i - from) =~= body);
    Some(value)
}

/// A longer string of digits stands for no smaller a number.
proof fn lemma_digits_value_monotonic(s: Seq<u8>, n: int)
    requires
        0 <= n <= s.len(),
    ensures
        is_number(s) ==> digits_value(s.take(n)) <= digits_value(s),
    decreases s.len() - n,
{
    if n < s.len() {
        lemma_digits_value_monotonic(s, n + 1);
        assert(s.take(n + 1).drop_last() =~= s.take(n));
        if is_number(s) {
            assert(is_digit(s[n]));
            assert(s.take(n + 1).last() == s[n]);
        }
    } else {
        assert(s.take(n) =~= s);
    }
}

/// Parses an unsigned integer that fits in 64 bits.
pub fn parse_u64(s: &[u8]) -> (r: Option<u64>)
    ensures
        r == (match unsigned_value(s@) {
            Some(n) => if n <= u64::MAX {
                Some(n as u64)
            } else {
                None
            },
            None => None,
        }),
{
    if s.len() > 0 && s[0] == 43 {
        assert(s@.skip(1) =~= s@.drop_first());
        parse_digits(s, 1)
    } else {
        assert(s@.skip(0) =~= s@);
        parse_digits(s, 0)
    }
}

/// Parses an unsigned integer that fits in 32 bits.
pub fn parse_u32(s: &[u8]) -> (r: Option<u32>)
    ensures
        r == (match unsigned_value(s@) {
            Some(n) => if n <= u32::MAX {
                Some(n as u32)
            } else {
                None
            },
            None => None,
        }),
{
    match parse_u64(s) {
        Some(v) => if v <= u32::MAX as u64 {
            Some(v as u32)
        } else {
            None
        },
        None => None,
    }
}

/// Parses a signed integer that fits in 64 bits.
pub fn parse_i64(s: &[u8]) -> (r: Option<i64>)
    ensures
        r == (match signed_value(s@) {
            Some(n) => if i64::MIN <= n <= i64::MAX {
                Some(n as i64)
            } else {
                None
            },
            None => None,
        }),
{
    if s.len() > 0 && s[0] == 45 {
        assert(s@.skip(1) =~= s@.drop_first());
        match parse_digits(s, 1) {
            Some(v) => if v <= 0x7fff_ffff_ffff_ffff {
                Some(-(v as i64))
            } else if v == 0x8000_0000_0000_0000 {
                Some(i64::MIN)
            } else {
                None
            },
            None => None,
        }
    } else {
        match parse_u64(s) {
            Some(v) => if v <= 0x7fff_ffff_ffff_ffff {
                Some(v as i64)
            } else {
                None
            },
            None => None,
        }
    }
}

/// Whether `a` comes before `b` in the order of byte strings.
pub fn lex_less(a: &[u8], b: &[u8]) -> (r: bool)
    ensures
        r == lex_lt(a@, b@),
{
    let mut i: usize = 0;
    assert(a@.skip(0) =~= a@);
    assert(b@.skip(0) =~= b@);
    loop
        invariant
            i <= a@.len(),
            i <= b@.len(),
            lex_lt(a@, b@) == lex_lt(a@.skip(i as int), b@.skip(i as int)),
        decreases a@.len() - i,
    {
        if i == b.len() {
            return false;
        }
        if i == a.len() {
            return true;
        }
        if a[i] != b[i] {
            return a[i] < b[i];
        }
        assert(a@.skip(i as int).drop_first() =~= a@.skip(i + 1));
        assert(b@.skip(i as int).drop_first() =~= b@.skip(i + 1));
        i = i + 1;
    }
}

/// Whether two byte strings are the same.
pub fn bytes_equal(a: &[u8], b: &[u8]) -> (r: bool)
    ensures
        r == (a@ == b@),
{
    if a.len() != b.len() {
        return false;
    }
    let mut i: usize = 0;
    while i < a.len()
        invariant
            i <= a@.len(),
            a@.len() == b@.len(),
            forall|k: int| 0 <= k < i ==> a@[k] == b@[k],
        decreases a@.len() - i,
    {
        if a[i] != b[i] {
            return false;
        }
        i = i + 1;
    }
    assert(a@ =~= b@);
    true
}

/// Whether two strings are the same.
pub fn text_equal(a: &str, b: &str) -> (r: bool)
    ensures
        r == (a@ == b@),
{
    let r: bool = bytes_equal(a.as_bytes(), b.as_bytes());
    proof {
        encode_utf8_decode_utf8(a@);
        encode_utf8_decode_utf8(b@);
    }
    r
}

/// `String::from_utf8`: the bytes as a string, where they are valid UTF-8.
#[verifier::external_body]
pub(crate) fn utf8_string(bytes: Vec<u8>) -> (r: Option<String>)
    ensures
        r is Some <==> valid_utf8(bytes@),
        r matches Some(s) ==> encode_utf8(s@) == bytes@,
{
    String::from_utf8(bytes).ok()
}

/// The characters that bytes below 128 stand for.
pub open spec fn ascii_chars(bytes: Seq<u8>) -> Seq<char> {
    bytes.map_values(|b: u8| b as char)
}

/// Bytes below 128 are the UTF-8 of the characters that they stand for.
pub proof fn lemma_ascii(bytes: Seq<u8>)
    requires
        forall|i: int| 0 <= i < bytes.len() ==> #[trigger] bytes[i] < 128,
    ensures
        valid_utf8(bytes),
        encode_utf8(ascii_chars(bytes)) == bytes,
{
    let chars = ascii_chars(bytes);
    assert(vstd::utf8::is_ascii_chars(chars)) by {
        assert forall|i: int| 0 <= i < chars.len() implies '\0' <= #[trigger] chars[i]
            <= '\u{7f}' by {
            assert(bytes[i] < 128);
        }
    }
    vstd::utf8::is_ascii_chars_encode_utf8(chars);
    assert(encode_utf8(chars) =~= bytes) by {
        assert forall|i: int| 0 <= i < bytes.len() implies encode_utf8(chars)[i] == bytes[i] by {
            assert(bytes[i] < 128);
            assert(chars[i] as u8 == encode_utf8(chars)[i]);
        }
    }
    vstd::utf8::encode_utf8_valid_utf8(chars);
}

/// The string of the characters that bytes below 128 stand for.
pub fn ascii_string(bytes: Vec<u8>) -> (r: String)
    requires
        forall|i: int| 0 <= i < bytes@.len() ==> #[trigger] bytes@[i] < 128,
    ensures
        r@ == ascii_chars(bytes@),
{
    proof {
        lemma_ascii(bytes@);
        encode_utf8_decode_utf8(ascii_chars(bytes@));
    }
    match utf8_string(bytes) {
        Some(s) => {
            proof {
                encode_utf8_decode_utf8(s@);
            }
            s
        },
        None => String::new(),
    }
}

/// The digit `d` as a string of one character.
fn digit_text(d: u64) -> (r: &'static str)
    requires
        d < 10,
    ensures
        r@ == seq![(48 + d) as char],
{
    proof {
        reveal_strlit("0");
        reveal_strlit("1");
        reveal_strlit("2");
        reveal_strlit("3");
        reveal_strlit("4");
        reveal_strlit("5");
        reveal_strlit("6");
        reveal_strlit("7");
        reveal_strlit("8");
        reveal_strlit("9");
    }
    let r: &'static str = match d {
        0 => "0",
        1 => "1",
        2 => "2",
        3 => "3",
        4 => "4",
        5 => "5",
        6 => "6",
        7 => "7",
        8 => "8",
        _ => "9",
    };
    assert(r@ =~= seq![(48 + d) as char]);
    r
}

/// Appends the decimal digits of `n` to a string.
pub fn append_decimal(out: &mut String, n: u64)
    ensures
        final(out)@ == old(out)@ + decimal_chars(n as nat),
    decreases n,
{
    if n >= 10 {
        append_decimal(out, n / 10);
    }
    out.append(digit_text(n % 10));
    assert(out@ =~= old(out)@ + decimal_chars(n as nat));
}

/// Digits stand for a number in base ten: nothing stands for zero, and one digit more makes ten
/// times the number with the digit added. What is written of a number are digits that stand for
/// it, without a zero in front unless the number is zero.
pub proof fn law_decimal(n: nat, s: Seq<u8>, d: u8)
    requires
        48 <= d <= 57,
    ensures
        digits_value(Seq::empty()) == 0,
        digits_value(s.push(d)) == 10 * digits_value(s) + d - 48,
        digits_value(decimal(n)) == n,
        decimal(n).len() > 0,
        forall|i: int| 0 <= i < decimal(n).len() ==> 48 <= #[trigger] decimal(n)[i] <= 57,
        n > 0 ==> decimal(n)[0] != 48,
        n == 0 ==> decimal(n) == seq![48u8],
        forall|i: int|
            0 <= i < decimal(n).len() ==> #[trigger] decimal_chars(n)[i] == decimal(n)[i] as char,
        decimal_chars(n).len() == decimal(n).len(),
    decreases n,
{
    assert(s.push(d).drop_last() =~= s);
    lemma_decimal(n);
    assert forall|i: int| 0 <= i < decimal(n).len() implies 48 <= #[trigger] decimal(n)[i] <= 57 by {
        assert(is_digit(decimal(n)[i]));
    }
    if n >= 10 {
        law_decimal(n / 10, s, d);
    }
}

/// A number is read from one or more digits, with or without a plus in front, and from nothing
/// else; a signed one also from a minus and one or more digits. What was written of a number is
/// read as that number.
pub proof fn law_read_number(s: Seq<u8>, n: nat)
    ensures
        unsigned_value(s) is Some <==> {
            let from: int = if s.len() > 0 && s[0] == '+' as u8 {
                1
            } else {
                0
            };
            s.len() > from && forall|i: int| from <= i < s.len() ==> 48 <= #[trigger] s[i] <= 57
        },
        unsigned_value(decimal(n)) == Some(n),
        unsigned_value(seq!['+' as u8] + decimal(n)) == Some(n),
        signed_value(decimal(n)) == Some(n as int),
        signed_value(seq!['-' as u8] + decimal(n)) == Some(-(n as int)),
        signed_value(seq!['+' as u8] + decimal(n)) == Some(n as int),
        !(s.len() > 0 && s[0] == '-' as u8) ==> (signed_value(s) matches Some(v) ==> v >= 0
            && unsigned_value(s) == Some(v as nat)) && (signed_value(s) is None <==> unsigned_value(
            s,
        ) is None),
        s.len() > 0 && s[0] == '-' as u8 ==> (signed_value(s) is Some <==> s.len() > 1 && forall|
            i: int,
        |
            1 <= i < s.len() ==> 48 <= #[trigger] s[i] <= 57),
{
    lemma_decimal(n);
    let d = decimal(n);
    assert(is_digit(d[0]));
    assert((seq!['+' as u8] + d).drop_first() =~= d);
    assert((seq!['-' as u8] + d).drop_first() =~= d);
    if s.len() > 0 {
        let rest = s.drop_first();
        assert forall|i: int| 0 <= i < rest.len() implies rest[i] == s[i + 1] by {}
        if s[0] == 43 || s[0] == 45 {
            if is_number(rest) {
                assert forall|i: int| 1 <= i < s.len() implies 48 <= #[trigger] s[i] <= 57 by {
                    assert(is_digit(rest[i - 1]));
                }
            } else if rest.len() > 0 {
                let k = choose|k: int| 0 <= k < rest.len() && !is_digit(#[trigger] rest[k]);
                assert(!(48 <= s[k + 1] <= 57));
            }
        }
        if is_number(s) {
            assert forall|i: int| 0 <= i < s.len() implies 48 <= #[trigger] s[i] <= 57 by {
                assert(is_digit(s[i]));
            }
        } else {
            let k = choose|k: int| 0 <= k < s.len() && !is_digit(#[trigger] s[k]);
            assert(!(48 <= s[k] <= 57));
        }
    }
}

/// The order of byte strings goes by the first byte in which two of them differ: the one with the
/// smaller byte comes first. Where there is none, the shorter comes first.
pub proof fn law_first_difference_decides(a: Seq<u8>, b: Seq<u8>, n: int)
    requires
        0 <= n <= a.len(),
        n <= b.len(),
        forall|i: int| 0 <= i < n ==> #[trigger] a[i] == b[i],
        n == a.len() || n == b.len() || a[n] != b[n],
    ensures
        n < a.len() && n < b.len() ==> (lex_lt(a, b) <==> a[n] < b[n]),
        n == a.len() || n == b.len() ==> (lex_lt(a, b) <==> a.len() < b.len()),
    decreases n,
{
    if n > 0 {
        assert(a[0] == b[0]);
        let x = a.drop_first();
        let y = b.drop_first();
        assert forall|i: int| 0 <= i < n - 1 implies #[trigger] x[i] == y[i] by {
            assert(a[i + 1] == b[i + 1]);
        }
        law_first_difference_decides(x, y, n - 1);
    }
}

} // verus!
