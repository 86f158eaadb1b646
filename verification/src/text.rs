//! Textual forms used inside records: hexadecimal FLARM ids, decimal
//! frequency strings, and the UTF-8 byte strings held in the fixed 16-byte
//! text fields. Specs here are stated over the UTF-8 bytes of a string
//! (`encode_utf8` of its characters), which is what the format stores.

use vstd::prelude::*;

verus! {

use vstd::utf8::{valid_utf8, encode_utf8, decode_utf8, is_char_boundary};
use vstd::arithmetic::div_mod::{
    lemma_div_denominator, lemma_div_is_ordered, lemma_div_pos_is_pos, lemma_fundamental_div_mod,
};

/// Relies on core::str::from_utf8: it succeeds exactly on UTF-8-valid bytes
/// and returns the string those bytes spell (the string whose UTF-8
/// encoding is the input).
#[verifier::external_body]
pub fn bytes_to_string(bytes: &[u8]) -> (r: Option<String>)
    ensures
        r is Some <==> valid_utf8(bytes@),
        r matches Some(s) ==> encode_utf8(s@) == bytes@,
{
    match core::str::from_utf8(bytes) {
        Ok(s) => Some(s.to_string()),
        Err(_) => None,
    }
}

/// ASCII byte of the hex digit with value `d`, uppercase.
pub open spec fn spec_hex_digit(d: int) -> u8
    recommends
        0 <= d < 16,
{
    if d < 10 {
        (48 + d) as u8
    } else {
        (55 + d) as u8
    }
}

/// The six ASCII bytes of `v` written as exactly six uppercase hex digits.
pub open spec fn spec_hex6(v: u32) -> Seq<u8>
    recommends
        v <= 0xFFFFFF,
{
    seq![
        spec_hex_digit((v as int / 0x100000) % 16),
        spec_hex_digit((v as int / 0x10000) % 16),
        spec_hex_digit((v as int / 0x1000) % 16),
        spec_hex_digit((v as int / 0x100) % 16),
        spec_hex_digit((v as int / 0x10) % 16),
        spec_hex_digit(v as int % 16),
    ]
}

/// True for the ASCII bytes of hexadecimal digits, either case.
pub open spec fn spec_is_hex_digit(b: u8) -> bool {
    (48 <= b <= 57) || (65 <= b <= 70) || (97 <= b <= 102)
}

/// Numeric value of a hex digit byte.
pub open spec fn spec_hex_digit_value(b: u8) -> int
    recommends
        spec_is_hex_digit(b),
{
    if b <= 57 {
        b - 48
    } else if b <= 70 {
        b - 55
    } else {
        b - 87
    }
}

/// Value of a big-endian string of hex digit bytes.
pub open spec fn spec_hex_value(bs: Seq<u8>) -> int
    decreases bs.len(),
{
    if bs.len() == 0 {
        0
    } else {
        spec_hex_value(bs.drop_last()) * 16 + spec_hex_digit_value(bs.last())
    }
}

/// True when `bs` is a well-formed FLARM id numeral: a non-empty string of
/// hex digits whose value fits in 24 bits.
pub open spec fn spec_flarm_id_parses(bs: Seq<u8>) -> bool {
    &&& bs.len() > 0
    &&& forall|i: int| 0 <= i < bs.len() ==> spec_is_hex_digit(#[trigger] bs[i])
    &&& spec_hex_value(bs) <= 0xFFFFFF
}

/// ASCII bytes of `n` in decimal, no leading zeros (a single "0" for zero).
pub open spec fn spec_decimal(n: int) -> Seq<u8>
    recommends
        n >= 0,
    decreases n,
{
    if n < 10 {
        seq![(48 + n) as u8]
    } else {
        spec_decimal(n / 10) + seq![(48 + n % 10) as u8]
    }
}

/// Dot and three zero-padded digits for the thousandths `t`.
pub open spec fn spec_frac3(t: int) -> Seq<u8>
    recommends
        0 <= t < 1000,
{
    seq![
        46u8,
        (48 + t / 100) as u8,
        (48 + (t % 100) / 10) as u8,
        (48 + (t % 100) % 10) as u8,
    ]
}

/// The frequency string written for the stored integer `f` (thousandths of
/// MHz): empty for zero, otherwise the whole part, a dot, and exactly three
/// fractional digits.
pub open spec fn spec_freq_bytes(f: u32) -> Seq<u8> {
    if f == 0 {
        Seq::empty()
    } else {
        spec_decimal(f as int / 1000) + spec_frac3(f as int % 1000)
    }
}

/// True for the ASCII bytes of decimal digits.
pub open spec fn spec_is_dec_digit(b: u8) -> bool {
    48 <= b <= 57
}

/// Index of the first dot in `bs`, or its length if there is none.
pub open spec fn spec_dot_pos(bs: Seq<u8>) -> int
    decreases bs.len(),
{
    if bs.len() == 0 {
        0
    } else if bs[0] == 46 {
        0
    } else {
        1 + spec_dot_pos(bs.drop_first())
    }
}

/// Value of a string of decimal digit bytes.
pub open spec fn spec_dec_value(bs: Seq<u8>) -> int
    decreases bs.len(),
{
    if bs.len() == 0 {
        0
    } else {
        spec_dec_value(bs.drop_last()) * 10 + (bs.last() - 48)
    }
}

/// True when a non-empty `bs` is a plain decimal numeral with at most one
/// dot and at least one digit: digits, optionally a dot, digits.
pub open spec fn spec_freq_parses(bs: Seq<u8>) -> bool {
    let d = spec_dot_pos(bs);
    &&& bs.len() > 0
    &&& forall|i: int| 0 <= i < bs.len() && i != d ==> spec_is_dec_digit(#[trigger] bs[i])
    &&& (d > 0 || d + 1 < bs.len())
}

/// The integer part of the numeral `bs`.
pub open spec fn spec_freq_int_part(bs: Seq<u8>) -> Seq<u8> {
    bs.subrange(0, spec_dot_pos(bs))
}

/// The fractional digits of the numeral `bs` (empty when there is no dot).
pub open spec fn spec_freq_frac_part(bs: Seq<u8>) -> Seq<u8> {
    if spec_dot_pos(bs) < bs.len() {
        bs.subrange(spec_dot_pos(bs) + 1, bs.len() as int)
    } else {
        Seq::empty()
    }
}

/// The numeral's value in thousandths, rounded to the nearest integer
/// (half rounds up): the integer part scaled by 1000, plus the first three
/// fractional digits, plus one when the fourth fractional digit is 5 or
/// more.
pub open spec fn spec_freq_value(bs: Seq<u8>) -> int {
    let ip = spec_freq_int_part(bs);
    let fp = spec_freq_frac_part(bs);
    let padded = fp + seq![48u8, 48u8, 48u8];
    let frac3 = spec_dec_value(padded.subrange(0, 3));
    let round: int = if fp.len() > 3 && fp[3] >= 53 {
        1
    } else {
        0
    };
    spec_dec_value(ip) * 1000 + frac3 + round
}

/// The stored 32-bit frequency for the numeral `bs`: its value in
/// thousandths, saturated at the largest 32-bit value.
pub open spec fn spec_freq_stored(bs: Seq<u8>) -> u32 {
    if bs.len() == 0 {
        0u32
    } else if spec_freq_value(bs) > u32::MAX {
        u32::MAX
    } else {
        spec_freq_value(bs) as u32
    }
}

/// Length of the prefix of `fb` before its first zero byte (all of `fb`
/// when no byte is zero): the usable content of a 16-byte text field.
pub open spec fn spec_zero_prefix_len(fb: Seq<u8>) -> int
    decreases fb.len(),
{
    if fb.len() == 0 {
        0
    } else if fb[0] == 0 {
        0
    } else {
        1 + spec_zero_prefix_len(fb.drop_first())
    }
}

/// Pins `spec_zero_prefix_len` down: any index below which no byte is zero
/// and at which the sequence either ends or holds a zero is the zero-prefix
/// length.
pub proof fn lemma_zero_prefix_len(fb: Seq<u8>, z: int)
    requires
        0 <= z <= fb.len(),
        forall|j: int| 0 <= j < z ==> #[trigger] fb[j] != 0,
        z < fb.len() ==> fb[z] == 0,
    ensures
        spec_zero_prefix_len(fb) == z,
    decreases fb.len(),
{
    if fb.len() == 0 {
    } else if fb[0] == 0 {
        assert(z == 0);
    } else {
        assert(z > 0);
        lemma_zero_prefix_len(fb.drop_first(), z - 1);
    }
}

/// Largest index no greater than `i` that is a character boundary of `b`.
pub open spec fn spec_floor_boundary(b: Seq<u8>, i: int) -> int
    decreases i,
{
    if i <= 0 {
        0
    } else if is_char_boundary(b, i) {
        i
    } else {
        spec_floor_boundary(b, i - 1)
    }
}

/// The UTF-8 bytes actually stored for a text value with bytes `b`:
/// everything when at most 15 bytes, otherwise the longest prefix of at
/// most 15 bytes that ends on a character boundary.
pub open spec fn spec_truncated(b: Seq<u8>) -> Seq<u8> {
    if b.len() <= 15 {
        b
    } else {
        b.subrange(0, spec_floor_boundary(b, 15))
    }
}

/// The full 16-byte field written for a text value with bytes `b`: the
/// truncated content, zero-padded to 16 bytes.
pub open spec fn spec_field_written(b: Seq<u8>) -> Seq<u8> {
    spec_truncated(b) + crate::consts::spec_zeros(16 - spec_truncated(b).len())
}

/// The floor boundary never exceeds the index it starts from, and is
/// either a character boundary or zero.
pub proof fn lemma_floor_boundary_props(b: Seq<u8>, i: int)
    requires
        0 <= i,
    ensures
        0 <= spec_floor_boundary(b, i) <= i,
        is_char_boundary(b, spec_floor_boundary(b, i)) || spec_floor_boundary(b, i) == 0,
    decreases i,
{
    if i > 0 && !is_char_boundary(b, i) {
        lemma_floor_boundary_props(b, i - 1);
    }
}

/// A written text field is always exactly 16 bytes: at most 15 bytes of
/// content and at least one byte of zero padding.
pub proof fn lemma_field_written_len(b: Seq<u8>)
    ensures
        spec_truncated(b).len() <= 15,
        spec_field_written(b).len() == 16,
{
    if b.len() > 15 {
        lemma_floor_boundary_props(b, 15);
    }
}

/// Reading a written text field back up to its first zero byte recovers
/// exactly the truncated content, provided the content has no zero byte of
/// its own.
pub proof fn lemma_field_content_of_written(b: Seq<u8>)
    requires
        forall|i: int| 0 <= i < b.len() ==> #[trigger] b[i] != 0,
    ensures
        spec_zero_prefix_len(spec_field_written(b)) == spec_truncated(b).len(),
        spec_field_written(b).subrange(0, spec_truncated(b).len() as int) == spec_truncated(b),
    decreases b.len(),
{
    lemma_field_written_len(b);
    let t = spec_truncated(b);
    let w = spec_field_written(b);
    if b.len() > 15 {
        lemma_floor_boundary_props(b, 15);
    }
    assert forall|j: int| 0 <= j < t.len() implies #[trigger] w[j] != 0 by {
        assert(t[j] == b[j]);
        assert(w[j] == t[j]);
    }
    assert(w[t.len() as int] == 0);
    lemma_zero_prefix_len(w, t.len() as int);
    assert(w.subrange(0, t.len() as int) =~= t);
}

/// The truncated content of a string's UTF-8 bytes is itself valid UTF-8,
/// and is the whole string whenever those bytes fit the field.
pub proof fn lemma_truncated_valid(s: Seq<char>)
    ensures
        valid_utf8(spec_truncated(encode_utf8(s))),
        encode_utf8(s).len() <= 15 ==> decode_utf8(spec_truncated(encode_utf8(s))) == s,
{
    let b = encode_utf8(s);
    vstd::utf8::encode_utf8_valid_utf8(s);
    if b.len() <= 15 {
        assert(spec_truncated(b) == b);
        vstd::utf8::encode_utf8_decode_utf8(s);
    } else {
        lemma_floor_boundary_props(b, 15);
        let p = spec_floor_boundary(b, 15);
        vstd::utf8::is_char_boundary_start_end_of_seq(b);
        assert(is_char_boundary(b, p));
        vstd::utf8::valid_utf8_split(b, p);
    }
}

/// A sequence of bytes that are all ASCII is valid UTF-8.
pub proof fn lemma_ascii_valid_utf8(b: Seq<u8>)
    requires
        forall|i: int| 0 <= i < b.len() ==> #[trigger] b[i] < 0x80,
    ensures
        valid_utf8(b),
{
    assert(b.subrange(0, 0) =~= Seq::<u8>::empty());
    assert(valid_utf8(Seq::<u8>::empty()));
    assert(vstd::utf8::partial_valid_utf8(b, 0));
    vstd::utf8::partial_valid_utf8_extend_ascii_block(b, 0, b.len() as int);
    assert(b.subrange(0, b.len() as int) =~= b);
}

/// Builds the string spelled by a sequence of ASCII bytes.
pub fn ascii_to_string(b: &Vec<u8>) -> (s: String)
    requires
        forall|i: int| 0 <= i < b@.len() ==> #[trigger] b@[i] < 0x80,
    ensures
        encode_utf8(s@) == b@,
        s@ == decode_utf8(b@),
{
    proof {
        lemma_ascii_valid_utf8(b@);
    }
    match bytes_to_string(b.as_slice()) {
        Some(s) => {
            proof {
                vstd::utf8::encode_utf8_decode_utf8(s@);
            }
            s
        },
        None => {
            assert(false);
            String::new()
        },
    }
}

fn hex_digit(d: u32) -> (b: u8)
    requires
        d < 16,
    ensures
        b == spec_hex_digit(d as int),
{
    if d < 10 {
        (48 + d) as u8
    } else {
        (55 + d) as u8
    }
}

/// Every byte of the six-digit hex form is an ASCII hex digit, and in
/// particular neither zero nor a dot.
pub proof fn lemma_hex6_shape(v: u32)
    ensures
        spec_hex6(v).len() == 6,
        forall|i: int| 0 <= i < 6 ==> spec_is_hex_digit(#[trigger] spec_hex6(v)[i]),
        forall|i: int| 0 <= i < 6 ==> #[trigger] spec_hex6(v)[i] < 0x80,
        forall|i: int| 0 <= i < 6 ==> #[trigger] spec_hex6(v)[i] != 0,
{
    assert forall|i: int| 0 <= i < 6 implies spec_is_hex_digit(#[trigger] spec_hex6(v)[i])
        && spec_hex6(v)[i] < 0x80 && spec_hex6(v)[i] != 0 by {
        if i == 0 {
            assert(spec_hex6(v)[0] == spec_hex_digit((v as int / 0x100000) % 16));
        } else if i == 1 {
            assert(spec_hex6(v)[1] == spec_hex_digit((v as int / 0x10000) % 16));
        } else if i == 2 {
            assert(spec_hex6(v)[2] == spec_hex_digit((v as int / 0x1000) % 16));
        } else if i == 3 {
            assert(spec_hex6(v)[3] == spec_hex_digit((v as int / 0x100) % 16));
        } else if i == 4 {
            assert(spec_hex6(v)[4] == spec_hex_digit((v as int / 0x10) % 16));
        } else {
            assert(spec_hex6(v)[5] == spec_hex_digit(v as int % 16));
        }
    }
}

/// Writes `v` as exactly six uppercase hex digits, the canonical FLARM id
/// form.
pub fn format_flarm_id(v: u32) -> (s: String)
    requires
        v <= 0xFFFFFF,
    ensures
        encode_utf8(s@) == spec_hex6(v),
        s@ == decode_utf8(spec_hex6(v)),
{
    let mut b: Vec<u8> = Vec::new();
    b.push(hex_digit((v / 0x100000) % 16));
    b.push(hex_digit((v / 0x10000) % 16));
    b.push(hex_digit((v / 0x1000) % 16));
    b.push(hex_digit((v / 0x100) % 16));
    b.push(hex_digit((v / 0x10) % 16));
    b.push(hex_digit(v % 16));
    proof {
        assert(b@ =~= spec_hex6(v));
        lemma_hex6_shape(v);
    }
    ascii_to_string(&b)
}

/// The decimal form of a non-negative number is a non-empty string of
/// decimal digits.
pub proof fn lemma_decimal_shape(n: int)
    requires
        n >= 0,
    ensures
        spec_decimal(n).len() >= 1,
        forall|i: int| 0 <= i < spec_decimal(n).len() ==> spec_is_dec_digit(
            #[trigger] spec_decimal(n)[i],
        ),
    decreases n,
{
    if n >= 10 {
        lemma_decimal_shape(n / 10);
        assert forall|i: int| 0 <= i < spec_decimal(n).len() implies spec_is_dec_digit(
            #[trigger] spec_decimal(n)[i],
        ) by {
            if i < spec_decimal(n / 10).len() {
                assert(spec_decimal(n)[i] == spec_decimal(n / 10)[i]);
            } else {
                assert(spec_decimal(n)[i] == (48 + n % 10) as u8);
            }
        }
    }
}

/// Appends the decimal form of `n` to `out`.
pub fn push_decimal(out: &mut Vec<u8>, n: u32)
    ensures
        final(out)@ == old(out)@ + spec_decimal(n as int),
    decreases n,
{
    if n < 10 {
        out.push((48 + n) as u8);
        proof {
            assert(out@ =~= old(out)@ + spec_decimal(n as int));
        }
    } else {
        push_decimal(out, n / 10);
        out.push((48 + n % 10) as u8);
        proof {
            assert(out@ =~= old(out)@ + spec_decimal(n as int));
        }
    }
}

/// Every byte of a non-zero frequency's written form is ASCII.
pub proof fn lemma_freq_bytes_ascii(f: u32)
    ensures
        forall|i: int| 0 <= i < spec_freq_bytes(f).len() ==> #[trigger] spec_freq_bytes(f)[i]
            < 0x80,
{
    if f != 0 {
        let whole = spec_decimal(f as int / 1000);
        lemma_decimal_shape(f as int / 1000);
        assert forall|i: int| 0 <= i < spec_freq_bytes(f).len() implies #[trigger] spec_freq_bytes(
            f,
        )[i] < 0x80 by {
            if i < whole.len() {
                assert(spec_freq_bytes(f)[i] == whole[i]);
                assert(spec_is_dec_digit(whole[i]));
            } else {
                assert(spec_freq_bytes(f)[i] == spec_frac3(f as int % 1000)[i - whole.len()]);
            }
        }
    }
}

/// Appending a digit multiplies a hex numeral's value by 16 and adds the
/// digit.
pub proof fn lemma_hex_value_push(s: Seq<u8>, b: u8)
    ensures
        spec_hex_value(s.push(b)) == spec_hex_value(s) * 16 + spec_hex_digit_value(b),
{
    assert(s.push(b).drop_last() =~= s);
    assert(s.push(b).last() == b);
}

/// A hex numeral's value is never negative.
pub proof fn lemma_hex_value_nonneg(bs: Seq<u8>)
    requires
        forall|j: int| 0 <= j < bs.len() ==> spec_is_hex_digit(#[trigger] bs[j]),
    ensures
        spec_hex_value(bs) >= 0,
    decreases bs.len(),
{
    if bs.len() > 0 {
        lemma_hex_value_nonneg(bs.drop_last());
    }
}

/// A hex numeral's value is at least the value of any of its prefixes.
pub proof fn lemma_hex_value_monotone(bs: Seq<u8>, i: int)
    requires
        0 <= i <= bs.len(),
        forall|j: int| 0 <= j < bs.len() ==> spec_is_hex_digit(#[trigger] bs[j]),
    ensures
        spec_hex_value(bs) >= spec_hex_value(bs.take(i)),
    decreases bs.len() - i,
{
    if i == bs.len() {
        assert(bs.take(i) =~= bs);
    } else {
        lemma_hex_value_monotone(bs, i + 1);
        assert(bs.take(i + 1) =~= bs.take(i).push(bs[i]));
        lemma_hex_value_push(bs.take(i), bs[i]);
        assert(forall|j: int|
            0 <= j < bs.take(i).len() ==> spec_is_hex_digit(#[trigger] bs.take(i)[j]));
        lemma_hex_value_nonneg(bs.take(i));
    }
}

/// Reading the six-digit hex form back gives the value written: the
/// canonical form is a well-formed FLARM id numeral.
pub proof fn lemma_hex6_value(v: u32)
    requires
        v <= 0xFFFFFF,
    ensures
        spec_hex_value(spec_hex6(v)) == v,
        spec_flarm_id_parses(spec_hex6(v)),
{
    lemma_hex6_shape(v);
    let x = v as int;
    let n0 = (x / 0x100000) % 16;
    let n1 = (x / 0x10000) % 16;
    let n2 = (x / 0x1000) % 16;
    let n3 = (x / 0x100) % 16;
    let n4 = (x / 0x10) % 16;
    let n5 = x % 16;

    lemma_div_pos_is_pos(x, 0x100000);
    lemma_div_is_ordered(x, 0xFFFFFF, 0x100000);
    assert(x / 0x100000 < 16);
    assert(n0 == x / 0x100000);

    lemma_div_denominator(x, 0x10, 0x10);
    lemma_div_denominator(x, 0x100, 0x10);
    lemma_div_denominator(x, 0x1000, 0x10);
    lemma_div_denominator(x, 0x10000, 0x10);
    lemma_fundamental_div_mod(x, 0x10);
    lemma_fundamental_div_mod(x / 0x10, 0x10);
    lemma_fundamental_div_mod(x / 0x100, 0x10);
    lemma_fundamental_div_mod(x / 0x1000, 0x10);
    lemma_fundamental_div_mod(x / 0x10000, 0x10);
    assert((x / 0x10) / 0x10 == x / 0x100);
    assert((x / 0x100) / 0x10 == x / 0x1000);
    assert((x / 0x1000) / 0x10 == x / 0x10000);
    assert((x / 0x10000) / 0x10 == x / 0x100000);
    assert(x / 0x10000 == (x / 0x100000) * 16 + n1);
    assert(x / 0x1000 == (x / 0x10000) * 16 + n2);
    assert(x / 0x100 == (x / 0x1000) * 16 + n3);
    assert(x / 0x10 == (x / 0x100) * 16 + n4);
    assert(x == (x / 0x10) * 16 + n5);

    let d0 = spec_hex_digit(n0);
    let d1 = spec_hex_digit(n1);
    let d2 = spec_hex_digit(n2);
    let d3 = spec_hex_digit(n3);
    let d4 = spec_hex_digit(n4);
    let d5 = spec_hex_digit(n5);
    let e = Seq::<u8>::empty();
    lemma_hex_value_push(e, d0);
    lemma_hex_value_push(e.push(d0), d1);
    lemma_hex_value_push(e.push(d0).push(d1), d2);
    lemma_hex_value_push(e.push(d0).push(d1).push(d2), d3);
    lemma_hex_value_push(e.push(d0).push(d1).push(d2).push(d3), d4);
    lemma_hex_value_push(e.push(d0).push(d1).push(d2).push(d3).push(d4), d5);
    assert(e.push(d0).push(d1).push(d2).push(d3).push(d4).push(d5) =~= spec_hex6(v));
    assert(spec_hex_digit_value(d0) == n0);
    assert(spec_hex_digit_value(d1) == n1);
    assert(spec_hex_digit_value(d2) == n2);
    assert(spec_hex_digit_value(d3) == n3);
    assert(spec_hex_digit_value(d4) == n4);
    assert(spec_hex_digit_value(d5) == n5);
}

/// Appending a digit multiplies a decimal numeral's value by 10 and adds
/// the digit.
pub proof fn lemma_dec_value_push(s: Seq<u8>, b: u8)
    ensures
        spec_dec_value(s.push(b)) == spec_dec_value(s) * 10 + (b - 48),
{
    assert(s.push(b).drop_last() =~= s);
    assert(s.push(b).last() == b);
}

/// A decimal numeral's value is never negative.
pub proof fn lemma_dec_value_nonneg(bs: Seq<u8>)
    requires
        forall|j: int| 0 <= j < bs.len() ==> spec_is_dec_digit(#[trigger] bs[j]),
    ensures
        spec_dec_value(bs) >= 0,
    decreases bs.len(),
{
    if bs.len() > 0 {
        lemma_dec_value_nonneg(bs.drop_last());
    }
}

/// Reading a number's decimal form back gives the number.
pub proof fn lemma_decimal_value(n: int)
    requires
        n >= 0,
    ensures
        spec_dec_value(spec_decimal(n)) == n,
    decreases n,
{
    if n < 10 {
        assert(spec_decimal(n) =~= Seq::<u8>::empty().push((48 + n) as u8));
        lemma_dec_value_push(Seq::<u8>::empty(), (48 + n) as u8);
    } else {
        lemma_decimal_value(n / 10);
        assert(spec_decimal(n) =~= spec_decimal(n / 10).push((48 + n % 10) as u8));
        lemma_dec_value_push(spec_decimal(n / 10), (48 + n % 10) as u8);
        lemma_fundamental_div_mod(n, 10);
    }
}

/// Pins `spec_dot_pos` down: any index below which no byte is a dot and at
/// which the sequence either ends or holds a dot is the dot position.
pub proof fn lemma_dot_pos(bs: Seq<u8>, d: int)
    requires
        0 <= d <= bs.len(),
        forall|j: int| 0 <= j < d ==> #[trigger] bs[j] != 46,
        d < bs.len() ==> bs[d] == 46,
    ensures
        spec_dot_pos(bs) == d,
    decreases bs.len(),
{
    if bs.len() == 0 {
    } else if bs[0] == 46 {
        assert(d == 0);
    } else {
        assert(d > 0);
        lemma_dot_pos(bs.drop_first(), d - 1);
    }
}

/// Reading a non-zero frequency's written form back gives the value
/// written: the canonical form is a well-formed frequency numeral.
pub proof fn lemma_freq_round_trip(f: u32)
    requires
        f != 0,
    ensures
        spec_freq_bytes(f).len() > 0,
        spec_freq_parses(spec_freq_bytes(f)),
        spec_freq_stored(spec_freq_bytes(f)) == f,
{
    let w = f as int / 1000;
    let t = f as int % 1000;
    let whole = spec_decimal(w);
    let frac = spec_frac3(t);
    let bs = spec_freq_bytes(f);
    assert(bs == whole + frac);
    lemma_decimal_shape(w);
    lemma_decimal_value(w);

    let wl = whole.len() as int;
    assert forall|j: int| 0 <= j < wl implies #[trigger] bs[j] != 46 by {
        assert(bs[j] == whole[j]);
        assert(spec_is_dec_digit(whole[j]));
    }
    assert(bs[wl] == 46);
    lemma_dot_pos(bs, wl);

    assert(spec_freq_int_part(bs) =~= whole);
    let fp = spec_freq_frac_part(bs);
    let g1 = (48 + t / 100) as u8;
    let g2 = (48 + (t % 100) / 10) as u8;
    let g3 = (48 + (t % 100) % 10) as u8;
    assert(fp =~= seq![g1, g2, g3]);
    let padded = fp + seq![48u8, 48u8, 48u8];
    assert(padded.subrange(0, 3) =~= seq![g1, g2, g3]);

    let e = Seq::<u8>::empty();
    lemma_dec_value_push(e, g1);
    lemma_dec_value_push(e.push(g1), g2);
    lemma_dec_value_push(e.push(g1).push(g2), g3);
    assert(e.push(g1).push(g2).push(g3) =~= seq![g1, g2, g3]);
    lemma_fundamental_div_mod(t, 100);
    lemma_fundamental_div_mod(t % 100, 10);
    assert(spec_dec_value(seq![g1, g2, g3]) == t);

    lemma_fundamental_div_mod(f as int, 1000);
    assert(spec_freq_value(bs) == w * 1000 + t);
    assert(spec_freq_value(bs) == f);

    assert forall|i: int| 0 <= i < bs.len() && i != wl implies spec_is_dec_digit(
        #[trigger] bs[i],
    ) by {
        if i < wl {
            assert(bs[i] == whole[i]);
        } else {
            assert(bs[i] == frac[i - wl]);
        }
    }
    assert(spec_freq_parses(bs));
}

/// Writes the stored frequency `f` back as text: empty for zero, else the
/// MHz value with exactly three fractional digits.
pub fn format_frequency(f: u32) -> (s: String)
    ensures
        encode_utf8(s@) == spec_freq_bytes(f),
        s@ == decode_utf8(spec_freq_bytes(f)),
{
    if f == 0 {
        let s = String::new();
        proof {
            assert(encode_utf8(s@) =~= spec_freq_bytes(f));
            assert(s@ =~= decode_utf8(spec_freq_bytes(f)));
        }
        s
    } else {
        let mut b: Vec<u8> = Vec::new();
        push_decimal(&mut b, f / 1000);
        b.push(46);
        let t = f % 1000;
        b.push((48 + t / 100) as u8);
        let r = t % 100;
        b.push((48 + r / 10) as u8);
        b.push((48 + r % 10) as u8);
        proof {
            assert(b@ =~= spec_freq_bytes(f));
            lemma_freq_bytes_ascii(f);
        }
        ascii_to_string(&b)
    }
}

} // verus!
