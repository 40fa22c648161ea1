//! Writing a FIX message in the `tag=value|` syntax with the tag-value
//! encoder of `fefix`: what it writes (`BeginString <8>`, a six-digit
//! `BodyLength <9>`, `MsgType <35>`, the given fields in order, and
//! `CheckSum <10>`), and that the result is UTF-8 where the values are.
use fefix::tagvalue::Configure;
use vstd::prelude::*;
use vstd::utf8::*;
use crate::frame::{EQUALS, SEPARATOR};

verus! {

/// The decimal digits of `n`, without leading zeros.
pub open spec fn decimal(n: nat) -> Seq<u8>
    decreases n,
{
    if n < 10 {
        seq![(48 + n) as u8]
    } else {
        decimal(n / 10).push((48 + n % 10) as u8)
    }
}

/// One field: the tag in decimal, `=`, the value and the separator.
pub open spec fn field_bytes(tag: nat, value: Seq<u8>) -> Seq<u8> {
    decimal(tag) + seq![EQUALS] + value + seq![SEPARATOR]
}

/// The given fields, one after the other.
pub open spec fn fields_bytes(fs: Seq<(u16, Seq<u8>)>) -> Seq<u8>
    decreases fs.len(),
{
    if fs.len() == 0 {
        Seq::empty()
    } else {
        fields_bytes(fs.drop_last()) + field_bytes(fs.last().0 as nat, fs.last().1)
    }
}

/// The digit that the encoder writes for `len / 10^k`: it truncates the
/// quotient to a byte before it takes the last decimal digit.
pub open spec fn length_digit(len: nat, power: nat) -> u8 {
    (48 + ((len / power) % 256) % 10) as u8
}

/// The six digits of `BodyLength <9>`.
pub open spec fn body_length_digits(len: nat) -> Seq<u8> {
    seq![
        length_digit(len, 100000),
        length_digit(len, 10000),
        length_digit(len, 1000),
        length_digit(len, 100),
        length_digit(len, 10),
        length_digit(len, 1),
    ]
}

/// The sum of the bytes, modulo 256.
pub open spec fn checksum_of(s: Seq<u8>) -> u8
    decreases s.len(),
{
    if s.len() == 0 {
        0
    } else {
        vstd::wrapping::u8_specs::wrapping_add(checksum_of(s.drop_last()), s.last())
    }
}

/// The three digits of `CheckSum <10>`.
pub open spec fn checksum_digits(c: u8) -> Seq<u8> {
    seq![(48 + c / 100) as u8, (48 + (c / 10) % 10) as u8, (48 + c % 10) as u8]
}

/// The body: `MsgType <35>` and the fields.
pub open spec fn message_body(msg_type: Seq<u8>, fields: Seq<(u16, Seq<u8>)>) -> Seq<u8> {
    field_bytes(35, msg_type) + fields_bytes(fields)
}

/// Everything before `CheckSum <10>`.
pub open spec fn message_framed(
    begin_string: Seq<u8>,
    msg_type: Seq<u8>,
    fields: Seq<(u16, Seq<u8>)>,
) -> Seq<u8> {
    let body = message_body(msg_type, fields);
    field_bytes(8, begin_string) + field_bytes(9, body_length_digits(body.len())) + body
}

/// The whole message.
#[verifier::opaque]
pub open spec fn tagvalue_message(
    begin_string: Seq<u8>,
    msg_type: Seq<u8>,
    fields: Seq<(u16, Seq<u8>)>,
) -> Seq<u8> {
    let framed = message_framed(begin_string, msg_type, fields);
    framed + field_bytes(10, checksum_digits(checksum_of(framed)))
}

/// Bytes below 128 are valid UTF-8.
pub proof fn lemma_ascii_valid_utf8(s: Seq<u8>)
    requires
        forall|i: int| 0 <= i < s.len() ==> s[i] < 128,
    ensures
        valid_utf8(s),
    decreases s.len(),
{
    if s.len() > 0 {
        let rest = s.subrange(1, s.len() as int);
        lemma_ascii_valid_utf8(rest);
        assert(pop_first_scalar(s) =~= rest);
    }
}

/// Bytes below 128 decode to one character each, the character with the
/// byte's number.
pub proof fn lemma_ascii_decode(s: Seq<u8>)
    requires
        forall|i: int| 0 <= i < s.len() ==> s[i] < 128,
    ensures
        decode_utf8(s).len() == s.len(),
        forall|i: int| 0 <= i < s.len() ==> #[trigger] decode_utf8(s)[i] as int == s[i] as int,
    decreases s.len(),
{
    lemma_ascii_valid_utf8(s);
    if s.len() > 0 {
        let rest = s.subrange(1, s.len() as int);
        lemma_ascii_decode(rest);
        assert(pop_first_scalar(s) =~= rest);
        let b = s[0];
        assert((b & 0x7F) as u32 == b as u32) by (bit_vector)
            requires
                b <= 0x7f,
        ;
        assert(decode_first_scalar(s) == b as u32);
        assert forall|i: int| 0 <= i < s.len() implies #[trigger] decode_utf8(s)[i] as int == s[i] as int by {
            if i > 0 {
                assert(s[i] == rest[i - 1]);
                assert(decode_utf8(s)[i] == decode_utf8(rest)[i - 1]);
            }
        }
    }
}

/// Decimal digits are ASCII digits.
pub proof fn lemma_decimal_digits(n: nat)
    ensures
        decimal(n).len() >= 1,
        forall|i: int| 0 <= i < decimal(n).len() ==> 48 <= #[trigger] decimal(n)[i] <= 57,
    decreases n,
{
    if n >= 10 {
        lemma_decimal_digits(n / 10);
    }
}

/// A field with a UTF-8 value is UTF-8.
proof fn lemma_field_valid_utf8(tag: nat, value: Seq<u8>)
    requires
        valid_utf8(value),
    ensures
        valid_utf8(field_bytes(tag, value)),
{
    lemma_decimal_digits(tag);
    let eq_sign: Seq<u8> = seq![EQUALS];
    let sep: Seq<u8> = seq![SEPARATOR];
    lemma_ascii_valid_utf8(decimal(tag) + eq_sign);
    lemma_ascii_valid_utf8(sep);
    valid_utf8_concat(decimal(tag) + eq_sign, value);
    valid_utf8_concat(decimal(tag) + eq_sign + value, sep);
}

/// Fields with UTF-8 values are UTF-8.
proof fn lemma_fields_valid_utf8(fs: Seq<(u16, Seq<u8>)>)
    requires
        forall|i: int| 0 <= i < fs.len() ==> valid_utf8(#[trigger] fs[i].1),
    ensures
        valid_utf8(fields_bytes(fs)),
    decreases fs.len(),
{
    if fs.len() == 0 {
        lemma_ascii_valid_utf8(Seq::empty());
    } else {
        lemma_fields_valid_utf8(fs.drop_last());
        assert(valid_utf8(fs[fs.len() - 1].1));
        lemma_field_valid_utf8(fs.last().0 as nat, fs.last().1);
        valid_utf8_concat(fields_bytes(fs.drop_last()), field_bytes(fs.last().0 as nat, fs.last().1));
    }
}

/// A message whose begin string, message type and field values are UTF-8 is
/// UTF-8.
pub proof fn lemma_message_valid_utf8(
    begin_string: Seq<u8>,
    msg_type: Seq<u8>,
    fields: Seq<(u16, Seq<u8>)>,
)
    requires
        valid_utf8(begin_string),
        valid_utf8(msg_type),
        forall|i: int| 0 <= i < fields.len() ==> valid_utf8(#[trigger] fields[i].1),
    ensures
        valid_utf8(tagvalue_message(begin_string, msg_type, fields)),
{
    reveal(tagvalue_message);
    let body = message_body(msg_type, fields);
    let digits = body_length_digits(body.len());
    lemma_field_valid_utf8(35, msg_type);
    lemma_fields_valid_utf8(fields);
    valid_utf8_concat(field_bytes(35, msg_type), fields_bytes(fields));
    lemma_ascii_valid_utf8(digits);
    lemma_field_valid_utf8(9, digits);
    lemma_field_valid_utf8(8, begin_string);
    valid_utf8_concat(field_bytes(8, begin_string), field_bytes(9, digits));
    valid_utf8_concat(field_bytes(8, begin_string) + field_bytes(9, digits), body);
    let framed = message_framed(begin_string, msg_type, fields);
    let c = checksum_of(framed);
    lemma_ascii_valid_utf8(checksum_digits(c));
    lemma_field_valid_utf8(10, checksum_digits(c));
    valid_utf8_concat(framed, field_bytes(10, checksum_digits(c)));
}

/// Appends the decimal digits of `n`.
pub(crate) fn push_decimal(out: &mut Vec<u8>, n: u64)
    ensures
        final(out)@ == old(out)@ + decimal(n as nat),
    decreases n,
{
    if n >= 10 {
        push_decimal(out, n / 10);
    }
    out.push((48 + n % 10) as u8);
    proof {
        if n >= 10 {
            assert(decimal(n as nat) == decimal((n / 10) as nat).push((48 + n % 10) as u8));
        }
    }
}

/// The field values as bytes.
pub open spec fn fields_as_bytes(fields: Seq<(u16, String)>) -> Seq<(u16, Seq<u8>)> {
    fields.map_values(|f: (u16, String)| (f.0, encode_utf8(f.1@)))
}

/// Whether every field has a tag other than 0 (a FIX tag is never 0).
pub open spec fn tags_nonzero(fields: Seq<(u16, String)>) -> bool {
    forall|i: int| 0 <= i < fields.len() ==> (#[trigger] fields[i]).0 != 0
}

/// Writes a message with `fefix::tagvalue::Encoder`, `|` as separator:
/// `start_message` writes `BeginString <8>`, a `BodyLength <9>` of six
/// zeros and `MsgType <35>`; `set_any` appends each field as its tag in
/// decimal, `=`, the value and the separator; `wrap` overwrites the six
/// zeros with the digits of the body length (each quotient truncated to a
/// byte before its last decimal digit is taken) and appends `CheckSum <10>`,
/// the sum of all bytes before it modulo 256 in three digits. The contract
/// states that message; a tag of 0 would make `TagU16::new` fail, so it is
/// left out.
#[verifier::external_body]
pub(crate) fn encode_tagvalue(begin_string: &str, msg_type: &str, fields: &Vec<(u16, String)>) -> (r: Vec<
    u8,
>)
    requires
        tags_nonzero(fields@),
    ensures
        r@ == tagvalue_message(
            encode_utf8(begin_string@),
            encode_utf8(msg_type@),
            fields_as_bytes(fields@),
        ),
{
    let mut encoder = fefix::tagvalue::Encoder::<fefix::tagvalue::Config>::default();
    encoder.config_mut().set_separator(SEPARATOR);
    let mut buffer = Vec::new();
    let mut message = encoder.start_message(begin_string.as_bytes(), &mut buffer, msg_type.as_bytes());
    for (tag, value) in fields.iter() {
        message.set_any(fefix::TagU16::new(*tag).unwrap(), value.as_bytes());
    }
    message.wrap().to_vec()
}

/// The checksum of one byte is that byte.
pub proof fn law_checksum_single(b: u8)
    ensures
        checksum_of(seq![b]) == b,
{
    assert(seq![b].drop_last() =~= Seq::<u8>::empty());
    assert(checksum_of(Seq::<u8>::empty()) == 0);
}

/// Adding three bytes modulo 256 in either grouping gives the same.
proof fn lemma_mod_add_assoc(x: int, y: int, z: int)
    requires
        0 <= x < 256,
        0 <= y < 256,
        0 <= z < 256,
    ensures
        ((x + y) % 256 + z) % 256 == (x + (y + z) % 256) % 256,
{
    vstd::arithmetic::div_mod::lemma_add_mod_noop_right(z, x + y, 256);
    vstd::arithmetic::div_mod::lemma_add_mod_noop_right(x, y + z, 256);
    assert(z + (x + y) == x + (y + z));
    assert((x + y) % 256 + z == z + (x + y) % 256);
}

/// The checksum of two pieces one after the other is the sum of their
/// checksums, modulo 256: each byte counts once, wherever it stands.
pub proof fn law_checksum_concat(a: Seq<u8>, b: Seq<u8>)
    ensures
        checksum_of(a + b) as int == (checksum_of(a) as int + checksum_of(b) as int) % 256,
    decreases b.len(),
{
    if b.len() == 0 {
        assert(a + b =~= a);
    } else {
        law_checksum_concat(a, b.drop_last());
        assert((a + b).drop_last() =~= a + b.drop_last());
        assert((a + b).last() == b.last());
        let x = checksum_of(a) as int;
        let y = checksum_of(b.drop_last()) as int;
        let z = b.last() as int;
        let w = checksum_of(a + b.drop_last()) as int;
        assert(w == (x + y) % 256);
        assert(checksum_of(a + b) as int == (w + z) % 256);
        assert(checksum_of(b) as int == (y + z) % 256);
        lemma_mod_add_assoc(x, y, z);
    }
}

/// The three digits of `CheckSum <10>` are ASCII digits that read, in
/// decimal, as the checksum, with leading zeros.
pub proof fn law_checksum_digits(c: u8)
    ensures
        checksum_digits(c).len() == 3,
        forall|i: int| 0 <= i < 3 ==> 48 <= #[trigger] checksum_digits(c)[i] <= 57,
        100 * (checksum_digits(c)[0] - 48) + 10 * (checksum_digits(c)[1] - 48) + (checksum_digits(c)[2]
            - 48) == c,
{
}

} // verus!
