//! What the decoding side reads back from a message that the encoding side
//! wrote: the frame check of the FIX decoder finds the body where the encoder
//! put it, and the `CheckSum` that ends up in the JSON trailer is the one the
//! encoder computed.
use vstd::prelude::*;
use crate::decoder::{checksum_text, last_index_of, last_piece, second_part, strip_trailing};
use crate::frame::{
    begin_value, fix44_decode_panics, fix44_decoded, header_spans, last_value, nominal_body_length,
    payload_fields, payload_range, plain_decoded, plain_fields, scan_panics, tag_parse,
    top_level_fields, FixErrorKind, EQUALS, SEPARATOR,
};
use crate::dictionary::{fix44_field_class, FieldClass};
use crate::decoder::{decoded_plainly, fields_outcome, flow_decoder_outcome};
use crate::tag_table::lemma_find_byte_shift;
use crate::tagvalue::lemma_decimal_digits;
use crate::text::lemma_find_byte;
use crate::tagvalue::{
    body_length_digits, checksum_digits, checksum_of, decimal, field_bytes, fields_bytes,
    length_digit, message_body, message_framed, tagvalue_message,
};
use crate::text::find_byte;

verus! {

/// `find_byte` finds `k` where `s[k]` is `b` and no byte from `start` to
/// `k` is.
proof fn lemma_find_byte_at(s: Seq<u8>, b: u8, start: int, k: int)
    requires
        0 <= start <= k < s.len(),
        s[k] == b,
        forall|j: int| start <= j < k ==> s[j] != b,
    ensures
        find_byte(s, b, start) == Some(k),
    decreases k - start,
{
    if start < k {
        lemma_find_byte_at(s, b, start + 1, k);
    }
}

/// The last `b` of `s + tail`, where `s` ends with `b` and `tail` holds none,
/// is the last byte of `s`.
proof fn lemma_last_index_before_tail(s: Seq<u8>, tail: Seq<u8>, b: u8)
    requires
        s.len() > 0,
        s.last() == b,
        forall|j: int| 0 <= j < tail.len() ==> tail[j] != b,
    ensures
        last_index_of(s + tail, b) == Some(s.len() - 1),
    decreases tail.len(),
{
    if tail.len() == 0 {
        assert(s + tail =~= s);
    } else {
        assert((s + tail).drop_last() =~= s + tail.drop_last());
        lemma_last_index_before_tail(s, tail.drop_last(), b);
    }
}

/// A field ends with the separator.
proof fn lemma_field_ends_with_separator(tag: nat, value: Seq<u8>)
    ensures
        field_bytes(tag, value).len() > 0,
        field_bytes(tag, value).last() == SEPARATOR,
{
}

/// The body of a message ends with the separator.
proof fn lemma_body_ends_with_separator(msg_type: Seq<u8>, fields: Seq<(u16, Seq<u8>)>)
    ensures
        message_body(msg_type, fields).len() > 0,
        message_body(msg_type, fields).last() == SEPARATOR,
{
    lemma_field_ends_with_separator(35, msg_type);
    if fields.len() > 0 {
        let last = field_bytes(fields.last().0 as nat, fields.last().1);
        lemma_field_ends_with_separator(fields.last().0 as nat, fields.last().1);
        assert(fields_bytes(fields) == fields_bytes(fields.drop_last()) + last);
    } else {
        assert(fields_bytes(fields) =~= Seq::<u8>::empty());
        assert(message_body(msg_type, fields) =~= field_bytes(35, msg_type));
    }
}

/// One more digit after digits that read as a small number.
proof fn lemma_nominal_step(s: Seq<u8>, v: nat)
    requires
        s.len() > 0,
        nominal_body_length(s.drop_last()) == v,
        v < 100,
        48 <= s.last() <= 57,
    ensures
        nominal_body_length(s) == v * 10 + (s.last() - 48),
{
    let x = s.last();
    assert(vstd::wrapping::u8_specs::wrapping_sub(x, 48) == x - 48);
    assert(vstd::wrapping::usize_specs::wrapping_mul(v as usize, 10) == v * 10) by {
        assert((v * 10) as nat % (usize::MAX as nat + 1) == v * 10);
    }
}

/// The six digits of a length under 256 read back as that length.
proof fn lemma_body_length_digits(len: nat)
    requires
        len < 256,
    ensures
        nominal_body_length(body_length_digits(len)) == len,
        forall|j: int| 0 <= j < 6 ==> 48 <= #[trigger] body_length_digits(len)[j] <= 57,
{
    let d = body_length_digits(len);
    assert(length_digit(len, 100000) == 48);
    assert(length_digit(len, 10000) == 48);
    assert(length_digit(len, 1000) == 48);
    assert(length_digit(len, 100) == 48 + len / 100);
    assert(length_digit(len, 10) == 48 + (len / 10) % 10);
    assert(length_digit(len, 1) == 48 + len % 10);
    assert(nominal_body_length(d.take(0)) == 0);
    assert(d.take(1).drop_last() =~= d.take(0));
    lemma_nominal_step(d.take(1), 0);
    assert(d.take(2).drop_last() =~= d.take(1));
    lemma_nominal_step(d.take(2), 0);
    assert(d.take(3).drop_last() =~= d.take(2));
    lemma_nominal_step(d.take(3), 0);
    assert(d.take(4).drop_last() =~= d.take(3));
    lemma_nominal_step(d.take(4), 0);
    assert(d.take(5).drop_last() =~= d.take(4));
    lemma_nominal_step(d.take(5), len / 100);
    assert(d.drop_last() =~= d.take(5));
    lemma_nominal_step(d, len / 10);
}

/// A message that the encoder writes passes the frame check of the FIX
/// decoder, which finds the body exactly between `BodyLength <9>` and
/// `CheckSum <10>` and reads `BeginString <8>` back, as long as `BeginString` holds no `=` or `|` and the body
/// is under 256 bytes (from 256 bytes on, the encoder writes the digits of
/// the body length wrong).
pub proof fn law_encoded_frame_accepted(
    begin_string: Seq<u8>,
    msg_type: Seq<u8>,
    fields: Seq<(u16, Seq<u8>)>,
)
    requires
        forall|j: int|
            0 <= j < begin_string.len() ==> #[trigger] begin_string[j] != EQUALS
                && begin_string[j] != SEPARATOR,
        message_body(msg_type, fields).len() < 256,
    ensures
        ({
            let d = tagvalue_message(begin_string, msg_type, fields);
            let start = begin_string.len() + 12int;
            let end = start + message_body(msg_type, fields).len();
            &&& payload_range(d) == Some((start, end))
            &&& d.subrange(start, end) == message_body(msg_type, fields)
            &&& begin_value(d) == begin_string
        }),
{
    reveal(tagvalue_message);
    let body = message_body(msg_type, fields);
    let digits = body_length_digits(body.len());
    let f8 = field_bytes(8, begin_string);
    let f9 = field_bytes(9, digits);
    let framed = message_framed(begin_string, msg_type, fields);
    let c = checksum_of(framed);
    let f10 = field_bytes(10, checksum_digits(c));
    let d = tagvalue_message(begin_string, msg_type, fields);
    lemma_body_length_digits(body.len());
    assert(decimal(8) =~= seq![56u8]);
    assert(decimal(9) =~= seq![57u8]);
    assert(decimal(1) =~= seq![49u8]);
    assert(decimal(10) =~= seq![49u8, 48u8]);
    assert(f8 =~= seq![56u8, EQUALS] + begin_string + seq![SEPARATOR]);
    assert(f9 =~= seq![57u8, EQUALS] + digits + seq![SEPARATOR]);
    assert(f10.len() == 7);
    assert(d =~= f8 + f9 + body + f10);
    let n = begin_string.len() as int;
    assert(d[0] == 56u8);
    assert(d[1] == EQUALS);
    lemma_find_byte_at(d, EQUALS, 0, 1);
    assert forall|j: int| 2 <= j < n + 2 implies d[j] != SEPARATOR by {
        assert(d[j] == begin_string[j - 2]);
    }
    assert(d[n + 2] == SEPARATOR);
    lemma_find_byte_at(d, SEPARATOR, 2, n + 2);
    assert(d[n + 3] == 57u8);
    assert(d[n + 4] == EQUALS);
    lemma_find_byte_at(d, EQUALS, n + 3, n + 4);
    assert forall|j: int| n + 5 <= j < n + 11 implies d[j] != SEPARATOR by {
        assert(d[j] == digits[j - (n + 5)]);
    }
    assert(d[n + 11] == SEPARATOR);
    lemma_find_byte_at(d, SEPARATOR, n + 5, n + 11);
    assert(header_spans(d) == Some((1int, n + 2, n + 4, n + 11)));
    assert(d.subrange(n + 5, n + 11) =~= digits);
    assert(d.subrange(n + 12, n + 12 + body.len()) =~= body);
    assert(d.subrange(2, n + 2) =~= begin_string);
}

/// Decoding a message that the encoder wrote puts in the JSON trailer, as
/// `CheckSum`, the three digits of the checksum that the encoder computed.
pub proof fn law_encoded_checksum_read_back(
    begin_string: Seq<u8>,
    msg_type: Seq<u8>,
    fields: Seq<(u16, Seq<u8>)>,
)
    ensures
        checksum_text(tagvalue_message(begin_string, msg_type, fields)) == Some(
            checksum_digits(checksum_of(message_framed(begin_string, msg_type, fields))),
        ),
{
    reveal(tagvalue_message);
    let body = message_body(msg_type, fields);
    let framed = message_framed(begin_string, msg_type, fields);
    let cd = checksum_digits(checksum_of(framed));
    let d = tagvalue_message(begin_string, msg_type, fields);
    let tail: Seq<u8> = seq![49u8, 48u8, EQUALS] + cd;
    assert(decimal(1) =~= seq![49u8]);
    assert(decimal(10) =~= seq![49u8, 48u8]);
    assert(d =~= framed + tail + seq![SEPARATOR]);
    let m = framed + tail;
    assert(strip_trailing(d, SEPARATOR) =~= m);
    lemma_body_ends_with_separator(msg_type, fields);
    assert(framed.last() == SEPARATOR);
    lemma_last_index_before_tail(framed, tail, SEPARATOR);
    assert(m.subrange(framed.len() as int, m.len() as int) =~= tail);
    assert(last_piece(d) == Some(tail));
    assert(strip_trailing(tail, EQUALS) =~= tail);
    lemma_find_byte_at(tail, EQUALS, 0, 2);
    assert(tail.subrange(3, 6) =~= cd);
    assert(find_byte(cd, EQUALS, 0) is None) by {
        assert(find_byte(cd, EQUALS, 3) is None);
        assert(find_byte(cd, EQUALS, 2) is None);
        assert(find_byte(cd, EQUALS, 1) is None);
    }
}

/// The decoder reads back as its number every tag that the encoder writes
/// in decimal.
pub proof fn law_tag_read_back(tag: nat)
    requires
        tag <= u32::MAX,
    ensures
        tag_parse(decimal(tag)) == Some(tag as int),
    decreases tag,
{
    if tag < 10 {
        assert(decimal(tag).drop_last() =~= Seq::<u8>::empty());
        assert(decimal(tag).last() == 48 + tag);
        assert(tag_parse(decimal(tag).drop_last()) == Some(0int));
    } else {
        law_tag_read_back(tag / 10);
        assert(decimal(tag).drop_last() =~= decimal(tag / 10));
        assert(decimal(tag).last() == 48 + tag % 10);
        assert((tag / 10) * 10 + tag % 10 == tag);
        assert(tag_parse(decimal(tag).drop_last()) == Some((tag / 10) as int));
    }
}

/// The fields written one after the other, the first one first.
proof fn lemma_fields_bytes_front(g: (u16, Seq<u8>), gs: Seq<(u16, Seq<u8>)>)
    ensures
        fields_bytes(seq![g] + gs) == field_bytes(g.0 as nat, g.1) + fields_bytes(gs),
    decreases gs.len(),
{
    if gs.len() == 0 {
        assert((seq![g] + gs).drop_last() =~= Seq::<(u16, Seq<u8>)>::empty());
        assert((seq![g] + gs).last() == g);
        assert(fields_bytes(Seq::<(u16, Seq<u8>)>::empty()) =~= Seq::<u8>::empty());
        assert(field_bytes(g.0 as nat, g.1) + fields_bytes(gs) =~= field_bytes(g.0 as nat, g.1));
        assert(Seq::<u8>::empty() + field_bytes(g.0 as nat, g.1) =~= field_bytes(g.0 as nat, g.1));
    } else {
        assert((seq![g] + gs).drop_last() =~= seq![g] + gs.drop_last());
        assert((seq![g] + gs).last() == gs.last());
        lemma_fields_bytes_front(g, gs.drop_last());
        let last = field_bytes(gs.last().0 as nat, gs.last().1);
        assert(field_bytes(g.0 as nat, g.1) + fields_bytes(gs.drop_last()) + last =~= field_bytes(
            g.0 as nat,
            g.1,
        ) + (fields_bytes(gs.drop_last()) + last));
    }
}

/// The field loop on `a + c`, from inside `c`, does what it does on `c`.
proof fn lemma_scan_shift(a: Seq<u8>, c: Seq<u8>, j: int, pending: Option<nat>)
    requires
        0 <= j,
    ensures
        scan_panics(a + c, a.len() + j, pending) == scan_panics(c, j, pending),
    decreases c.len() + 1 - j,
{
    let d = a + c;
    let i = a.len() + j;
    if j < c.len() {
        lemma_find_byte_shift(a, c, EQUALS, j);
        lemma_find_byte(c, EQUALS, j);
        match find_byte(c, EQUALS, j) {
            None => {},
            Some(eq) => {
                lemma_find_byte_shift(a, c, SEPARATOR, eq + 1);
                lemma_find_byte(c, SEPARATOR, eq + 1);
                assert(d.subrange(i, a.len() + eq) =~= c.subrange(j, eq));
                let vlen: Option<int> = match pending {
                    Some(n) => Some(n as int),
                    None => match find_byte(c, SEPARATOR, eq + 1) {
                        Some(sp) => Some(sp - eq - 1),
                        None => None,
                    },
                };
                match vlen {
                    None => {},
                    Some(n) => {
                        if eq + 1 + n <= c.len() {
                            assert(d.subrange(a.len() + eq + 1, a.len() + eq + 1 + n) =~= c.subrange(
                                eq + 1,
                                eq + 1 + n,
                            ));
                            if n >= 0 {
                                lemma_scan_shift(a, c, eq + n + 2, None);
                                match unsigned_text_value(c.subrange(eq + 1, eq + 1 + n)) {
                                    Some(l) => lemma_scan_shift(a, c, eq + n + 2, Some(l as nat)),
                                    None => {},
                                }
                            }
                        }
                    },
                }
            },
        }
    }
}

/// What the field loop reads as a length or group count.
spec fn unsigned_text_value(v: Seq<u8>) -> Option<int> {
    crate::frame::unsigned_text(v, usize::MAX as int)
}

/// A written field is read back whole, and the loop goes on after it.
proof fn lemma_one_field(tag: u16, v: Seq<u8>, rest: Seq<u8>)
    requires
        tag != 0,
        forall|k: int| 0 <= k < v.len() ==> #[trigger] v[k] != SEPARATOR,
        fix44_field_class(tag) == FieldClass::Other,
    ensures
        payload_fields(field_bytes(tag as nat, v) + rest) == seq![(tag, v)] + payload_fields(rest),
        scan_panics(field_bytes(tag as nat, v) + rest, 0, None) == scan_panics(rest, 0, None),
{
    let f = field_bytes(tag as nat, v);
    let p = f + rest;
    let dl = decimal(tag as nat).len() as int;
    lemma_decimal_digits(tag as nat);
    crate::roundtrip::law_tag_read_back(tag as nat);
    assert(p[dl] == EQUALS);
    lemma_find_byte_at(p, EQUALS, 0, dl);
    assert forall|k: int| dl + 1 <= k < dl + 1 + v.len() implies p[k] != SEPARATOR by {
        assert(p[k] == v[k - dl - 1]);
    }
    assert(p[dl + 1 + v.len()] == SEPARATOR);
    lemma_find_byte_at(p, SEPARATOR, dl + 1, dl + 1 + v.len());
    assert(p.subrange(0, dl) =~= decimal(tag as nat));
    assert(p.subrange(dl + 1, dl + 1 + v.len()) =~= v);
    assert(p.subrange(dl + 2 + v.len(), p.len() as int) =~= rest);
    assert((tag as int) % 65536 == tag as int);
    assert(f.len() == dl + 2 + v.len());
    lemma_scan_shift(f, rest, 0, None);
}

/// Fields written one after the other are read back one by one, and the
/// field loop does not panic on them.
proof fn lemma_fields_read_back(gs: Seq<(u16, Seq<u8>)>)
    requires
        forall|i: int| 0 <= i < gs.len() ==> (#[trigger] gs[i]).0 != 0,
        forall|i: int, k: int|
            0 <= i < gs.len() && 0 <= k < gs[i].1.len() ==> #[trigger] gs[i].1[k] != SEPARATOR,
        forall|i: int| 0 <= i < gs.len() ==> fix44_field_class((#[trigger] gs[i]).0) == FieldClass::Other,
    ensures
        payload_fields(fields_bytes(gs)) == gs,
        !scan_panics(fields_bytes(gs), 0, None),
    decreases gs.len(),
{
    if gs.len() == 0 {
        assert(fields_bytes(gs) =~= Seq::<u8>::empty());
    } else {
        let g = gs[0];
        let rest = gs.drop_first();
        assert(gs =~= seq![g] + rest);
        lemma_fields_bytes_front(g, rest);
        assert forall|k: int| 0 <= k < g.1.len() implies #[trigger] g.1[k] != SEPARATOR by {
            assert(gs[0].1[k] != SEPARATOR);
        }
        assert forall|i: int, k: int|
            0 <= i < rest.len() && 0 <= k < rest[i].1.len() implies #[trigger] rest[i].1[k] != SEPARATOR by {
            assert(rest[i] == gs[i + 1]);
            assert(gs[i + 1].1[k] != SEPARATOR);
        }
        assert forall|i: int| 0 <= i < rest.len() implies (#[trigger] rest[i]).0 != 0
            && fix44_field_class(rest[i].0) == FieldClass::Other by {
            assert(rest[i] == gs[i + 1]);
        }
        lemma_fields_read_back(rest);
        lemma_one_field(g.0, g.1, fields_bytes(rest));
    }
}

/// The decoder reads back the fields that the encoder wrote. Where
/// `BeginString` holds no `=` or `|`, no value holds `|`, no tag is 0, the
/// body is under 256 bytes, and no field (`BeginString`, `MsgType` and the
/// given ones) carries a length or a group count: the FIX decoder does not
/// panic, lists `BeginString`, `MsgType` and then the given fields, in
/// order, each with the last value written for its tag, and the decoded JSON
/// is what walking those fields gives (with the checksum value that the
/// encoder computed); so `flow_decoder`, which ensures `decoded_plainly`,
/// returns that.
pub proof fn law_decoder_reads_back(
    begin_string: Seq<u8>,
    msg_type: Seq<u8>,
    fields: Seq<(u16, Seq<u8>)>,
)
    requires
        forall|j: int|
            0 <= j < begin_string.len() ==> #[trigger] begin_string[j] != EQUALS
                && begin_string[j] != SEPARATOR,
        forall|k: int| 0 <= k < msg_type.len() ==> #[trigger] msg_type[k] != SEPARATOR,
        forall|i: int| 0 <= i < fields.len() ==> (#[trigger] fields[i]).0 != 0,
        forall|i: int, k: int|
            0 <= i < fields.len() && 0 <= k < fields[i].1.len() ==> #[trigger] fields[i].1[k]
                != SEPARATOR,
        message_body(msg_type, fields).len() < 256,
        fix44_field_class(8) == FieldClass::Other,
        fix44_field_class(35) == FieldClass::Other,
        forall|i: int| 0 <= i < fields.len() ==> fix44_field_class((#[trigger] fields[i]).0)
            == FieldClass::Other,
    ensures
        ({
            let d = tagvalue_message(begin_string, msg_type, fields);
            let written = seq![(8u16, begin_string), (35u16, msg_type)] + fields;
            &&& top_level_fields(d) == written
            &&& plain_fields(d)
            &&& !fix44_decode_panics(d)
            &&& decoded_plainly(d) ==> fix44_decoded(d) == Ok::<_, FixErrorKind>(plain_decoded(d))
            &&& plain_decoded(d) == written.map_values(
                |f: (u16, Seq<u8>)|
                    (f.0, last_value(written, f.0), Some(last_value(written, f.0))),
            )
            &&& decoded_plainly(d) ==> flow_decoder_outcome(d) == fields_outcome(
                checksum_digits(checksum_of(message_framed(begin_string, msg_type, fields))),
                plain_decoded(d),
            )
        }),
{
    lemma_written_fields(begin_string, msg_type, fields);
    law_encoded_checksum_read_back(begin_string, msg_type, fields);
}

/// The fields that the decoder finds in a message that the encoder wrote.
proof fn lemma_written_fields(begin_string: Seq<u8>, msg_type: Seq<u8>, fields: Seq<(u16, Seq<u8>)>)
    requires
        forall|j: int|
            0 <= j < begin_string.len() ==> #[trigger] begin_string[j] != EQUALS
                && begin_string[j] != SEPARATOR,
        forall|k: int| 0 <= k < msg_type.len() ==> #[trigger] msg_type[k] != SEPARATOR,
        forall|i: int| 0 <= i < fields.len() ==> (#[trigger] fields[i]).0 != 0,
        forall|i: int, k: int|
            0 <= i < fields.len() && 0 <= k < fields[i].1.len() ==> #[trigger] fields[i].1[k]
                != SEPARATOR,
        message_body(msg_type, fields).len() < 256,
        fix44_field_class(8) == FieldClass::Other,
        fix44_field_class(35) == FieldClass::Other,
        forall|i: int| 0 <= i < fields.len() ==> fix44_field_class((#[trigger] fields[i]).0)
            == FieldClass::Other,
    ensures
        top_level_fields(tagvalue_message(begin_string, msg_type, fields)) == seq![
            (8u16, begin_string),
            (35u16, msg_type),
        ] + fields,
        plain_fields(tagvalue_message(begin_string, msg_type, fields)),
        !fix44_decode_panics(tagvalue_message(begin_string, msg_type, fields)),
{
    law_encoded_frame_accepted(begin_string, msg_type, fields);
    lemma_gs_read_back(msg_type, fields);
    lemma_frame_fields(
        tagvalue_message(begin_string, msg_type, fields),
        begin_string,
        message_body(msg_type, fields),
        fields,
        begin_string.len() + 12int,
        msg_type,
    );
}

/// The fields of a message whose frame holds `body` and whose begin string
/// is read as `begin_string`.
proof fn lemma_frame_fields(
    d: Seq<u8>,
    begin_string: Seq<u8>,
    body: Seq<u8>,
    fields: Seq<(u16, Seq<u8>)>,
    start: int,
    msg_type: Seq<u8>,
)
    requires
        payload_range(d) == Some((start, start + body.len())),
        d.subrange(start, start + body.len()) == body,
        begin_value(d) == begin_string,
        payload_fields(body) == seq![(35u16, msg_type)] + fields,
        !scan_panics(body, 0, None),
        fix44_field_class(8) == FieldClass::Other,
        fix44_field_class(35) == FieldClass::Other,
        forall|i: int| 0 <= i < fields.len() ==> fix44_field_class((#[trigger] fields[i]).0)
            == FieldClass::Other,
    ensures
        top_level_fields(d) == seq![(8u16, begin_string), (35u16, msg_type)] + fields,
        plain_fields(d),
        !fix44_decode_panics(d),
{
    let written = seq![(8u16, begin_string), (35u16, msg_type)] + fields;
    assert(seq![(8u16, begin_string)] + (seq![(35u16, msg_type)] + fields) =~= written);
    assert forall|i: int| 0 <= i < top_level_fields(d).len() implies fix44_field_class(
        (#[trigger] top_level_fields(d)[i]).0,
    ) == FieldClass::Other by {
        if i >= 2 {
            assert(written[i] == fields[i - 2]);
        }
    }
}

/// The body of a written message is read back as `MsgType` and the fields.
proof fn lemma_gs_read_back(msg_type: Seq<u8>, fields: Seq<(u16, Seq<u8>)>)
    requires
        forall|k: int| 0 <= k < msg_type.len() ==> #[trigger] msg_type[k] != SEPARATOR,
        forall|i: int| 0 <= i < fields.len() ==> (#[trigger] fields[i]).0 != 0,
        forall|i: int, k: int|
            0 <= i < fields.len() && 0 <= k < fields[i].1.len() ==> #[trigger] fields[i].1[k]
                != SEPARATOR,
        fix44_field_class(35) == FieldClass::Other,
        forall|i: int| 0 <= i < fields.len() ==> fix44_field_class((#[trigger] fields[i]).0)
            == FieldClass::Other,
    ensures
        payload_fields(message_body(msg_type, fields)) == seq![(35u16, msg_type)] + fields,
        !scan_panics(message_body(msg_type, fields), 0, None),
{
    let gs = seq![(35u16, msg_type)] + fields;
    lemma_fields_bytes_front((35u16, msg_type), fields);
    assert(message_body(msg_type, fields) == fields_bytes(gs));
    assert forall|i: int| 0 <= i < gs.len() implies (#[trigger] gs[i]).0 != 0
        && fix44_field_class(gs[i].0) == FieldClass::Other by {
        if i > 0 {
            assert(gs[i] == fields[i - 1]);
        }
    }
    assert forall|i: int, k: int| 0 <= i < gs.len() && 0 <= k < gs[i].1.len() implies #[trigger] gs[i].1[k]
        != SEPARATOR by {
        if i > 0 {
            assert(gs[i] == fields[i - 1]);
            assert(fields[i - 1].1[k] != SEPARATOR);
        } else {
            assert(msg_type[k] != SEPARATOR);
        }
    }
    lemma_fields_read_back(gs);
}

/// Whether every tag that occurs more than once occurs with one value.
pub open spec fn one_value_per_tag(ws: Seq<(u16, Seq<u8>)>) -> bool {
    forall|i: int, j: int|
        0 <= i < ws.len() && 0 <= j < ws.len() && (#[trigger] ws[i]).0 == (#[trigger] ws[j]).0
            ==> ws[i].1 == ws[j].1
}

/// Where a tag has one value, its last value is that value.
proof fn lemma_last_value_is_value(ws: Seq<(u16, Seq<u8>)>, i: int)
    requires
        0 <= i < ws.len(),
        one_value_per_tag(ws),
    ensures
        last_value(ws, ws[i].0) == ws[i].1,
    decreases ws.len(),
{
    if ws.last().0 != ws[i].0 {
        let rest = ws.drop_last();
        assert(i < rest.len());
        assert(rest[i] == ws[i]);
        assert forall|a: int, b: int|
            0 <= a < rest.len() && 0 <= b < rest.len() && (#[trigger] rest[a]).0 == (#[trigger] rest[b]).0
                implies rest[a].1 == rest[b].1 by {
            assert(rest[a] == ws[a]);
            assert(rest[b] == ws[b]);
        }
        lemma_last_value_is_value(rest, i);
    } else {
        assert(ws[ws.len() - 1].0 == ws[i].0);
    }
}

/// The decoder reads back each field that the encoder wrote with its own
/// value, where a tag written more than once (as `MsgType <35>` is, by the
/// encoder's header) is written with one value: the decoded JSON is what
/// walking `BeginString`, `MsgType` and the given fields, each with its own
/// value, gives.
pub proof fn law_decoder_reads_back_values(
    begin_string: Seq<u8>,
    msg_type: Seq<u8>,
    fields: Seq<(u16, Seq<u8>)>,
)
    requires
        forall|j: int|
            0 <= j < begin_string.len() ==> #[trigger] begin_string[j] != EQUALS
                && begin_string[j] != SEPARATOR,
        forall|k: int| 0 <= k < msg_type.len() ==> #[trigger] msg_type[k] != SEPARATOR,
        forall|i: int| 0 <= i < fields.len() ==> (#[trigger] fields[i]).0 != 0,
        forall|i: int, k: int|
            0 <= i < fields.len() && 0 <= k < fields[i].1.len() ==> #[trigger] fields[i].1[k]
                != SEPARATOR,
        message_body(msg_type, fields).len() < 256,
        fix44_field_class(8) == FieldClass::Other,
        fix44_field_class(35) == FieldClass::Other,
        forall|i: int| 0 <= i < fields.len() ==> fix44_field_class((#[trigger] fields[i]).0)
            == FieldClass::Other,
        one_value_per_tag(seq![(8u16, begin_string), (35u16, msg_type)] + fields),
    ensures
        ({
            let d = tagvalue_message(begin_string, msg_type, fields);
            let written = seq![(8u16, begin_string), (35u16, msg_type)] + fields;
            let walked = written.map_values(|f: (u16, Seq<u8>)| (f.0, f.1, Some(f.1)));
            &&& plain_decoded(d) == walked
            &&& decoded_plainly(d) ==> flow_decoder_outcome(d) == fields_outcome(
                checksum_digits(checksum_of(message_framed(begin_string, msg_type, fields))),
                walked,
            )
        }),
{
    law_decoder_reads_back(begin_string, msg_type, fields);
    let d = tagvalue_message(begin_string, msg_type, fields);
    let written = seq![(8u16, begin_string), (35u16, msg_type)] + fields;
    let walked = written.map_values(|f: (u16, Seq<u8>)| (f.0, f.1, Some(f.1)));
    assert forall|i: int| 0 <= i < written.len() implies #[trigger] plain_decoded(d)[i] == walked[i] by {
        lemma_last_value_is_value(written, i);
    }
    assert(plain_decoded(d) =~= walked);
}

} // verus!
