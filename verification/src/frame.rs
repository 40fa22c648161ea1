//! Decoding of a `tag=value|` message with the FIX 4.4 decoder of `fefix`.
//!
//! The decoder itself is `fefix`'s. What this module adds is a statement of
//! the inputs on which that decoder stops with a panic instead of returning
//! (a tag that is not a run of digits, a length or a group count that is not
//! a number, a data field longer than the message), and a verified function
//! that tells them apart, so that no caller hands such an input to it.
use vstd::prelude::*;
use fefix::GetConfig;
use fefix::tagvalue::{Config, Decoder, DecodeError as FixDecodeError, FieldAccess};
use crate::dictionary::{Fix44Dictionary, FieldClass, fix44_field_class};
use crate::text::{copy_range, find_byte, find_byte_from, lemma_find_byte};

verus! {

/// The separator of the fields: `|`.
pub const SEPARATOR: u8 = 124;

/// The byte between a tag and its value: `=`.
pub const EQUALS: u8 = 61;

/// The spans of the first two fields of a message, as the raw decoder of
/// `fefix` finds them: the first `=`, the separator after it, the next `=`
/// and the separator after that.
pub open spec fn header_spans(d: Seq<u8>) -> Option<(int, int, int, int)> {
    match find_byte(d, EQUALS, 0) {
        None => None,
        Some(e1) => match find_byte(d, SEPARATOR, e1 + 1) {
            None => None,
            Some(s1) => match find_byte(d, EQUALS, s1 + 1) {
                None => None,
                Some(e2) => match find_byte(d, SEPARATOR, e2 + 1) {
                    None => None,
                    Some(s2) => Some((e1, s1, e2, s2)),
                },
            },
        },
    }
}

/// The body length that the raw decoder reads from the digits of the second
/// field, with its wrapping arithmetic.
pub open spec fn nominal_body_length(digits: Seq<u8>) -> usize
    decreases digits.len(),
{
    if digits.len() == 0 {
        0
    } else {
        vstd::wrapping::usize_specs::wrapping_add(
            vstd::wrapping::usize_specs::wrapping_mul(
                nominal_body_length(digits.drop_last()),
                10,
            ),
            vstd::wrapping::u8_specs::wrapping_sub(digits.last(), 48) as usize,
        )
    }
}

/// The range of the payload (the fields between `BodyLength <9>` and
/// `CheckSum <10>`) when the raw decoder accepts the message: it is at least
/// 20 bytes long, its first two fields are there, and the body length that the
/// second field states is the distance from the end of that field to the
/// last 7 bytes (`10=???|`). With `|` as separator the checksum is not
/// verified.
pub open spec fn payload_range(d: Seq<u8>) -> Option<(int, int)> {
    if d.len() < 20 {
        None
    } else {
        match header_spans(d) {
            None => None,
            Some((e1, s1, e2, s2)) => {
                let start = s2 + 1;
                let end = d.len() - 7;
                if start > end || nominal_body_length(d.subrange(e2 + 1, s2)) != end - start {
                    None
                } else {
                    Some((start, end))
                }
            },
        }
    }
}

/// The tag number that the decoder accumulates from the bytes before `=`,
/// each taken as a digit, in `u32`; `None` where a byte lies below `0` or the
/// number leaves `u32` (both are arithmetic panics).
pub open spec fn tag_parse(t: Seq<u8>) -> Option<int>
    decreases t.len(),
{
    if t.len() == 0 {
        Some(0)
    } else {
        match tag_parse(t.drop_last()) {
            None => None,
            Some(v) => if t.last() < 48 || v * 10 + (t.last() - 48) > u32::MAX {
                None
            } else {
                Some(v * 10 + (t.last() - 48))
            },
        }
    }
}

/// The value of the decimal digits `s`, or `None` where a byte is no digit or
/// the value, read from the left, goes past `max`.
pub open spec fn digits_parse(s: Seq<u8>, max: int) -> Option<int>
    decreases s.len(),
{
    if s.len() == 0 {
        Some(0)
    } else {
        match digits_parse(s.drop_last(), max) {
            None => None,
            Some(v) => if !(48 <= s.last() <= 57) || v * 10 + (s.last() - 48) > max {
                None
            } else {
                Some(v * 10 + (s.last() - 48))
            },
        }
    }
}

/// What the standard library's parse of an unsigned integer no greater than
/// `max` makes of the text `v`: an optional `+`, then at least one digit.
pub open spec fn unsigned_text(v: Seq<u8>, max: int) -> Option<int> {
    let digits = if v.len() > 0 && v[0] == 43 {
        v.subrange(1, v.len() as int)
    } else {
        v
    };
    if digits.len() == 0 {
        None
    } else {
        digits_parse(digits, max)
    }
}

/// Whether the field loop of the decoder panics on the payload `p`, going on
/// at index `i` where `pending` is the length that a preceding `Length` field
/// gave to this field's value.
pub open spec fn scan_panics(p: Seq<u8>, i: int, pending: Option<nat>) -> bool
    decreases p.len() + 1 - i,
{
    if i < 0 || i >= p.len() {
        false
    } else {
        match find_byte(p, EQUALS, i) {
            None => false,
            Some(eq) => {
                proof {
                    lemma_find_byte(p, EQUALS, i);
                    lemma_find_byte(p, SEPARATOR, eq + 1);
                }
                let vlen: Option<int> = match pending {
                    Some(n) => Some(n as int),
                    None => match find_byte(p, SEPARATOR, eq + 1) {
                        Some(s) => Some(s - eq - 1),
                        None => None,
                    },
                };
                match vlen {
                    None => false,
                    Some(n) => match tag_parse(p.subrange(i, eq)) {
                        None => true,
                        Some(t) => if t % 65536 == 0 {
                            false
                        } else if eq + 1 + n > p.len() {
                            true
                        } else {
                            let v = p.subrange(eq + 1, eq + 1 + n);
                            let next = eq + n + 2;
                            match fix44_field_class((t % 65536) as u16) {
                                FieldClass::NumInGroup => match unsigned_text(
                                    v,
                                    usize::MAX as int,
                                ) {
                                    None => true,
                                    Some(_) => scan_panics(p, next, None),
                                },
                                FieldClass::Length => match unsigned_text(
                                    v,
                                    usize::MAX as int,
                                ) {
                                    None => true,
                                    Some(l) => scan_panics(p, next, Some(l as nat)),
                                },
                                FieldClass::Other => scan_panics(p, next, None),
                            }
                        },
                    },
                }
            },
        }
    }
}

/// Whether `fefix`'s FIX 4.4 decoder, with `|` as separator, panics on `d`:
/// the raw decoder accepts it and the field loop panics on its payload.
pub open spec fn fix44_decode_panics(d: Seq<u8>) -> bool {
    match payload_range(d) {
        None => false,
        Some((start, end)) => scan_panics(d.subrange(start, end), 0, None),
    }
}


/// Once the tag number has failed on a prefix, it fails on every longer prefix.
proof fn lemma_tag_parse_stuck(s: Seq<u8>, from: int, k: int, to: int)
    requires
        0 <= from <= k <= to <= s.len(),
        tag_parse(s.subrange(from, k)) is None,
    ensures
        tag_parse(s.subrange(from, to)) is None,
    decreases to - k,
{
    if k < to {
        assert(s.subrange(from, k + 1).drop_last() =~= s.subrange(from, k));
        lemma_tag_parse_stuck(s, from, k + 1, to);
    }
}

/// Once the digits have failed on a prefix, they fail on every longer prefix.
proof fn lemma_digits_parse_stuck(s: Seq<u8>, max: int, from: int, k: int, to: int)
    requires
        0 <= from <= k <= to <= s.len(),
        digits_parse(s.subrange(from, k), max) is None,
    ensures
        digits_parse(s.subrange(from, to), max) is None,
    decreases to - k,
{
    if k < to {
        assert(s.subrange(from, k + 1).drop_last() =~= s.subrange(from, k));
        lemma_digits_parse_stuck(s, max, from, k + 1, to);
    }
}

/// Finds the spans of the first two fields of `d`.
fn header_spans_exec(d: &[u8]) -> (r: Option<(usize, usize, usize, usize)>)
    ensures
        match r {
            Some((e1, s1, e2, s2)) => header_spans(d@) == Some(
                (e1 as int, s1 as int, e2 as int, s2 as int),
            ) && s2 < d@.len(),
            None => header_spans(d@) is None,
        },
{
    let len = d.len();
    proof {
        lemma_find_byte(d@, EQUALS, 0);
    }
    let e1 = match find_byte_from(d, EQUALS, 0) {
        Some(k) => k,
        None => return None,
    };
    assert(e1 < d@.len());
    proof {
        lemma_find_byte(d@, SEPARATOR, e1 + 1);
    }
    let s1 = match find_byte_from(d, SEPARATOR, e1 + 1) {
        Some(k) => k,
        None => return None,
    };
    assert(s1 < d@.len());
    proof {
        lemma_find_byte(d@, EQUALS, s1 + 1);
    }
    let e2 = match find_byte_from(d, EQUALS, s1 + 1) {
        Some(k) => k,
        None => return None,
    };
    assert(e2 < d@.len());
    proof {
        lemma_find_byte(d@, SEPARATOR, e2 + 1);
    }
    let s2 = match find_byte_from(d, SEPARATOR, e2 + 1) {
        Some(k) => k,
        None => return None,
    };
    Some((e1, s1, e2, s2))
}

/// Reads the stated body length from `d[from..to]`, as the raw decoder does.
fn nominal_body_length_exec(d: &[u8], from: usize, to: usize) -> (n: usize)
    requires
        from <= to <= d@.len(),
    ensures
        n == nominal_body_length(d@.subrange(from as int, to as int)),
{
    let mut n: usize = 0;
    let mut k = from;
    while k < to
        invariant
            from <= k <= to <= d@.len(),
            n == nominal_body_length(d@.subrange(from as int, k as int)),
        decreases to - k,
    {
        proof {
            assert(d@.subrange(from as int, k + 1).drop_last() =~= d@.subrange(
                from as int,
                k as int,
            ));
        }
        n = n.wrapping_mul(10).wrapping_add(d[k].wrapping_sub(48) as usize);
        k = k + 1;
    }
    n
}

/// The payload range of `d`, when the raw decoder accepts it.
pub fn payload_range_exec(d: &[u8]) -> (r: Option<(usize, usize)>)
    ensures
        match r {
            Some((start, end)) => payload_range(d@) == Some((start as int, end as int)) && start
                <= end <= d@.len(),
            None => payload_range(d@) is None,
        },
{
    if d.len() < 20 {
        return None;
    }
    let (e1, s1, e2, s2) = match header_spans_exec(d) {
        Some(spans) => spans,
        None => return None,
    };
    proof {
        lemma_find_byte(d@, EQUALS, 0);
        lemma_find_byte(d@, SEPARATOR, e1 + 1);
        lemma_find_byte(d@, EQUALS, s1 + 1);
        lemma_find_byte(d@, SEPARATOR, e2 + 1);
    }
    let start = s2 + 1;
    let end = d.len() - 7;
    if start > end {
        return None;
    }
    let nominal = nominal_body_length_exec(d, e2 + 1, s2);
    if nominal != end - start {
        return None;
    }
    Some((start, end))
}

/// The tag number of `p[from..to]`, as `tag_parse` states it.
fn tag_parse_exec(p: &[u8], from: usize, to: usize) -> (r: Option<u32>)
    requires
        from <= to <= p@.len(),
    ensures
        match r {
            Some(t) => tag_parse(p@.subrange(from as int, to as int)) == Some(t as int),
            None => tag_parse(p@.subrange(from as int, to as int)) is None,
        },
{
    let mut v: u32 = 0;
    let mut k = from;
    while k < to
        invariant
            from <= k <= to <= p@.len(),
            tag_parse(p@.subrange(from as int, k as int)) == Some(v as int),
        decreases to - k,
    {
        proof {
            assert(p@.subrange(from as int, k + 1).drop_last() =~= p@.subrange(
                from as int,
                k as int,
            ));
        }
        let b = p[k];
        if b < 48 {
            proof {
                lemma_tag_parse_stuck(p@, from as int, k + 1, to as int);
            }
            return None;
        }
        let m = match v.checked_mul(10) {
            Some(m) => m,
            None => {
                proof {
                    lemma_tag_parse_stuck(p@, from as int, k + 1, to as int);
                }
                return None;
            },
        };
        v = match m.checked_add((b - 48) as u32) {
            Some(a) => a,
            None => {
                proof {
                    lemma_tag_parse_stuck(p@, from as int, k + 1, to as int);
                }
                return None;
            },
        };
        k = k + 1;
    }
    Some(v)
}

/// The value of the digits `p[from..to]`, as `digits_parse` states it with
/// `u64::MAX` as bound.
pub fn digits_parse_u64(p: &[u8], from: usize, to: usize) -> (r: Option<u64>)
    requires
        from <= to <= p@.len(),
    ensures
        match r {
            Some(n) => digits_parse(p@.subrange(from as int, to as int), u64::MAX as int) == Some(
                n as int,
            ),
            None => digits_parse(p@.subrange(from as int, to as int), u64::MAX as int) is None,
        },
{
    let mut v: u64 = 0;
    let mut k = from;
    while k < to
        invariant
            from <= k <= to <= p@.len(),
            digits_parse(p@.subrange(from as int, k as int), u64::MAX as int) == Some(v as int),
        decreases to - k,
    {
        proof {
            assert(p@.subrange(from as int, k + 1).drop_last() =~= p@.subrange(
                from as int,
                k as int,
            ));
        }
        let b = p[k];
        if b < 48 || b > 57 {
            proof {
                lemma_digits_parse_stuck(p@, u64::MAX as int, from as int, k + 1, to as int);
            }
            return None;
        }
        let m = match v.checked_mul(10) {
            Some(m) => m,
            None => {
                proof {
                    lemma_digits_parse_stuck(p@, u64::MAX as int, from as int, k + 1, to as int);
                }
                return None;
            },
        };
        v = match m.checked_add((b - 48) as u64) {
            Some(a) => a,
            None => {
                proof {
                    lemma_digits_parse_stuck(p@, u64::MAX as int, from as int, k + 1, to as int);
                }
                return None;
            },
        };
        k = k + 1;
    }
    Some(v)
}

/// The value of the digits `p[from..to]`, with `usize::MAX` as bound.
fn digits_parse_usize(p: &[u8], from: usize, to: usize) -> (r: Option<usize>)
    requires
        from <= to <= p@.len(),
    ensures
        match r {
            Some(n) => digits_parse(p@.subrange(from as int, to as int), usize::MAX as int)
                == Some(n as int),
            None => digits_parse(p@.subrange(from as int, to as int), usize::MAX as int) is None,
        },
{
    let mut v: usize = 0;
    let mut k = from;
    while k < to
        invariant
            from <= k <= to <= p@.len(),
            digits_parse(p@.subrange(from as int, k as int), usize::MAX as int) == Some(v as int),
        decreases to - k,
    {
        proof {
            assert(p@.subrange(from as int, k + 1).drop_last() =~= p@.subrange(
                from as int,
                k as int,
            ));
        }
        let b = p[k];
        if b < 48 || b > 57 {
            proof {
                lemma_digits_parse_stuck(p@, usize::MAX as int, from as int, k + 1, to as int);
            }
            return None;
        }
        let m = match v.checked_mul(10) {
            Some(m) => m,
            None => {
                proof {
                    lemma_digits_parse_stuck(p@, usize::MAX as int, from as int, k + 1, to as int);
                }
                return None;
            },
        };
        v = match m.checked_add((b - 48) as usize) {
            Some(a) => a,
            None => {
                proof {
                    lemma_digits_parse_stuck(p@, usize::MAX as int, from as int, k + 1, to as int);
                }
                return None;
            },
        };
        k = k + 1;
    }
    Some(v)
}

/// Parses `p[from..to]` as the standard library parses a `usize`.
fn usize_text_exec(p: &[u8], from: usize, to: usize) -> (r: Option<usize>)
    requires
        from <= to <= p@.len(),
    ensures
        match r {
            Some(n) => unsigned_text(p@.subrange(from as int, to as int), usize::MAX as int)
                == Some(n as int),
            None => unsigned_text(p@.subrange(from as int, to as int), usize::MAX as int) is None,
        },
{
    let ghost v = p@.subrange(from as int, to as int);
    if from < to && p[from] == 43 {
        proof {
            assert(v.subrange(1, v.len() as int) =~= p@.subrange(from + 1, to as int));
        }
        if from + 1 == to {
            return None;
        }
        digits_parse_usize(p, from + 1, to)
    } else {
        if from == to {
            return None;
        }
        digits_parse_usize(p, from, to)
    }
}

/// The view of a pending data length.
pub open spec fn pending_view(pending: Option<usize>) -> Option<nat> {
    match pending {
        Some(n) => Some(n as nat),
        None => None,
    }
}

/// Runs the field loop of the decoder over the payload `p` without storing
/// anything, and tells whether it would panic.
fn scan_panics_exec(dict: &Fix44Dictionary, p: &[u8]) -> (r: bool)
    ensures
        r == scan_panics(p@, 0, None),
{
    let mut i: usize = 0;
    let mut pending: Option<usize> = None;
    loop
        invariant
            scan_panics(p@, i as int, pending_view(pending)) == scan_panics(p@, 0, None),
        decreases p@.len() + 1 - i,
    {
        if i >= p.len() {
            return false;
        }
        proof {
            lemma_find_byte(p@, EQUALS, i as int);
        }
        let eq = match find_byte_from(p, EQUALS, i) {
            Some(k) => k,
            None => return false,
        };
        proof {
            lemma_find_byte(p@, SEPARATOR, eq + 1);
        }
        let n: usize = match pending {
            Some(n) => n,
            None => match find_byte_from(p, SEPARATOR, eq + 1) {
                Some(s) => s - eq - 1,
                None => return false,
            },
        };
        let t = match tag_parse_exec(p, i, eq) {
            Some(t) => t,
            None => return true,
        };
        if t % 65536 == 0 {
            return false;
        }
        if n > p.len() - (eq + 1) {
            return true;
        }
        let vstart = eq + 1;
        let vend = eq + 1 + n;
        let tag16 = (t % 65536) as u16;
        match dict.class_of_tag(tag16) {
            FieldClass::NumInGroup => {
                match usize_text_exec(p, vstart, vend) {
                    Some(_) => {
                        pending = None;
                    },
                    None => return true,
                }
            },
            FieldClass::Length => {
                match usize_text_exec(p, vstart, vend) {
                    Some(l) => {
                        pending = Some(l);
                    },
                    None => return true,
                }
            },
            FieldClass::Other => {
                pending = None;
            },
        }
        if vend >= p.len() {
            assert(!scan_panics(p@, vend + 1, pending_view(pending)));
            return false;
        }
        i = vend + 1;
    }
}

/// Whether `fefix`'s FIX 4.4 decoder would panic on `d`.
pub(crate) fn fix44_decode_panics_exec(dict: &Fix44Dictionary, d: &[u8]) -> (r: bool)
    ensures
        r == fix44_decode_panics(d@),
{
    match payload_range_exec(d) {
        None => false,
        Some((start, end)) => {
            let payload = copy_range(d, start, end);
            scan_panics_exec(dict, payload.as_slice())
        },
    }
}


/// The ways in which `fefix`'s decoder can refuse a message.
#[derive(Clone, Copy, Debug, PartialEq, Eq, Structural)]
pub enum FixErrorKind {
    /// A mandatory field is missing.
    FieldPresence,
    /// The syntax of the message is wrong, or its body length does not match.
    Invalid,
    /// The `CheckSum <10>` value is wrong.
    CheckSum,
    /// An input/output error.
    Io,
}

/// One field of a decoded message: its tag, its value, and the value that the
/// message gives when asked for this tag by random access (the last value of
/// the tag outside of repeating groups, if there is one).
#[derive(Debug)]
pub struct DecodedField {
    pub tag: u16,
    pub value: Vec<u8>,
    pub lookup: Option<Vec<u8>>,
}

impl View for DecodedField {
    type V = (u16, Seq<u8>, Option<Seq<u8>>);

    open spec fn view(&self) -> (u16, Seq<u8>, Option<Seq<u8>>) {
        (
            self.tag,
            self.value@,
            match self.lookup {
                Some(v) => Some(v@),
                None => None,
            },
        )
    }
}

/// The views of a list of decoded fields.
pub open spec fn fields_view(fs: Seq<DecodedField>) -> Seq<(u16, Seq<u8>, Option<Seq<u8>>)> {
    fs.map_values(|f: DecodedField| f@)
}

/// The fields that the field loop of the decoder reads from the payload `p`
/// while no field carries a length or a group count: from the start, the tag
/// up to the first `=`, the value up to the next separator, then on after
/// it; the loop stops where there is no `=`, no separator after it, or the
/// tag, taken as a `u16`, is 0.
pub open spec fn payload_fields(p: Seq<u8>) -> Seq<(u16, Seq<u8>)>
    decreases p.len(),
{
    if p.len() == 0 {
        Seq::empty()
    } else {
        match find_byte(p, EQUALS, 0) {
            None => Seq::empty(),
            Some(eq) => match find_byte(p, SEPARATOR, eq + 1) {
                None => Seq::empty(),
                Some(sep) => match tag_parse(p.subrange(0, eq)) {
                    None => Seq::empty(),
                    Some(t) => if t % 65536 == 0 {
                        Seq::empty()
                    } else {
                        proof {
                            lemma_find_byte(p, EQUALS, 0);
                            lemma_find_byte(p, SEPARATOR, eq + 1);
                        }
                        seq![((t % 65536) as u16, p.subrange(eq + 1, sep))] + payload_fields(
                            p.subrange(sep + 1, p.len() as int),
                        )
                    },
                },
            },
        }
    }
}

/// The last value that `tag` has among `fs`, which random access by the tag
/// gives.
pub open spec fn last_value(fs: Seq<(u16, Seq<u8>)>, tag: u16) -> Seq<u8>
    decreases fs.len(),
{
    if fs.len() == 0 {
        Seq::empty()
    } else if fs.last().0 == tag {
        fs.last().1
    } else {
        last_value(fs.drop_last(), tag)
    }
}

/// The value that the decoder stores for `BeginString <8>`: as many bytes as
/// the first field's value has, from index 2 on.
pub open spec fn begin_value(d: Seq<u8>) -> Seq<u8> {
    match header_spans(d) {
        Some((e1, s1, _, _)) => d.subrange(2, 2 + s1 - e1 - 1),
        None => Seq::empty(),
    }
}

/// The fields of `d` at the top level, where its payload carries no length
/// or group count: `BeginString <8>`, then the fields of the payload.
pub open spec fn top_level_fields(d: Seq<u8>) -> Seq<(u16, Seq<u8>)> {
    match payload_range(d) {
        Some((start, end)) => seq![(8u16, begin_value(d))] + payload_fields(d.subrange(start, end)),
        None => Seq::empty(),
    }
}

/// Whether the raw decoder accepts `d` and no field of it carries a length or
/// a group count, so that every field is at the top level.
pub open spec fn plain_fields(d: Seq<u8>) -> bool {
    &&& payload_range(d) is Some
    &&& forall|i: int|
        0 <= i < top_level_fields(d).len() ==> fix44_field_class(
            (#[trigger] top_level_fields(d)[i]).0,
        ) == FieldClass::Other
}

/// What the decoder makes of a message with plain fields: each field in
/// order, with the last value of its tag both as its value and as what
/// random access gives.
pub open spec fn plain_decoded(d: Seq<u8>) -> Seq<(u16, Seq<u8>, Option<Seq<u8>>)> {
    let fs = top_level_fields(d);
    fs.map_values(
        |f: (u16, Seq<u8>)| (f.0, last_value(fs, f.0), Some(last_value(fs, f.0))),
    )
}

/// What `fefix`'s FIX 4.4 decoder, with `|` as separator, makes of `msg`: its
/// fields in order, each with the value that random access by its tag gives,
/// or the error.
pub uninterp spec fn fix44_decoded(msg: Seq<u8>) -> Result<
    Seq<(u16, Seq<u8>, Option<Seq<u8>>)>,
    FixErrorKind,
>;

/// Decodes `msg` with `fefix::tagvalue::Decoder` over the FIX 4.4 dictionary,
/// with `|` as separator (which turns checksum verification off), and lists
/// the fields of the message with `Message::fields` and, for each tag,
/// `FieldAccess::fv_raw`. The result is named `fix44_decoded`. The raw
/// decoder's source shows when it accepts a message (`payload_range`), that
/// it refuses with `DecodeError::Invalid` otherwise, and that the field loop
/// adds no error of its own. Where no field carries a length or a group
/// count, the source also shows the fields: `BeginString <8>` (stored from
/// index 2), then those of the payload (`payload_fields`), all at the top
/// level; both `fields` and `fv_raw` read the value stored last for a tag. The decoder panics on the inputs that
/// `fix44_decode_panics` describes; they are left out.
#[verifier::external_body]
pub(crate) fn fix44_decode(dict: &Fix44Dictionary, msg: &[u8]) -> (r: Result<
    Vec<DecodedField>,
    FixErrorKind,
>)
    requires
        !fix44_decode_panics(msg@),
    ensures
        match r {
            Ok(fs) => fix44_decoded(msg@) == Ok::<_, FixErrorKind>(fields_view(fs@)),
            Err(e) => fix44_decoded(msg@) == Err::<Seq<(u16, Seq<u8>, Option<Seq<u8>>)>, _>(e),
        },
        r is Ok <==> payload_range(msg@) is Some,
        r matches Err(e) ==> e == FixErrorKind::Invalid,
        r matches Ok(fs) ==> (plain_fields(msg@) ==> fields_view(fs@) == plain_decoded(msg@)),
{
    let mut decoder = Decoder::<Config>::new(dict.inner());
    decoder.config_mut().set_separator(SEPARATOR);
    match decoder.decode(msg) {
        Ok(m) => Ok(m.fields().map(|(tag, value)| DecodedField {
            tag: tag.get(),
            value: value.to_vec(),
            lookup: FieldAccess::<u32>::fv_raw(&m, &u32::from(tag.get())).map(|v| v.to_vec()),
        }).collect()),
        Err(FixDecodeError::FieldPresence) => Err(FixErrorKind::FieldPresence),
        Err(FixDecodeError::Invalid) => Err(FixErrorKind::Invalid),
        Err(FixDecodeError::CheckSum) => Err(FixErrorKind::CheckSum),
        Err(FixDecodeError::IO(_)) => Err(FixErrorKind::Io),
    }
}

} // verus!
