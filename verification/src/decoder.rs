//! From a `tag=value|` FIX 4.4 message to its JSON form: an object with a
//! `Header`, a `Body` and a `Trailer`, each mapping field names to values.
use vstd::prelude::*;
use vstd::utf8::*;
use crate::dictionary::{Fix44Dictionary, fix44_field_name};
use crate::frame::{
    fix44_decode, fix44_decode_panics, fix44_decode_panics_exec, fix44_decoded, fields_view,
    payload_range, plain_decoded, plain_fields, DecodedField, FixErrorKind, EQUALS, SEPARATOR,
};
use crate::json::{
    json_object_insert_object, json_object_insert_string, json_object_new, json_object_to_string,
    json_string_to_string, json_object_entries, json_string_text, json_text, string_object,
    JsonObject, JsonValue,
};
use crate::tags::{section_of, section_of_tag, Section};
use crate::text::{copy_range, find_byte, find_byte_from, lemma_find_byte, lossy_utf8, utf8_decode, utf8_lossy};

verus! {

/// Why a message could not be decoded.
#[derive(Clone, Copy, Debug, PartialEq, Eq, Structural)]
pub enum DecodeError {
    /// The message has no last field with a value after `=`, or it holds a
    /// tag that the FIX 4.4 dictionary does not know.
    Malformed,
    /// The FIX decoder refused the message.
    Fix(FixErrorKind),
    /// A header or trailer field has no value outside of repeating groups, or
    /// that value is not UTF-8.
    FieldValue,
    /// JSON serialization failed.
    Json,
}

impl DecodeError {
    /// The text of the error: "failed to decode" for a malformed message, the
    /// text that `fefix` gives its own decoding errors, and a description of
    /// the other two.
    pub fn message(&self) -> (s: String)
        ensures
            s@ == match *self {
                DecodeError::Malformed => "failed to decode"@,
                DecodeError::Fix(FixErrorKind::FieldPresence) => "Field not found."@,
                DecodeError::Fix(FixErrorKind::Invalid) => "Invalid FIX message syntax."@,
                DecodeError::Fix(FixErrorKind::CheckSum) => "Invalid `CheckSum <10>` FIX field value."@,
                DecodeError::Fix(FixErrorKind::Io) => "I/O error"@,
                DecodeError::FieldValue => "header or trailer field without a UTF-8 value"@,
                DecodeError::Json => "JSON serialization failed"@,
            },
    {
        match self {
            DecodeError::Malformed => "failed to decode".to_owned(),
            DecodeError::Fix(FixErrorKind::FieldPresence) => "Field not found.".to_owned(),
            DecodeError::Fix(FixErrorKind::Invalid) => "Invalid FIX message syntax.".to_owned(),
            DecodeError::Fix(FixErrorKind::CheckSum) => "Invalid `CheckSum <10>` FIX field value.".to_owned(),
            DecodeError::Fix(FixErrorKind::Io) => "I/O error".to_owned(),
            DecodeError::FieldValue => "header or trailer field without a UTF-8 value".to_owned(),
            DecodeError::Json => "JSON serialization failed".to_owned(),
        }
    }
}

/// The error for a message that is not in the expected shape.
pub fn decode_err() -> (e: DecodeError)
    ensures
        e == DecodeError::Malformed,
{
    DecodeError::Malformed
}

/// `s` without its last byte, if that byte is `b`.
pub open spec fn strip_trailing(s: Seq<u8>, b: u8) -> Seq<u8> {
    if s.len() > 0 && s.last() == b {
        s.drop_last()
    } else {
        s
    }
}

/// The last index where `s` holds `b`.
pub open spec fn last_index_of(s: Seq<u8>, b: u8) -> Option<int>
    decreases s.len(),
{
    if s.len() == 0 {
        None
    } else if s.last() == b {
        Some(s.len() - 1)
    } else {
        last_index_of(s.drop_last(), b)
    }
}

/// The last of the pieces that splitting `msg` at `|` gives, where a last
/// piece that is empty does not count.
pub open spec fn last_piece(msg: Seq<u8>) -> Option<Seq<u8>> {
    if msg.len() == 0 {
        None
    } else {
        let m = strip_trailing(msg, SEPARATOR);
        match last_index_of(m, SEPARATOR) {
            None => Some(m),
            Some(k) => Some(m.subrange(k + 1, m.len() as int)),
        }
    }
}

/// The second of the pieces that splitting `field` at `=` gives, where a
/// last piece that is empty does not count.
pub open spec fn second_part(field: Seq<u8>) -> Option<Seq<u8>> {
    let f = strip_trailing(field, EQUALS);
    match find_byte(f, EQUALS, 0) {
        None => None,
        Some(e) => {
            let rest = f.subrange(e + 1, f.len() as int);
            match find_byte(rest, EQUALS, 0) {
                None => Some(rest),
                Some(e2) => Some(rest.subrange(0, e2)),
            }
        },
    }
}

/// The bytes of the checksum value: the second `=`-piece of the last
/// `|`-piece of the message.
pub open spec fn checksum_text(msg: Seq<u8>) -> Option<Seq<u8>> {
    match last_piece(msg) {
        None => None,
        Some(l) => second_part(l),
    }
}

/// The last index where `s` holds `b`, found from the end.
fn last_index_of_exec(s: &[u8], b: u8) -> (r: Option<usize>)
    ensures
        match r {
            Some(k) => last_index_of(s@, b) == Some(k as int),
            None => last_index_of(s@, b) is None,
        },
{
    let mut k = s.len();
    proof {
        assert(s@.take(k as int) =~= s@);
    }
    while k > 0
        invariant
            k <= s@.len(),
            last_index_of(s@, b) == last_index_of(s@.take(k as int), b),
        decreases k,
    {
        proof {
            assert(s@.take(k as int).drop_last() =~= s@.take(k - 1));
        }
        if s[k - 1] == b {
            return Some(k - 1);
        }
        k = k - 1;
    }
    None
}

/// The checksum value of `msg`, as `checksum_text` states it.
pub fn checksum_text_exec(msg: &[u8]) -> (r: Option<Vec<u8>>)
    ensures
        match r {
            Some(v) => checksum_text(msg@) == Some(v@),
            None => checksum_text(msg@) is None,
        },
{
    let n = msg.len();
    if n == 0 {
        return None;
    }
    let end = if msg[n - 1] == SEPARATOR {
        n - 1
    } else {
        n
    };
    let m = copy_range(msg, 0, end);
    proof {
        assert(m@ =~= strip_trailing(msg@, SEPARATOR));
    }
    let start = match last_index_of_exec(m.as_slice(), SEPARATOR) {
        Some(k) => {
            proof {
                lemma_last_index_of(m@, SEPARATOR);
            }
            k + 1
        },
        None => 0,
    };
    let l = copy_range(m.as_slice(), start, m.len());
    proof {
        assert(last_piece(msg@) == Some(l@)) by {
            assert(m@.subrange(0, m@.len() as int) =~= m@);
        }
    }
    let ln = l.len();
    let f = if ln > 0 && l[ln - 1] == EQUALS {
        copy_range(l.as_slice(), 0, ln - 1)
    } else {
        l
    };
    proof {
        assert(f@ =~= strip_trailing(l@, EQUALS));
        lemma_find_byte(f@, EQUALS, 0);
    }
    let e = match find_byte_from(f.as_slice(), EQUALS, 0) {
        Some(e) => e,
        None => return None,
    };
    let rest = copy_range(f.as_slice(), e + 1, f.len());
    proof {
        lemma_find_byte(rest@, EQUALS, 0);
    }
    match find_byte_from(rest.as_slice(), EQUALS, 0) {
        None => Some(rest),
        Some(e2) => Some(copy_range(rest.as_slice(), 0, e2)),
    }
}

/// What `last_index_of` finds lies inside the sequence.
proof fn lemma_last_index_of(s: Seq<u8>, b: u8)
    ensures
        last_index_of(s, b) matches Some(k) ==> 0 <= k < s.len() && s[k] == b,
    decreases s.len(),
{
    if s.len() > 0 && s.last() != b {
        lemma_last_index_of(s.drop_last(), b);
    }
}


/// The state of the walk over the fields of a decoded message: it panics
/// (a field value that is not UTF-8), fails, or has collected the values of
/// the header, the body and the trailer by field name.
pub enum Collected {
    Panics,
    Fails(DecodeError),
    Sections {
        header: Map<Seq<char>, Seq<char>>,
        body: Map<Seq<char>, Seq<char>>,
        trailer: Map<Seq<char>, Seq<char>>,
    },
}

/// The text of a value found by random access, if there is one and it is
/// UTF-8.
pub open spec fn lookup_text(lookup: Option<Seq<u8>>) -> Option<Seq<char>> {
    match lookup {
        Some(raw) => if valid_utf8(raw) {
            Some(decode_utf8(raw))
        } else {
            None
        },
        None => None,
    }
}

/// One step of the walk: the field's name comes from the dictionary (an
/// unknown tag fails), its own value must be UTF-8 (else the walk panics),
/// then it goes by its section. A required header field stores the value
/// found by random access; an optional header field only requires that one
/// can be read; `CheckSum <10>` is skipped; an optional trailer field stores
/// the value found by random access; a body field stores its own value.
pub open spec fn collect_step(acc: Collected, f: (u16, Seq<u8>, Option<Seq<u8>>)) -> Collected {
    match acc {
        Collected::Sections { header, body, trailer } => match fix44_field_name(f.0 as u32) {
            None => Collected::Fails(DecodeError::Malformed),
            Some(name) => if !valid_utf8(f.1) {
                Collected::Panics
            } else {
                match section_of(f.0 as u32) {
                    Section::HeaderRequired => match lookup_text(f.2) {
                        None => Collected::Fails(DecodeError::FieldValue),
                        Some(v) => Collected::Sections { header: header.insert(name, v), body, trailer },
                    },
                    Section::HeaderOptional => match lookup_text(f.2) {
                        None => Collected::Fails(DecodeError::FieldValue),
                        Some(_) => Collected::Sections { header, body, trailer },
                    },
                    Section::TrailerRequired => Collected::Sections { header, body, trailer },
                    Section::TrailerOptional => match lookup_text(f.2) {
                        None => Collected::Fails(DecodeError::FieldValue),
                        Some(v) => Collected::Sections {
                            header,
                            body,
                            trailer: trailer.insert(name, v),
                        },
                    },
                    Section::Body => Collected::Sections {
                        header,
                        body: body.insert(name, decode_utf8(f.1)),
                        trailer,
                    },
                }
            },
        },
        _ => acc,
    }
}

/// The walk over the fields, in order.
pub open spec fn collect_fields(fs: Seq<(u16, Seq<u8>, Option<Seq<u8>>)>) -> Collected
    decreases fs.len(),
{
    if fs.len() == 0 {
        Collected::Sections { header: Map::empty(), body: Map::empty(), trailer: Map::empty() }
    } else {
        collect_step(collect_fields(fs.drop_last()), fs.last())
    }
}

/// Once the walk has panicked or failed, the remaining fields change nothing.
proof fn lemma_collect_stuck(fs: Seq<(u16, Seq<u8>, Option<Seq<u8>>)>, k: int)
    requires
        0 <= k <= fs.len(),
        !(collect_fields(fs.take(k)) is Sections),
    ensures
        collect_fields(fs) == collect_fields(fs.take(k)),
    decreases fs.len() - k,
{
    if k < fs.len() {
        assert(fs.take(k + 1).drop_last() =~= fs.take(k));
        lemma_collect_stuck(fs, k + 1);
    } else {
        assert(fs.take(k) =~= fs);
    }
}

/// The result of decoding: it panics, fails, or gives the JSON text.
pub enum DecoderOutcome {
    Panics,
    Fails(DecodeError),
    Text(Seq<char>),
}

/// The keys of the JSON form, and of the checksum entry of its trailer.
pub open spec fn header_key() -> Seq<char> {
    "Header"@
}

pub open spec fn body_key() -> Seq<char> {
    "Body"@
}

pub open spec fn trailer_key() -> Seq<char> {
    "Trailer"@
}

pub open spec fn checksum_key() -> Seq<char> {
    "CheckSum"@
}

/// The JSON form of the three sections.
pub open spec fn message_object(
    header: Map<Seq<char>, Seq<char>>,
    body: Map<Seq<char>, Seq<char>>,
    trailer: Map<Seq<char>, Seq<char>>,
) -> Map<Seq<char>, JsonValue> {
    Map::empty().insert(header_key(), JsonValue::Obj(string_object(header))).insert(
        body_key(),
        JsonValue::Obj(string_object(body)),
    ).insert(trailer_key(), JsonValue::Obj(string_object(trailer)))
}

/// What decoding gives once the FIX decoder has listed the fields `fs` and
/// the checksum value is `cs`: the walk over the fields must succeed; the
/// body is written as JSON, and that text as a JSON string (these two texts
/// are not used further, but either can fail); the trailer gets the checksum
/// value under `CheckSum`; and the three sections are written as one JSON
/// object.
pub open spec fn fields_outcome(cs: Seq<u8>, fs: Seq<(u16, Seq<u8>, Option<Seq<u8>>)>) -> DecoderOutcome {
    match collect_fields(fs) {
        Collected::Panics => DecoderOutcome::Panics,
        Collected::Fails(e) => DecoderOutcome::Fails(e),
        Collected::Sections { header, body, trailer } => sections_outcome(cs, header, body, trailer),
    }
}

/// What decoding gives once the walk has collected the three sections.
pub open spec fn sections_outcome(
    cs: Seq<u8>,
    header: Map<Seq<char>, Seq<char>>,
    body: Map<Seq<char>, Seq<char>>,
    trailer: Map<Seq<char>, Seq<char>>,
) -> DecoderOutcome {
    match json_text(JsonValue::Obj(string_object(body))) {
        None => DecoderOutcome::Fails(DecodeError::Json),
        Some(body_text) => match json_string_text(body_text) {
            None => DecoderOutcome::Fails(DecodeError::Json),
            Some(_) => match json_text(
                JsonValue::Obj(
                    message_object(header, body, trailer.insert(checksum_key(), lossy_utf8(cs))),
                ),
            ) {
                None => DecoderOutcome::Fails(DecodeError::Json),
                Some(t) => DecoderOutcome::Text(t),
            },
        },
    }
}

/// What decoding `msg` gives. In order: the checksum value must be there;
/// the FIX decoder must not panic, and must accept the message; then the
/// fields it lists go as `fields_outcome` says.
pub open spec fn flow_decoder_outcome(msg: Seq<u8>) -> DecoderOutcome {
    match checksum_text(msg) {
        None => DecoderOutcome::Fails(DecodeError::Malformed),
        Some(cs) => if fix44_decode_panics(msg) {
            DecoderOutcome::Panics
        } else {
            match fix44_decoded(msg) {
                Err(k) => DecoderOutcome::Fails(DecodeError::Fix(k)),
                Ok(fs) => fields_outcome(cs, fs),
            }
        },
    }
}

/// What the FIX decoder is known to list for `msg` where its checksum value
/// is there, it does not panic and no field carries a length or a group
/// count: the plain fields of the message.
pub open spec fn decoded_plainly(msg: Seq<u8>) -> bool {
    (checksum_text(msg) is Some && !fix44_decode_panics(msg) && plain_fields(msg)) ==> fix44_decoded(
        msg,
    ) == Ok::<_, FixErrorKind>(plain_decoded(msg))
}

/// When the FIX decoder refuses `msg`, where its checksum value is there and
/// it does not panic: exactly where the raw decoder rejects the frame
/// (`payload_range`), and then with `Invalid`.
pub open spec fn refusal_known(msg: Seq<u8>) -> bool {
    (checksum_text(msg) is Some && !fix44_decode_panics(msg)) ==> {
        &&& fix44_decoded(msg) is Ok <==> payload_range(msg) is Some
        &&& fix44_decoded(msg) is Err ==> fix44_decoded(msg) == Err::<
            Seq<(u16, Seq<u8>, Option<Seq<u8>>)>,
            FixErrorKind,
        >(FixErrorKind::Invalid)
    }
}

/// Whether `r` is what the outcome says, for an outcome that is not a panic.
pub open spec fn decoder_result_matches(outcome: DecoderOutcome, r: Result<String, DecodeError>) -> bool {
    match outcome {
        DecoderOutcome::Panics => false,
        DecoderOutcome::Fails(e) => r == Err::<String, DecodeError>(e),
        DecoderOutcome::Text(t) => r matches Ok(s) && s@ == t,
    }
}

/// The text of a value found by random access.
fn lookup_text_exec(lookup: &Option<Vec<u8>>) -> (r: Option<String>)
    ensures
        match r {
            Some(s) => lookup_text(
                match lookup {
                    Some(v) => Some(v@),
                    None => None,
                },
            ) == Some(s@),
            None => lookup_text(
                match lookup {
                    Some(v) => Some(v@),
                    None => None,
                },
            ) is None,
        },
{
    match lookup {
        Some(raw) => utf8_decode(raw.as_slice()),
        None => None,
    }
}

/// Decodes `msg`, or returns `None` exactly where decoding would panic.
fn decode_checked(msg: &[u8]) -> (r: Option<Result<String, DecodeError>>)
    ensures
        decoded_plainly(msg@),
        refusal_known(msg@),
        r != Some(Err::<String, DecodeError>(DecodeError::Json)),
        match r {
            None => flow_decoder_outcome(msg@) is Panics,
            Some(res) => decoder_result_matches(flow_decoder_outcome(msg@), res),
        },
{
    let cs = match checksum_text_exec(msg) {
        Some(cs) => cs,
        None => return Some(Err(DecodeError::Malformed)),
    };
    let dict = Fix44Dictionary::new();
    if fix44_decode_panics_exec(&dict, msg) {
        return None;
    }
    let fields = match fix44_decode(&dict, msg) {
        Ok(fields) => fields,
        Err(k) => return Some(Err(DecodeError::Fix(k))),
    };
    let ghost fs = fields_view(fields@);
    let mut header = json_object_new();
    let mut body = json_object_new();
    let mut trailer = json_object_new();
    let ghost mut h: Map<Seq<char>, Seq<char>> = Map::empty();
    let ghost mut b: Map<Seq<char>, Seq<char>> = Map::empty();
    let ghost mut t: Map<Seq<char>, Seq<char>> = Map::empty();
    proof {
        assert(json_object_entries(header) =~= string_object(h));
        assert(json_object_entries(body) =~= string_object(b));
        assert(json_object_entries(trailer) =~= string_object(t));
        assert(fs.take(0) =~= Seq::<(u16, Seq<u8>, Option<Seq<u8>>)>::empty());
    }
    let mut k: usize = 0;
    while k < fields.len()
        invariant
            fs == fields_view(fields@),
            fix44_decoded(msg@) == Ok::<_, FixErrorKind>(fs),
            checksum_text(msg@) == Some(cs@),
            !fix44_decode_panics(msg@),
            decoded_plainly(msg@),
            refusal_known(msg@),
            k <= fields@.len(),
            collect_fields(fs.take(k as int)) == (Collected::Sections { header: h, body: b, trailer: t }),
            json_object_entries(header) == string_object(h),
            json_object_entries(body) == string_object(b),
            json_object_entries(trailer) == string_object(t),
        decreases fields@.len() - k,
    {
        proof {
            assert(fs.take(k + 1).drop_last() =~= fs.take(k as int));
            assert(fs.take(k + 1).last() == fields@[k as int]@);
        }
        let f = &fields[k];
        let name = match Fix44Dictionary::name_of_tag(&dict, f.tag as u32) {
            Some(name) => name,
            None => {
                proof {
                    lemma_collect_stuck(fs, k + 1);
                    assert(fs.take(fs.len() as int) =~= fs);
                }
                return Some(Err(DecodeError::Malformed));
            },
        };
        let text = match utf8_decode(f.value.as_slice()) {
            Some(text) => text,
            None => {
                proof {
                    lemma_collect_stuck(fs, k + 1);
                    assert(fs.take(fs.len() as int) =~= fs);
                }
                return None;
            },
        };
        match section_of_tag(f.tag as u32) {
            Section::HeaderRequired => {
                let v = match lookup_text_exec(&f.lookup) {
                    Some(v) => v,
                    None => {
                        proof {
                            lemma_collect_stuck(fs, k + 1);
                            assert(fs.take(fs.len() as int) =~= fs);
                        }
                        return Some(Err(DecodeError::FieldValue));
                    },
                };
                proof {
                    assert(string_object(h.insert(name@, v@)) =~= string_object(h).insert(
                        name@,
                        JsonValue::Str(v@),
                    ));
                    h = h.insert(name@, v@);
                }
                json_object_insert_string(&mut header, name, v);
            },
            Section::HeaderOptional => {
                match lookup_text_exec(&f.lookup) {
                    Some(_) => {},
                    None => {
                        proof {
                            lemma_collect_stuck(fs, k + 1);
                            assert(fs.take(fs.len() as int) =~= fs);
                        }
                        return Some(Err(DecodeError::FieldValue));
                    },
                }
            },
            Section::TrailerRequired => {},
            Section::TrailerOptional => {
                let v = match lookup_text_exec(&f.lookup) {
                    Some(v) => v,
                    None => {
                        proof {
                            lemma_collect_stuck(fs, k + 1);
                            assert(fs.take(fs.len() as int) =~= fs);
                        }
                        return Some(Err(DecodeError::FieldValue));
                    },
                };
                proof {
                    assert(string_object(t.insert(name@, v@)) =~= string_object(t).insert(
                        name@,
                        JsonValue::Str(v@),
                    ));
                    t = t.insert(name@, v@);
                }
                json_object_insert_string(&mut trailer, name, v);
            },
            Section::Body => {
                proof {
                    assert(string_object(b.insert(name@, text@)) =~= string_object(b).insert(
                        name@,
                        JsonValue::Str(text@),
                    ));
                    b = b.insert(name@, text@);
                }
                json_object_insert_string(&mut body, name, text);
            },
        }
        k = k + 1;
    }
    proof {
        assert(fs.take(fs.len() as int) =~= fs);
    }
    let body_text = match json_object_to_string(&body) {
        Ok(text) => text,
        Err(_) => return Some(Err(DecodeError::Json)),
    };
    match json_string_to_string(&body_text) {
        Ok(_) => {},
        Err(_) => return Some(Err(DecodeError::Json)),
    }
    let checksum = utf8_lossy(cs.as_slice());
    proof {
        assert(string_object(t.insert(checksum_key(), checksum@)) =~= string_object(t).insert(
            checksum_key(),
            JsonValue::Str(checksum@),
        ));
    }
    json_object_insert_string(&mut trailer, "CheckSum".to_owned(), checksum);
    let mut result = json_object_new();
    json_object_insert_object(&mut result, "Header".to_owned(), header);
    json_object_insert_object(&mut result, "Body".to_owned(), body);
    json_object_insert_object(&mut result, "Trailer".to_owned(), trailer);
    proof {
        assert(json_object_entries(result) =~= message_object(
            h,
            b,
            t.insert(checksum_key(), checksum@),
        ));
    }
    match json_object_to_string(&result) {
        Ok(text) => Some(Ok(text)),
        Err(_) => Some(Err(DecodeError::Json)),
    }
}


/// Decodes the FIX 4.4 message `fix_message`, whose fields end in `|`, into
/// JSON: `{"Body":{..},"Header":{..},"Trailer":{..}}`, each section mapping
/// field names to values. The header holds the required header fields, the
/// trailer the optional trailer fields and `CheckSum` (the value of the last
/// field of the message); every field that is no header or trailer field
/// goes to the body. Optional header fields are read but left out.
///
/// The inputs on which decoding panics (see `flow_decoder_outcome`) are left
/// out; `try_flow_decoder` tells them apart. Where no field of the message
/// carries a length or a group count, the fields that the FIX decoder lists
/// are the plain fields of the message (`decoded_plainly`).
pub fn flow_decoder(fix_message: &[u8]) -> (r: Result<String, DecodeError>)
    requires
        !(flow_decoder_outcome(fix_message@) is Panics),
    ensures
        decoded_plainly(fix_message@),
        refusal_known(fix_message@),
        r != Err::<String, DecodeError>(DecodeError::Json),
        decoder_result_matches(flow_decoder_outcome(fix_message@), r),
{
    match decode_checked(fix_message) {
        Some(r) => r,
        None => Err(DecodeError::Malformed),
    }
}

/// Decodes `fix_message` as `flow_decoder` does where that does not panic,
/// and returns `None` where it would.
pub fn try_flow_decoder(fix_message: &[u8]) -> (r: Option<Result<String, DecodeError>>)
    ensures
        decoded_plainly(fix_message@),
        refusal_known(fix_message@),
        r != Some(Err::<String, DecodeError>(DecodeError::Json)),
        match r {
            None => flow_decoder_outcome(fix_message@) is Panics,
            Some(res) => decoder_result_matches(flow_decoder_outcome(fix_message@), res),
        },
{
    match decode_checked(fix_message) {
        None => None,
        Some(_) => Some(flow_decoder(fix_message)),
    }
}

/// `last_index_of` finds the last `b`, or reports that there is none.
proof fn lemma_last_index_of_last(s: Seq<u8>, b: u8)
    ensures
        match last_index_of(s, b) {
            Some(k) => 0 <= k < s.len() && s[k] == b && forall|j: int| k < j < s.len() ==> s[j] != b,
            None => forall|j: int| 0 <= j < s.len() ==> s[j] != b,
        },
    decreases s.len(),
{
    if s.len() > 0 && s.last() != b {
        lemma_last_index_of_last(s.drop_last(), b);
        assert forall|j: int| 0 <= j < s.len() - 1 implies s[j] == s.drop_last()[j] by {}
    }
}

/// The last piece of a message is its longest end without `|`, once a last
/// `|` is taken off: it ends the message, holds no `|`, and is the whole
/// rest or follows a `|`. An empty message has none.
pub proof fn law_last_piece(msg: Seq<u8>)
    ensures
        msg.len() == 0 <==> last_piece(msg) is None,
        last_piece(msg) matches Some(p) ==> {
            let m = strip_trailing(msg, SEPARATOR);
            &&& p.len() <= m.len()
            &&& m.subrange(m.len() - p.len(), m.len() as int) == p
            &&& forall|j: int| 0 <= j < p.len() ==> #[trigger] p[j] != SEPARATOR
            &&& (p.len() == m.len() || m[m.len() - p.len() - 1] == SEPARATOR)
        },
{
    if msg.len() > 0 {
        let m = strip_trailing(msg, SEPARATOR);
        lemma_last_index_of_last(m, SEPARATOR);
        match last_index_of(m, SEPARATOR) {
            None => {
                assert(m.subrange(0, m.len() as int) =~= m);
            },
            Some(k) => {
                let p = m.subrange(k + 1, m.len() as int);
                assert(m.subrange(m.len() - p.len(), m.len() as int) =~= p);
            },
        }
    }
}

/// The second `=`-piece of a field, once a last `=` is taken off: there is
/// one exactly where the field holds a `=` there, and it is what follows the
/// first `=` up to the next `=` or the end.
pub proof fn law_second_part(field: Seq<u8>)
    ensures
        ({
            let f = strip_trailing(field, EQUALS);
            &&& second_part(field) is Some <==> exists|e: int| 0 <= e < f.len() && #[trigger] f[e] == EQUALS
            &&& second_part(field) matches Some(v) ==> exists|e: int|
                #![trigger f[e]]
                0 <= e < f.len() && f[e] == EQUALS && (forall|j: int| 0 <= j < e ==> f[j] != EQUALS)
                    && e + 1 + v.len() <= f.len() && f.subrange(e + 1, e + 1 + v.len()) == v && (forall|j: int|
                    0 <= j < v.len() ==> #[trigger] v[j] != EQUALS) && (e + 1 + v.len() == f.len()
                    || f[e + 1 + v.len()] == EQUALS)
        }),
{
    let f = strip_trailing(field, EQUALS);
    lemma_find_byte(f, EQUALS, 0);
    match find_byte(f, EQUALS, 0) {
        None => {},
        Some(e) => {
            let rest = f.subrange(e + 1, f.len() as int);
            lemma_find_byte(rest, EQUALS, 0);
            match find_byte(rest, EQUALS, 0) {
                None => {
                    assert(f.subrange(e + 1, e + 1 + rest.len()) =~= rest);
                },
                Some(e2) => {
                    let v = rest.subrange(0, e2);
                    assert(f.subrange(e + 1, e + 1 + v.len()) =~= v);
                    assert(f[e + 1 + v.len()] == rest[e2]);
                },
            }
        },
    }
}

/// The checksum value is the second `=`-piece of the last piece.
pub proof fn law_checksum_text(msg: Seq<u8>)
    ensures
        checksum_text(msg) == match last_piece(msg) {
            Some(p) => second_part(p),
            None => None,
        },
{
}

/// Whether `fs` has a field named `n` in section `sec`.
pub open spec fn has_field_in(fs: Seq<(u16, Seq<u8>, Option<Seq<u8>>)>, n: Seq<char>, sec: Section) -> bool {
    exists|i: int|
        0 <= i < fs.len() && fix44_field_name(#[trigger] fs[i].0 as u32) == Some(n) && section_of(
            fs[i].0 as u32,
        ) == sec
}

/// A walk that succeeded went through fields that all passed: the walk
/// before the last field succeeded too.
proof fn lemma_collect_prefix(fs: Seq<(u16, Seq<u8>, Option<Seq<u8>>)>)
    requires
        fs.len() > 0,
        collect_fields(fs) is Sections,
    ensures
        collect_fields(fs.drop_last()) is Sections,
        fix44_field_name(fs.last().0 as u32) is Some,
{
}

/// Where the walk over the fields succeeds, each section of the JSON form
/// holds exactly the names of the message's fields of that section: the
/// `Header` those of the required header fields, the `Body` those of the
/// body fields, the collected trailer those of the optional trailer fields.
/// Optional header fields and `CheckSum <10>` go into none of them.
pub proof fn law_sections_hold_their_fields(fs: Seq<(u16, Seq<u8>, Option<Seq<u8>>)>)
    ensures
        collect_fields(fs) matches Collected::Sections { header, body, trailer } ==> {
            &&& forall|n: Seq<char>| #[trigger]
                header.contains_key(n) <==> has_field_in(fs, n, Section::HeaderRequired)
            &&& forall|n: Seq<char>| #[trigger]
                body.contains_key(n) <==> has_field_in(fs, n, Section::Body)
            &&& forall|n: Seq<char>| #[trigger]
                trailer.contains_key(n) <==> has_field_in(fs, n, Section::TrailerOptional)
        },
    decreases fs.len(),
{
    if fs.len() > 0 && collect_fields(fs) is Sections {
        let r = fs.drop_last();
        let l = fs.last();
        lemma_collect_prefix(fs);
        law_sections_hold_their_fields(r);
        let name = fix44_field_name(l.0 as u32).unwrap();
        assert forall|n: Seq<char>, sec: Section| #[trigger]
            has_field_in(fs, n, sec) <==> (has_field_in(r, n, sec) || (name == n && section_of(l.0 as u32)
                == sec)) by {
            if has_field_in(fs, n, sec) {
                let i = choose|i: int|
                    0 <= i < fs.len() && fix44_field_name(#[trigger] fs[i].0 as u32) == Some(n)
                        && section_of(fs[i].0 as u32) == sec;
                if i < r.len() {
                    assert(r[i] == fs[i]);
                }
            }
            if has_field_in(r, n, sec) {
                let i = choose|i: int|
                    0 <= i < r.len() && fix44_field_name(#[trigger] r[i].0 as u32) == Some(n)
                        && section_of(r[i].0 as u32) == sec;
                assert(fs[i] == r[i]);
            }
            if name == n && section_of(l.0 as u32) == sec {
                assert(fs[fs.len() - 1] == l);
            }
        }
    }
}

} // verus!
