//! What decoding gives back of a message that the encoder wrote from its
//! JSON form: the JSON sections themselves. A header and a body of text
//! fields with FIX 4.4 names go through `tag=value|` and come back as the
//! same `Header` and `Body` objects, with a `Trailer` that holds the
//! checksum.
use vstd::prelude::*;
use vstd::utf8::*;
use crate::decoder::{
    collect_fields, decoded_plainly, flow_decoder_outcome, sections_outcome, Collected,
};
use crate::dictionary::{fix44_field_class, fix44_field_name, fix44_field_tag, FieldClass};
use crate::encoder::{
    fields_utf8, tag_of, view_body_fields, view_encodable, view_encoded_bytes, view_entry_names_known,
    view_group_names_known, view_header_fields, view_names_known, view_section_value,
    view_trailer_fields, FieldView, MessageView,
};
use crate::frame::{EQUALS, SEPARATOR};
use crate::roundtrip::{law_decoder_reads_back_values, one_value_per_tag};
use vstd::utf8::{encode_utf8_decode_utf8, encode_utf8_valid_utf8};
use crate::tags::{section_of, Section};
use crate::tagvalue::{checksum_digits, checksum_of, message_body, message_framed};

verus! {

/// A section of text fields, as fields of the JSON form.
pub open spec fn text_section(s: Seq<(Seq<char>, Seq<char>)>) -> Seq<(Seq<char>, FieldView)> {
    s.map_values(|f: (Seq<char>, Seq<char>)| (f.0, FieldView::Text(f.1)))
}

/// The JSON object of a section of text fields: each name maps to its text
/// (the last one, where a name repeats).
pub open spec fn text_map(s: Seq<(Seq<char>, Seq<char>)>) -> Map<Seq<char>, Seq<char>>
    decreases s.len(),
{
    if s.len() == 0 {
        Map::empty()
    } else {
        text_map(s.drop_last()).insert(s.last().0, s.last().1)
    }
}

/// Whether no name occurs twice, as in a JSON object.
pub open spec fn distinct_names(s: Seq<(Seq<char>, Seq<char>)>) -> bool {
    forall|i: int, j: int| 0 <= i < s.len() && 0 <= j < s.len() && i != j ==> s[i].0 != s[j].0
}

/// Whether the FIX 4.4 dictionary lists `n` under a tag (never 0, and under
/// which the dictionary names `n` back) whose field carries no length or
/// group count.
pub open spec fn listed_name(n: Seq<char>) -> bool {
    &&& fix44_field_tag(n) is Some
    &&& tag_of(n) != 0
    &&& fix44_field_name(tag_of(n) as u32) == Some(n)
    &&& fix44_field_class(tag_of(n)) == FieldClass::Other
}

/// Whether the UTF-8 bytes of `t` hold no byte `b`.
pub open spec fn bytes_without(t: Seq<char>, b: u8) -> bool {
    forall|k: int| 0 <= k < encode_utf8(t).len() ==> #[trigger] encode_utf8(t)[k] != b
}

/// The JSON form of a message with the given header and body of text
/// fields, and an empty trailer.
pub open spec fn json_view(header: Seq<(Seq<char>, Seq<char>)>, body: Seq<(Seq<char>, Seq<char>)>) -> MessageView {
    MessageView { header: text_section(header), body: text_section(body), trailer: Seq::empty() }
}

/// The fields that the encoder writes after `MsgType` for that message.
pub open spec fn json_written(header: Seq<(Seq<char>, Seq<char>)>, body: Seq<(Seq<char>, Seq<char>)>) -> Seq<
    (u16, Seq<u8>),
> {
    fields_utf8(view_header_fields(text_section(header)) + view_body_fields(text_section(body)))
}

/// The map that the walk of the decoder builds for the section `sec` from
/// fields walked with their own values.
pub open spec fn section_map(ws: Seq<(u16, Seq<u8>)>, sec: Section) -> Map<Seq<char>, Seq<char>>
    decreases ws.len(),
{
    if ws.len() == 0 {
        Map::empty()
    } else if section_of(ws.last().0 as u32) == sec {
        section_map(ws.drop_last(), sec).insert(
            fix44_field_name(ws.last().0 as u32).unwrap(),
            decode_utf8(ws.last().1),
        )
    } else {
        section_map(ws.drop_last(), sec)
    }
}

/// The fields walked with their own values.
pub open spec fn walked(ws: Seq<(u16, Seq<u8>)>) -> Seq<(u16, Seq<u8>, Option<Seq<u8>>)> {
    ws.map_values(|f: (u16, Seq<u8>)| (f.0, f.1, Some(f.1)))
}

/// `section_value` of a text section is the entry of its object.
proof fn lemma_section_value_text(s: Seq<(Seq<char>, Seq<char>)>, n: Seq<char>)
    ensures
        view_section_value(text_section(s), n) == if text_map(s).contains_key(n) {
            Some(text_map(s)[n])
        } else {
            None
        },
    decreases s.len(),
{
    if s.len() > 0 {
        assert(text_section(s).drop_last() =~= text_section(s.drop_last()));
        lemma_section_value_text(s.drop_last(), n);
    }
}

/// The keys of the object are the names, and with distinct names each maps
/// to its own text.
proof fn lemma_text_map(s: Seq<(Seq<char>, Seq<char>)>)
    ensures
        forall|n: Seq<char>|
            #[trigger] text_map(s).contains_key(n) <==> exists|i: int| 0 <= i < s.len() && s[i].0 == n,
        distinct_names(s) ==> forall|i: int| 0 <= i < s.len() ==> #[trigger] text_map(s)[s[i].0] == s[i].1,
    decreases s.len(),
{
    if s.len() > 0 {
        let r = s.drop_last();
        lemma_text_map(r);
        assert forall|n: Seq<char>| #[trigger] text_map(s).contains_key(n) <==> exists|i: int|
            0 <= i < s.len() && s[i].0 == n by {
            if text_map(s).contains_key(n) && n != s.last().0 {
                assert(text_map(r).contains_key(n));
                let i = choose|i: int| 0 <= i < r.len() && r[i].0 == n;
                assert(s[i] == r[i]);
            }
            if exists|i: int| 0 <= i < s.len() && s[i].0 == n {
                let i = choose|i: int| 0 <= i < s.len() && s[i].0 == n;
                if i < r.len() {
                    assert(r[i] == s[i]);
                    assert(text_map(r).contains_key(n));
                }
            }
        }
        if distinct_names(s) {
            assert(distinct_names(r)) by {
                assert forall|i: int, j: int| 0 <= i < r.len() && 0 <= j < r.len() && i != j implies r[i].0
                    != r[j].0 by {
                    assert(r[i] == s[i]);
                    assert(r[j] == s[j]);
                }
            }
            assert forall|i: int| 0 <= i < s.len() implies #[trigger] text_map(s)[s[i].0] == s[i].1 by {
                if i < r.len() {
                    assert(r[i] == s[i]);
                    assert(s[i].0 != s[s.len() - 1].0);
                    assert(text_map(r)[r[i].0] == r[i].1);
                }
            }
        }
    }
}

/// The header fields that the encoder writes are the header's text fields
/// but `BeginString`, each with its tag.
proof fn lemma_header_written(s: Seq<(Seq<char>, Seq<char>)>)
    ensures
        forall|j: int|
            0 <= j < view_header_fields(text_section(s)).len() ==> exists|i: int|
                0 <= i < s.len() && tag_of(s[i].0) != 8 && #[trigger] view_header_fields(
                    text_section(s),
                )[j] == (tag_of(s[i].0), s[i].1),
        forall|i: int|
            0 <= i < s.len() && tag_of(#[trigger] s[i].0) != 8 ==> exists|j: int|
                0 <= j < view_header_fields(text_section(s)).len() && view_header_fields(
                    text_section(s),
                )[j] == (tag_of(s[i].0), s[i].1),
    decreases s.len(),
{
    if s.len() > 0 {
        let r = s.drop_last();
        assert(text_section(s).drop_last() =~= text_section(r));
        lemma_header_written(r);
        let hr = view_header_fields(text_section(r));
        let hs = view_header_fields(text_section(s));
        let last = s.last();
        assert(hs == hr + if tag_of(last.0) != 8 {
            seq![(tag_of(last.0), last.1)]
        } else {
            Seq::empty()
        });
        assert forall|j: int| 0 <= j < hs.len() implies exists|i: int|
            0 <= i < s.len() && tag_of(s[i].0) != 8 && #[trigger] hs[j] == (tag_of(s[i].0), s[i].1) by {
            if j < hr.len() {
                assert(hs[j] == hr[j]);
                let i = choose|i: int| 0 <= i < r.len() && tag_of(r[i].0) != 8 && hr[j] == (tag_of(r[i].0), r[i].1);
                assert(s[i] == r[i]);
            } else {
                assert(s[s.len() - 1] == last);
            }
        }
        assert forall|i: int| 0 <= i < s.len() && tag_of(#[trigger] s[i].0) != 8 implies exists|j: int|
            0 <= j < hs.len() && hs[j] == (tag_of(s[i].0), s[i].1) by {
            if i < r.len() {
                assert(r[i] == s[i]);
                assert(tag_of(r[i].0) != 8);
                let j = choose|j: int| 0 <= j < hr.len() && hr[j] == (tag_of(r[i].0), r[i].1);
                assert(hs[j] == hr[j]);
            } else {
                assert(hs[hr.len() as int] == (tag_of(last.0), last.1));
            }
        }
    }
}

/// The body fields that the encoder writes are the body's text fields, each
/// with its tag.
proof fn lemma_body_written(s: Seq<(Seq<char>, Seq<char>)>)
    ensures
        view_body_fields(text_section(s)) == s.map_values(
            |f: (Seq<char>, Seq<char>)| (tag_of(f.0), f.1),
        ),
    decreases s.len(),
{
    if s.len() > 0 {
        let r = s.drop_last();
        assert(text_section(s).drop_last() =~= text_section(r));
        lemma_body_written(r);
        assert(view_body_fields(text_section(s)) =~= s.map_values(
            |f: (Seq<char>, Seq<char>)| (tag_of(f.0), f.1),
        ));
    }
}

/// Walking fields whose tags the dictionary names and whose values are
/// UTF-8 collects the section maps.
proof fn lemma_walk(ws: Seq<(u16, Seq<u8>)>)
    requires
        forall|i: int| 0 <= i < ws.len() ==> fix44_field_name((#[trigger] ws[i]).0 as u32) is Some,
        forall|i: int| 0 <= i < ws.len() ==> valid_utf8((#[trigger] ws[i]).1),
    ensures
        collect_fields(walked(ws)) == (Collected::Sections {
            header: section_map(ws, Section::HeaderRequired),
            body: section_map(ws, Section::Body),
            trailer: section_map(ws, Section::TrailerOptional),
        }),
    decreases ws.len(),
{
    if ws.len() > 0 {
        let r = ws.drop_last();
        assert(walked(ws).drop_last() =~= walked(r));
        assert forall|i: int| 0 <= i < r.len() implies fix44_field_name((#[trigger] r[i]).0 as u32) is Some
            && valid_utf8(r[i].1) by {
            assert(r[i] == ws[i]);
        }
        lemma_walk(r);
        assert(fix44_field_name(ws[ws.len() - 1].0 as u32) is Some);
        assert(valid_utf8(ws[ws.len() - 1].1));
    }
}

/// The keys of a section map are the names of the fields of that section,
/// and where a name always comes with one tag and a tag with one value, each
/// maps to the text of its value.
proof fn lemma_section_map(ws: Seq<(u16, Seq<u8>)>, sec: Section)
    requires
        one_value_per_tag(ws),
        forall|i: int| 0 <= i < ws.len() ==> fix44_field_name((#[trigger] ws[i]).0 as u32) is Some,
        forall|i: int, j: int|
            0 <= i < ws.len() && 0 <= j < ws.len() && fix44_field_name((#[trigger] ws[i]).0 as u32)
                == fix44_field_name((#[trigger] ws[j]).0 as u32) ==> ws[i].0 == ws[j].0,
    ensures
        forall|n: Seq<char>|
            #[trigger] section_map(ws, sec).contains_key(n) <==> exists|i: int|
                0 <= i < ws.len() && section_of(ws[i].0 as u32) == sec && fix44_field_name(
                    ws[i].0 as u32,
                ).unwrap() == n,
        forall|i: int|
            0 <= i < ws.len() && section_of((#[trigger] ws[i]).0 as u32) == sec ==> section_map(ws, sec)[fix44_field_name(
                ws[i].0 as u32,
            ).unwrap()] == decode_utf8(ws[i].1),
    decreases ws.len(),
{
    if ws.len() > 0 {
        let r = ws.drop_last();
        let last = ws.last();
        assert forall|i: int, j: int|
            0 <= i < r.len() && 0 <= j < r.len() && (#[trigger] r[i]).0 == (#[trigger] r[j]).0 implies r[i].1
            == r[j].1 by {
            assert(r[i] == ws[i]);
            assert(r[j] == ws[j]);
        }
        assert forall|i: int, j: int|
            0 <= i < r.len() && 0 <= j < r.len() && fix44_field_name((#[trigger] r[i]).0 as u32)
                == fix44_field_name((#[trigger] r[j]).0 as u32) implies r[i].0 == r[j].0 by {
            assert(r[i] == ws[i]);
            assert(r[j] == ws[j]);
        }
        assert forall|i: int| 0 <= i < r.len() implies fix44_field_name((#[trigger] r[i]).0 as u32) is Some by {
            assert(r[i] == ws[i]);
        }
        lemma_section_map(r, sec);
        assert(ws[ws.len() - 1] == last);
        assert forall|n: Seq<char>| #[trigger] section_map(ws, sec).contains_key(n) <==> exists|i: int|
            0 <= i < ws.len() && section_of(ws[i].0 as u32) == sec && fix44_field_name(ws[i].0 as u32).unwrap()
                == n by {
            if exists|i: int|
                0 <= i < ws.len() && section_of(ws[i].0 as u32) == sec && fix44_field_name(ws[i].0 as u32).unwrap()
                    == n {
                let i = choose|i: int|
                    0 <= i < ws.len() && section_of(ws[i].0 as u32) == sec && fix44_field_name(
                        ws[i].0 as u32,
                    ).unwrap() == n;
                if i < r.len() {
                    assert(r[i] == ws[i]);
                    assert(section_map(r, sec).contains_key(n));
                }
            }
            if section_map(ws, sec).contains_key(n) && !(section_of(last.0 as u32) == sec
                && fix44_field_name(last.0 as u32).unwrap() == n) {
                assert(section_map(r, sec).contains_key(n));
                let i = choose|i: int|
                    0 <= i < r.len() && section_of(r[i].0 as u32) == sec && fix44_field_name(
                        r[i].0 as u32,
                    ).unwrap() == n;
                assert(r[i] == ws[i]);
            }
        }
        assert forall|i: int|
            0 <= i < ws.len() && section_of((#[trigger] ws[i]).0 as u32) == sec implies section_map(ws, sec)[fix44_field_name(
                ws[i].0 as u32,
            ).unwrap()] == decode_utf8(ws[i].1) by {
            if i < r.len() {
                assert(r[i] == ws[i]);
                assert(section_map(r, sec)[fix44_field_name(r[i].0 as u32).unwrap()] == decode_utf8(r[i].1));
                if section_of(last.0 as u32) == sec && fix44_field_name(last.0 as u32).unwrap()
                    == fix44_field_name(ws[i].0 as u32).unwrap() {
                    assert(fix44_field_name(ws[ws.len() - 1].0 as u32) == fix44_field_name(ws[i].0 as u32)
                        ==> ws[ws.len() - 1].0 == ws[i].0);
                    if fix44_field_name(last.0 as u32) == fix44_field_name(ws[i].0 as u32) {
                        assert(ws[ws.len() - 1].1 == ws[i].1);
                    }
                }
            }
        }
    }
}

/// A text field as the encoder writes it: its tag and its UTF-8 bytes.
pub open spec fn entry_written(e: (Seq<char>, Seq<char>)) -> (u16, Seq<u8>) {
    (tag_of(e.0), encode_utf8(e.1))
}

/// Whether `w` is the written form of a field of `s`.
pub open spec fn written_from(w: (u16, Seq<u8>), s: Seq<(Seq<char>, Seq<char>)>) -> bool {
    exists|i: int| 0 <= i < s.len() && w == #[trigger] entry_written(s[i])
}

/// The fields that the decoder walks for the message: `BeginString`,
/// `MsgType`, then those written after `MsgType`.
pub open spec fn json_walk(header: Seq<(Seq<char>, Seq<char>)>, body: Seq<(Seq<char>, Seq<char>)>) -> Seq<
    (u16, Seq<u8>),
> {
    seq![
        (8u16, encode_utf8(text_map(header)["BeginString"@])),
        (35u16, encode_utf8(text_map(header)["MsgType"@])),
    ] + json_written(header, body)
}

/// Where each walked field comes from.
proof fn lemma_origins(header: Seq<(Seq<char>, Seq<char>)>, body: Seq<(Seq<char>, Seq<char>)>)
    requires
        distinct_names(header),
        text_map(header).contains_key("BeginString"@),
        text_map(header).contains_key("MsgType"@),
        fix44_field_tag("BeginString"@) == Some(8u16),
        fix44_field_tag("MsgType"@) == Some(35u16),
    ensures
        forall|k: int|
            0 <= k < json_walk(header, body).len() ==> written_from(
                #[trigger] json_walk(header, body)[k],
                header,
            ) || written_from(json_walk(header, body)[k], body),
        forall|i: int|
            0 <= i < header.len() && tag_of((#[trigger] header[i]).0) != 8 ==> exists|k: int|
                0 <= k < json_walk(header, body).len() && json_walk(header, body)[k] == entry_written(
                    header[i],
                ),
        forall|m: int|
            0 <= m < body.len() ==> exists|k: int|
                0 <= k < json_walk(header, body).len() && json_walk(header, body)[k] == entry_written(
                    #[trigger] body[m],
                ),
        json_walk(header, body)[0] == entry_written(
            ("BeginString"@, text_map(header)["BeginString"@]),
        ),
        written_from(json_walk(header, body)[0], header),
{
    lemma_text_map(header);
    lemma_header_written(header);
    lemma_body_written(body);
    let w = json_walk(header, body);
    let hf = view_header_fields(text_section(header));
    let bf = view_body_fields(text_section(body));
    let fs = json_written(header, body);
    assert(fs == fields_utf8(hf + bf));
    let ib = choose|i: int| 0 <= i < header.len() && header[i].0 == "BeginString"@;
    let im = choose|i: int| 0 <= i < header.len() && header[i].0 == "MsgType"@;
    assert(text_map(header)[header[ib].0] == header[ib].1);
    assert(text_map(header)[header[im].0] == header[im].1);
    assert(w[0] == entry_written(header[ib]));
    assert(w[1] == entry_written(header[im]));
    assert forall|k: int| 0 <= k < w.len() implies written_from(#[trigger] w[k], header) || written_from(
        w[k],
        body,
    ) by {
        if k == 0 {
            assert(w[0] == entry_written(header[ib]));
        } else if k == 1 {
            assert(w[1] == entry_written(header[im]));
        } else if k < 2 + hf.len() {
            assert(w[k] == (hf[k - 2].0, encode_utf8(hf[k - 2].1)));
            let i = choose|i: int|
                0 <= i < header.len() && tag_of(header[i].0) != 8 && hf[k - 2] == (
                    tag_of(header[i].0),
                    header[i].1,
                );
            assert(w[k] == entry_written(header[i]));
        } else {
            let m = k - 2 - hf.len();
            assert(w[k] == (bf[m + hf.len() - hf.len()].0, encode_utf8(bf[m].1)));
            assert(w[k] == entry_written(body[m]));
        }
    }
    assert forall|i: int| 0 <= i < header.len() && tag_of((#[trigger] header[i]).0) != 8 implies exists|k: int|
        0 <= k < w.len() && w[k] == entry_written(header[i]) by {
        let j = choose|j: int| 0 <= j < hf.len() && hf[j] == (tag_of(header[i].0), header[i].1);
        assert(w[j + 2] == (hf[j].0, encode_utf8(hf[j].1)));
    }
    assert forall|m: int| 0 <= m < body.len() implies exists|k: int|
        0 <= k < w.len() && w[k] == entry_written(#[trigger] body[m]) by {
        assert(w[2 + hf.len() + m] == (bf[m].0, encode_utf8(bf[m].1)));
    }
}

/// Whether each field of `s` has a listed name, a tag of the section `sec`
/// and a value without the separator.
pub open spec fn fields_fit(s: Seq<(Seq<char>, Seq<char>)>, sec: Section) -> bool {
    forall|i: int|
        0 <= i < s.len() ==> listed_name((#[trigger] s[i]).0) && section_of(tag_of(s[i].0) as u32)
            == sec && bytes_without(s[i].1, SEPARATOR)
}

/// What the written form of a fitting field is.
proof fn lemma_entry(e: (Seq<char>, Seq<char>), sec: Section)
    requires
        listed_name(e.0),
        section_of(tag_of(e.0) as u32) == sec,
        bytes_without(e.1, SEPARATOR),
    ensures
        entry_written(e).0 != 0,
        fix44_field_name(entry_written(e).0 as u32) == Some(e.0),
        fix44_field_class(entry_written(e).0) == FieldClass::Other,
        section_of(entry_written(e).0 as u32) == sec,
        valid_utf8(entry_written(e).1),
        decode_utf8(entry_written(e).1) == e.1,
        forall|k: int| 0 <= k < entry_written(e).1.len() ==> #[trigger] entry_written(e).1[k] != SEPARATOR,
{
    encode_utf8_valid_utf8(e.1);
    encode_utf8_decode_utf8(e.1);
}

/// What holds of every walked field, and across them.
proof fn lemma_walk_facts(header: Seq<(Seq<char>, Seq<char>)>, body: Seq<(Seq<char>, Seq<char>)>)
    requires
        distinct_names(header),
        distinct_names(body),
        text_map(header).contains_key("BeginString"@),
        text_map(header).contains_key("MsgType"@),
        fix44_field_tag("BeginString"@) == Some(8u16),
        fix44_field_tag("MsgType"@) == Some(35u16),
        fields_fit(header, Section::HeaderRequired),
        fields_fit(body, Section::Body),
    ensures
        forall|k: int|
            0 <= k < json_walk(header, body).len() ==> {
                let w = #[trigger] json_walk(header, body)[k];
                &&& w.0 != 0
                &&& fix44_field_name(w.0 as u32) is Some
                &&& fix44_field_class(w.0) == FieldClass::Other
                &&& valid_utf8(w.1)
                &&& forall|b: int| 0 <= b < w.1.len() ==> #[trigger] w.1[b] != SEPARATOR
                &&& (section_of(w.0 as u32) == Section::HeaderRequired || section_of(w.0 as u32)
                    == Section::Body)
                &&& (section_of(w.0 as u32) == Section::HeaderRequired ==> written_from(w, header))
                &&& (section_of(w.0 as u32) == Section::Body ==> written_from(w, body))
            },
        one_value_per_tag(json_walk(header, body)),
        forall|i: int, j: int|
            0 <= i < json_walk(header, body).len() && 0 <= j < json_walk(header, body).len()
                && fix44_field_name((#[trigger] json_walk(header, body)[i]).0 as u32) == fix44_field_name(
                (#[trigger] json_walk(header, body)[j]).0 as u32,
            ) ==> json_walk(header, body)[i].0 == json_walk(header, body)[j].0,
{
    lemma_origins(header, body);
    let w = json_walk(header, body);
    assert forall|k: int| 0 <= k < w.len() implies {
        let x = #[trigger] w[k];
        &&& x.0 != 0
        &&& fix44_field_name(x.0 as u32) is Some
        &&& fix44_field_class(x.0) == FieldClass::Other
        &&& valid_utf8(x.1)
        &&& forall|b: int| 0 <= b < x.1.len() ==> #[trigger] x.1[b] != SEPARATOR
        &&& (section_of(x.0 as u32) == Section::HeaderRequired || section_of(x.0 as u32) == Section::Body)
        &&& (section_of(x.0 as u32) == Section::HeaderRequired ==> written_from(x, header))
        &&& (section_of(x.0 as u32) == Section::Body ==> written_from(x, body))
    } by {
        if written_from(w[k], header) {
            let i = choose|i: int| 0 <= i < header.len() && w[k] == entry_written(header[i]);
            lemma_entry(header[i], Section::HeaderRequired);
        } else {
            let i = choose|i: int| 0 <= i < body.len() && w[k] == entry_written(body[i]);
            lemma_entry(body[i], Section::Body);
        }
    }
    // A walked field's name and section tell its origin entry.
    assert forall|k: int| 0 <= k < w.len() implies exists|e: (Seq<char>, Seq<char>)|
        #[trigger] w[k] == entry_written(e) && fix44_field_name(w[k].0 as u32) == Some(e.0) && ((
        section_of(w[k].0 as u32) == Section::HeaderRequired && exists|i: int|
            0 <= i < header.len() && header[i] == e) || (section_of(w[k].0 as u32) == Section::Body
            && exists|i: int| 0 <= i < body.len() && body[i] == e)) by {
        if written_from(w[k], header) {
            let i = choose|i: int| 0 <= i < header.len() && w[k] == entry_written(header[i]);
            lemma_entry(header[i], Section::HeaderRequired);
            assert(header[i] == header[i]);
        } else {
            let i = choose|i: int| 0 <= i < body.len() && w[k] == entry_written(body[i]);
            lemma_entry(body[i], Section::Body);
            assert(body[i] == body[i]);
        }
    }
    assert forall|i: int, j: int|
        0 <= i < w.len() && 0 <= j < w.len() && fix44_field_name((#[trigger] w[i]).0 as u32)
            == fix44_field_name((#[trigger] w[j]).0 as u32) implies w[i].0 == w[j].0 && w[i].1 == w[j].1 by {
        let ei = choose|e: (Seq<char>, Seq<char>)|
            w[i] == entry_written(e) && fix44_field_name(w[i].0 as u32) == Some(e.0) && ((section_of(
                w[i].0 as u32,
            ) == Section::HeaderRequired && exists|a: int| 0 <= a < header.len() && header[a] == e)
                || (section_of(w[i].0 as u32) == Section::Body && exists|a: int|
                0 <= a < body.len() && body[a] == e));
        let ej = choose|e: (Seq<char>, Seq<char>)|
            w[j] == entry_written(e) && fix44_field_name(w[j].0 as u32) == Some(e.0) && ((section_of(
                w[j].0 as u32,
            ) == Section::HeaderRequired && exists|a: int| 0 <= a < header.len() && header[a] == e)
                || (section_of(w[j].0 as u32) == Section::Body && exists|a: int|
                0 <= a < body.len() && body[a] == e));
        assert(ei.0 == ej.0);
        assert(w[i].0 == w[j].0);
        if section_of(w[i].0 as u32) == Section::HeaderRequired {
            let a = choose|a: int| 0 <= a < header.len() && header[a] == ei;
            let b = choose|b: int| 0 <= b < header.len() && header[b] == ej;
            assert(a == b);
        } else {
            let a = choose|a: int| 0 <= a < body.len() && body[a] == ei;
            let b = choose|b: int| 0 <= b < body.len() && body[b] == ej;
            assert(a == b);
        }
    }
    assert forall|i: int, j: int|
        0 <= i < w.len() && 0 <= j < w.len() && (#[trigger] w[i]).0 == (#[trigger] w[j]).0 implies w[i].1
        == w[j].1 by {
        assert(fix44_field_name(w[i].0 as u32) == fix44_field_name(w[j].0 as u32));
    }
}

/// Decoding a message that the encoder wrote from its JSON form gives the
/// JSON sections back: for a header and a body of text fields (each section
/// without repeated names, every name listed in the FIX 4.4 dictionary for a
/// field that carries no length or group count, the header's names those of
/// required header fields and among them `BeginString` and `MsgType`, the
/// body's names those of body fields), where no value holds `|`,
/// `BeginString` holds no `=`, and the body is under 256 bytes: the message
/// can be written, and the decoded JSON has exactly that `Header` and that
/// `Body` (as objects) and a `Trailer` with only the checksum that the
/// encoder computed. `flow_decoder`, which ensures `decoded_plainly` and never
/// fails on JSON, then returns that text.
pub proof fn law_json_read_back(header: Seq<(Seq<char>, Seq<char>)>, body: Seq<(Seq<char>, Seq<char>)>)
    requires
        distinct_names(header),
        distinct_names(body),
        text_map(header).contains_key("BeginString"@),
        text_map(header).contains_key("MsgType"@),
        fix44_field_tag("BeginString"@) == Some(8u16),
        fix44_field_tag("MsgType"@) == Some(35u16),
        fields_fit(header, Section::HeaderRequired),
        fields_fit(body, Section::Body),
        bytes_without(text_map(header)["BeginString"@], EQUALS),
        message_body(encode_utf8(text_map(header)["MsgType"@]), json_written(header, body)).len() < 256,
    ensures
        view_encodable(json_view(header, body)),
        ({
            let d = view_encoded_bytes(json_view(header, body));
            let bs = encode_utf8(text_map(header)["BeginString"@]);
            let mt = encode_utf8(text_map(header)["MsgType"@]);
            decoded_plainly(d) ==> flow_decoder_outcome(d) == sections_outcome(
                checksum_digits(checksum_of(message_framed(bs, mt, json_written(header, body)))),
                text_map(header),
                text_map(body),
                Map::empty(),
            )
        }),
{
    let v = json_view(header, body);
    let bst = text_map(header)["BeginString"@];
    let mtt = text_map(header)["MsgType"@];
    let bs = encode_utf8(bst);
    let mt = encode_utf8(mtt);
    let fs = json_written(header, body);
    let w = json_walk(header, body);
    lemma_text_map(header);
    lemma_text_map(body);
    lemma_section_value_text(header, "BeginString"@);
    lemma_section_value_text(header, "MsgType"@);
    lemma_origins(header, body);
    lemma_walk_facts(header, body);
    // The message can be written.
    assert forall|i: int| 0 <= i < v.header.len() implies (#[trigger] fix44_field_tag(v.header[i].0)) is Some by {
        assert(listed_name(header[i].0));
    }
    assert forall|i: int| 0 <= i < v.body.len() implies (#[trigger] fix44_field_tag(v.body[i].0)) is Some by {
        assert(listed_name(body[i].0));
    }
    assert(view_group_names_known(v.body));
    assert(view_encodable(v));
    // What it writes.
    assert(view_trailer_fields(v.trailer) =~= Seq::<(u16, Seq<char>)>::empty());
    assert(view_header_fields(v.header) + view_trailer_fields(v.trailer) + view_body_fields(v.body)
        =~= view_header_fields(v.header) + view_body_fields(v.body));
    let d = view_encoded_bytes(v);
    assert(d == crate::tagvalue::tagvalue_message(bs, mt, fs));
    // The decoder walks `w`, each field with its own value.
    let ib = choose|i: int| 0 <= i < header.len() && header[i].0 == "BeginString"@;
    let im = choose|i: int| 0 <= i < header.len() && header[i].0 == "MsgType"@;
    assert(text_map(header)[header[ib].0] == header[ib].1);
    assert(text_map(header)[header[im].0] == header[im].1);
    assert(listed_name(header[ib].0) && bytes_without(header[ib].1, SEPARATOR));
    assert(listed_name(header[im].0) && bytes_without(header[im].1, SEPARATOR));
    assert(w =~= seq![(8u16, bs), (35u16, mt)] + fs);
    assert forall|i: int| 0 <= i < fs.len() implies (#[trigger] fs[i]).0 != 0 && fix44_field_class(fs[i].0)
        == FieldClass::Other by {
        assert(fs[i] == w[i + 2]);
    }
    assert forall|i: int, k: int| 0 <= i < fs.len() && 0 <= k < fs[i].1.len() implies #[trigger] fs[i].1[k]
        != SEPARATOR by {
        assert(fs[i] == w[i + 2]);
        assert(w[i + 2].1[k] != SEPARATOR);
    }
    assert forall|j: int| 0 <= j < bs.len() implies #[trigger] bs[j] != EQUALS && bs[j] != SEPARATOR by {
        assert(bs[j] == encode_utf8(bst)[j]);
    }
    assert forall|k: int| 0 <= k < mt.len() implies #[trigger] mt[k] != SEPARATOR by {
        assert(mt[k] == encode_utf8(mtt)[k]);
    }
    law_decoder_reads_back_values(bs, mt, fs);
    assert(walked(w) == w.map_values(|f: (u16, Seq<u8>)| (f.0, f.1, Some(f.1))));
    // The walk collects the sections.
    lemma_walk(w);
    lemma_section_map(w, Section::HeaderRequired);
    lemma_section_map(w, Section::Body);
    lemma_section_map(w, Section::TrailerOptional);
    assert(section_map(w, Section::HeaderRequired) =~= text_map(header)) by {
        assert forall|n: Seq<char>| #[trigger] section_map(w, Section::HeaderRequired).contains_key(n)
            <==> text_map(header).contains_key(n) by {
            if section_map(w, Section::HeaderRequired).contains_key(n) {
                let k = choose|k: int|
                    0 <= k < w.len() && section_of(w[k].0 as u32) == Section::HeaderRequired
                        && fix44_field_name(w[k].0 as u32).unwrap() == n;
                assert(written_from(w[k], header));
                let i = choose|i: int| 0 <= i < header.len() && w[k] == entry_written(header[i]);
                lemma_entry(header[i], Section::HeaderRequired);
                assert(header[i].0 == n);
            }
            if text_map(header).contains_key(n) {
                let i = choose|i: int| 0 <= i < header.len() && header[i].0 == n;
                lemma_entry(header[i], Section::HeaderRequired);
                if tag_of(header[i].0) != 8 {
                    let k = choose|k: int| 0 <= k < w.len() && w[k] == entry_written(header[i]);
                    assert(section_of(w[k].0 as u32) == Section::HeaderRequired);
                } else {
                    lemma_entry(header[ib], Section::HeaderRequired);
                    assert(header[i].0 == header[ib].0);
                    assert(w[0].0 == 8);
                    assert(section_of(w[0].0 as u32) == Section::HeaderRequired);
                }
            }
        }
        assert forall|n: Seq<char>| #[trigger] section_map(w, Section::HeaderRequired).contains_key(n)
            implies section_map(w, Section::HeaderRequired)[n] == text_map(header)[n] by {
            let k = choose|k: int|
                0 <= k < w.len() && section_of(w[k].0 as u32) == Section::HeaderRequired && fix44_field_name(
                    w[k].0 as u32,
                ).unwrap() == n;
            assert(written_from(w[k], header));
            let i = choose|i: int| 0 <= i < header.len() && w[k] == entry_written(header[i]);
            lemma_entry(header[i], Section::HeaderRequired);
        }
    }
    assert(section_map(w, Section::Body) =~= text_map(body)) by {
        assert forall|n: Seq<char>| #[trigger] section_map(w, Section::Body).contains_key(n)
            <==> text_map(body).contains_key(n) by {
            if section_map(w, Section::Body).contains_key(n) {
                let k = choose|k: int|
                    0 <= k < w.len() && section_of(w[k].0 as u32) == Section::Body && fix44_field_name(
                        w[k].0 as u32,
                    ).unwrap() == n;
                assert(written_from(w[k], body));
                let i = choose|i: int| 0 <= i < body.len() && w[k] == entry_written(body[i]);
                lemma_entry(body[i], Section::Body);
                assert(body[i].0 == n);
            }
            if text_map(body).contains_key(n) {
                let i = choose|i: int| 0 <= i < body.len() && body[i].0 == n;
                lemma_entry(body[i], Section::Body);
                let k = choose|k: int| 0 <= k < w.len() && w[k] == entry_written(body[i]);
                assert(section_of(w[k].0 as u32) == Section::Body);
            }
        }
        assert forall|n: Seq<char>| #[trigger] section_map(w, Section::Body).contains_key(n) implies section_map(
            w,
            Section::Body,
        )[n] == text_map(body)[n] by {
            let k = choose|k: int|
                0 <= k < w.len() && section_of(w[k].0 as u32) == Section::Body && fix44_field_name(
                    w[k].0 as u32,
                ).unwrap() == n;
            assert(written_from(w[k], body));
            let i = choose|i: int| 0 <= i < body.len() && w[k] == entry_written(body[i]);
            lemma_entry(body[i], Section::Body);
        }
    }
    assert(section_map(w, Section::TrailerOptional) =~= Map::<Seq<char>, Seq<char>>::empty()) by {
        assert forall|n: Seq<char>| !#[trigger] section_map(w, Section::TrailerOptional).contains_key(n) by {
            if section_map(w, Section::TrailerOptional).contains_key(n) {
                let k = choose|k: int|
                    0 <= k < w.len() && section_of(w[k].0 as u32) == Section::TrailerOptional
                        && fix44_field_name(w[k].0 as u32).unwrap() == n;
                assert(section_of(w[k].0 as u32) == Section::HeaderRequired || section_of(w[k].0 as u32)
                    == Section::Body);
            }
        }
    }
}

} // verus!
