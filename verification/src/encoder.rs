//! From the JSON form of a FIX 4.4 message to the `tag=value|` syntax.
use vstd::prelude::*;
use vstd::utf8::*;
use crate::dictionary::{Fix44Dictionary, fix44_field_tag};
use crate::tagvalue::{
    encode_tagvalue, fields_as_bytes, lemma_message_valid_utf8, tags_nonzero, tagvalue_message,
};
use crate::text::utf8_decode;

verus! {

/// The value of a field inside an entry of a repeating group. The contents
/// of a group nested in a group are not read, so they are not kept.
#[derive(Debug)]
pub enum EntryValue {
    Field(String),
    Group,
}

/// The value of a field of the JSON form: a string, or a repeating group,
/// that is a list of entries, each a list of named values.
#[derive(Debug)]
pub enum JsonField {
    Field(String),
    Group(Vec<Vec<(String, EntryValue)>>),
}

/// The JSON form of a FIX message: the named fields of its header, body and
/// trailer, each section in the order in which it is walked.
#[derive(Debug)]
pub struct FixJsonMessage {
    pub header: Vec<(String, JsonField)>,
    pub body: Vec<(String, JsonField)>,
    pub trailer: Vec<(String, JsonField)>,
}

/// The value of a field as text, or `None` for a repeating group.
pub open spec fn json_field_view(f: JsonField) -> Option<Seq<char>> {
    match f {
        JsonField::Field(s) => Some(s@),
        JsonField::Group(_) => None,
    }
}

/// A section as the names and text values of its fields, in order.
pub open spec fn section_view(sec: Seq<(String, JsonField)>) -> Seq<(Seq<char>, Option<Seq<char>>)> {
    sec.map_values(|e: (String, JsonField)| (e.0@, json_field_view(e.1)))
}

/// The string value of the field named `name` in a section (the last such
/// field, as a JSON object keeps the last value of a key), if it is a string.
pub open spec fn section_value(sec: Seq<(String, JsonField)>, name: Seq<char>) -> Option<Seq<char>>
    decreases sec.len(),
{
    if sec.len() == 0 {
        None
    } else if sec.last().0@ == name {
        match sec.last().1 {
            JsonField::Field(s) => Some(s@),
            JsonField::Group(_) => None,
        }
    } else {
        section_value(sec.drop_last(), name)
    }
}

/// The tag of a name that the dictionary knows.
pub open spec fn tag_of(name: Seq<char>) -> u16 {
    fix44_field_tag(name).unwrap()
}

/// Whether the dictionary knows every name of a section.
pub open spec fn names_known(sec: Seq<(String, JsonField)>) -> bool {
    forall|i: int| 0 <= i < sec.len() ==> (#[trigger] fix44_field_tag(sec[i].0@)) is Some
}

/// Whether the dictionary knows the name of every string value of a group
/// entry.
pub open spec fn entry_names_known(entry: Seq<(String, EntryValue)>) -> bool {
    forall|k: int|
        0 <= k < entry.len() && (#[trigger] entry[k]).1 is Field ==> fix44_field_tag(
            entry[k].0@,
        ) is Some
}

/// Whether the dictionary knows the name of every string value inside the
/// groups of a section.
pub open spec fn group_names_known(sec: Seq<(String, JsonField)>) -> bool {
    forall|i: int|
        0 <= i < sec.len() ==> match (#[trigger] sec[i]).1 {
            JsonField::Group(g) => forall|j: int|
                0 <= j < g@.len() ==> entry_names_known(#[trigger] g@[j]@),
            JsonField::Field(_) => true,
        }
}

/// Whether a message can be written: its header has the string fields
/// `BeginString` and `MsgType`, and every name that is looked up is known.
pub open spec fn encodable(msg: FixJsonMessage) -> bool {
    &&& section_value(msg.header@, "BeginString"@) is Some
    &&& section_value(msg.header@, "MsgType"@) is Some
    &&& names_known(msg.header@)
    &&& names_known(msg.trailer@)
    &&& names_known(msg.body@)
    &&& group_names_known(msg.body@)
}

/// The header fields that are written: every string field but
/// `BeginString <8>` (it opens the message), in order.
pub open spec fn header_fields(sec: Seq<(String, JsonField)>) -> Seq<(u16, Seq<char>)>
    decreases sec.len(),
{
    if sec.len() == 0 {
        Seq::empty()
    } else {
        header_fields(sec.drop_last()) + match sec.last().1 {
            JsonField::Field(s) => if tag_of(sec.last().0@) != 8 {
                seq![(tag_of(sec.last().0@), s@)]
            } else {
                Seq::empty()
            },
            JsonField::Group(_) => Seq::empty(),
        }
    }
}

/// The trailer fields that are written: every string field, in order.
pub open spec fn trailer_fields(sec: Seq<(String, JsonField)>) -> Seq<(u16, Seq<char>)>
    decreases sec.len(),
{
    if sec.len() == 0 {
        Seq::empty()
    } else {
        trailer_fields(sec.drop_last()) + match sec.last().1 {
            JsonField::Field(s) => seq![(tag_of(sec.last().0@), s@)],
            JsonField::Group(_) => Seq::empty(),
        }
    }
}

/// The string fields of one group entry, in order.
pub open spec fn entry_fields(entry: Seq<(String, EntryValue)>) -> Seq<(u16, Seq<char>)>
    decreases entry.len(),
{
    if entry.len() == 0 {
        Seq::empty()
    } else {
        entry_fields(entry.drop_last()) + match entry.last().1 {
            EntryValue::Field(s) => seq![(tag_of(entry.last().0@), s@)],
            EntryValue::Group => Seq::empty(),
        }
    }
}

/// The string fields of all entries of a group, entry after entry.
pub open spec fn group_fields(entries: Seq<Vec<(String, EntryValue)>>) -> Seq<(u16, Seq<char>)>
    decreases entries.len(),
{
    if entries.len() == 0 {
        Seq::empty()
    } else {
        group_fields(entries.drop_last()) + entry_fields(entries.last()@)
    }
}

/// The body fields that are written: every string field, and the string
/// fields inside the entries of every group (the group's count is not
/// written), in order.
pub open spec fn body_fields(sec: Seq<(String, JsonField)>) -> Seq<(u16, Seq<char>)>
    decreases sec.len(),
{
    if sec.len() == 0 {
        Seq::empty()
    } else {
        body_fields(sec.drop_last()) + match sec.last().1 {
            JsonField::Field(s) => seq![(tag_of(sec.last().0@), s@)],
            JsonField::Group(g) => group_fields(g@),
        }
    }
}

/// The fields with their values as UTF-8 bytes.
pub open spec fn fields_utf8(fs: Seq<(u16, Seq<char>)>) -> Seq<(u16, Seq<u8>)> {
    fs.map_values(|f: (u16, Seq<char>)| (f.0, encode_utf8(f.1)))
}

/// The bytes of the message written from `msg`: header fields, then trailer
/// fields, then body fields, after `BeginString`, `BodyLength` and `MsgType`.
pub open spec fn encoded_bytes(msg: FixJsonMessage) -> Seq<u8> {
    tagvalue_message(
        encode_utf8(section_value(msg.header@, "BeginString"@).unwrap()),
        encode_utf8(section_value(msg.header@, "MsgType"@).unwrap()),
        fields_utf8(header_fields(msg.header@) + trailer_fields(msg.trailer@) + body_fields(msg.body@)),
    )
}

/// The view of a list of fields to write.
pub open spec fn out_view(v: Seq<(u16, String)>) -> Seq<(u16, Seq<char>)> {
    v.map_values(|f: (u16, String)| (f.0, f.1@))
}


/// The value of a field of the JSON form as plain values: a text, or a
/// repeating group as its entries, each a list of names with a text value or
/// `None` for a nested group.
pub enum FieldView {
    Text(Seq<char>),
    Group(Seq<Seq<(Seq<char>, Option<Seq<char>>)>>),
}

/// The JSON form of a message as plain values: its three sections, each a
/// list of named fields in order.
pub struct MessageView {
    pub header: Seq<(Seq<char>, FieldView)>,
    pub body: Seq<(Seq<char>, FieldView)>,
    pub trailer: Seq<(Seq<char>, FieldView)>,
}

/// An entry of a group as plain values.
pub open spec fn entry_view(entry: Seq<(String, EntryValue)>) -> Seq<(Seq<char>, Option<Seq<char>>)> {
    entry.map_values(
        |e: (String, EntryValue)|
            (
                e.0@,
                match e.1 {
                    EntryValue::Field(s) => Some(s@),
                    EntryValue::Group => None,
                },
            ),
    )
}

/// The entries of a group as plain values.
pub open spec fn group_view(entries: Seq<Vec<(String, EntryValue)>>) -> Seq<
    Seq<(Seq<char>, Option<Seq<char>>)>,
> {
    entries.map_values(|e: Vec<(String, EntryValue)>| entry_view(e@))
}

/// A field as plain values.
pub open spec fn field_value_view(f: JsonField) -> FieldView {
    match f {
        JsonField::Field(s) => FieldView::Text(s@),
        JsonField::Group(g) => FieldView::Group(group_view(g@)),
    }
}

/// A section as plain values.
pub open spec fn fields_view_of(sec: Seq<(String, JsonField)>) -> Seq<(Seq<char>, FieldView)> {
    sec.map_values(|e: (String, JsonField)| (e.0@, field_value_view(e.1)))
}

/// A message as plain values.
pub open spec fn message_view(m: FixJsonMessage) -> MessageView {
    MessageView {
        header: fields_view_of(m.header@),
        body: fields_view_of(m.body@),
        trailer: fields_view_of(m.trailer@),
    }
}

/// `section_value` over plain values.
pub open spec fn view_section_value(sec: Seq<(Seq<char>, FieldView)>, name: Seq<char>) -> Option<
    Seq<char>,
>
    decreases sec.len(),
{
    if sec.len() == 0 {
        None
    } else if sec.last().0 == name {
        match sec.last().1 {
            FieldView::Text(s) => Some(s),
            FieldView::Group(_) => None,
        }
    } else {
        view_section_value(sec.drop_last(), name)
    }
}

/// `names_known` over plain values.
pub open spec fn view_names_known(sec: Seq<(Seq<char>, FieldView)>) -> bool {
    forall|i: int| 0 <= i < sec.len() ==> (#[trigger] fix44_field_tag(sec[i].0)) is Some
}

/// `entry_names_known` over plain values.
pub open spec fn view_entry_names_known(entry: Seq<(Seq<char>, Option<Seq<char>>)>) -> bool {
    forall|k: int|
        0 <= k < entry.len() && (#[trigger] entry[k]).1 is Some ==> fix44_field_tag(entry[k].0) is Some
}

/// `group_names_known` over plain values.
pub open spec fn view_group_names_known(sec: Seq<(Seq<char>, FieldView)>) -> bool {
    forall|i: int|
        0 <= i < sec.len() ==> match (#[trigger] sec[i]).1 {
            FieldView::Group(g) => forall|j: int|
                0 <= j < g.len() ==> view_entry_names_known(#[trigger] g[j]),
            FieldView::Text(_) => true,
        }
}

/// `encodable` over plain values.
pub open spec fn view_encodable(m: MessageView) -> bool {
    &&& view_section_value(m.header, "BeginString"@) is Some
    &&& view_section_value(m.header, "MsgType"@) is Some
    &&& view_names_known(m.header)
    &&& view_names_known(m.trailer)
    &&& view_names_known(m.body)
    &&& view_group_names_known(m.body)
}

/// `header_fields` over plain values.
pub open spec fn view_header_fields(sec: Seq<(Seq<char>, FieldView)>) -> Seq<(u16, Seq<char>)>
    decreases sec.len(),
{
    if sec.len() == 0 {
        Seq::empty()
    } else {
        view_header_fields(sec.drop_last()) + match sec.last().1 {
            FieldView::Text(s) => if tag_of(sec.last().0) != 8 {
                seq![(tag_of(sec.last().0), s)]
            } else {
                Seq::empty()
            },
            FieldView::Group(_) => Seq::empty(),
        }
    }
}

/// `trailer_fields` over plain values.
pub open spec fn view_trailer_fields(sec: Seq<(Seq<char>, FieldView)>) -> Seq<(u16, Seq<char>)>
    decreases sec.len(),
{
    if sec.len() == 0 {
        Seq::empty()
    } else {
        view_trailer_fields(sec.drop_last()) + match sec.last().1 {
            FieldView::Text(s) => seq![(tag_of(sec.last().0), s)],
            FieldView::Group(_) => Seq::empty(),
        }
    }
}

/// `entry_fields` over plain values.
pub open spec fn view_entry_fields(entry: Seq<(Seq<char>, Option<Seq<char>>)>) -> Seq<(u16, Seq<char>)>
    decreases entry.len(),
{
    if entry.len() == 0 {
        Seq::empty()
    } else {
        view_entry_fields(entry.drop_last()) + match entry.last().1 {
            Some(s) => seq![(tag_of(entry.last().0), s)],
            None => Seq::empty(),
        }
    }
}

/// `group_fields` over plain values.
pub open spec fn view_group_fields(entries: Seq<Seq<(Seq<char>, Option<Seq<char>>)>>) -> Seq<
    (u16, Seq<char>),
>
    decreases entries.len(),
{
    if entries.len() == 0 {
        Seq::empty()
    } else {
        view_group_fields(entries.drop_last()) + view_entry_fields(entries.last())
    }
}

/// `body_fields` over plain values.
pub open spec fn view_body_fields(sec: Seq<(Seq<char>, FieldView)>) -> Seq<(u16, Seq<char>)>
    decreases sec.len(),
{
    if sec.len() == 0 {
        Seq::empty()
    } else {
        view_body_fields(sec.drop_last()) + match sec.last().1 {
            FieldView::Text(s) => seq![(tag_of(sec.last().0), s)],
            FieldView::Group(g) => view_group_fields(g),
        }
    }
}

/// `encoded_bytes` over plain values.
pub open spec fn view_encoded_bytes(m: MessageView) -> Seq<u8> {
    tagvalue_message(
        encode_utf8(view_section_value(m.header, "BeginString"@).unwrap()),
        encode_utf8(view_section_value(m.header, "MsgType"@).unwrap()),
        fields_utf8(view_header_fields(m.header) + view_trailer_fields(m.trailer) + view_body_fields(m.body)),
    )
}

proof fn lemma_section_value_view(sec: Seq<(String, JsonField)>, name: Seq<char>)
    ensures
        section_value(sec, name) == view_section_value(fields_view_of(sec), name),
    decreases sec.len(),
{
    if sec.len() > 0 {
        assert(fields_view_of(sec).drop_last() =~= fields_view_of(sec.drop_last()));
        lemma_section_value_view(sec.drop_last(), name);
    }
}

proof fn lemma_header_fields_view(sec: Seq<(String, JsonField)>)
    ensures
        header_fields(sec) == view_header_fields(fields_view_of(sec)),
    decreases sec.len(),
{
    if sec.len() > 0 {
        assert(fields_view_of(sec).drop_last() =~= fields_view_of(sec.drop_last()));
        lemma_header_fields_view(sec.drop_last());
    }
}

proof fn lemma_trailer_fields_view(sec: Seq<(String, JsonField)>)
    ensures
        trailer_fields(sec) == view_trailer_fields(fields_view_of(sec)),
    decreases sec.len(),
{
    if sec.len() > 0 {
        assert(fields_view_of(sec).drop_last() =~= fields_view_of(sec.drop_last()));
        lemma_trailer_fields_view(sec.drop_last());
    }
}

proof fn lemma_entry_fields_view(entry: Seq<(String, EntryValue)>)
    ensures
        entry_fields(entry) == view_entry_fields(entry_view(entry)),
    decreases entry.len(),
{
    if entry.len() > 0 {
        assert(entry_view(entry).drop_last() =~= entry_view(entry.drop_last()));
        lemma_entry_fields_view(entry.drop_last());
    }
}

proof fn lemma_group_fields_view(entries: Seq<Vec<(String, EntryValue)>>)
    ensures
        group_fields(entries) == view_group_fields(group_view(entries)),
    decreases entries.len(),
{
    if entries.len() > 0 {
        assert(group_view(entries).drop_last() =~= group_view(entries.drop_last()));
        lemma_group_fields_view(entries.drop_last());
        lemma_entry_fields_view(entries.last()@);
    }
}

proof fn lemma_body_fields_view(sec: Seq<(String, JsonField)>)
    ensures
        body_fields(sec) == view_body_fields(fields_view_of(sec)),
    decreases sec.len(),
{
    if sec.len() > 0 {
        assert(fields_view_of(sec).drop_last() =~= fields_view_of(sec.drop_last()));
        lemma_body_fields_view(sec.drop_last());
        match sec.last().1 {
            JsonField::Group(g) => lemma_group_fields_view(g@),
            JsonField::Field(_) => {},
        }
    }
}

/// Whether a message can be written, and what is written, depend on its
/// plain values alone.
pub proof fn lemma_encoding_by_view(m: FixJsonMessage)
    ensures
        encodable(m) == view_encodable(message_view(m)),
        encoded_bytes(m) == view_encoded_bytes(message_view(m)),
{
    lemma_section_value_view(m.header@, "BeginString"@);
    lemma_section_value_view(m.header@, "MsgType"@);
    lemma_header_fields_view(m.header@);
    lemma_trailer_fields_view(m.trailer@);
    lemma_body_fields_view(m.body@);
    let hv = fields_view_of(m.header@);
    let bv = fields_view_of(m.body@);
    let tv = fields_view_of(m.trailer@);
    assert(names_known(m.header@) == view_names_known(hv)) by {
        if names_known(m.header@) {
            assert forall|i: int| 0 <= i < hv.len() implies (#[trigger] fix44_field_tag(hv[i].0)) is Some by {
                assert(fix44_field_tag(m.header@[i].0@) is Some);
            }
        }
        if view_names_known(hv) {
            assert forall|i: int| 0 <= i < m.header@.len() implies (#[trigger] fix44_field_tag(m.header@[i].0@)) is Some by {
                assert(fix44_field_tag(hv[i].0) is Some);
            }
        }
    }
    assert(names_known(m.trailer@) == view_names_known(tv)) by {
        if names_known(m.trailer@) {
            assert forall|i: int| 0 <= i < tv.len() implies (#[trigger] fix44_field_tag(tv[i].0)) is Some by {
                assert(fix44_field_tag(m.trailer@[i].0@) is Some);
            }
        }
        if view_names_known(tv) {
            assert forall|i: int| 0 <= i < m.trailer@.len() implies (#[trigger] fix44_field_tag(m.trailer@[i].0@)) is Some by {
                assert(fix44_field_tag(tv[i].0) is Some);
            }
        }
    }
    assert(names_known(m.body@) == view_names_known(bv)) by {
        if names_known(m.body@) {
            assert forall|i: int| 0 <= i < bv.len() implies (#[trigger] fix44_field_tag(bv[i].0)) is Some by {
                assert(fix44_field_tag(m.body@[i].0@) is Some);
            }
        }
        if view_names_known(bv) {
            assert forall|i: int| 0 <= i < m.body@.len() implies (#[trigger] fix44_field_tag(m.body@[i].0@)) is Some by {
                assert(fix44_field_tag(bv[i].0) is Some);
            }
        }
    }
    assert(group_names_known(m.body@) == view_group_names_known(bv)) by {
        assert forall|e: Seq<(String, EntryValue)>| entry_names_known(e) == view_entry_names_known(#[trigger] entry_view(e)) by {
            let ev = entry_view(e);
            if entry_names_known(e) {
                assert forall|k: int| 0 <= k < ev.len() && (#[trigger] ev[k]).1 is Some implies fix44_field_tag(ev[k].0) is Some by {
                    assert(e[k].1 is Field);
                }
            }
            if view_entry_names_known(ev) {
                assert forall|k: int| 0 <= k < e.len() && (#[trigger] e[k]).1 is Field implies fix44_field_tag(e[k].0@) is Some by {
                    assert(ev[k].1 is Some);
                }
            }
        }
        if group_names_known(m.body@) {
            assert forall|i: int| 0 <= i < bv.len() implies match (#[trigger] bv[i]).1 {
                FieldView::Group(g) => forall|j: int| 0 <= j < g.len() ==> view_entry_names_known(#[trigger] g[j]),
                FieldView::Text(_) => true,
            } by {
                assert(m.body@[i] == m.body@[i]);
                match m.body@[i].1 {
                    JsonField::Group(g) => {
                        assert forall|j: int| 0 <= j < g@.len() implies view_entry_names_known(#[trigger] group_view(g@)[j]) by {
                            assert(entry_names_known(g@[j]@));
                            assert(group_view(g@)[j] == entry_view(g@[j]@));
                        }
                    },
                    JsonField::Field(_) => {},
                }
            }
        }
        if view_group_names_known(bv) {
            assert forall|i: int| 0 <= i < m.body@.len() implies match (#[trigger] m.body@[i]).1 {
                JsonField::Group(g) => forall|j: int| 0 <= j < g@.len() ==> entry_names_known(#[trigger] g@[j]@),
                JsonField::Field(_) => true,
            } by {
                assert(bv[i] == bv[i]);
                match m.body@[i].1 {
                    JsonField::Group(g) => {
                        assert forall|j: int| 0 <= j < g@.len() implies entry_names_known(#[trigger] g@[j]@) by {
                            let gg = group_view(g@);
                            assert(bv[i].1 == FieldView::Group(gg));
                            assert(view_group_names_known(bv));
                            assert(0 <= i < bv.len());
                            assert(match bv[i].1 {
                                FieldView::Group(g2) => forall|j2: int|
                                    0 <= j2 < g2.len() ==> view_entry_names_known(#[trigger] g2[j2]),
                                FieldView::Text(_) => true,
                            });
                            if let FieldView::Group(g2) = bv[i].1 {
                                assert(g2 == gg);
                                assert(view_entry_names_known(g2[j]));
                            }
                            assert(gg[j] == entry_view(g@[j]@));
                            assert(view_entry_names_known(gg[j]));
                        }
                    },
                    JsonField::Field(_) => {},
                }
            }
        }
    }
}

/// The value of the field named `name` in a section, as `section_value`
/// states it.
fn section_value_exec(sec: &Vec<(String, JsonField)>, name: &String) -> (r: Option<String>)
    ensures
        match r {
            Some(v) => section_value(sec@, name@) == Some(v@),
            None => section_value(sec@, name@) is None,
        },
{
    let mut k = sec.len();
    proof {
        assert(sec@.take(k as int) =~= sec@);
    }
    while k > 0
        invariant
            k <= sec@.len(),
            section_value(sec@, name@) == section_value(sec@.take(k as int), name@),
        decreases k,
    {
        proof {
            assert(sec@.take(k as int).drop_last() =~= sec@.take(k - 1));
        }
        if sec[k - 1].0 == *name {
            match &sec[k - 1].1 {
                JsonField::Field(v) => return Some(v.clone()),
                JsonField::Group(_) => return None,
            }
        }
        k = k - 1;
    }
    None
}

/// Appends one field to write.
fn push_out(out: &mut Vec<(u16, String)>, tag: u16, value: &String)
    requires
        tags_nonzero(old(out)@),
        tag != 0,
    ensures
        tags_nonzero(final(out)@),
        out_view(final(out)@) == out_view(old(out)@).push((tag, value@)),
{
    out.push((tag, value.clone()));
    proof {
        assert(out_view(final(out)@) =~= out_view(old(out)@).push((tag, value@)));
        assert forall|i: int| 0 <= i < out@.len() implies (#[trigger] out@[i]).0 != 0 by {
            if i < old(out)@.len() {
                assert(out@[i] == old(out)@[i]);
            }
        }
    }
}

/// Appends the header fields to write, or returns `false` where a name is
/// unknown.
fn push_header_fields(dict: &Fix44Dictionary, sec: &Vec<(String, JsonField)>, out: &mut Vec<(u16, String)>) -> (ok: bool)
    requires
        tags_nonzero(old(out)@),
    ensures
        tags_nonzero(final(out)@),
        ok == names_known(sec@),
        ok ==> out_view(final(out)@) == out_view(old(out)@) + header_fields(sec@),
{
    let mut i: usize = 0;
    proof {
        assert(out_view(out@) =~= out_view(old(out)@) + header_fields(sec@.take(0)));
    }
    while i < sec.len()
        invariant
            tags_nonzero(out@),
            i <= sec@.len(),
            names_known(sec@.take(i as int)),
            out_view(out@) == out_view(old(out)@) + header_fields(sec@.take(i as int)),
        decreases sec@.len() - i,
    {
        proof {
            assert(sec@.take(i + 1).drop_last() =~= sec@.take(i as int));
        }
        let tag = match Fix44Dictionary::tag_of_name(dict, sec[i].0.as_str()) {
            Some(t) => t,
            None => {
                proof {
                    assert(fix44_field_tag(sec@[i as int].0@) is None);
                }
                return false;
            },
        };
        match &sec[i].1 {
            JsonField::Field(v) => {
                if tag != 8 {
                    push_out(out, tag, v);
                }
            },
            JsonField::Group(_) => {},
        }
        proof {
            assert(out_view(out@) =~= out_view(old(out)@) + header_fields(sec@.take(i + 1)));
            assert forall|k: int| 0 <= k < i + 1 implies (#[trigger] fix44_field_tag(
                sec@.take(i + 1)[k].0@,
            )) is Some by {
                if k < i {
                    assert(sec@.take(i + 1)[k] == sec@.take(i as int)[k]);
                }
            }
        }
        i = i + 1;
    }
    proof {
        assert(sec@.take(sec@.len() as int) =~= sec@);
    }
    true
}

/// Appends the trailer fields to write, or returns `false` where a name is
/// unknown.
fn push_trailer_fields(dict: &Fix44Dictionary, sec: &Vec<(String, JsonField)>, out: &mut Vec<(u16, String)>) -> (ok: bool)
    requires
        tags_nonzero(old(out)@),
    ensures
        tags_nonzero(final(out)@),
        ok == names_known(sec@),
        ok ==> out_view(final(out)@) == out_view(old(out)@) + trailer_fields(sec@),
{
    let mut i: usize = 0;
    proof {
        assert(out_view(out@) =~= out_view(old(out)@) + trailer_fields(sec@.take(0)));
    }
    while i < sec.len()
        invariant
            tags_nonzero(out@),
            i <= sec@.len(),
            names_known(sec@.take(i as int)),
            out_view(out@) == out_view(old(out)@) + trailer_fields(sec@.take(i as int)),
        decreases sec@.len() - i,
    {
        proof {
            assert(sec@.take(i + 1).drop_last() =~= sec@.take(i as int));
        }
        let tag = match Fix44Dictionary::tag_of_name(dict, sec[i].0.as_str()) {
            Some(t) => t,
            None => {
                proof {
                    assert(fix44_field_tag(sec@[i as int].0@) is None);
                }
                return false;
            },
        };
        match &sec[i].1 {
            JsonField::Field(v) => {
                push_out(out, tag, v);
            },
            JsonField::Group(_) => {},
        }
        proof {
            assert(out_view(out@) =~= out_view(old(out)@) + trailer_fields(sec@.take(i + 1)));
            assert forall|k: int| 0 <= k < i + 1 implies (#[trigger] fix44_field_tag(
                sec@.take(i + 1)[k].0@,
            )) is Some by {
                if k < i {
                    assert(sec@.take(i + 1)[k] == sec@.take(i as int)[k]);
                }
            }
        }
        i = i + 1;
    }
    proof {
        assert(sec@.take(sec@.len() as int) =~= sec@);
    }
    true
}

/// Appends the string fields of one group entry, or returns `false` where a
/// name is unknown.
fn push_entry_fields(dict: &Fix44Dictionary, entry: &Vec<(String, EntryValue)>, out: &mut Vec<(u16, String)>) -> (ok: bool)
    requires
        tags_nonzero(old(out)@),
    ensures
        tags_nonzero(final(out)@),
        ok == entry_names_known(entry@),
        ok ==> out_view(final(out)@) == out_view(old(out)@) + entry_fields(entry@),
{
    let mut k: usize = 0;
    proof {
        assert(out_view(out@) =~= out_view(old(out)@) + entry_fields(entry@.take(0)));
    }
    while k < entry.len()
        invariant
            tags_nonzero(out@),
            k <= entry@.len(),
            entry_names_known(entry@.take(k as int)),
            out_view(out@) == out_view(old(out)@) + entry_fields(entry@.take(k as int)),
        decreases entry@.len() - k,
    {
        proof {
            assert(entry@.take(k + 1).drop_last() =~= entry@.take(k as int));
        }
        match &entry[k].1 {
            EntryValue::Field(v) => {
                let tag = match Fix44Dictionary::tag_of_name(dict, entry[k].0.as_str()) {
                    Some(t) => t,
                    None => {
                        proof {
                            assert(entry@[k as int].1 is Field);
                        }
                        return false;
                    },
                };
                push_out(out, tag, v);
            },
            EntryValue::Group => {},
        }
        proof {
            assert(out_view(out@) =~= out_view(old(out)@) + entry_fields(entry@.take(k + 1)));
            assert forall|j: int|
                0 <= j < k + 1 && (#[trigger] entry@.take(k + 1)[j]).1 is Field implies fix44_field_tag(
                entry@.take(k + 1)[j].0@,
            ) is Some by {
                if j < k {
                    assert(entry@.take(k + 1)[j] == entry@.take(k as int)[j]);
                }
            }
        }
        k = k + 1;
    }
    proof {
        assert(entry@.take(entry@.len() as int) =~= entry@);
    }
    true
}

/// Appends the string fields of all entries of a group, or returns `false`
/// where a name is unknown.
fn push_group_fields(dict: &Fix44Dictionary, entries: &Vec<Vec<(String, EntryValue)>>, out: &mut Vec<(u16, String)>) -> (ok: bool)
    requires
        tags_nonzero(old(out)@),
    ensures
        tags_nonzero(final(out)@),
        ok == (forall|j: int| 0 <= j < entries@.len() ==> entry_names_known(#[trigger] entries@[j]@)),
        ok ==> out_view(final(out)@) == out_view(old(out)@) + group_fields(entries@),
{
    let mut j: usize = 0;
    proof {
        assert(out_view(out@) =~= out_view(old(out)@) + group_fields(entries@.take(0)));
    }
    while j < entries.len()
        invariant
            tags_nonzero(out@),
            j <= entries@.len(),
            forall|i: int| 0 <= i < j ==> entry_names_known(#[trigger] entries@[i]@),
            out_view(out@) == out_view(old(out)@) + group_fields(entries@.take(j as int)),
        decreases entries@.len() - j,
    {
        proof {
            assert(entries@.take(j + 1).drop_last() =~= entries@.take(j as int));
        }
        if !push_entry_fields(dict, &entries[j], out) {
            return false;
        }
        proof {
            assert(out_view(out@) =~= out_view(old(out)@) + group_fields(entries@.take(j + 1)));
        }
        j = j + 1;
    }
    proof {
        assert(entries@.take(entries@.len() as int) =~= entries@);
    }
    true
}

/// Appends the body fields to write, or returns `false` where a name is
/// unknown.
fn push_body_fields(dict: &Fix44Dictionary, sec: &Vec<(String, JsonField)>, out: &mut Vec<(u16, String)>) -> (ok: bool)
    requires
        tags_nonzero(old(out)@),
    ensures
        tags_nonzero(final(out)@),
        ok == (names_known(sec@) && group_names_known(sec@)),
        ok ==> out_view(final(out)@) == out_view(old(out)@) + body_fields(sec@),
{
    let mut i: usize = 0;
    proof {
        assert(out_view(out@) =~= out_view(old(out)@) + body_fields(sec@.take(0)));
    }
    while i < sec.len()
        invariant
            tags_nonzero(out@),
            i <= sec@.len(),
            names_known(sec@.take(i as int)),
            group_names_known(sec@.take(i as int)),
            out_view(out@) == out_view(old(out)@) + body_fields(sec@.take(i as int)),
        decreases sec@.len() - i,
    {
        proof {
            assert(sec@.take(i + 1).drop_last() =~= sec@.take(i as int));
        }
        let tag = match Fix44Dictionary::tag_of_name(dict, sec[i].0.as_str()) {
            Some(t) => t,
            None => {
                proof {
                    assert(fix44_field_tag(sec@[i as int].0@) is None);
                }
                return false;
            },
        };
        match &sec[i].1 {
            JsonField::Field(v) => {
                push_out(out, tag, v);
            },
            JsonField::Group(g) => {
                if !push_group_fields(dict, g, out) {
                    proof {
                        assert(!group_names_known(sec@)) by {
                            assert(sec@[i as int].1 matches JsonField::Group(gg) && gg == *g);
                        }
                    }
                    return false;
                }
            },
        }
        proof {
            assert(out_view(out@) =~= out_view(old(out)@) + body_fields(sec@.take(i + 1)));
            assert forall|k: int| 0 <= k < i + 1 implies (#[trigger] fix44_field_tag(
                sec@.take(i + 1)[k].0@,
            )) is Some by {
                if k < i {
                    assert(sec@.take(i + 1)[k] == sec@.take(i as int)[k]);
                }
            }
            assert forall|k: int| 0 <= k < i + 1 implies match (#[trigger] sec@.take(i + 1)[k]).1 {
                JsonField::Group(g) => forall|j: int|
                    0 <= j < g@.len() ==> entry_names_known(#[trigger] g@[j]@),
                JsonField::Field(_) => true,
            } by {
                if k < i {
                    assert(sec@.take(i + 1)[k] == sec@.take(i as int)[k]);
                }
            }
        }
        i = i + 1;
    }
    proof {
        assert(sec@.take(sec@.len() as int) =~= sec@);
    }
    true
}


/// The fields to write, as bytes, are the fields listed, as bytes.
proof fn lemma_fields_bytes(v: Seq<(u16, String)>)
    ensures
        fields_as_bytes(v) == fields_utf8(out_view(v)),
{
    assert(fields_as_bytes(v) =~= fields_utf8(out_view(v)));
}

/// Writes `msg`, or returns `None` exactly where it cannot be written.
fn encode_checked(msg: &FixJsonMessage) -> (r: Option<String>)
    ensures
        r is Some <==> encodable(*msg),
        r matches Some(s) ==> s@ == decode_utf8(encoded_bytes(*msg)),
{
    let msg_type = match section_value_exec(&msg.header, &"MsgType".to_owned()) {
        Some(v) => v,
        None => return None,
    };
    let begin_string = match section_value_exec(&msg.header, &"BeginString".to_owned()) {
        Some(v) => v,
        None => return None,
    };
    let dict = Fix44Dictionary::new();
    let mut out: Vec<(u16, String)> = Vec::new();
    if !push_header_fields(&dict, &msg.header, &mut out) {
        return None;
    }
    if !push_trailer_fields(&dict, &msg.trailer, &mut out) {
        return None;
    }
    if !push_body_fields(&dict, &msg.body, &mut out) {
        return None;
    }
    let bytes = encode_tagvalue(begin_string.as_str(), msg_type.as_str(), &out);
    proof {
        assert(out_view(out@) =~= header_fields(msg.header@) + trailer_fields(msg.trailer@)
            + body_fields(msg.body@));
        lemma_fields_bytes(out@);
        encode_utf8_valid_utf8(begin_string@);
        encode_utf8_valid_utf8(msg_type@);
        let fs = fields_as_bytes(out@);
        assert forall|i: int| 0 <= i < fs.len() implies valid_utf8(#[trigger] fs[i].1) by {
            encode_utf8_valid_utf8(out@[i].1@);
        }
        lemma_message_valid_utf8(encode_utf8(begin_string@), encode_utf8(msg_type@), fs);
    }
    match utf8_decode(bytes.as_slice()) {
        Some(text) => Some(text),
        None => None,
    }
}

/// Writes the JSON form of a FIX 4.4 message in the `tag=value|` syntax:
/// `BeginString <8>` and `MsgType <35>` from the header, a `BodyLength <9>`
/// of six digits, then the string fields of the header (but `BeginString`),
/// of the trailer and of the body, each name replaced by its tag from the
/// FIX 4.4 dictionary, the string fields inside repeating groups of the body
/// included, and last `CheckSum <10>`.
///
/// The message must have `BeginString` and `MsgType`, and every name that is
/// looked up must be known (`try_flow_encoder` tells these inputs apart).
pub fn flow_encoder(json_fix_message: &FixJsonMessage) -> (r: String)
    requires
        encodable(*json_fix_message),
    ensures
        r@ == decode_utf8(encoded_bytes(*json_fix_message)),
{
    match encode_checked(json_fix_message) {
        Some(text) => text,
        None => String::new(),
    }
}

/// Writes `json_fix_message` as `flow_encoder` does where it can be written,
/// and returns `None` where it cannot.
pub fn try_flow_encoder(json_fix_message: &FixJsonMessage) -> (r: Option<String>)
    ensures
        r is Some <==> encodable(*json_fix_message),
        r matches Some(s) ==> s@ == decode_utf8(encoded_bytes(*json_fix_message)),
{
    match encode_checked(json_fix_message) {
        None => None,
        Some(_) => Some(flow_encoder(json_fix_message)),
    }
}

/// The text of a string member of a group entry (empty for a nested group).
pub open spec fn entry_value_text(v: EntryValue) -> Seq<char> {
    match v {
        EntryValue::Field(s) => s@,
        EntryValue::Group => Seq::empty(),
    }
}

/// The text of a string field of a section (empty for a group).
pub open spec fn field_text(f: JsonField) -> Seq<char> {
    match f {
        JsonField::Field(s) => s@,
        JsonField::Group(_) => Seq::empty(),
    }
}

/// Every string member of a group entry is written, in order, with its tag
/// and its text; nested groups are left out, and nothing else is written.
pub proof fn law_entry_fields_all_strings(entry: Seq<(String, EntryValue)>)
    ensures
        entry_fields(entry) == entry.filter(|e: (String, EntryValue)| e.1 is Field).map_values(
            |e: (String, EntryValue)| (tag_of(e.0@), entry_value_text(e.1)),
        ),
        entry_fields(entry).len() == entry.filter(|e: (String, EntryValue)| e.1 is Field).len(),
    decreases entry.len(),
{
    let pred = |e: (String, EntryValue)| e.1 is Field;
    let f = |e: (String, EntryValue)| (tag_of(e.0@), entry_value_text(e.1));
    if entry.len() == 0 {
        reveal(Seq::filter);
        assert(entry.filter(pred) =~= Seq::<(String, EntryValue)>::empty());
        assert(entry.filter(pred).map_values(f) =~= Seq::<(u16, Seq<char>)>::empty());
    } else {
        let r = entry.drop_last();
        law_entry_fields_all_strings(r);
        assert(entry =~= r.push(entry.last()));
        r.lemma_filter_push(entry.last(), pred);
        assert(entry_fields(entry) =~= entry.filter(pred).map_values(f));
    }
}

/// The same over plain values: every member with a text is written, in
/// order, with its tag and that text.
pub proof fn law_view_entry_fields_all_strings(entry: Seq<(Seq<char>, Option<Seq<char>>)>)
    ensures
        view_entry_fields(entry) == entry.filter(|e: (Seq<char>, Option<Seq<char>>)| e.1 is Some).map_values(
            |e: (Seq<char>, Option<Seq<char>>)| (tag_of(e.0), e.1.unwrap()),
        ),
    decreases entry.len(),
{
    let pred = |e: (Seq<char>, Option<Seq<char>>)| e.1 is Some;
    let f = |e: (Seq<char>, Option<Seq<char>>)| (tag_of(e.0), e.1.unwrap());
    if entry.len() == 0 {
        reveal(Seq::filter);
        assert(entry.filter(pred) =~= Seq::<(Seq<char>, Option<Seq<char>>)>::empty());
        assert(entry.filter(pred).map_values(f) =~= Seq::<(u16, Seq<char>)>::empty());
    } else {
        let r = entry.drop_last();
        law_view_entry_fields_all_strings(r);
        assert(entry =~= r.push(entry.last()));
        r.lemma_filter_push(entry.last(), pred);
        assert(view_entry_fields(entry) =~= entry.filter(pred).map_values(f));
    }
}

/// The header fields written are the string fields of the header but those
/// with the tag of `BeginString <8>`, in order, each with its tag and text.
pub proof fn law_header_fields_all_strings(sec: Seq<(String, JsonField)>)
    ensures
        header_fields(sec) == sec.filter(
            |e: (String, JsonField)| e.1 is Field && tag_of(e.0@) != 8,
        ).map_values(|e: (String, JsonField)| (tag_of(e.0@), field_text(e.1))),
    decreases sec.len(),
{
    let pred = |e: (String, JsonField)| e.1 is Field && tag_of(e.0@) != 8;
    let f = |e: (String, JsonField)| (tag_of(e.0@), field_text(e.1));
    if sec.len() == 0 {
        reveal(Seq::filter);
        assert(sec.filter(pred) =~= Seq::<(String, JsonField)>::empty());
        assert(sec.filter(pred).map_values(f) =~= Seq::<(u16, Seq<char>)>::empty());
    } else {
        let r = sec.drop_last();
        law_header_fields_all_strings(r);
        assert(sec =~= r.push(sec.last()));
        r.lemma_filter_push(sec.last(), pred);
        assert(header_fields(sec) =~= sec.filter(pred).map_values(f));
    }
}

/// The trailer fields written are all string fields of the trailer, in
/// order, each with its tag and text.
pub proof fn law_trailer_fields_all_strings(sec: Seq<(String, JsonField)>)
    ensures
        trailer_fields(sec) == sec.filter(|e: (String, JsonField)| e.1 is Field).map_values(
            |e: (String, JsonField)| (tag_of(e.0@), field_text(e.1)),
        ),
    decreases sec.len(),
{
    let pred = |e: (String, JsonField)| e.1 is Field;
    let f = |e: (String, JsonField)| (tag_of(e.0@), field_text(e.1));
    if sec.len() == 0 {
        reveal(Seq::filter);
        assert(sec.filter(pred) =~= Seq::<(String, JsonField)>::empty());
        assert(sec.filter(pred).map_values(f) =~= Seq::<(u16, Seq<char>)>::empty());
    } else {
        let r = sec.drop_last();
        law_trailer_fields_all_strings(r);
        assert(sec =~= r.push(sec.last()));
        r.lemma_filter_push(sec.last(), pred);
        assert(trailer_fields(sec) =~= sec.filter(pred).map_values(f));
    }
}

/// The fields written for the entries of a group: those of the first
/// entries, then those of the others.
pub proof fn law_group_fields_concat(a: Seq<Vec<(String, EntryValue)>>, b: Seq<Vec<(String, EntryValue)>>)
    ensures
        group_fields(a + b) == group_fields(a) + group_fields(b),
    decreases b.len(),
{
    if b.len() == 0 {
        assert(a + b =~= a);
        assert(group_fields(a) + group_fields(b) =~= group_fields(a));
    } else {
        assert((a + b).drop_last() =~= a + b.drop_last());
        law_group_fields_concat(a, b.drop_last());
        assert(group_fields(a + b) =~= group_fields(a) + group_fields(b));
    }
}

/// The fields written for one group entry are all its string members.
pub proof fn law_group_fields_single(e: Vec<(String, EntryValue)>)
    ensures
        group_fields(seq![e]) == entry_fields(e@),
{
    assert(seq![e].drop_last() =~= Seq::<Vec<(String, EntryValue)>>::empty());
    assert(seq![e].last() == e);
    assert(group_fields(Seq::<Vec<(String, EntryValue)>>::empty()) =~= Seq::<(u16, Seq<char>)>::empty());
    assert(Seq::<(u16, Seq<char>)>::empty() + entry_fields(e@) =~= entry_fields(e@));
}

/// The body fields written: those of the first fields, then those of the
/// others; a string field gives itself with its tag, and a group gives the
/// fields of its entries.
pub proof fn law_body_fields_concat(a: Seq<(String, JsonField)>, b: Seq<(String, JsonField)>)
    ensures
        body_fields(a + b) == body_fields(a) + body_fields(b),
    decreases b.len(),
{
    if b.len() == 0 {
        assert(a + b =~= a);
        assert(body_fields(a) + body_fields(b) =~= body_fields(a));
    } else {
        assert((a + b).drop_last() =~= a + b.drop_last());
        law_body_fields_concat(a, b.drop_last());
        assert(body_fields(a + b) =~= body_fields(a) + body_fields(b));
    }
}

/// What one body field gives: a string field itself with its tag, a group
/// the string members of its entries.
pub proof fn law_body_fields_single(e: (String, JsonField))
    ensures
        body_fields(seq![e]) == match e.1 {
            JsonField::Field(s) => seq![(tag_of(e.0@), s@)],
            JsonField::Group(g) => group_fields(g@),
        },
{
    assert(seq![e].drop_last() =~= Seq::<(String, JsonField)>::empty());
    assert(seq![e].last() == e);
    assert(body_fields(Seq::<(String, JsonField)>::empty()) =~= Seq::<(u16, Seq<char>)>::empty());
    match e.1 {
        JsonField::Field(s) => {
            assert(Seq::<(u16, Seq<char>)>::empty() + seq![(tag_of(e.0@), s@)] =~= seq![(tag_of(e.0@), s@)]);
        },
        JsonField::Group(g) => {
            assert(Seq::<(u16, Seq<char>)>::empty() + group_fields(g@) =~= group_fields(g@));
        },
    }
}

} // verus!
