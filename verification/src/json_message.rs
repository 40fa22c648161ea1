//! The JSON text of a FIX message, `{"Header": {..}, "Body": {..},
//! "Trailer": {..}}`, read into a `FixJsonMessage` and written in the
//! `tag=value|` syntax.
//!
//! Whether the text is a message at all is what the JSON decoder of `fefix`
//! says: each of the three sections must be there, as an object whose values
//! are strings or repeating groups (arrays of objects of the same kind). The
//! fields themselves are read with `serde_json`, section by section, each in
//! the order of its keys.
use vstd::prelude::*;
use vstd::utf8::*;
use crate::encoder::{
    lemma_encoding_by_view, message_view, try_flow_encoder, view_encodable, view_encoded_bytes,
    entry_view, fields_view_of, group_view, EntryValue, FieldView, FixJsonMessage, JsonField,
    MessageView,
};
use crate::json::{
    json_array_elements, json_object_members, members_view, parse_array_elements,
    parse_object_members, string_texts,
};

verus! {

/// Whether the JSON decoder of `fefix` accepts `text` as a message.
pub uninterp spec fn fix_json_accepted(text: Seq<char>) -> bool;

/// Decodes `text` with `fefix::json::Decoder` over the FIX 4.4 dictionary
/// and tells whether it succeeds. The decoder deserializes the text into its
/// three sections and nothing else; the result is named
/// `fix_json_accepted`.
#[verifier::external_body]
fn fix_json_accepts(text: &str) -> (r: bool)
    ensures
        r == fix_json_accepted(text@),
{
    let mut decoder = fefix::json::Decoder::<fefix::json::Config>::new(fefix::Dictionary::fix44());
    decoder.decode(text.as_bytes()).is_ok()
}

/// The value text of the last member named `name`.
pub open spec fn member_text(ms: Seq<(Seq<char>, Option<Seq<char>>, Seq<char>)>, name: Seq<char>) -> Option<
    Seq<char>,
>
    decreases ms.len(),
{
    if ms.len() == 0 {
        None
    } else if ms.last().0 == name {
        Some(ms.last().2)
    } else {
        member_text(ms.drop_last(), name)
    }
}

/// An entry of a repeating group from the members of its object: a string
/// value is a field, any other a nested group.
pub open spec fn entry_of(ms: Seq<(Seq<char>, Option<Seq<char>>, Seq<char>)>) -> Seq<
    (Seq<char>, Option<Seq<char>>),
> {
    ms.map_values(|m: (Seq<char>, Option<Seq<char>>, Seq<char>)| (m.0, m.1))
}

/// The entries of a repeating group from the texts of its elements, where
/// each is an object.
pub open spec fn group_of(es: Seq<Seq<char>>) -> Option<Seq<Seq<(Seq<char>, Option<Seq<char>>)>>>
    decreases es.len(),
{
    if es.len() == 0 {
        Some(Seq::empty())
    } else {
        match (group_of(es.drop_last()), json_object_members(es.last())) {
            (Some(g), Some(ms)) => Some(g.push(entry_of(ms))),
            _ => None,
        }
    }
}

/// A field from a member of a section: a string is a text, an array of
/// objects a repeating group.
pub open spec fn field_of(m: (Seq<char>, Option<Seq<char>>, Seq<char>)) -> Option<FieldView> {
    match m.1 {
        Some(s) => Some(FieldView::Text(s)),
        None => match json_array_elements(m.2) {
            Some(es) => match group_of(es) {
                Some(g) => Some(FieldView::Group(g)),
                None => None,
            },
            None => None,
        },
    }
}

/// The fields of a section from the members of its object.
pub open spec fn section_fields_of(ms: Seq<(Seq<char>, Option<Seq<char>>, Seq<char>)>) -> Option<
    Seq<(Seq<char>, FieldView)>,
>
    decreases ms.len(),
{
    if ms.len() == 0 {
        Some(Seq::empty())
    } else {
        match (section_fields_of(ms.drop_last()), field_of(ms.last())) {
            (Some(fs), Some(f)) => Some(fs.push((ms.last().0, f))),
            _ => None,
        }
    }
}

/// The section `name` of the message whose members are `root`.
pub open spec fn section_of_root(root: Seq<(Seq<char>, Option<Seq<char>>, Seq<char>)>, name: Seq<char>) -> Option<
    Seq<(Seq<char>, FieldView)>,
> {
    match member_text(root, name) {
        Some(t) => match json_object_members(t) {
            Some(ms) => section_fields_of(ms),
            None => None,
        },
        None => None,
    }
}

/// The message that the JSON text `text` holds, or `None` where `fefix`'s
/// JSON decoder refuses it (or its sections cannot be read).
pub open spec fn json_fix_message_of(text: Seq<char>) -> Option<MessageView> {
    if !fix_json_accepted(text) {
        None
    } else {
        match json_object_members(text) {
            Some(root) => match (
                section_of_root(root, "Header"@),
                section_of_root(root, "Body"@),
                section_of_root(root, "Trailer"@),
            ) {
                (Some(header), Some(body), Some(trailer)) => Some(
                    MessageView { header, body, trailer },
                ),
                _ => None,
            },
            None => None,
        }
    }
}

/// The value text of the last member named `name`, as `member_text` states
/// it.
fn member_text_exec(ms: &Vec<(String, Option<String>, String)>, name: &str) -> (r: Option<String>)
    ensures
        match r {
            Some(t) => member_text(members_view(ms@), name@) == Some(t@),
            None => member_text(members_view(ms@), name@) is None,
        },
{
    let ghost mv = members_view(ms@);
    let key = name.to_owned();
    let mut k = ms.len();
    proof {
        assert(mv.take(k as int) =~= mv);
    }
    while k > 0
        invariant
            k <= ms@.len(),
            mv == members_view(ms@),
            key@ == name@,
            member_text(mv, name@) == member_text(mv.take(k as int), name@),
        decreases k,
    {
        proof {
            assert(mv.take(k as int).drop_last() =~= mv.take(k - 1));
        }
        if ms[k - 1].0 == key {
            return Some(ms[k - 1].2.clone());
        }
        k = k - 1;
    }
    None
}

/// An entry of a group, as `entry_of` states it.
fn entry_exec(ms: &Vec<(String, Option<String>, String)>) -> (e: Vec<(String, EntryValue)>)
    ensures
        entry_view(e@) == entry_of(members_view(ms@)),
{
    let mut e: Vec<(String, EntryValue)> = Vec::new();
    let mut k: usize = 0;
    while k < ms.len()
        invariant
            k <= ms@.len(),
            entry_view(e@) == entry_of(members_view(ms@)).take(k as int),
        decreases ms@.len() - k,
    {
        let value = match &ms[k].1 {
            Some(s) => EntryValue::Field(s.clone()),
            None => EntryValue::Group,
        };
        let key = ms[k].0.clone();
        proof {
            assert(match value {
                EntryValue::Field(s) => Some(s@),
                EntryValue::Group => None,
            } == members_view(ms@)[k as int].1);
        }
        let ghost before = entry_view(e@);
        e.push((key, value));
        proof {
            assert(entry_view(e@) =~= before.push(entry_of(members_view(ms@))[k as int]));
            assert(entry_of(members_view(ms@)).take(k + 1) =~= entry_of(members_view(ms@)).take(
                k as int,
            ).push(entry_of(members_view(ms@))[k as int]));
        }
        k = k + 1;
    }
    proof {
        assert(entry_of(members_view(ms@)).take(ms@.len() as int) =~= entry_of(members_view(ms@)));
    }
    e
}

/// The entries of a group, as `group_of` states it.
fn group_exec(es: &Vec<String>) -> (r: Option<Vec<Vec<(String, EntryValue)>>>)
    ensures
        match r {
            Some(g) => group_of(string_texts(es@)) == Some(group_view(g@)),
            None => group_of(string_texts(es@)) is None,
        },
{
    let ghost ts = string_texts(es@);
    let mut g: Vec<Vec<(String, EntryValue)>> = Vec::new();
    let mut k: usize = 0;
    proof {
        assert(ts.take(0) =~= Seq::<Seq<char>>::empty());
        assert(group_view(g@) =~= Seq::<Seq<(Seq<char>, Option<Seq<char>>)>>::empty());
    }
    while k < es.len()
        invariant
            k <= es@.len(),
            ts == string_texts(es@),
            group_of(ts.take(k as int)) == Some(group_view(g@)),
        decreases es@.len() - k,
    {
        proof {
            assert(ts.take(k + 1).drop_last() =~= ts.take(k as int));
            assert(ts.take(k + 1).last() == es@[k as int]@);
        }
        let ms = match parse_object_members(es[k].as_str()) {
            Some(ms) => ms,
            None => {
                proof {
                    lemma_group_stuck(ts, k + 1);
                }
                return None;
            },
        };
        let e = entry_exec(&ms);
        let ghost before = group_view(g@);
        g.push(e);
        proof {
            assert(group_view(g@) =~= before.push(entry_view(e@)));
        }
        k = k + 1;
    }
    proof {
        assert(ts.take(es@.len() as int) =~= ts);
    }
    Some(g)
}

/// Once an element is no object, the group cannot be read.
proof fn lemma_group_stuck(es: Seq<Seq<char>>, k: int)
    requires
        0 <= k <= es.len(),
        group_of(es.take(k)) is None,
    ensures
        group_of(es) is None,
    decreases es.len() - k,
{
    if k < es.len() {
        assert(es.take(k + 1).drop_last() =~= es.take(k));
        lemma_group_stuck(es, k + 1);
    } else {
        assert(es.take(k) =~= es);
    }
}

/// A field, as `field_of` states it.
fn field_exec(value: &Option<String>, text: &String) -> (r: Option<JsonField>)
    ensures
        match r {
            Some(f) => field_of((Seq::empty(), match value {
                Some(s) => Some(s@),
                None => None,
            }, text@)) == Some(crate::encoder::field_value_view(f)),
            None => field_of((Seq::empty(), match value {
                Some(s) => Some(s@),
                None => None,
            }, text@)) is None,
        },
{
    match value {
        Some(s) => Some(JsonField::Field(s.clone())),
        None => match parse_array_elements(text.as_str()) {
            Some(es) => match group_exec(&es) {
                Some(g) => Some(JsonField::Group(g)),
                None => None,
            },
            None => None,
        },
    }
}

/// Once a member is no field, the section cannot be read.
proof fn lemma_section_stuck(ms: Seq<(Seq<char>, Option<Seq<char>>, Seq<char>)>, k: int)
    requires
        0 <= k <= ms.len(),
        section_fields_of(ms.take(k)) is None,
    ensures
        section_fields_of(ms) is None,
    decreases ms.len() - k,
{
    if k < ms.len() {
        assert(ms.take(k + 1).drop_last() =~= ms.take(k));
        lemma_section_stuck(ms, k + 1);
    } else {
        assert(ms.take(k) =~= ms);
    }
}

/// The fields of a section, as `section_fields_of` states it.
fn section_exec(ms: &Vec<(String, Option<String>, String)>) -> (r: Option<Vec<(String, JsonField)>>)
    ensures
        match r {
            Some(sec) => section_fields_of(members_view(ms@)) == Some(fields_view_of(sec@)),
            None => section_fields_of(members_view(ms@)) is None,
        },
{
    let ghost mv = members_view(ms@);
    let mut sec: Vec<(String, JsonField)> = Vec::new();
    let mut k: usize = 0;
    proof {
        assert(mv.take(0) =~= Seq::<(Seq<char>, Option<Seq<char>>, Seq<char>)>::empty());
        assert(fields_view_of(sec@) =~= Seq::<(Seq<char>, FieldView)>::empty());
    }
    while k < ms.len()
        invariant
            k <= ms@.len(),
            mv == members_view(ms@),
            section_fields_of(mv.take(k as int)) == Some(fields_view_of(sec@)),
        decreases ms@.len() - k,
    {
        proof {
            assert(mv.take(k + 1).drop_last() =~= mv.take(k as int));
            assert(mv.take(k + 1).last() == mv[k as int]);
        }
        let f = match field_exec(&ms[k].1, &ms[k].2) {
            Some(f) => f,
            None => {
                proof {
                    assert(field_of(mv[k as int]) is None);
                    lemma_section_stuck(mv, k + 1);
                }
                return None;
            },
        };
        proof {
            assert(field_of(mv[k as int]) == Some(crate::encoder::field_value_view(f)));
        }
        let ghost before = fields_view_of(sec@);
        sec.push((ms[k].0.clone(), f));
        proof {
            assert(fields_view_of(sec@) =~= before.push((mv[k as int].0, crate::encoder::field_value_view(f))));
        }
        k = k + 1;
    }
    proof {
        assert(mv.take(ms@.len() as int) =~= mv);
    }
    Some(sec)
}

/// The section `name` of the message whose members are `root`, as
/// `section_of_root` states it.
fn section_of_root_exec(root: &Vec<(String, Option<String>, String)>, name: &str) -> (r: Option<
    Vec<(String, JsonField)>,
>)
    ensures
        match r {
            Some(sec) => section_of_root(members_view(root@), name@) == Some(fields_view_of(sec@)),
            None => section_of_root(members_view(root@), name@) is None,
        },
{
    let text = match member_text_exec(root, name) {
        Some(t) => t,
        None => return None,
    };
    match parse_object_members(text.as_str()) {
        Some(ms) => section_exec(&ms),
        None => None,
    }
}

/// Reads the JSON text of a FIX message into a `FixJsonMessage`, as
/// `json_fix_message_of` states it: `None` where `fefix`'s JSON decoder
/// refuses the text.
pub fn parse_json_message(json_fix_message: &str) -> (r: Option<FixJsonMessage>)
    ensures
        match r {
            Some(m) => json_fix_message_of(json_fix_message@) == Some(message_view(m)),
            None => json_fix_message_of(json_fix_message@) is None,
        },
{
    if !fix_json_accepts(json_fix_message) {
        return None;
    }
    let root = match parse_object_members(json_fix_message) {
        Some(root) => root,
        None => return None,
    };
    let header = match section_of_root_exec(&root, "Header") {
        Some(s) => s,
        None => return None,
    };
    let body = match section_of_root_exec(&root, "Body") {
        Some(s) => s,
        None => return None,
    };
    let trailer = match section_of_root_exec(&root, "Trailer") {
        Some(s) => s,
        None => return None,
    };
    Some(FixJsonMessage { header, body, trailer })
}

/// Writes the FIX message whose JSON text is `json_fix_message` in the
/// `tag=value|` syntax, as `flow_encoder` writes the message read from it.
/// It returns `None` where the text is no message (`fefix`'s JSON decoder
/// refuses it) and where the message cannot be written (it lacks
/// `BeginString` or `MsgType`, or a name is unknown).
pub fn flow_encoder_text(json_fix_message: &str) -> (r: Option<String>)
    ensures
        match json_fix_message_of(json_fix_message@) {
            None => r is None,
            Some(v) => {
                &&& r is Some <==> view_encodable(v)
                &&& r matches Some(s) ==> s@ == decode_utf8(view_encoded_bytes(v))
            },
        },
{
    match parse_json_message(json_fix_message) {
        None => None,
        Some(m) => {
            proof {
                lemma_encoding_by_view(m);
            }
            try_flow_encoder(&m)
        },
    }
}

/// Every member of a section object becomes a field of the section, in
/// order and under its own name: the section can be read exactly where each
/// member can, and then it has one field per member.
pub proof fn law_section_keeps_every_member(ms: Seq<(Seq<char>, Option<Seq<char>>, Seq<char>)>)
    ensures
        section_fields_of(ms) is Some <==> forall|i: int| 0 <= i < ms.len() ==> (#[trigger] field_of(ms[i])) is Some,
        section_fields_of(ms) matches Some(fs) ==> {
            &&& fs.len() == ms.len()
            &&& forall|i: int| 0 <= i < ms.len() ==> (#[trigger] fs[i]).0 == ms[i].0 && Some(fs[i].1) == field_of(ms[i])
        },
    decreases ms.len(),
{
    if ms.len() > 0 {
        let r = ms.drop_last();
        law_section_keeps_every_member(r);
        assert forall|i: int| 0 <= i < r.len() implies #[trigger] r[i] == ms[i] by {}
        if section_fields_of(ms) is Some {
            let fs = section_fields_of(ms).unwrap();
            let fr = section_fields_of(r).unwrap();
            assert(fs == fr.push((ms.last().0, field_of(ms.last()).unwrap())));
            assert forall|i: int| 0 <= i < ms.len() implies (#[trigger] fs[i]).0 == ms[i].0 && Some(fs[i].1)
                == field_of(ms[i]) by {
                if i < r.len() {
                    assert(fs[i] == fr[i]);
                    assert(r[i] == ms[i]);
                }
            }
        }
        if forall|i: int| 0 <= i < ms.len() ==> (#[trigger] field_of(ms[i])) is Some {
            assert forall|i: int| 0 <= i < r.len() implies (#[trigger] field_of(r[i])) is Some by {
                assert(r[i] == ms[i]);
            }
            assert(field_of(ms[ms.len() - 1]) is Some);
        }
        if section_fields_of(ms) is Some {
            assert(section_fields_of(r) is Some);
            assert(field_of(ms.last()) is Some);
            assert forall|i: int| 0 <= i < ms.len() implies (#[trigger] field_of(ms[i])) is Some by {
                if i < r.len() {
                    assert(r[i] == ms[i]);
                    assert(field_of(r[i]) is Some);
                }
            }
        } else if field_of(ms.last()) is None {
            assert(field_of(ms[ms.len() - 1]) is None);
        } else {
            assert(section_fields_of(r) is None);
            let i = choose|i: int| 0 <= i < r.len() && !(#[trigger] field_of(r[i]) is Some);
            assert(r[i] == ms[i]);
            assert(field_of(ms[i]) is None);
        }
    }
}

/// Every element of a group array becomes an entry, in order: the group can
/// be read exactly where each element is an object, and then it has one
/// entry per element, made of that object's members.
pub proof fn law_group_keeps_every_element(es: Seq<Seq<char>>)
    ensures
        group_of(es) is Some <==> forall|i: int| 0 <= i < es.len() ==> (#[trigger] json_object_members(es[i])) is Some,
        group_of(es) matches Some(g) ==> {
            &&& g.len() == es.len()
            &&& forall|i: int| 0 <= i < es.len() ==> #[trigger] g[i] == entry_of(json_object_members(es[i]).unwrap())
        },
    decreases es.len(),
{
    if es.len() > 0 {
        let r = es.drop_last();
        law_group_keeps_every_element(r);
        if group_of(es) is Some {
            let g = group_of(es).unwrap();
            let gr = group_of(r).unwrap();
            assert forall|i: int| 0 <= i < es.len() implies #[trigger] g[i] == entry_of(
                json_object_members(es[i]).unwrap(),
            ) by {
                if i < r.len() {
                    assert(g[i] == gr[i]);
                    assert(r[i] == es[i]);
                }
            }
        }
        if forall|i: int| 0 <= i < es.len() ==> (#[trigger] json_object_members(es[i])) is Some {
            assert forall|i: int| 0 <= i < r.len() implies (#[trigger] json_object_members(r[i])) is Some by {
                assert(r[i] == es[i]);
            }
            assert(json_object_members(es[es.len() - 1]) is Some);
        }
        if group_of(es) is Some {
            assert(group_of(r) is Some);
            assert(json_object_members(es.last()) is Some);
            assert forall|i: int| 0 <= i < es.len() implies (#[trigger] json_object_members(es[i])) is Some by {
                if i < r.len() {
                    assert(r[i] == es[i]);
                    assert(json_object_members(r[i]) is Some);
                }
            }
        } else if json_object_members(es.last()) is None {
            assert(json_object_members(es[es.len() - 1]) is None);
        } else {
            assert(group_of(r) is None);
            let i = choose|i: int| 0 <= i < r.len() && !(#[trigger] json_object_members(r[i]) is Some);
            assert(r[i] == es[i]);
            assert(json_object_members(es[i]) is None);
        }
    }
}

/// The text of a section is that of the last member with its name, and
/// there is one exactly where some member has that name.
pub proof fn law_member_text_is_last(ms: Seq<(Seq<char>, Option<Seq<char>>, Seq<char>)>, name: Seq<char>)
    ensures
        member_text(ms, name) is Some <==> exists|i: int| 0 <= i < ms.len() && (#[trigger] ms[i]).0 == name,
        member_text(ms, name) matches Some(t) ==> exists|i: int|
            0 <= i < ms.len() && (#[trigger] ms[i]).0 == name && ms[i].2 == t && forall|j: int|
                i < j < ms.len() ==> (#[trigger] ms[j]).0 != name,
    decreases ms.len(),
{
    if ms.len() > 0 {
        let r = ms.drop_last();
        law_member_text_is_last(r, name);
        let n = ms.len() - 1;
        if ms.last().0 == name {
            assert(ms[n].0 == name);
        } else {
            if exists|i: int| 0 <= i < ms.len() && (#[trigger] ms[i]).0 == name {
                let i = choose|i: int| 0 <= i < ms.len() && (#[trigger] ms[i]).0 == name;
                assert(i < n);
                assert(r[i] == ms[i]);
            }
            if member_text(r, name) is Some {
                let i = choose|i: int| 0 <= i < r.len() && (#[trigger] r[i]).0 == name;
                assert(r[i] == ms[i]);
                let t = member_text(r, name).unwrap();
                let k = choose|k: int|
                    0 <= k < r.len() && (#[trigger] r[k]).0 == name && r[k].2 == t && forall|j: int|
                        k < j < r.len() ==> (#[trigger] r[j]).0 != name;
                assert(r[k] == ms[k]);
                assert forall|j: int| k < j < ms.len() implies (#[trigger] ms[j]).0 != name by {
                    if j < r.len() {
                        assert(r[j] == ms[j]);
                    }
                }
            }
        }
    }
}

} // verus!
