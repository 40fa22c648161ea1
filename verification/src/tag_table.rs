//! A table of FIX tags and names, and the conversions that go through it:
//! `tag=value|` fields to `"name": "value", ` entries, and the string fields of
//! a JSON object to `tag=value|` fields.
use vstd::prelude::*;
use vstd::utf8::*;
use crate::frame::{digits_parse, digits_parse_u64, unsigned_text, EQUALS, SEPARATOR};
use crate::model::TagName;
use crate::decoder::strip_trailing;
use crate::tagvalue::{decimal, lemma_ascii_valid_utf8, lemma_decimal_digits, push_decimal};
use crate::json::{json_object_text_entries, json_tag_records, parse_object_entries, parse_tag_records, records_view, text_entries_view};
use crate::text::{copy_range, find_byte, find_byte_from, lemma_find_byte, lossy_utf8, utf8_decode, utf8_lossy};

verus! {

/// The pieces of `s` between the bytes `b`, from index `start` on.
pub open spec fn split_from(s: Seq<u8>, b: u8, start: int) -> Seq<Seq<u8>>
    decreases s.len() - start,
{
    if start < 0 || start > s.len() {
        Seq::empty()
    } else {
        match find_byte(s, b, start) {
            None => seq![s.subrange(start, s.len() as int)],
            Some(k) => {
                proof {
                    lemma_find_byte(s, b, start);
                }
                seq![s.subrange(start, k)] + split_from(s, b, k + 1)
            },
        }
    }
}

/// The pieces of `s` between the bytes `b`, where a last piece that is empty
/// does not count (as `str::split_terminator` splits).
pub open spec fn split_terminator(s: Seq<u8>, b: u8) -> Seq<Seq<u8>> {
    let parts = split_from(s, b, 0);
    if parts.len() > 0 && parts.last().len() == 0 {
        parts.drop_last()
    } else {
        parts
    }
}

/// The views of a list of byte vectors.
pub open spec fn vecs_view(v: Seq<Vec<u8>>) -> Seq<Seq<u8>> {
    v.map_values(|x: Vec<u8>| x@)
}

/// Drops the last piece if it is empty.
fn drop_empty_last(parts: &mut Vec<Vec<u8>>)
    ensures
        vecs_view(final(parts)@) == if vecs_view(old(parts)@).len() > 0 && vecs_view(
            old(parts)@,
        ).last().len() == 0 {
            vecs_view(old(parts)@).drop_last()
        } else {
            vecs_view(old(parts)@)
        },
{
    let n = parts.len();
    if n > 0 && parts[n - 1].len() == 0 {
        parts.pop();
        proof {
            assert(vecs_view(final(parts)@) =~= vecs_view(old(parts)@).drop_last());
        }
    }
}

/// Splits `s` at the bytes `b`, as `split_terminator` states it.
pub fn split_terminator_exec(s: &[u8], b: u8) -> (r: Vec<Vec<u8>>)
    ensures
        vecs_view(r@) == split_terminator(s@, b),
{
    let len = s.len();
    let mut parts: Vec<Vec<u8>> = Vec::new();
    let mut start: usize = 0;
    proof {
        assert(vecs_view(parts@) + split_from(s@, b, 0) =~= split_from(s@, b, 0));
    }
    loop
        invariant
            len == s@.len(),
            start <= s@.len(),
            vecs_view(parts@) + split_from(s@, b, start as int) == split_from(s@, b, 0),
        decreases s@.len() + 1 - start,
    {
        proof {
            lemma_find_byte(s@, b, start as int);
        }
        match find_byte_from(s, b, start) {
            None => {
                let piece = copy_range(s, start, len);
                let ghost before = parts@;
                parts.push(piece);
                proof {
                    assert(vecs_view(parts@) =~= vecs_view(before) + split_from(
                        s@,
                        b,
                        start as int,
                    ));
                }
                drop_empty_last(&mut parts);
                return parts;
            },
            Some(k) => {
                let piece = copy_range(s, start, k);
                let ghost before = parts@;
                parts.push(piece);
                proof {
                    assert(vecs_view(parts@) =~= vecs_view(before) + seq![
                        s@.subrange(start as int, k as int),
                    ]);
                    assert(vecs_view(parts@) + split_from(s@, b, k + 1) =~= vecs_view(before)
                        + split_from(s@, b, start as int));
                }
                start = k + 1;
            },
        }
    }
}

/// The value of the text `p` as a `u64`, as the standard library parses it.
fn u64_text_exec(p: &[u8]) -> (r: Option<u64>)
    ensures
        match r {
            Some(n) => unsigned_text(p@, u64::MAX as int) == Some(n as int),
            None => unsigned_text(p@, u64::MAX as int) is None,
        },
{
    let len = p.len();
    proof {
        assert(p@.subrange(0, len as int) =~= p@);
    }
    if len > 0 && p[0] == 43 {
        if len == 1 {
            return None;
        }
        digits_parse_u64(p, 1, len)
    } else {
        if len == 0 {
            return None;
        }
        digits_parse_u64(p, 0, len)
    }
}

/// Whether a `|`-piece has a tag and a value, and the tag is a `u64`.
pub open spec fn piece_ok(p: Seq<u8>) -> bool {
    let parts = split_terminator(p, EQUALS);
    parts.len() >= 2 && unsigned_text(parts[0], u64::MAX as int) is Some
}

/// Whether every `|`-piece of `msg` has a tag and a value, and the tag is a
/// `u64`; `decode` is meant for such messages only.
pub open spec fn decodable(msg: Seq<u8>) -> bool {
    let pieces = split_terminator(msg, SEPARATOR);
    forall|i: int| 0 <= i < pieces.len() ==> piece_ok(#[trigger] pieces[i])
}

/// The entry for one matching name: `"name": "value", `.
pub open spec fn entry_text(name: Seq<char>, value: Seq<char>) -> Seq<char> {
    "\""@ + name + "\": \""@ + value + "\", "@
}

/// The entries of all table rows whose tag is `key`, in table order.
pub open spec fn matching_entries(dicts: Seq<TagName>, key: int, value: Seq<char>) -> Seq<char>
    decreases dicts.len(),
{
    if dicts.len() == 0 {
        Seq::empty()
    } else {
        matching_entries(dicts.drop_last(), key, value) + if dicts.last().tag == key {
            entry_text(dicts.last().name@, value)
        } else {
            Seq::empty()
        }
    }
}

/// The entries for one `tag=value` piece; the value is read as lossy UTF-8.
pub open spec fn piece_text(p: Seq<u8>, dicts: Seq<TagName>) -> Seq<char> {
    let parts = split_terminator(p, EQUALS);
    matching_entries(dicts, unsigned_text(parts[0], u64::MAX as int).unwrap(), lossy_utf8(parts[1]))
}

/// The entries for all pieces, in order.
pub open spec fn pieces_text(ps: Seq<Seq<u8>>, dicts: Seq<TagName>) -> Seq<char>
    decreases ps.len(),
{
    if ps.len() == 0 {
        Seq::empty()
    } else {
        pieces_text(ps.drop_last(), dicts) + piece_text(ps.last(), dicts)
    }
}

/// The text that `decode` returns: `{`, the entries of every piece, `}`.
pub open spec fn decode_text(msg: Seq<u8>, dicts: Seq<TagName>) -> Seq<char> {
    "{"@ + pieces_text(split_terminator(msg, SEPARATOR), dicts) + "}"@
}

/// Decodes `msg`, or returns `None` exactly where a piece is malformed.
fn decode_checked(msg: &[u8], dicts: &Vec<TagName>) -> (r: Option<String>)
    ensures
        r is Some <==> decodable(msg@),
        r matches Some(s) ==> s@ == decode_text(msg@, dicts@),
{
    let pieces = split_terminator_exec(msg, SEPARATOR);
    let ghost ps = vecs_view(pieces@);
    let mut out = "{".to_owned();
    let mut i: usize = 0;
    proof {
        assert(ps.take(0) =~= Seq::<Seq<u8>>::empty());
    }
    while i < pieces.len()
        invariant
            ps == vecs_view(pieces@),
            ps == split_terminator(msg@, SEPARATOR),
            i <= pieces@.len(),
            out@ == "{"@ + pieces_text(ps.take(i as int), dicts@),
            forall|k: int| 0 <= k < i ==> piece_ok(#[trigger] ps[k]),
        decreases pieces@.len() - i,
    {
        proof {
            assert(ps.take(i + 1).drop_last() =~= ps.take(i as int));
            assert(ps.take(i + 1).last() == pieces@[i as int]@);
        }
        let parts = split_terminator_exec(pieces[i].as_slice(), EQUALS);
        if parts.len() < 2 {
            proof {
                assert(!piece_ok(ps[i as int]));
            }
            return None;
        }
        let key = match u64_text_exec(parts[0].as_slice()) {
            Some(key) => key,
            None => {
                proof {
                    assert(vecs_view(parts@)[0] == parts@[0]@);
                    assert(!piece_ok(ps[i as int]));
                }
                return None;
            },
        };
        let value = utf8_lossy(parts[1].as_slice());
        proof {
            assert(vecs_view(parts@)[0] == parts@[0]@);
            assert(vecs_view(parts@)[1] == parts@[1]@);
        }
        let ghost before = out@;
        let mut j: usize = 0;
        while j < dicts.len()
            invariant
                j <= dicts@.len(),
                out@ == before + matching_entries(dicts@.take(j as int), key as int, value@),
            decreases dicts@.len() - j,
        {
            proof {
                assert(dicts@.take(j + 1).drop_last() =~= dicts@.take(j as int));
            }
            if key == dicts[j].tag {
                out.append("\"");
                out.append(dicts[j].name.as_str());
                out.append("\": \"");
                out.append(value.as_str());
                out.append("\", ");
            }
            proof {
                assert(out@ =~= before + matching_entries(dicts@.take(j + 1), key as int, value@));
            }
            j = j + 1;
        }
        proof {
            assert(dicts@.take(dicts@.len() as int) =~= dicts@);
            assert(out@ =~= "{"@ + pieces_text(ps.take(i + 1), dicts@));
        }
        i = i + 1;
    }
    proof {
        assert(ps.take(ps.len() as int) =~= ps);
    }
    out.append("}");
    Some(out)
}

/// Reads the `tag=value|` fields of `msg` and writes, for each field and each
/// row of `dicts` with the field's tag, `"name": "value", `, all between `{`
/// and `}`. `names` and `tags` (the other columns of the table) are not read.
///
/// Every field must have a tag that is a `u64` and a value (`try_decode`
/// tells these inputs apart).
pub fn decode(msg: &[u8], dicts: Vec<TagName>, names: Vec<String>, tags: Vec<u64>) -> (r: String)
    requires
        decodable(msg@),
    ensures
        r@ == decode_text(msg@, dicts@),
{
    match decode_checked(msg, &dicts) {
        Some(text) => text,
        None => String::new(),
    }
}

/// Decodes `msg` as `decode` does where every field is well formed, and
/// returns `None` where one is not.
pub fn try_decode(msg: &[u8], dicts: Vec<TagName>) -> (r: Option<String>)
    ensures
        r is Some <==> decodable(msg@),
        r matches Some(s) ==> s@ == decode_text(msg@, dicts@),
{
    decode_checked(msg, &dicts)
}


/// The decimal digits of `n` as text.
pub fn decimal_text(n: u64) -> (s: String)
    ensures
        s@ == decode_utf8(decimal(n as nat)),
{
    let mut digits: Vec<u8> = Vec::new();
    push_decimal(&mut digits, n);
    proof {
        assert(digits@ =~= decimal(n as nat));
        lemma_decimal_digits(n as nat);
        lemma_ascii_valid_utf8(digits@);
    }
    match utf8_decode(digits.as_slice()) {
        Some(s) => s,
        None => String::new(),
    }
}

/// One field for a matching name: the tag in decimal, `=`, the value, `|`.
pub open spec fn tag_field_text(tag: u64, value: Seq<char>) -> Seq<char> {
    decode_utf8(decimal(tag as nat)) + "="@ + value + "|"@
}

/// The fields of all table rows whose name is `key`, in table order.
pub open spec fn matching_fields(dicts: Seq<TagName>, key: Seq<char>, value: Seq<char>) -> Seq<char>
    decreases dicts.len(),
{
    if dicts.len() == 0 {
        Seq::empty()
    } else {
        matching_fields(dicts.drop_last(), key, value) + if dicts.last().name@ == key {
            tag_field_text(dicts.last().tag, value)
        } else {
            Seq::empty()
        }
    }
}

/// The fields for all entries, in order.
pub open spec fn entries_text(es: Seq<(Seq<char>, Option<Seq<char>>)>, dicts: Seq<TagName>) -> Seq<
    char,
>
    decreases es.len(),
{
    if es.len() == 0 {
        Seq::empty()
    } else {
        entries_text(es.drop_last(), dicts) + matching_fields(dicts, es.last().0, es.last().1.unwrap())
    }
}

/// Whether `file_contents` is a JSON object whose values are all strings,
/// the only input that `encode` takes.
pub open spec fn encodable_object(file_contents: Seq<char>) -> bool {
    match json_object_text_entries(file_contents) {
        Some(es) => forall|i: int| 0 <= i < es.len() ==> (#[trigger] es[i]).1 is Some,
        None => false,
    }
}

/// Encodes the object, or returns `None` exactly where it is not an object
/// of strings.
fn encode_checked(file_contents: &str, dicts: &Vec<TagName>) -> (r: Option<String>)
    ensures
        r is Some <==> encodable_object(file_contents@),
        r matches Some(s) ==> s@ == entries_text(
            json_object_text_entries(file_contents@).unwrap(),
            dicts@,
        ),
{
    let entries = match parse_object_entries(file_contents) {
        Some(entries) => entries,
        None => return None,
    };
    let ghost es = text_entries_view(entries@);
    let mut out = String::new();
    let mut i: usize = 0;
    proof {
        assert(es.take(0) =~= Seq::<(Seq<char>, Option<Seq<char>>)>::empty());
    }
    while i < entries.len()
        invariant
            es == text_entries_view(entries@),
            json_object_text_entries(file_contents@) == Some(es),
            i <= entries@.len(),
            out@ == entries_text(es.take(i as int), dicts@),
            forall|k: int| 0 <= k < i ==> (#[trigger] es[k]).1 is Some,
        decreases entries@.len() - i,
    {
        proof {
            assert(es.take(i + 1).drop_last() =~= es.take(i as int));
        }
        let value = match &entries[i].1 {
            Some(v) => v,
            None => {
                proof {
                    assert(es[i as int].1 is None);
                }
                return None;
            },
        };
        let ghost before = out@;
        let mut j: usize = 0;
        while j < dicts.len()
            invariant
                i < entries@.len(),
                j <= dicts@.len(),
                out@ == before + matching_fields(dicts@.take(j as int), entries@[i as int].0@, value@),
            decreases dicts@.len() - j,
        {
            proof {
                assert(dicts@.take(j + 1).drop_last() =~= dicts@.take(j as int));
            }
            if entries[i].0 == dicts[j].name {
                let tag = decimal_text(dicts[j].tag);
                out.append(tag.as_str());
                out.append("=");
                out.append(value.as_str());
                out.append("|");
            }
            proof {
                assert(out@ =~= before + matching_fields(dicts@.take(j + 1), entries@[i as int].0@, value@));
            }
            j = j + 1;
        }
        proof {
            assert(dicts@.take(dicts@.len() as int) =~= dicts@);
            assert(out@ =~= entries_text(es.take(i + 1), dicts@));
        }
        i = i + 1;
    }
    proof {
        assert(es.take(es.len() as int) =~= es);
    }
    Some(out)
}

/// Writes, for each entry of the JSON object `file_contents` (in the
/// object's order, that is by key) and each row of `dicts` with the entry's
/// name, the field `tag=value|`. The program reads `file_contents` from the
/// file `./json_fix_example.json`; `msg`, `names` and `tags` are not read.
///
/// `file_contents` must be a JSON object whose values are strings
/// (`try_encode` tells these inputs apart).
pub fn encode(file_contents: &str, msg: String, dicts: Vec<TagName>, names: Vec<String>, tags: Vec<u64>) -> (r: String)
    requires
        encodable_object(file_contents@),
    ensures
        r@ == entries_text(json_object_text_entries(file_contents@).unwrap(), dicts@),
{
    match encode_checked(file_contents, &dicts) {
        Some(text) => text,
        None => String::new(),
    }
}

/// Encodes `file_contents` as `encode` does where it is a JSON object of
/// strings, and returns `None` where it is not.
pub fn try_encode(file_contents: &str, dicts: Vec<TagName>) -> (r: Option<String>)
    ensures
        r is Some <==> encodable_object(file_contents@),
        r matches Some(s) ==> s@ == entries_text(
            json_object_text_entries(file_contents@).unwrap(),
            dicts@,
        ),
{
    match encode_checked(file_contents, &dicts) {
        None => None,
        Some(_) => Some(encode(file_contents, String::new(), dicts, Vec::new(), Vec::new())),
    }
}

/// Whether every record has a `tag` that is an `i64` and a string `name`,
/// the only input that `get_tags` takes.
pub open spec fn complete_records(file_contents: Seq<char>) -> bool {
    match json_tag_records(file_contents) {
        Some(rs) => forall|i: int|
            0 <= i < rs.len() ==> (#[trigger] rs[i]).0 is Some && rs[i].1 is Some,
        None => false,
    }
}

/// The table rows of the records: each tag converted from `i64` to `u64` as
/// `as` converts it.
pub open spec fn record_rows(rs: Seq<(Option<i64>, Option<Seq<char>>)>) -> Seq<(u64, Seq<char>)> {
    rs.map_values(|r: (Option<i64>, Option<Seq<char>>)| (r.0.unwrap() as u64, r.1.unwrap()))
}

/// The rows of a table, as tag and name.
pub open spec fn table_view(t: Seq<TagName>) -> Seq<(u64, Seq<char>)> {
    t.map_values(|r: TagName| (r.tag, r.name@))
}

/// The texts of a list of strings.
pub open spec fn strings_view(v: Seq<String>) -> Seq<Seq<char>> {
    v.map_values(|x: String| x@)
}

/// The names of the rows.
pub open spec fn row_names(rows: Seq<(u64, Seq<char>)>) -> Seq<Seq<char>> {
    rows.map_values(|r: (u64, Seq<char>)| r.1)
}

/// The tags of the rows.
pub open spec fn row_tags(rows: Seq<(u64, Seq<char>)>) -> Seq<u64> {
    rows.map_values(|r: (u64, Seq<char>)| r.0)
}

/// Whether `dict`, `names` and `tags` hold the rows of the records of
/// `file_contents`.
pub open spec fn tables_match(
    file_contents: Seq<char>,
    dict: Seq<TagName>,
    names: Seq<String>,
    tags: Seq<u64>,
) -> bool {
    let rows = record_rows(json_tag_records(file_contents).unwrap());
    &&& table_view(dict) == rows
    &&& strings_view(names) == row_names(rows)
    &&& tags == row_tags(rows)
}

/// Reads the tag table, or returns `None` exactly where a record is
/// incomplete.
fn get_tags_checked(file_contents: &str) -> (r: Option<(Vec<TagName>, Vec<String>, Vec<u64>)>)
    ensures
        r is Some <==> complete_records(file_contents@),
        r matches Some((dict, names, tags)) ==> tables_match(file_contents@, dict@, names@, tags@),
{
    let records = match parse_tag_records(file_contents) {
        Some(records) => records,
        None => return None,
    };
    let ghost rs = records_view(records@);
    let mut dict: Vec<TagName> = Vec::new();
    let mut names: Vec<String> = Vec::new();
    let mut tags: Vec<u64> = Vec::new();
    let mut i: usize = 0;
    proof {
        assert(record_rows(rs.take(0)) =~= Seq::<(u64, Seq<char>)>::empty());
        assert(table_view(dict@) =~= record_rows(rs.take(0)));
        assert(strings_view(names@) =~= row_names(record_rows(rs.take(0))));
        assert(tags@ =~= row_tags(record_rows(rs.take(0))));
    }
    while i < records.len()
        invariant
            rs == records_view(records@),
            json_tag_records(file_contents@) == Some(rs),
            i <= records@.len(),
            forall|k: int| 0 <= k < i ==> (#[trigger] rs[k]).0 is Some && rs[k].1 is Some,
            table_view(dict@) == record_rows(rs.take(i as int)),
            strings_view(names@) == row_names(record_rows(rs.take(i as int))),
            tags@ == row_tags(record_rows(rs.take(i as int))),
        decreases records@.len() - i,
    {
        let tag = match records[i].0 {
            Some(t) => t as u64,
            None => {
                proof {
                    assert(rs[i as int].0 is None);
                }
                return None;
            },
        };
        let name = match &records[i].1 {
            Some(n) => n,
            None => {
                proof {
                    assert(rs[i as int].1 is None);
                }
                return None;
            },
        };
        proof {
            assert(rs[i as int].0 == records@[i as int].0);
            assert(rs[i as int].1 == Some(name@));
        }
        let ghost old_dict = dict@;
        let ghost old_names = names@;
        let ghost old_tags = tags@;
        tags.push(tag);
        names.push(name.clone());
        dict.push(TagName { tag, name: name.clone() });
        proof {
            let rows = record_rows(rs.take(i + 1));
            assert(rows =~= record_rows(rs.take(i as int)).push((tag, name@)));
            assert(table_view(dict@) =~= table_view(old_dict).push((tag, name@)));
            assert(strings_view(names@) =~= strings_view(old_names).push(name@));
            assert(row_names(rows) =~= row_names(record_rows(rs.take(i as int))).push(name@));
            assert(row_tags(rows) =~= row_tags(record_rows(rs.take(i as int))).push(tag));
        }
        i = i + 1;
    }
    proof {
        assert(rs.take(rs.len() as int) =~= rs);
    }
    Some((dict, names, tags))
}

/// Reads the tag table from the JSON array `file_contents`: for each record,
/// in order, a row with its `tag` (an `i64`, converted to `u64` as `as`
/// converts) and its `name`, and the same names and tags as two lists. The
/// program reads `file_contents` from the file `./tags.json`.
///
/// Every record must have an integer `tag` and a string `name`
/// (`try_get_tags` tells these inputs apart).
pub fn get_tags(file_contents: &str) -> (r: (Vec<TagName>, Vec<String>, Vec<u64>))
    requires
        complete_records(file_contents@),
    ensures
        tables_match(file_contents@, r.0@, r.1@, r.2@),
{
    match get_tags_checked(file_contents) {
        Some(tables) => tables,
        None => (Vec::new(), Vec::new(), Vec::new()),
    }
}

/// Reads the tag table as `get_tags` does where every record is complete, and
/// returns `None` where one is not.
pub fn try_get_tags(file_contents: &str) -> (r: Option<(Vec<TagName>, Vec<String>, Vec<u64>)>)
    ensures
        r is Some <==> complete_records(file_contents@),
        r matches Some((dict, names, tags)) ==> tables_match(file_contents@, dict@, names@, tags@),
{
    match get_tags_checked(file_contents) {
        None => None,
        Some(_) => Some(get_tags(file_contents)),
    }
}

/// Searching `a + b` from inside `a` finds what searching `a` finds, where
/// that finds something.
proof fn lemma_find_byte_prefix(a: Seq<u8>, c: Seq<u8>, b: u8, i: int)
    requires
        0 <= i,
        find_byte(a, b, i) is Some,
    ensures
        find_byte(a + c, b, i) == find_byte(a, b, i),
    decreases a.len() - i,
{
    if i < a.len() && a[i] != b {
        lemma_find_byte_prefix(a, c, b, i + 1);
    }
}

/// Searching `a + c` from inside `c` finds what searching `c` finds, moved
/// by the length of `a`.
pub(crate) proof fn lemma_find_byte_shift(a: Seq<u8>, c: Seq<u8>, b: u8, j: int)
    requires
        0 <= j,
    ensures
        find_byte(a + c, b, a.len() + j) == match find_byte(c, b, j) {
            Some(k) => Some(a.len() + k),
            None => None::<int>,
        },
    decreases c.len() - j,
{
    if j < c.len() && c[j] != b {
        lemma_find_byte_shift(a, c, b, j + 1);
    }
}

/// Splitting `a + c` from inside `c` gives the pieces of `c`.
proof fn lemma_split_shift(a: Seq<u8>, c: Seq<u8>, b: u8, j: int)
    requires
        0 <= j <= c.len(),
    ensures
        split_from(a + c, b, a.len() + j) == split_from(c, b, j),
    decreases c.len() - j,
{
    lemma_find_byte_shift(a, c, b, j);
    lemma_find_byte(c, b, j);
    match find_byte(c, b, j) {
        None => {
            assert((a + c).subrange(a.len() + j, (a + c).len() as int) =~= c.subrange(j, c.len() as int));
        },
        Some(k) => {
            assert((a + c).subrange(a.len() + j, a.len() + k) =~= c.subrange(j, k));
            lemma_split_shift(a, c, b, k + 1);
        },
    }
}

/// Splitting from a start inside the bounds gives at least one piece.
proof fn lemma_split_nonempty(s: Seq<u8>, b: u8, i: int)
    requires
        0 <= i <= s.len(),
    ensures
        split_from(s, b, i).len() > 0,
{
    lemma_find_byte(s, b, i);
}

/// Splitting `a + c`, where `a` ends with the separator, gives the pieces of
/// `a` but its last (empty) one, then the pieces from the start of `c`.
proof fn lemma_split_prefix(a: Seq<u8>, c: Seq<u8>, b: u8, i: int)
    requires
        a.len() > 0,
        a.last() == b,
        0 <= i <= a.len(),
    ensures
        split_from(a + c, b, i) == split_from(a, b, i).drop_last() + split_from(a + c, b, a.len() as int),
    decreases a.len() - i,
{
    if i == a.len() {
        assert(split_from(a, b, i).drop_last() =~= Seq::<Seq<u8>>::empty());
        assert(Seq::<Seq<u8>>::empty() + split_from(a + c, b, a.len() as int) =~= split_from(a + c, b, a.len() as int));
    } else {
        lemma_find_byte(a, b, i);
        assert(find_byte(a, b, i) is Some) by {
            if find_byte(a, b, i) is None {
                assert(a[a.len() - 1] != b);
            }
        }
        lemma_find_byte_prefix(a, c, b, i);
        let k = find_byte(a, b, i).unwrap();
        assert((a + c).subrange(i, k) =~= a.subrange(i, k));
        lemma_split_prefix(a, c, b, k + 1);
        lemma_split_nonempty(a, b, k + 1);
        let p = seq![a.subrange(i, k)];
        let rest = split_from(a, b, k + 1);
        assert((p + rest).drop_last() =~= p + rest.drop_last());
        assert(p + (rest.drop_last() + split_from(a + c, b, a.len() as int)) =~= (p + rest.drop_last())
            + split_from(a + c, b, a.len() as int));
    }
}

/// The pieces of `a + c`, where `a` is empty or ends with the separator,
/// are the pieces of `a` and then those of `c`.
proof fn lemma_split_terminator_concat(a: Seq<u8>, c: Seq<u8>, b: u8)
    requires
        a.len() == 0 || a.last() == b,
    ensures
        split_terminator(a + c, b) == split_terminator(a, b) + split_terminator(c, b),
{
    if a.len() == 0 {
        assert(a + c =~= c);
        assert(split_terminator(a, b) =~= Seq::<Seq<u8>>::empty()) by {
            lemma_find_byte(a, b, 0);
        }
        assert(Seq::<Seq<u8>>::empty() + split_terminator(c, b) =~= split_terminator(c, b));
    } else {
        lemma_split_prefix(a, c, b, 0);
        lemma_split_shift(a, c, b, 0);
        lemma_split_nonempty(a, b, 0);
        lemma_split_nonempty(c, b, 0);
        let pa = split_from(a, b, 0);
        let pc = split_from(c, b, 0);
        // The last piece of `a` is empty: `a` ends with the separator.
        assert(pa.last().len() == 0) by {
            lemma_split_last_after_separator(a, b, 0);
        }
        assert(split_terminator(a, b) == pa.drop_last());
        let whole = pa.drop_last() + pc;
        assert(whole.last() == pc.last());
        if pc.last().len() == 0 {
            assert(whole.drop_last() =~= pa.drop_last() + pc.drop_last());
        }
    }
}

/// Splitting a sequence that ends with the separator gives an empty last
/// piece.
proof fn lemma_split_last_after_separator(s: Seq<u8>, b: u8, i: int)
    requires
        s.len() > 0,
        s.last() == b,
        0 <= i <= s.len(),
    ensures
        split_from(s, b, i).len() > 0,
        split_from(s, b, i).last().len() == 0,
    decreases s.len() - i,
{
    lemma_find_byte(s, b, i);
    if i < s.len() {
        assert(find_byte(s, b, i) is Some) by {
            if find_byte(s, b, i) is None {
                assert(s[s.len() - 1] != b);
            }
        }
        let k = find_byte(s, b, i).unwrap();
        lemma_split_last_after_separator(s, b, k + 1);
    }
}

/// The entries of the pieces of two lists are those of the first, then
/// those of the second.
proof fn lemma_pieces_text_concat(p: Seq<Seq<u8>>, q: Seq<Seq<u8>>, dicts: Seq<TagName>)
    ensures
        pieces_text(p + q, dicts) == pieces_text(p, dicts) + pieces_text(q, dicts),
    decreases q.len(),
{
    if q.len() == 0 {
        assert(p + q =~= p);
        assert(pieces_text(p, dicts) + Seq::<char>::empty() =~= pieces_text(p, dicts));
    } else {
        assert((p + q).drop_last() =~= p + q.drop_last());
        lemma_pieces_text_concat(p, q.drop_last(), dicts);
        assert(pieces_text(p, dicts) + pieces_text(q.drop_last(), dicts) + piece_text(q.last(), dicts)
            =~= pieces_text(p, dicts) + (pieces_text(q.drop_last(), dicts) + piece_text(q.last(), dicts)));
    }
}

/// Decoding two messages one after the other, where the first is empty or
/// ends with `|`: the whole decodes exactly where both do, and its text is
/// the text of the first without its closing `}` followed by the text of
/// the second without its opening `{`.
pub proof fn law_decode_concatenation(a: Seq<u8>, c: Seq<u8>, dicts: Seq<TagName>)
    requires
        a.len() == 0 || a.last() == SEPARATOR,
    ensures
        decodable(a + c) == (decodable(a) && decodable(c)),
        decode_text(a + c, dicts) == decode_text(a, dicts).drop_last() + decode_text(c, dicts).subrange(
            1,
            decode_text(c, dicts).len() as int,
        ),
{
    lemma_split_terminator_concat(a, c, SEPARATOR);
    let pa = split_terminator(a, SEPARATOR);
    let pc = split_terminator(c, SEPARATOR);
    lemma_pieces_text_concat(pa, pc, dicts);
    let ta = pieces_text(pa, dicts);
    let tc = pieces_text(pc, dicts);
    reveal_strlit("{");
    reveal_strlit("}");
    assert(decode_text(a, dicts).drop_last() =~= "{"@ + ta);
    assert(decode_text(c, dicts).subrange(1, decode_text(c, dicts).len() as int) =~= tc + "}"@);
    assert(decode_text(a + c, dicts) =~= ("{"@ + ta) + (tc + "}"@));
    let pac = pa + pc;
    assert(decodable(a + c) ==> decodable(a)) by {
        if decodable(a + c) {
            assert forall|i: int| 0 <= i < pa.len() implies piece_ok(#[trigger] pa[i]) by {
                assert(pac[i] == pa[i]);
            }
        }
    }
    assert(decodable(a + c) ==> decodable(c)) by {
        if decodable(a + c) {
            assert forall|i: int| 0 <= i < pc.len() implies piece_ok(#[trigger] pc[i]) by {
                assert(pac[pa.len() + i] == pc[i]);
            }
        }
    }
    assert(decodable(a) && decodable(c) ==> decodable(a + c)) by {
        if decodable(a) && decodable(c) {
            assert forall|i: int| 0 <= i < pac.len() implies piece_ok(#[trigger] pac[i]) by {
                if i < pa.len() {
                    assert(piece_ok(pa[i]));
                } else {
                    assert(pac[i] == pc[i - pa.len()]);
                    assert(piece_ok(pc[i - pa.len()]));
                }
            }
        }
    }
}

/// The fields of several entries are those of each entry, one after the
/// other: no entry, listed in the table or not, changes what the others
/// write.
pub proof fn law_entries_text_concat(
    a: Seq<(Seq<char>, Option<Seq<char>>)>,
    b: Seq<(Seq<char>, Option<Seq<char>>)>,
    dicts: Seq<TagName>,
)
    ensures
        entries_text(a + b, dicts) == entries_text(a, dicts) + entries_text(b, dicts),
    decreases b.len(),
{
    if b.len() == 0 {
        assert(a + b =~= a);
        assert(entries_text(a, dicts) + entries_text(b, dicts) =~= entries_text(a, dicts));
    } else {
        assert((a + b).drop_last() =~= a + b.drop_last());
        law_entries_text_concat(a, b.drop_last(), dicts);
        assert(entries_text(a + b, dicts) =~= entries_text(a, dicts) + entries_text(b, dicts));
    }
}

/// One entry writes the fields of the table rows named like its key.
pub proof fn law_entries_text_single(e: (Seq<char>, Option<Seq<char>>), dicts: Seq<TagName>)
    ensures
        entries_text(seq![e], dicts) == matching_fields(dicts, e.0, e.1.unwrap()),
{
    assert(seq![e].drop_last() =~= Seq::<(Seq<char>, Option<Seq<char>>)>::empty());
    assert(seq![e].last() == e);
    assert(entries_text(Seq::<(Seq<char>, Option<Seq<char>>)>::empty(), dicts) =~= Seq::<char>::empty());
    assert(Seq::<char>::empty() + matching_fields(dicts, e.0, e.1.unwrap()) =~= matching_fields(
        dicts,
        e.0,
        e.1.unwrap(),
    ));
}

/// The rows of a table write their fields one after the other.
pub proof fn law_matching_fields_concat(d1: Seq<TagName>, d2: Seq<TagName>, key: Seq<char>, value: Seq<char>)
    ensures
        matching_fields(d1 + d2, key, value) == matching_fields(d1, key, value) + matching_fields(
            d2,
            key,
            value,
        ),
    decreases d2.len(),
{
    if d2.len() == 0 {
        assert(d1 + d2 =~= d1);
        assert(matching_fields(d1, key, value) + matching_fields(d2, key, value) =~= matching_fields(
            d1,
            key,
            value,
        ));
    } else {
        assert((d1 + d2).drop_last() =~= d1 + d2.drop_last());
        law_matching_fields_concat(d1, d2.drop_last(), key, value);
        assert(matching_fields(d1 + d2, key, value) =~= matching_fields(d1, key, value)
            + matching_fields(d2, key, value));
    }
}

/// A row named like the key writes `tag=value|`; another row writes nothing.
pub proof fn law_matching_fields_row(row: TagName, key: Seq<char>, value: Seq<char>)
    ensures
        matching_fields(seq![row], key, value) == if row.name@ == key {
            decode_utf8(decimal(row.tag as nat)) + "="@ + value + "|"@
        } else {
            Seq::empty()
        },
{
    assert(seq![row].drop_last() =~= Seq::<TagName>::empty());
    assert(seq![row].last() == row);
    assert(matching_fields(Seq::<TagName>::empty(), key, value) =~= Seq::<char>::empty());
    assert(Seq::<char>::empty() + tag_field_text(row.tag, value) =~= tag_field_text(row.tag, value));
    assert(Seq::<char>::empty() + Seq::<char>::empty() =~= Seq::<char>::empty());
}

/// A key that no row names writes nothing.
pub proof fn law_unlisted_key_writes_nothing(dicts: Seq<TagName>, key: Seq<char>, value: Seq<char>)
    requires
        forall|i: int| 0 <= i < dicts.len() ==> (#[trigger] dicts[i]).name@ != key,
    ensures
        matching_fields(dicts, key, value) == Seq::<char>::empty(),
    decreases dicts.len(),
{
    if dicts.len() > 0 {
        let r = dicts.drop_last();
        assert forall|i: int| 0 <= i < r.len() implies (#[trigger] r[i]).name@ != key by {
            assert(r[i] == dicts[i]);
        }
        law_unlisted_key_writes_nothing(r, key, value);
        assert(dicts[dicts.len() - 1].name@ != key);
        assert(Seq::<char>::empty() + Seq::<char>::empty() =~= Seq::<char>::empty());
    }
}

/// The entries that decoding writes for a field: those of the table rows
/// one after the other.
pub proof fn law_matching_entries_concat(d1: Seq<TagName>, d2: Seq<TagName>, key: int, value: Seq<char>)
    ensures
        matching_entries(d1 + d2, key, value) == matching_entries(d1, key, value) + matching_entries(
            d2,
            key,
            value,
        ),
    decreases d2.len(),
{
    if d2.len() == 0 {
        assert(d1 + d2 =~= d1);
        assert(matching_entries(d1, key, value) + matching_entries(d2, key, value) =~= matching_entries(
            d1,
            key,
            value,
        ));
    } else {
        assert((d1 + d2).drop_last() =~= d1 + d2.drop_last());
        law_matching_entries_concat(d1, d2.drop_last(), key, value);
        assert(matching_entries(d1 + d2, key, value) =~= matching_entries(d1, key, value)
            + matching_entries(d2, key, value));
    }
}

/// A row with the field's tag writes `"name": "value", `; another row writes
/// nothing.
pub proof fn law_matching_entries_row(row: TagName, key: int, value: Seq<char>)
    ensures
        matching_entries(seq![row], key, value) == if row.tag == key {
            "\""@ + row.name@ + "\": \""@ + value + "\", "@
        } else {
            Seq::empty()
        },
{
    assert(seq![row].drop_last() =~= Seq::<TagName>::empty());
    assert(seq![row].last() == row);
    assert(matching_entries(Seq::<TagName>::empty(), key, value) =~= Seq::<char>::empty());
    assert(Seq::<char>::empty() + entry_text(row.name@, value) =~= entry_text(row.name@, value));
    assert(Seq::<char>::empty() + Seq::<char>::empty() =~= Seq::<char>::empty());
}

/// Pieces joined again with `b` between them.
pub open spec fn join_with(ps: Seq<Seq<u8>>, b: u8) -> Seq<u8>
    decreases ps.len(),
{
    if ps.len() == 0 {
        Seq::empty()
    } else if ps.len() == 1 {
        ps[0]
    } else {
        ps[0] + seq![b] + join_with(ps.drop_first(), b)
    }
}

/// Joining one more piece at the end puts `b` before it.
proof fn lemma_join_push(ps: Seq<Seq<u8>>, x: Seq<u8>, b: u8)
    requires
        ps.len() > 0,
    ensures
        join_with(ps.push(x), b) == join_with(ps, b) + seq![b] + x,
    decreases ps.len(),
{
    if ps.len() == 1 {
        assert(ps.push(x).drop_first() =~= seq![x]);
        assert(join_with(seq![x], b) == x);
        assert(ps.push(x)[0] == ps[0]);
        assert(join_with(ps, b) == ps[0]);
    } else {
        assert(ps.push(x).drop_first() =~= ps.drop_first().push(x));
        lemma_join_push(ps.drop_first(), x, b);
        assert(join_with(ps.push(x), b) =~= join_with(ps, b) + seq![b] + x);
    }
}

/// Splitting from `start` gives pieces without `b` that join back to the
/// rest of `s`.
proof fn lemma_split_from_join(s: Seq<u8>, b: u8, start: int)
    requires
        0 <= start <= s.len(),
    ensures
        join_with(split_from(s, b, start), b) == s.subrange(start, s.len() as int),
        forall|i: int, k: int|
            0 <= i < split_from(s, b, start).len() && 0 <= k < split_from(s, b, start)[i].len()
                ==> #[trigger] split_from(s, b, start)[i][k] != b,
    decreases s.len() - start,
{
    lemma_find_byte(s, b, start);
    match find_byte(s, b, start) {
        None => {},
        Some(k) => {
            lemma_split_from_join(s, b, k + 1);
            lemma_split_nonempty(s, b, k + 1);
            let rest = split_from(s, b, k + 1);
            let ps = seq![s.subrange(start, k)] + rest;
            assert(ps.drop_first() =~= rest);
            assert(ps[0] == s.subrange(start, k));
            assert(join_with(ps, b) =~= s.subrange(start, s.len() as int));
            assert forall|i: int, j: int| 0 <= i < ps.len() && 0 <= j < ps[i].len() implies #[trigger] ps[i][j]
                != b by {
                if i > 0 {
                    assert(ps[i] == rest[i - 1]);
                    assert(rest[i - 1][j] != b);
                }
            }
        },
    }
}

/// Splitting at `b` gives pieces that hold no `b` and that, joined again
/// with `b` between them, give back the input; splitting as
/// `split_terminator` does gives back the input without a last `b`.
pub proof fn law_split_and_join(s: Seq<u8>, b: u8)
    ensures
        join_with(split_from(s, b, 0), b) == s,
        forall|i: int, k: int|
            0 <= i < split_from(s, b, 0).len() && 0 <= k < split_from(s, b, 0)[i].len()
                ==> #[trigger] split_from(s, b, 0)[i][k] != b,
        join_with(split_terminator(s, b), b) == strip_trailing(s, b),
        forall|i: int, k: int|
            0 <= i < split_terminator(s, b).len() && 0 <= k < split_terminator(s, b)[i].len()
                ==> #[trigger] split_terminator(s, b)[i][k] != b,
{
    lemma_split_from_join(s, b, 0);
    assert(s.subrange(0, s.len() as int) =~= s);
    let parts = split_from(s, b, 0);
    lemma_split_nonempty(s, b, 0);
    if parts.last().len() == 0 {
        let init = parts.drop_last();
        assert(parts =~= init.push(parts.last()));
        if init.len() > 0 {
            lemma_join_push(init, parts.last(), b);
            assert(join_with(init, b) + seq![b] + parts.last() =~= join_with(init, b) + seq![b]);
            assert(s.len() > 0 && s.last() == b);
            assert(s.drop_last() =~= join_with(init, b));
        } else {
            assert(parts.len() == 1);
            assert(s =~= Seq::<u8>::empty());
        }
        assert forall|i: int, k: int| 0 <= i < init.len() && 0 <= k < init[i].len() implies #[trigger] init[i][k]
            != b by {
            assert(init[i] == parts[i]);
        }
    } else {
        if s.len() > 0 && s.last() == b {
            lemma_split_last_after_separator(s, b, 0);
        }
    }
}

} // verus!
