//! Where a field of a decoded message goes, by its tag: the standard header
//! (required or optional fields), the standard trailer (required or optional
//! fields), or the body.
use vstd::prelude::*;

verus! {

/// The part of a message that a field belongs to.
#[derive(Clone, Copy, Debug, PartialEq, Eq, Structural)]
pub enum Section {
    HeaderRequired,
    HeaderOptional,
    TrailerRequired,
    TrailerOptional,
    Body,
}

/// The required fields of the standard header: `BeginString <8>`,
/// `BodyLength <9>`, `MsgType <35>`, `SenderCompID <49>`, `TargetCompID <56>`,
/// `MsgSeqNum <34>`, `SendingTime <52>`.
pub open spec fn is_required_header_tag(tag: u32) -> bool {
    tag == 8 || tag == 9 || tag == 35 || tag == 49 || tag == 56 || tag == 34 || tag == 52
}

/// The optional fields of the standard header.
pub open spec fn is_optional_header_tag(tag: u32) -> bool {
    tag == 115 || tag == 128 || tag == 90 || tag == 91 || tag == 50 || tag == 142 || tag == 57
        || tag == 143 || tag == 116 || tag == 144 || tag == 129 || tag == 145 || tag == 43 || tag
        == 97 || tag == 122 || tag == 212 || tag == 213 || tag == 347 || tag == 369 || tag == 627
        || tag == 628 || tag == 629 || tag == 640
}

/// The required field of the standard trailer: `CheckSum <10>`.
pub open spec fn is_required_trailer_tag(tag: u32) -> bool {
    tag == 10
}

/// The optional fields of the standard trailer: `SignatureLength <93>` and
/// `Signature <89>`.
pub open spec fn is_optional_trailer_tag(tag: u32) -> bool {
    tag == 93 || tag == 89
}

/// The section of `tag`; the lists are tried in the order above, and a tag in
/// none of them belongs to the body.
pub open spec fn section_of(tag: u32) -> Section {
    if is_required_header_tag(tag) {
        Section::HeaderRequired
    } else if is_optional_header_tag(tag) {
        Section::HeaderOptional
    } else if is_required_trailer_tag(tag) {
        Section::TrailerRequired
    } else if is_optional_trailer_tag(tag) {
        Section::TrailerOptional
    } else {
        Section::Body
    }
}

/// The section of `tag`.
pub fn section_of_tag(tag: u32) -> (s: Section)
    ensures
        s == section_of(tag),
{
    match tag {
        8 | 9 | 35 | 49 | 56 | 34 | 52 => Section::HeaderRequired,
        115 | 128 | 90 | 91 | 50 | 142 | 57 | 143 | 116 | 144 | 129 | 145 | 43 | 97 | 122 | 212
        | 213 | 347 | 369 | 627 | 628 | 629 | 640 => Section::HeaderOptional,
        10 => Section::TrailerRequired,
        93 | 89 => Section::TrailerOptional,
        _ => Section::Body,
    }
}

/// The sections are those of the FIX 4.4 standard header and trailer: a tag
/// goes to the required header exactly when it is one of 8, 9, 35, 49, 56,
/// 34, 52; to the optional header exactly when it is one of the 23 optional
/// header tags; to the required trailer exactly when it is 10; to the
/// optional trailer exactly when it is 93 or 89; and to the body exactly when
/// it is in none of these lists.
pub proof fn law_sections(tag: u32)
    ensures
        (section_of(tag) == Section::HeaderRequired) <==> set![8u32, 9, 35, 49, 56, 34, 52].contains(tag),
        (section_of(tag) == Section::HeaderOptional) <==> set![
            115u32, 128, 90, 91, 50, 142, 57, 143, 116, 144, 129, 145, 43, 97, 122, 212, 213, 347,
            369, 627, 628, 629, 640,
        ].contains(tag),
        (section_of(tag) == Section::TrailerRequired) <==> tag == 10,
        (section_of(tag) == Section::TrailerOptional) <==> set![93u32, 89].contains(tag),
        (section_of(tag) == Section::Body) <==> !(set![
            8u32, 9, 35, 49, 56, 34, 52, 115, 128, 90, 91, 50, 142, 57, 143, 116, 144, 129, 145, 43,
            97, 122, 212, 213, 347, 369, 627, 628, 629, 640, 10, 93, 89,
        ].contains(tag)),
{
}

} // verus!
