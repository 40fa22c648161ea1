//! The plain records of a logon message, and the records of the tag table.
use vstd::prelude::*;

verus! {

/// The standard header of a logon message.
#[derive(Debug, PartialEq, Eq)]
pub struct Header {
    pub begin_string: String,
    pub body_length: u16,
    pub msg_type: String,
    pub sender_comp_id: String,
    pub target_comp_id: String,
    pub msg_seq_num: u16,
    pub sending_time: String,
}

/// The standard trailer of a logon message.
#[derive(Debug, PartialEq, Eq)]
pub struct Trailer {
    pub check_sum: String,
}

/// A logon message: header, body and trailer.
#[derive(Debug, PartialEq, Eq)]
pub struct LogonMsg {
    pub header: Header,
    pub body: LogonBody,
    pub trailer: Trailer,
}

/// The body of a logon message.
#[derive(Debug, PartialEq, Eq)]
pub struct LogonBody {
    pub encrypt_method: u8,
    pub heart_bt_int: u8,
    pub raw_data: String,
    pub password: String,
}

/// A FIX field of the tag table: its tag and its name.
#[derive(Debug, PartialEq, Eq)]
pub struct TagName {
    pub tag: u64,
    pub name: String,
}

/// A field as a pair of texts: its tag and its value.
#[derive(Debug, PartialEq, Eq)]
pub struct JSONMEssage {
    pub tag: String,
    pub value: String,
}

} // verus!
