//! A FIX 4.4 message codec between the `tag=value|` syntax and JSON, and the
//! decisions of a trading bot that speaks FIX through it.
pub mod dictionary;
pub mod text;
pub mod frame;
pub mod json;
pub mod tags;
pub mod decoder;
pub mod model;
pub mod tagvalue;
pub mod encoder;
pub mod json_message;
pub mod tag_table;
pub mod bot;
pub mod roundtrip;
pub mod json_roundtrip;
