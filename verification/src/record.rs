//! The typed DynamoDB Streams change record: the payload that the reader
//! encodes into [`crate::Record::data`] and that a language client decodes.
//! [`AttrValue`] mirrors the DynamoDB attribute model, so item images
//! round-trip without loss. The JSON encoding itself is done where the
//! serialization derives live, outside the verified library.

use std::collections::BTreeMap;
use vstd::prelude::*;

verus! {

/// A DynamoDB attribute value (the full type set). A `BTreeMap` keeps map
/// key order deterministic.
#[derive(Debug, PartialEq)]
pub enum AttrValue {
    S(String),
    /// Numbers are carried as their canonical string form, as DynamoDB does.
    N(String),
    Bool(bool),
    Null,
    B(Vec<u8>),
    M(BTreeMap<String, AttrValue>),
    L(Vec<AttrValue>),
    Ss(Vec<String>),
    Ns(Vec<String>),
    Bs(Vec<Vec<u8>>),
}

pub type Item = BTreeMap<String, AttrValue>;

/// One item-level change from a DynamoDB stream.
#[derive(Debug, PartialEq, Default)]
pub struct StreamRecord {
    /// INSERT / MODIFY / REMOVE.
    pub event_name: Option<String>,
    pub sequence_number: Option<String>,
    pub size_bytes: Option<i64>,
    /// KEYS_ONLY / NEW_IMAGE / OLD_IMAGE / NEW_AND_OLD_IMAGES.
    pub stream_view_type: Option<String>,
    pub keys: Item,
    pub new_image: Option<Item>,
    pub old_image: Option<Item>,
}

} // verus!
