//! Response body data, in byte or text form, owned or borrowed.

use vstd::prelude::*;

use vstd::slice::slice_to_vec;
use vstd::string::StringSliceAdditionalSpecFns;

verus! {

/// A piece of response body data.
pub enum ResponseData<'a> {
    /// Data in byte form.
    Bytes(Vec<u8>),
    /// Data in borrowed byte form.
    ByteSlice(&'a [u8]),
    /// Data in text form.
    Text(String),
    /// Data in borrowed text form.
    TextSlice(&'a str),
}

/// The bytes a piece of data holds; text counts as its UTF-8 bytes.
pub open spec fn data_bytes(data: ResponseData<'_>) -> Seq<u8> {
    match data {
        ResponseData::Bytes(bytes) => bytes@,
        ResponseData::ByteSlice(bytes) => bytes@,
        ResponseData::Text(text) => vstd::utf8::encode_utf8(text@),
        ResponseData::TextSlice(text) => text.spec_bytes(),
    }
}

/// The text a piece of data holds, if it is in text form.
pub open spec fn data_text(data: ResponseData<'_>) -> Option<Seq<char>> {
    match data {
        ResponseData::Text(text) => Some(text@),
        ResponseData::TextSlice(text) => Some(text@),
        _ => None,
    }
}

impl<'a> ResponseData<'a> {
    /// Borrows the content as a byte slice.
    pub fn as_bytes(&self) -> (bytes: &[u8])
        ensures
            bytes@ == data_bytes(*self),
    {
        match self {
            ResponseData::Bytes(bytes) => bytes.as_slice(),
            ResponseData::ByteSlice(bytes) => bytes,
            ResponseData::Text(text) => text.as_str().as_bytes(),
            ResponseData::TextSlice(text) => text.as_bytes(),
        }
    }

    /// Turns the content into a byte vector. Borrowed content is copied.
    pub fn into_bytes(self) -> (bytes: Vec<u8>)
        ensures
            bytes@ == data_bytes(self),
    {
        match self {
            ResponseData::Bytes(bytes) => bytes,
            ResponseData::ByteSlice(bytes) => slice_to_vec(bytes),
            ResponseData::Text(text) => text.as_str().as_bytes_vec(),
            ResponseData::TextSlice(text) => text.as_bytes_vec(),
        }
    }

    /// Borrows the content as text, if the content is in text form.
    pub fn as_string(&self) -> (text: Option<&str>)
        ensures
            match text {
                Some(t) => data_text(*self) == Some(t@),
                None => data_text(*self) is None,
            },
    {
        match self {
            ResponseData::Text(text) => Some(text.as_str()),
            ResponseData::TextSlice(text) => Some(text),
            _ => None,
        }
    }

    /// Extracts the content as owned text, if the content is in text form.
    /// Borrowed content is copied.
    pub fn into_string(self) -> (text: Option<String>)
        ensures
            match text {
                Some(t) => data_text(self) == Some(t@),
                None => data_text(self) is None,
            },
    {
        match self {
            ResponseData::Text(text) => Some(text),
            ResponseData::TextSlice(text) => Some(text.to_owned()),
            _ => None,
        }
    }
}

} // verus!
