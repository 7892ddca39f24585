//! Failures of the store.

use crate::codec::{CodecError, Fault};
use crate::text::{decimal, push_str, push_u64, push_usize, string};
use vstd::prelude::*;

verus! {

#[derive(Clone, Debug, PartialEq, Eq)]
pub enum StorageError {
    /// The database itself failed, with its own message.
    RocksDb(String),
    Serialization(CodecError),
    Deserialization(CodecError),
    CfNotFound(&'static str),
    Corruption(String),
    Io(String),
}

pub open spec fn fault_text(f: Fault) -> Seq<char> {
    match f {
        Fault::Short => "Unexpected length of input"@,
        Fault::Variant(tag) => "Unexpected variant tag: "@ + decimal(tag as nat),
        Fault::Bool(b) => "Invalid bool representation: "@ + decimal(b as nat),
        Fault::OptionTag(tag) => "Invalid Option representation: "@ + decimal(tag as nat)
            + ". The first byte must be 0 or 1"@,
        Fault::InvalidUtf8 { at, len } => "invalid utf-8 sequence of "@ + decimal(len as nat)
            + " bytes from index "@ + decimal(at as nat),
        Fault::IncompleteUtf8 { at } => "incomplete utf-8 byte sequence from index "@ + decimal(
            at as nat,
        ),
    }
}

pub open spec fn codec_error_text(e: CodecError) -> Seq<char> {
    match e {
        CodecError::TooLong => "invalid data"@,
        CodecError::Malformed(f) => fault_text(f),
        CodecError::TrailingBytes => "Not all bytes read"@,
    }
}

pub open spec fn storage_error_text(e: StorageError) -> Seq<char> {
    match e {
        StorageError::RocksDb(s) => "rocksdb error: "@ + s@,
        StorageError::Serialization(c) => "borsh serialization error: "@ + codec_error_text(c),
        StorageError::Deserialization(c) => "borsh deserialization error: "@ + codec_error_text(c),
        StorageError::CfNotFound(s) => "column family not found: "@ + s@,
        StorageError::Corruption(s) => "data corruption: "@ + s@,
        StorageError::Io(s) => "I/O error: "@ + s@,
    }
}

impl Fault {
    /// The fault as text.
    pub fn describe(&self) -> (r: String)
        ensures
            r@ == fault_text(*self),
    {
        let mut out: String;
        match self {
            Fault::Short => {
                out = string("Unexpected length of input");
            },
            Fault::Variant(tag) => {
                out = string("Unexpected variant tag: ");
                push_u64(&mut out, *tag as u64);
            },
            Fault::Bool(b) => {
                out = string("Invalid bool representation: ");
                push_u64(&mut out, *b as u64);
            },
            Fault::OptionTag(tag) => {
                out = string("Invalid Option representation: ");
                push_u64(&mut out, *tag as u64);
                push_str(&mut out, ". The first byte must be 0 or 1");
            },
            Fault::InvalidUtf8 { at, len } => {
                out = string("invalid utf-8 sequence of ");
                push_usize(&mut out, *len);
                push_str(&mut out, " bytes from index ");
                push_usize(&mut out, *at);
            },
            Fault::IncompleteUtf8 { at } => {
                out = string("incomplete utf-8 byte sequence from index ");
                push_usize(&mut out, *at);
            },
        }
        out
    }
}

impl CodecError {
    /// The failure as text.
    pub fn describe(&self) -> (r: String)
        ensures
            r@ == codec_error_text(*self),
    {
        match self {
            CodecError::TooLong => string("invalid data"),
            CodecError::Malformed(f) => f.describe(),
            CodecError::TrailingBytes => string("Not all bytes read"),
        }
    }
}

impl StorageError {
    /// The failure as text.
    pub fn describe(&self) -> (r: String)
        ensures
            r@ == storage_error_text(*self),
    {
        let mut out: String;
        match self {
            StorageError::RocksDb(s) => {
                out = string("rocksdb error: ");
                push_str(&mut out, s.as_str());
            },
            StorageError::Serialization(c) => {
                out = string("borsh serialization error: ");
                push_str(&mut out, c.describe().as_str());
            },
            StorageError::Deserialization(c) => {
                out = string("borsh deserialization error: ");
                push_str(&mut out, c.describe().as_str());
            },
            StorageError::CfNotFound(s) => {
                out = string("column family not found: ");
                push_str(&mut out, s);
            },
            StorageError::Corruption(s) => {
                out = string("data corruption: ");
                push_str(&mut out, s.as_str());
            },
            StorageError::Io(s) => {
                out = string("I/O error: ");
                push_str(&mut out, s.as_str());
            },
        }
        out
    }
}

} // verus!
