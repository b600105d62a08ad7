//! The transfer service: token validation in front of the chunk store.
pub mod crypto;
pub mod service;

use vstd::prelude::*;
use crate::store::{lemma_read_all, lemma_read_head, read_slice, SMALL_OBJECT_LIMIT};

verus! {

/// How many bytes a read returns when the request names no size.
pub const DEFAULT_READ_SIZE: u64 = 1024;

/// A slice of an artifact: on the way in, the payload of a write and the
/// length that the caller declares for the whole artifact; on the way out,
/// the bytes read and the artifact's length.
#[derive(Debug)]
pub struct DataSlice {
    pub key: String,
    pub offset: u64,
    pub slice_value: Vec<u8>,
    pub length: u64,
}

/// A request to read or delete an artifact.
#[derive(Debug)]
pub struct FileRequest {
    pub key: String,
    pub offset: Option<u64>,
    pub size: Option<u64>,
}

impl FileRequest {
    /// The offset to read at: zero where the request names none.
    pub open spec fn start(self) -> u64 {
        match self.offset {
            Some(start) => start,
            None => 0,
        }
    }

    /// The number of bytes asked for: `DEFAULT_READ_SIZE` where the request
    /// names none.
    pub open spec fn wanted(self) -> u64 {
        match self.size {
            Some(size) => size,
            None => DEFAULT_READ_SIZE,
        }
    }

    /// The offset and the size of the read that the request asks for.
    pub fn range(&self) -> (r: (u64, u64))
        ensures
            r == (self.start(), self.wanted()),
    {
        let start: u64 = match self.offset {
            Some(start) => start,
            None => 0,
        };
        let size: u64 = match self.size {
            Some(size) => size,
            None => DEFAULT_READ_SIZE,
        };
        (start, size)
    }
}

/// How the boundary answers a read.
#[derive(Clone, Copy, Debug, PartialEq, Eq, Structural)]
pub enum Reply {
    /// The whole artifact, from its first byte to its last.
    Full,
    /// Part of the artifact, up to its last byte. `first` is the position of
    /// the first byte returned, counted from one.
    Tail { total: u64, first: u128 },
    /// Part of the artifact that ends before its last byte, or holds nothing.
    /// `first` and `last` are the positions of the first and the last byte
    /// returned, counted from one.
    Range { total: u64, first: u128, last: u128 },
}

/// The answer for a slice of `returned` bytes read at `offset` from an
/// artifact of `total` bytes.
pub open spec fn reply_for(offset: u64, returned: u64, total: u64) -> Reply {
    if offset == 0 && returned == total {
        Reply::Full
    } else if offset + returned == total {
        Reply::Tail { total, first: (offset + 1) as u128 }
    } else {
        Reply::Range { total, first: (offset + 1) as u128, last: (offset + returned) as u128 }
    }
}

/// Classifies a slice that was read as the full artifact or as a part of it.
pub fn classify(offset: u64, returned: u64, total: u64) -> (reply: Reply)
    ensures
        reply == reply_for(offset, returned, total),
{
    let end: u128 = offset as u128 + returned as u128;
    if offset == 0 && returned == total {
        Reply::Full
    } else if end == total as u128 {
        Reply::Tail { total, first: offset as u128 + 1 }
    } else {
        Reply::Range { total, first: offset as u128 + 1, last: end }
    }
}

impl DataSlice {
    /// The answer for this slice as a read returned it.
    pub fn reply(&self) -> (reply: Reply)
        ensures
            reply == reply_for(self.offset, self.slice_value@.len() as u64, self.length),
    {
        classify(self.offset, self.slice_value.len() as u64, self.length)
    }
}

/// A read from the start that asks for at least the artifact's length
/// returns the whole artifact and is answered in full. One that asks for
/// less, of an artifact that is not small, returns exactly the bytes asked
/// for and is answered as a part, with the artifact's length.
pub proof fn lemma_read_from_start(data: Seq<u8>, size: u64)
    requires
        data.len() <= u64::MAX,
    ensures
        size >= data.len() ==> read_slice(data, 0, size as int) == data && reply_for(
            0,
            data.len() as u64,
            data.len() as u64,
        ) == Reply::Full,
        size < data.len() && data.len() >= SMALL_OBJECT_LIMIT ==> read_slice(data, 0, size as int) == data.take(
            size as int,
        ) && reply_for(0, size, data.len() as u64) == (Reply::Range {
            total: data.len() as u64,
            first: 1,
            last: size as u128,
        }),
{
    if size >= data.len() {
        lemma_read_all(data, size as int);
    } else if data.len() >= SMALL_OBJECT_LIMIT {
        lemma_read_head(data, size as int);
    }
}

} // verus!
