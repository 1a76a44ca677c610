//! Hashing a file's content as a blob.

use crate::error::Error;
use crate::objects::{written_for, Kind, Object, ObjectView, Written};
use vstd::prelude::*;

verus! {

/// The blob that holds `content`.
pub open spec fn blob_of(content: Seq<u8>) -> ObjectView {
    ObjectView { kind: Kind::Blob, expected_size: content.len() as u64, reader: content }
}

/// Hashes and packs the blob for a file's content. The digest names the
/// blob whether or not it is then put in the store.
pub fn hash_object(content: Vec<u8>) -> (out: Result<Written, Error>)
    ensures
        written_for(out, blob_of(content@)),
{
    Object::blob(content).write()
}

} // verus!
