//! Printing the content of a stored blob.

use crate::error::Error;
use crate::objects::{payload_spec, read_spec, Kind, Object, ObjectView};
use crate::store::{dir_of, file_of, is_full_hex, Placement};
use vstd::prelude::*;

verus! {

/// Where the object to print lies. Printing is offered in the pretty form
/// only, so without it nothing is looked up.
pub fn locate(pretty_print: bool, object_hash: &str) -> (out: Result<Placement, Error>)
    ensures
        match out {
            Ok(place) => pretty_print && is_full_hex(object_hash@) && place.dir@ == dir_of(
                object_hash@,
            ) && place.file@ == file_of(object_hash@),
            Err(e) => if pretty_print {
                e == Error::NotFound && !is_full_hex(object_hash@)
            } else {
                e == Error::ModeRequired
            },
        },
{
    if !pretty_print {
        return Err(Error::ModeRequired);
    }
    Placement::lookup(object_hash)
}

/// What printing an object yields: the payload of a blob of the declared
/// size. Other kinds are not printed, and a short payload is an error.
pub open spec fn printed(object: ObjectView) -> Result<Seq<u8>, Error> {
    if object.kind != Kind::Blob {
        Err(Error::UnexpectedKind { found: object.kind })
    } else {
        payload_spec(object)
    }
}

/// The bytes to print for an object that was read.
pub fn show(object: Object) -> (out: Result<Vec<u8>, Error>)
    ensures
        match out {
            Ok(bytes) => printed(object@) == Ok::<Seq<u8>, Error>(bytes@),
            Err(e) => printed(object@) == Err::<Seq<u8>, Error>(e),
        },
{
    match object.kind {
        Kind::Blob => object.payload(),
        found => Err(Error::UnexpectedKind { found }),
    }
}

/// What printing a stored object yields.
pub open spec fn rendered(stored: Seq<u8>) -> Result<Seq<u8>, Error> {
    match read_spec(stored) {
        Err(e) => Err(e),
        Ok(object) => printed(object),
    }
}

/// Reads a stored object and gives the bytes to print for it.
pub fn render(stored: &[u8]) -> (out: Result<Vec<u8>, Error>)
    ensures
        match out {
            Ok(bytes) => rendered(stored@) == Ok::<Seq<u8>, Error>(bytes@),
            Err(e) => rendered(stored@) == Err::<Seq<u8>, Error>(e),
        },
{
    match Object::read(stored) {
        Ok(object) => show(object),
        Err(e) => Err(e),
    }
}

} // verus!
