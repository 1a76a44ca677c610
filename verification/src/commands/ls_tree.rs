//! Listing the entries of a stored tree.

use crate::error::Error;
use crate::hash::{hex_lower, to_hex};
use crate::objects::{kind_name, read_spec, Kind, Object, ObjectView};
use crate::tree::{entry_views, parse_tree, parse_tree_spec, EntryView, TreeEntry};
use vstd::prelude::*;
use vstd::utf8::{decode_utf8, encode_utf8, valid_utf8};

verus! {

/// The width to which a mode is padded in a listing.
pub const MODE_WIDTH: usize = 6;

/// The entries that listing an object yields. Only a tree is listed.
pub open spec fn tree_entries(object: ObjectView) -> Result<Seq<EntryView>, Error> {
    if object.kind != Kind::Tree {
        Err(Error::UnexpectedKind { found: object.kind })
    } else {
        match parse_tree_spec(object.reader) {
            None => Err(Error::MalformedTree),
            Some(entries) => Ok(entries),
        }
    }
}

/// The entries of a tree object that was read.
pub fn entries_of(object: &Object) -> (out: Result<Vec<TreeEntry>, Error>)
    ensures
        match out {
            Ok(entries) => tree_entries(object@) == Ok::<Seq<EntryView>, Error>(
                entry_views(entries@),
            ),
            Err(e) => tree_entries(object@) == Err::<Seq<EntryView>, Error>(e),
        },
{
    match object.kind {
        Kind::Tree => parse_tree(object.reader.as_slice()),
        found => Err(Error::UnexpectedKind { found }),
    }
}

/// The bytes to split into entries when an object is listed one entry at
/// a time: the payload of a tree, and of no other kind.
pub open spec fn tree_bytes(object: ObjectView) -> Result<Seq<u8>, Error> {
    if object.kind != Kind::Tree {
        Err(Error::UnexpectedKind { found: object.kind })
    } else {
        Ok(object.reader)
    }
}

/// The payload of a tree that was read, for listing it entry by entry
/// with `next_entry`.
pub fn payload_of(object: Object) -> (out: Result<Vec<u8>, Error>)
    ensures
        match out {
            Ok(bytes) => tree_bytes(object@) == Ok::<Seq<u8>, Error>(bytes@),
            Err(e) => tree_bytes(object@) == Err::<Seq<u8>, Error>(e),
        },
{
    match object.kind {
        Kind::Tree => Ok(object.reader),
        found => Err(Error::UnexpectedKind { found }),
    }
}

/// What listing a stored object yields.
pub open spec fn listing(stored: Seq<u8>) -> Result<Seq<EntryView>, Error> {
    match read_spec(stored) {
        Err(e) => Err(e),
        Ok(object) => tree_entries(object),
    }
}

/// Reads a stored tree and splits it into its entries.
pub fn read_entries(stored: &[u8]) -> (out: Result<Vec<TreeEntry>, Error>)
    ensures
        match out {
            Ok(entries) => listing(stored@) == Ok::<Seq<EntryView>, Error>(entry_views(entries@)),
            Err(e) => listing(stored@) == Err::<Seq<EntryView>, Error>(e),
        },
{
    match Object::read(stored) {
        Ok(object) => entries_of(&object),
        Err(e) => Err(e),
    }
}

/// How many `0` characters are put before a mode to bring it to the
/// listing's width, counted in characters.
pub open spec fn padding_len(mode: Seq<u8>) -> nat {
    if decode_utf8(mode).len() >= MODE_WIDTH {
        0
    } else {
        (MODE_WIDTH - decode_utf8(mode).len()) as nat
    }
}

/// A mode padded on the left with `0` to the listing's width.
pub open spec fn padded_mode(mode: Seq<u8>) -> Seq<u8> {
    Seq::new(padding_len(mode), |i: int| 0x30u8) + mode
}

/// `std::str::from_utf8`: the text that `bytes` encode, or nothing where
/// they are not valid UTF-8.
#[verifier::external_body]
fn as_text(bytes: &[u8]) -> (text: Option<&str>)
    ensures
        match text {
            Some(s) => valid_utf8(bytes@) && s@ == decode_utf8(bytes@),
            None => !valid_utf8(bytes@),
        },
{
    std::str::from_utf8(bytes).ok()
}

/// The line that names an entry and nothing else: the name and a newline.
pub open spec fn name_line(entry: EntryView) -> Seq<u8> {
    entry.name + seq![0x0au8]
}

/// The full line for an entry that refers to an object of the given kind:
/// the padded mode, the kind, the digest in hexadecimal and the name,
/// parted by spaces, and a newline.
pub open spec fn long_line(entry: EntryView, kind: Kind) -> Seq<u8> {
    padded_mode(entry.mode) + seq![0x20u8] + kind_name(kind) + seq![0x20u8] + encode_utf8(
        hex_lower(entry.hash),
    ) + seq![0x20u8] + entry.name + seq![0x0au8]
}

/// The line of a listing that gives names only.
pub fn format_name(entry: &TreeEntry) -> (line: Vec<u8>)
    ensures
        line@ == name_line(entry@),
{
    let mut line: Vec<u8> = Vec::new();
    line.extend_from_slice(entry.name.as_slice());
    line.push(0x0au8);
    assert(line@ =~= name_line(entry@));
    line
}

/// The line of a full listing, for an entry that refers to an object of
/// the given kind. A mode that is not valid UTF-8 is refused.
pub fn format_entry(entry: &TreeEntry, kind: Kind) -> (out: Result<Vec<u8>, Error>)
    ensures
        match out {
            Ok(line) => valid_utf8(entry@.mode) && line@ == long_line(entry@, kind),
            Err(e) => e == Error::MalformedTree && !valid_utf8(entry@.mode),
        },
{
    let chars = match as_text(entry.mode.as_slice()) {
        Some(text) => text.unicode_len(),
        None => {
            return Err(Error::MalformedTree);
        },
    };
    let mut line: Vec<u8> = Vec::new();
    let mut width: usize = chars;
    while width < MODE_WIDTH
        invariant
            chars <= width,
            chars < MODE_WIDTH ==> width <= MODE_WIDTH,
            chars >= MODE_WIDTH ==> width == chars,
            line@ == Seq::new((width - chars) as nat, |i: int| 0x30u8),
        decreases MODE_WIDTH - width,
    {
        line.push(0x30u8);
        width += 1;
        assert(line@ =~= Seq::new((width - chars) as nat, |i: int| 0x30u8));
    }
    assert(line@.len() == padding_len(entry@.mode));
    line.extend_from_slice(entry.mode.as_slice());
    assert(line@ =~= padded_mode(entry@.mode));
    let ghost mode_part = line@;
    line.push(0x20u8);
    line.extend_from_slice(kind.name_bytes().as_slice());
    line.push(0x20u8);
    let hex = to_hex(&entry.hash);
    line.extend_from_slice(hex.as_str().as_bytes());
    line.push(0x20u8);
    line.extend_from_slice(entry.name.as_slice());
    line.push(0x0au8);
    assert(line@ =~= mode_part + seq![0x20u8] + kind_name(kind) + seq![0x20u8] + encode_utf8(
        hex_lower(entry@.hash),
    ) + seq![0x20u8] + entry@.name + seq![0x0au8]);
    Ok(line)
}

} // verus!
