//! Tree entries and the payload of a tree object: one record per entry,
//! `mode SP name NUL digest`, with nothing between the records.

use crate::error::Error;
use crate::objects::{
    bytes_equal, find_byte, first_index_of, lemma_first_index_is, lemma_first_index_of,
};
use crate::tree_order::{compare_names, name_order, NameOrder};
use vstd::prelude::*;
use vstd::slice::{slice_subrange, slice_to_vec};

verus! {

/// What sort of thing a tree entry refers to.
#[derive(Debug, Clone, Copy, PartialEq, Eq, Structural)]
pub enum EntryMode {
    /// A regular file, mode `100644`.
    Regular,
    /// A file with an executable bit set, mode `100755`.
    Executable,
    /// A symbolic link, mode `120000`.
    Symlink,
    /// A directory, mode `40000`.
    Directory,
}

/// The ASCII digits under which a mode is written in a tree.
pub open spec fn mode_bytes(mode: EntryMode) -> Seq<u8> {
    match mode {
        EntryMode::Regular => seq![0x31u8, 0x30u8, 0x30u8, 0x36u8, 0x34u8, 0x34u8],
        EntryMode::Executable => seq![0x31u8, 0x30u8, 0x30u8, 0x37u8, 0x35u8, 0x35u8],
        EntryMode::Symlink => seq![0x31u8, 0x32u8, 0x30u8, 0x30u8, 0x30u8, 0x30u8],
        EntryMode::Directory => seq![0x34u8, 0x30u8, 0x30u8, 0x30u8, 0x30u8],
    }
}

/// The mode of a directory child, from what its metadata says: a directory,
/// else a symbolic link, else executable if any of the three executable
/// permission bits is set, else a regular file.
pub open spec fn mode_of(is_dir: bool, is_symlink: bool, permissions: u32) -> EntryMode {
    if is_dir {
        EntryMode::Directory
    } else if is_symlink {
        EntryMode::Symlink
    } else if permissions & 0o111 != 0 {
        EntryMode::Executable
    } else {
        EntryMode::Regular
    }
}

impl EntryMode {
    /// The mode that a child's metadata calls for.
    pub fn of(is_dir: bool, is_symlink: bool, permissions: u32) -> (mode: EntryMode)
        ensures
            mode == mode_of(is_dir, is_symlink, permissions),
    {
        if is_dir {
            EntryMode::Directory
        } else if is_symlink {
            EntryMode::Symlink
        } else if permissions & 0o111 != 0 {
            EntryMode::Executable
        } else {
            EntryMode::Regular
        }
    }

    /// The mode as it is written in a tree.
    pub fn bytes(&self) -> (out: Vec<u8>)
        ensures
            out@ == mode_bytes(*self),
    {
        match self {
            EntryMode::Regular => vec![0x31u8, 0x30u8, 0x30u8, 0x36u8, 0x34u8, 0x34u8],
            EntryMode::Executable => vec![0x31u8, 0x30u8, 0x30u8, 0x37u8, 0x35u8, 0x35u8],
            EntryMode::Symlink => vec![0x31u8, 0x32u8, 0x30u8, 0x30u8, 0x30u8, 0x30u8],
            EntryMode::Directory => vec![0x34u8, 0x30u8, 0x30u8, 0x30u8, 0x30u8],
        }
    }
}

/// A tree entry as the contracts see it.
pub struct EntryView {
    pub mode: Seq<u8>,
    pub name: Seq<u8>,
    pub hash: Seq<u8>,
}

/// One entry of a tree: the mode as written, the raw bytes of the name, and
/// the digest of the blob or tree that the entry refers to.
#[derive(Debug)]
pub struct TreeEntry {
    pub mode: Vec<u8>,
    pub name: Vec<u8>,
    pub hash: [u8; 20],
}

impl View for TreeEntry {
    type V = EntryView;

    open spec fn view(&self) -> EntryView {
        EntryView { mode: self.mode@, name: self.name@, hash: self.hash@ }
    }
}

/// The views of a list of entries, in the list's order.
pub open spec fn entry_views(entries: Seq<TreeEntry>) -> Seq<EntryView> {
    entries.map_values(|e: TreeEntry| e@)
}

/// Whether an entry refers to a directory.
pub open spec fn is_directory(entry: EntryView) -> bool {
    entry.mode == mode_bytes(EntryMode::Directory)
}

/// The canonical order of two entries: that of their names, each taken as a
/// directory's or a file's name.
pub open spec fn entry_order(a: EntryView, b: EntryView) -> NameOrder {
    name_order(a.name, is_directory(a), b.name, is_directory(b))
}

/// The record of one entry in a tree payload.
pub open spec fn record(entry: EntryView) -> Seq<u8> {
    entry.mode + seq![0x20u8] + entry.name + seq![0u8] + entry.hash
}

/// The payload of a tree with the given entries, in the given order.
pub open spec fn tree_payload(entries: Seq<EntryView>) -> Seq<u8>
    decreases entries.len(),
{
    if entries.len() == 0 {
        Seq::<u8>::empty()
    } else {
        record(entries.first()) + tree_payload(entries.drop_first())
    }
}

/// The first record of a tree payload and its length, if the payload
/// begins with a whole record. A record runs to its first NUL byte and
/// twenty bytes beyond; before the NUL, the first space parts mode from
/// name.
pub open spec fn first_record(data: Seq<u8>) -> Option<(EntryView, int)> {
    let nul = first_index_of(data, 0u8, 0, data.len() as int);
    let space = first_index_of(data, 0x20u8, 0, nul);
    if space < nul && nul + 20 < data.len() {
        Some(
            (
                EntryView {
                    mode: data.subrange(0, space),
                    name: data.subrange(space + 1, nul),
                    hash: data.subrange(nul + 1, nul + 21),
                },
                nul + 21,
            ),
        )
    } else {
        None
    }
}

/// The entries that a tree payload holds, if it splits into whole records.
pub open spec fn parse_tree_spec(data: Seq<u8>) -> Option<Seq<EntryView>>
    decreases data.len(),
    via parse_tree_decreases
{
    if data.len() == 0 {
        Some(Seq::<EntryView>::empty())
    } else {
        match first_record(data) {
            None => None,
            Some((entry, used)) => match parse_tree_spec(data.skip(used)) {
                None => None,
                Some(rest) => Some(seq![entry] + rest),
            },
        }
    }
}

#[via_fn]
proof fn parse_tree_decreases(data: Seq<u8>) {
    lemma_first_index_of(data, 0u8, 0, data.len() as int);
}

/// Whether an entry can be read back from its record: no space or NUL in
/// the mode, no NUL in the name, and a digest of twenty bytes.
pub open spec fn readable(entry: EntryView) -> bool {
    &&& forall|i: int|
        0 <= i < entry.mode.len() ==> #[trigger] entry.mode[i] != 0x20u8 && entry.mode[i] != 0u8
    &&& forall|i: int| 0 <= i < entry.name.len() ==> #[trigger] entry.name[i] != 0u8
    &&& entry.hash.len() == 20
}

impl TreeEntry {
    /// An entry of the given mode.
    pub fn new(mode: EntryMode, name: Vec<u8>, hash: [u8; 20]) -> (entry: TreeEntry)
        ensures
            entry@ == (EntryView { mode: mode_bytes(mode), name: name@, hash: hash@ }),
    {
        TreeEntry { mode: mode.bytes(), name, hash }
    }

    /// Whether the entry refers to a directory.
    pub fn is_dir(&self) -> (dir: bool)
        ensures
            dir == is_directory(self@),
    {
        bytes_equal(self.mode.as_slice(), EntryMode::Directory.bytes().as_slice())
    }

    /// How this entry stands to `other` in the canonical order.
    pub fn compare(&self, other: &TreeEntry) -> (order: NameOrder)
        ensures
            order == entry_order(self@, other@),
    {
        compare_names(self.name.as_slice(), self.is_dir(), other.name.as_slice(), other.is_dir())
    }
}

/// The payload grows by one record with each entry added at the end.
pub proof fn lemma_payload_push(entries: Seq<EntryView>, entry: EntryView)
    ensures
        tree_payload(entries.push(entry)) == tree_payload(entries) + record(entry),
    decreases entries.len(),
{
    let longer = entries.push(entry);
    if entries.len() == 0 {
        assert(longer.drop_first() =~= Seq::<EntryView>::empty());
        assert(tree_payload(longer.drop_first()) =~= Seq::<u8>::empty());
        assert(tree_payload(longer) =~= tree_payload(entries) + record(entry));
    } else {
        lemma_payload_push(entries.drop_first(), entry);
        assert(longer.drop_first() =~= entries.drop_first().push(entry));
        assert(longer.first() == entries.first());
        assert(tree_payload(longer) =~= tree_payload(entries) + record(entry));
    }
}

/// Writes the payload of a tree that holds `entries` in their order.
pub fn encode_tree(entries: &Vec<TreeEntry>) -> (out: Vec<u8>)
    ensures
        out@ == tree_payload(entry_views(entries@)),
{
    let mut out: Vec<u8> = Vec::new();
    let mut i: usize = 0;
    let ghost views = entry_views(entries@);
    assert(views.take(0) =~= Seq::<EntryView>::empty());
    while i < entries.len()
        invariant
            0 <= i <= entries.len(),
            views == entry_views(entries@),
            out@ == tree_payload(views.take(i as int)),
        decreases entries.len() - i,
    {
        let entry = &entries[i];
        let ghost before = out@;
        out.extend_from_slice(entry.mode.as_slice());
        out.push(0x20u8);
        out.extend_from_slice(entry.name.as_slice());
        out.push(0u8);
        out.extend_from_slice(entry.hash.as_slice());
        proof {
            assert(out@ =~= before + record(entry@));
            assert(views[i as int] == entry@);
            assert(views.take(i + 1) =~= views.take(i as int).push(entry@));
            lemma_payload_push(views.take(i as int), entry@);
        }
        i += 1;
    }
    assert(views.take(i as int) =~= views);
    out
}

/// Copies twenty bytes into a digest.
fn digest_from(bytes: &[u8]) -> (hash: [u8; 20])
    requires
        bytes@.len() == 20,
    ensures
        hash@ == bytes@,
{
    let mut hash: [u8; 20] = [0u8;20];
    let mut i: usize = 0;
    while i < 20
        invariant
            0 <= i <= 20,
            bytes@.len() == 20,
            forall|k: int| 0 <= k < i ==> hash@[k] == bytes@[k],
        decreases 20 - i,
    {
        hash[i] = bytes[i];
        i += 1;
    }
    assert(hash@ =~= bytes@);
    hash
}

/// Reads the first entry of a tree payload, and says how many bytes its
/// record takes. An empty payload has no entry; one that begins with less
/// than a whole record is malformed.
pub fn next_entry(data: &[u8]) -> (out: Result<Option<(TreeEntry, usize)>, Error>)
    ensures
        match out {
            Ok(None) => data@.len() == 0,
            Ok(Some(found)) => data@.len() > 0 && first_record(data@) == Some(
                (found.0@, found.1 as int),
            ),
            Err(e) => e == Error::MalformedTree && data@.len() > 0 && first_record(data@) is None,
        },
{
    if data.len() == 0 {
        return Ok(None);
    }
    let nul = find_byte(data, 0u8, data.len());
    let space = find_byte(data, 0x20u8, nul);
    if space >= nul || data.len() - nul <= 20 {
        return Err(Error::MalformedTree);
    }
    let mode = slice_to_vec(slice_subrange(data, 0, space));
    let name = slice_to_vec(slice_subrange(data, space + 1, nul));
    let hash = digest_from(slice_subrange(data, nul + 1, nul + 21));
    Ok(Some((TreeEntry { mode, name, hash }, nul + 21)))
}

/// Splits a tree payload into its entries.
pub fn parse_tree(data: &[u8]) -> (out: Result<Vec<TreeEntry>, Error>)
    ensures
        match out {
            Ok(entries) => parse_tree_spec(data@) == Some(entry_views(entries@)),
            Err(e) => e == Error::MalformedTree && parse_tree_spec(data@) is None,
        },
{
    let mut entries: Vec<TreeEntry> = Vec::new();
    let mut pos: usize = 0;
    assert(data@.skip(0) =~= data@);
    assert(entry_views(entries@) =~= Seq::<EntryView>::empty());
    assert(forall|rest: Seq<EntryView>| Seq::<EntryView>::empty() + rest =~= rest);
    while pos < data.len()
        invariant
            0 <= pos <= data@.len(),
            parse_tree_spec(data@) == match parse_tree_spec(data@.skip(pos as int)) {
                None => None::<Seq<EntryView>>,
                Some(rest) => Some(entry_views(entries@) + rest),
            },
        decreases data.len() - pos,
    {
        let tail = slice_subrange(data, pos, data.len());
        assert(tail@ =~= data@.skip(pos as int));
        match next_entry(tail) {
            Err(e) => {
                return Err(e);
            },
            Ok(None) => {
                return Err(Error::MalformedTree);
            },
            Ok(Some((entry, used))) => {
                proof {
                    lemma_first_index_of(tail@, 0u8, 0, tail@.len() as int);
                    let ghost before = entry_views(entries@);
                    let ghost rest = parse_tree_spec(tail@.skip(used as int));
                    assert(tail@.skip(used as int) =~= data@.skip(pos + used));
                    assert(entry_views(entries@.push(entry)) =~= before.push(entry@));
                    if rest is Some {
                        assert(before + (seq![entry@] + rest->0) =~= before.push(entry@)
                            + rest->0);
                    }
                }
                entries.push(entry);
                pos = pos + used;
            },
        }
    }
    assert(data@.skip(pos as int) =~= Seq::<u8>::empty());
    assert(entry_views(entries@) + Seq::<EntryView>::empty() =~= entry_views(entries@));
    Ok(entries)
}

/// Reading back a written tree gives its entries, in their order.
pub proof fn lemma_parse_encoded(entries: Seq<EntryView>)
    requires
        forall|i: int| 0 <= i < entries.len() ==> readable(#[trigger] entries[i]),
    ensures
        parse_tree_spec(tree_payload(entries)) == Some(entries),
    decreases entries.len(),
{
    if entries.len() > 0 {
        let first = entries.first();
        let others = entries.drop_first();
        let data = tree_payload(entries);
        assert(readable(first));
        assert forall|i: int| 0 <= i < others.len() implies readable(#[trigger] others[i]) by {
            assert(others[i] == entries[i + 1]);
        }
        lemma_parse_encoded(others);
        let space = first.mode.len() as int;
        let nul = space + 1 + first.name.len();
        assert(data =~= record(first) + tree_payload(others));
        assert forall|k: int| 0 <= k < nul implies data[k] != 0u8 by {
            if k < space {
                assert(data[k] == first.mode[k]);
            } else if k > space {
                assert(data[k] == first.name[k - space - 1]);
            }
        }
        assert(data[nul] == 0u8);
        lemma_first_index_is(data, 0u8, 0, data.len() as int, nul);
        assert forall|k: int| 0 <= k < space implies data[k] != 0x20u8 by {
            assert(data[k] == first.mode[k]);
        }
        assert(data[space] == 0x20u8);
        lemma_first_index_is(data, 0x20u8, 0, nul, space);
        assert(data.subrange(0, space) =~= first.mode);
        assert(data.subrange(space + 1, nul) =~= first.name);
        assert(data.subrange(nul + 1, nul + 21) =~= first.hash);
        assert(data.skip(nul + 21) =~= tree_payload(others));
        assert(seq![first] + others =~= entries);
    }
}

} // verus!
