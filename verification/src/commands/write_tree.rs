//! Building the tree object of a directory from what was found in it.

use crate::error::Error;
use crate::objects::{
    bytes_equal, object_id, serialized, stores, Kind, Object, ObjectView, Written,
};
use crate::zlib::deflated;
use crate::tree::{
    encode_tree, entry_views, mode_bytes, mode_of, tree_payload, EntryMode, EntryView, TreeEntry,
};
use crate::tree_sort::{arranges, sort_entries};
use vstd::prelude::*;
use vstd::slice::slice_to_vec;

verus! {

/// The name of the store's own directory, `.git`, which no tree lists.
pub open spec fn reserved_name() -> Seq<u8> {
    seq![0x2eu8, 0x67u8, 0x69u8, 0x74u8]
}

/// A child of a directory as the contracts see it.
pub struct ChildView {
    pub name: Seq<u8>,
    pub is_dir: bool,
    pub is_symlink: bool,
    pub permissions: u32,
    pub target: Option<Seq<u8>>,
}

/// One child of a directory: its name and what its metadata says, and the
/// digest of the object written for it. The digest is that of the blob for a
/// file, and of the tree for a subdirectory; `None` says that there is
/// nothing to refer to, as for a subdirectory in which nothing is tracked.
#[derive(Debug)]
pub struct Child {
    pub name: Vec<u8>,
    pub is_dir: bool,
    pub is_symlink: bool,
    /// The permission bits of the child's mode.
    pub permissions: u32,
    pub target: Option<[u8; 20]>,
}

impl View for Child {
    type V = ChildView;

    open spec fn view(&self) -> ChildView {
        ChildView {
            name: self.name@,
            is_dir: self.is_dir,
            is_symlink: self.is_symlink,
            permissions: self.permissions,
            target: match self.target {
                Some(hash) => Some(hash@),
                None => None,
            },
        }
    }
}

/// The views of a list of children, in the list's order.
pub open spec fn child_views(children: Seq<Child>) -> Seq<ChildView> {
    children.map_values(|c: Child| c@)
}

/// Whether a child gets an entry in its parent's tree: it is not the
/// store's own directory, and there is an object to refer to.
pub open spec fn is_listed(child: ChildView) -> bool {
    child.name != reserved_name() && child.target is Some
}

/// The entry of a child that is listed.
pub open spec fn entry_of(child: ChildView) -> EntryView {
    EntryView {
        mode: mode_bytes(mode_of(child.is_dir, child.is_symlink, child.permissions)),
        name: child.name,
        hash: child.target->0,
    }
}

/// The entries of the children that are listed, in the children's order.
pub open spec fn listed(children: Seq<ChildView>) -> Seq<EntryView>
    decreases children.len(),
{
    if children.len() == 0 {
        Seq::<EntryView>::empty()
    } else if is_listed(children.last()) {
        listed(children.drop_last()).push(entry_of(children.last()))
    } else {
        listed(children.drop_last())
    }
}

/// The tree object whose entries are `entries`, in this order.
pub open spec fn tree_object(entries: Seq<EntryView>) -> ObjectView {
    ObjectView {
        kind: Kind::Tree,
        expected_size: tree_payload(entries).len() as u64,
        reader: tree_payload(entries),
    }
}

/// Whether `out` is what writing the tree `tree` owes: where its
/// serialized form compresses, the tree's digest with the compressed
/// stream, which is then a faithful stored form; and `Io` where compressing
/// fails.
pub open spec fn written_tree_for(out: Result<Option<Written>, Error>, tree: ObjectView) -> bool {
    match deflated(serialized(tree)) {
        Some(bytes) => {
            &&& out matches Ok(Some(written))
            &&& written.hash@ == object_id(tree)
            &&& written.data@ == bytes
            &&& stores(written, tree)
        },
        None => out matches Err(e) && e == Error::Io,
    }
}

/// What is to be done with a child before its parent's tree can be built.
#[derive(Debug, Clone, Copy, PartialEq, Eq, Structural)]
pub enum Step {
    /// Leave it out: it is the store's own directory.
    Skip,
    /// Build the tree of this subdirectory first.
    Descend,
    /// Store the file's content as a blob.
    StoreBlob,
}

/// The step that a child calls for.
pub open spec fn step_for(name: Seq<u8>, is_dir: bool) -> Step {
    if name == reserved_name() {
        Step::Skip
    } else if is_dir {
        Step::Descend
    } else {
        Step::StoreBlob
    }
}

/// Decides what to do with a child of the given name.
pub fn plan_child(name: &[u8], is_dir: bool) -> (step: Step)
    ensures
        step == step_for(name@, is_dir),
{
    let reserved: [u8; 4] = [0x2eu8, 0x67u8, 0x69u8, 0x74u8];
    assert(reserved@ =~= reserved_name());
    if bytes_equal(name, reserved.as_slice()) {
        Step::Skip
    } else if is_dir {
        Step::Descend
    } else {
        Step::StoreBlob
    }
}

/// The entries of the children that are listed, in the children's order.
pub fn list_entries(children: &Vec<Child>) -> (entries: Vec<TreeEntry>)
    ensures
        entry_views(entries@) == listed(child_views(children@)),
{
    let ghost given = child_views(children@);
    let mut entries: Vec<TreeEntry> = Vec::new();
    let mut i: usize = 0;
    proof {
        assert(given.take(0) =~= Seq::<ChildView>::empty());
        assert(entry_views(entries@) =~= Seq::<EntryView>::empty());
    }
    while i < children.len()
        invariant
            0 <= i <= children@.len(),
            given == child_views(children@),
            entry_views(entries@) == listed(given.take(i as int)),
        decreases children.len() - i,
    {
        let child = &children[i];
        proof {
            assert(given.take(i + 1).drop_last() =~= given.take(i as int));
            assert(given.take(i + 1).last() == child@);
        }
        match plan_child(child.name.as_slice(), child.is_dir) {
            Step::Skip => {},
            _ => match child.target {
                None => {},
                Some(hash) => {
                    let mode = EntryMode::of(child.is_dir, child.is_symlink, child.permissions);
                    let entry = TreeEntry::new(mode, slice_to_vec(child.name.as_slice()), hash);
                    proof {
                        assert(entry@ == entry_of(child@));
                        assert(entry_views(entries@.push(entry)) =~= entry_views(entries@).push(
                            entry@,
                        ));
                    }
                    entries.push(entry);
                },
            },
        }
        i += 1;
    }
    assert(given.take(i as int) =~= given);
    entries
}

/// The tree object of a directory with the given children: the entries of
/// the listed children, in canonical order. A directory with no listed
/// child has no tree object at all.
pub fn tree_object_for(children: &Vec<Child>) -> (out: Option<Object>)
    ensures
        listed(child_views(children@)).len() == 0 <==> out is None,
        out matches Some(object) ==> exists|entries: Seq<EntryView>| #[trigger]
            arranges(entries, listed(child_views(children@))) && object@ == tree_object(entries),
{
    let entries = list_entries(children);
    let ghost given = entry_views(entries@);
    let sorted = sort_entries(entries);
    if sorted.len() == 0 {
        return None;
    }
    let payload = encode_tree(&sorted);
    let object = Object::new(Kind::Tree, payload);
    assert(arranges(entry_views(sorted@), given));
    Some(object)
}

/// Builds and packs the tree object of a directory with the given children.
/// `Ok(None)` says that the directory has no listed child and so no tree;
/// its parent then has nothing to refer to.
pub fn write_tree_for(children: &Vec<Child>) -> (out: Result<Option<Written>, Error>)
    ensures
        listed(child_views(children@)).len() == 0 ==> out matches Ok(None),
        listed(child_views(children@)).len() > 0 ==> exists|entries: Seq<EntryView>| #[trigger]
            arranges(entries, listed(child_views(children@))) && written_tree_for(
                out,
                tree_object(entries),
            ),
{
    match tree_object_for(children) {
        None => Ok(None),
        Some(object) => match object.write() {
            Ok(written) => Ok(Some(written)),
            Err(e) => Err(e),
        },
    }
}

/// The digest of the root directory's tree, which must exist: there is no
/// tree to speak of where nothing is tracked.
pub fn root_tree(tree: Option<[u8; 20]>) -> (out: Result<[u8; 20], Error>)
    ensures
        match tree {
            Some(hash) => out == Ok::<[u8; 20], Error>(hash),
            None => out == Err::<[u8; 20], Error>(Error::EmptyTree),
        },
{
    match tree {
        Some(hash) => Ok(hash),
        None => Err(Error::EmptyTree),
    }
}

/// A directory none of whose children has an object to refer to, as one
/// that holds only subdirectories without tracked content, has no listed
/// entry, hence no tree object, and so is itself left out of its parent.
pub proof fn lemma_nothing_to_list(children: Seq<ChildView>)
    requires
        forall|i: int| 0 <= i < children.len() ==> (#[trigger] children[i]).target is None,
    ensures
        listed(children).len() == 0,
    decreases children.len(),
{
    if children.len() > 0 {
        assert(children.last().target is None);
        assert forall|i: int| 0 <= i < children.drop_last().len() implies (
        #[trigger] children.drop_last()[i]).target is None by {
            assert(children.drop_last()[i] == children[i]);
        }
        lemma_nothing_to_list(children.drop_last());
    }
}

/// A child without an object to refer to adds nothing to its parent's
/// entries, wherever it stands among its siblings.
pub proof fn lemma_absent_child_is_left_out(before: Seq<ChildView>, child: ChildView, after: Seq<ChildView>)
    requires
        child.target is None,
    ensures
        listed(before.push(child) + after) == listed(before + after),
    decreases after.len(),
{
    if after.len() == 0 {
        assert(before.push(child) + after =~= before.push(child));
        assert(before + after =~= before);
        assert(before.push(child).drop_last() =~= before);
    } else {
        let with = before.push(child) + after;
        let without = before + after;
        assert(with.drop_last() =~= before.push(child) + after.drop_last());
        assert(without.drop_last() =~= before + after.drop_last());
        assert(with.last() == without.last());
        lemma_absent_child_is_left_out(before, child, after.drop_last());
    }
}

} // verus!
