//! Sorting the entries of a tree into the canonical order.

use crate::tree::{entry_order, entry_views, is_directory, EntryView, TreeEntry};
use crate::tree_order::{
    lemma_lex_le_transitive, lemma_name_order_flips, lemma_order_is_key_order, plain_name,
    NameOrder,
};
use vstd::prelude::*;
use vstd::seq_lib::{to_multiset_build, to_multiset_insert, to_multiset_len};

verus! {

/// Whether `a` may stand before `b`: it is not after it.
pub open spec fn in_order(a: EntryView, b: EntryView) -> bool {
    entry_order(a, b) != NameOrder::After
}

/// Whether every entry may stand before each one that follows it.
pub open spec fn sorted(entries: Seq<EntryView>) -> bool {
    forall|i: int, j: int|
        0 <= i < j < entries.len() ==> in_order(#[trigger] entries[i], #[trigger] entries[j])
}

/// Whether two entries can be siblings as far as their order goes: names
/// free of the path separator, and the same name not both for a file and
/// for a directory.
pub open spec fn compatible(a: EntryView, b: EntryView) -> bool {
    &&& plain_name(a.name)
    &&& plain_name(b.name)
    &&& a.name == b.name ==> is_directory(a) == is_directory(b)
}

/// Whether all entries can be siblings: on such entries the canonical
/// order is a total one.
pub open spec fn well_named(entries: Seq<EntryView>) -> bool {
    forall|i: int, j: int|
        0 <= i < entries.len() && 0 <= j < entries.len() ==> compatible(
            #[trigger] entries[i],
            #[trigger] entries[j],
        )
}

/// Whether no two entries bear the same name.
pub open spec fn distinct_names(entries: Seq<EntryView>) -> bool {
    forall|i: int, j: int|
        0 <= i < j < entries.len() ==> (#[trigger] entries[i]).name != (#[trigger] entries[j]).name
}

/// Whether `arranged` is a canonical arrangement of `given`: the same
/// entries, each as often, and in canonical order where `given` can be the
/// content of one directory.
pub open spec fn arranges(arranged: Seq<EntryView>, given: Seq<EntryView>) -> bool {
    &&& arranged.to_multiset() == given.to_multiset()
    &&& well_named(given) ==> sorted(arranged)
}

/// The canonical order is transitive on entries that can be siblings.
pub proof fn lemma_in_order_transitive(a: EntryView, b: EntryView, c: EntryView)
    requires
        compatible(a, b),
        compatible(b, c),
        compatible(a, c),
        in_order(a, b),
        in_order(b, c),
    ensures
        in_order(a, c),
{
    lemma_order_is_key_order(a.name, is_directory(a), b.name, is_directory(b));
    lemma_order_is_key_order(b.name, is_directory(b), c.name, is_directory(c));
    lemma_order_is_key_order(a.name, is_directory(a), c.name, is_directory(c));
    lemma_lex_le_transitive(
        crate::tree_order::sort_key(a.name, is_directory(a)),
        crate::tree_order::sort_key(b.name, is_directory(b)),
        crate::tree_order::sort_key(c.name, is_directory(c)),
    );
}

/// Two members of a list of siblings can be siblings.
pub proof fn lemma_members_compatible(entries: Seq<EntryView>, a: EntryView, b: EntryView)
    requires
        well_named(entries),
        entries.contains(a),
        entries.contains(b),
    ensures
        compatible(a, b),
{
    let i = choose|i: int| 0 <= i < entries.len() && entries[i] == a;
    let j = choose|j: int| 0 <= j < entries.len() && entries[j] == b;
    assert(compatible(entries[i], entries[j]));
}

/// Putting an entry where it belongs keeps a sorted list sorted.
proof fn lemma_insert_keeps_sorted(entries: Seq<EntryView>, entry: EntryView, at: int)
    requires
        sorted(entries),
        0 <= at <= entries.len(),
        forall|k: int| 0 <= k < at ==> entry_order(entry, #[trigger] entries[k]) != NameOrder::Before,
        at < entries.len() ==> entry_order(entry, entries[at]) == NameOrder::Before,
        forall|k: int| 0 <= k < entries.len() ==> compatible(entry, #[trigger] entries[k]),
        well_named(entries),
    ensures
        sorted(entries.insert(at, entry)),
{
    let longer = entries.insert(at, entry);
    assert forall|i: int, j: int| 0 <= i < j < longer.len() implies in_order(
        #[trigger] longer[i],
        #[trigger] longer[j],
    ) by {
        if j == at {
            // An entry before the new one.
            assert(longer[i] == entries[i]);
            lemma_name_order_flips(
                entry.name,
                is_directory(entry),
                entries[i].name,
                is_directory(entries[i]),
            );
        } else if i == at {
            // An entry after the new one.
            assert(longer[j] == entries[j - 1]);
            if j - 1 > at {
                assert(in_order(entries[at], entries[j - 1]));
                assert(compatible(entry, entries[at]));
                assert(compatible(entry, entries[j - 1]));
                assert(compatible(entries[at], entries[j - 1]));
                lemma_in_order_transitive(entry, entries[at], entries[j - 1]);
            }
        } else {
            let old_i = if i < at {
                i
            } else {
                i - 1
            };
            let old_j = if j < at {
                j
            } else {
                j - 1
            };
            assert(longer[i] == entries[old_i]);
            assert(longer[j] == entries[old_j]);
            assert(in_order(entries[old_i], entries[old_j]));
        }
    }
}

/// The first place in `sorted_so_far` whose entry comes after `entry`, or
/// the length if there is none.
fn insertion_point(sorted_so_far: &Vec<TreeEntry>, entry: &TreeEntry) -> (at: usize)
    ensures
        at <= sorted_so_far@.len(),
        forall|k: int|
            0 <= k < at ==> entry_order(entry@, #[trigger] entry_views(sorted_so_far@)[k])
                != NameOrder::Before,
        at < sorted_so_far@.len() ==> entry_order(entry@, entry_views(sorted_so_far@)[at as int])
            == NameOrder::Before,
{
    let mut at: usize = 0;
    while at < sorted_so_far.len()
        invariant
            0 <= at <= sorted_so_far@.len(),
            forall|k: int|
                0 <= k < at ==> entry_order(entry@, #[trigger] entry_views(sorted_so_far@)[k])
                    != NameOrder::Before,
        decreases sorted_so_far.len() - at,
    {
        let order = entry.compare(&sorted_so_far[at]);
        assert(entry_views(sorted_so_far@)[at as int] == sorted_so_far@[at as int]@);
        if order == NameOrder::Before {
            return at;
        }
        at += 1;
    }
    at
}

/// Sorts entries into the canonical order. The result holds the same
/// entries. Where the entries can be the content of one directory (no name
/// holds a path separator, and no name stands both for a file and for a
/// directory), each entry of the result is before or the same as every
/// later one.
pub fn sort_entries(entries: Vec<TreeEntry>) -> (out: Vec<TreeEntry>)
    ensures
        arranges(entry_views(out@), entry_views(entries@)),
        out@.len() == entries@.len(),
{
    broadcast use vstd::seq_lib::group_to_multiset_ensures;

    let ghost given = entry_views(entries@);
    let mut rest = entries;
    let mut out: Vec<TreeEntry> = Vec::new();
    proof {
        assert(entry_views(out@) =~= Seq::<EntryView>::empty());
        assert(entry_views(out@).to_multiset().add(given.to_multiset()) =~= given.to_multiset());
        assert forall|k: int| 0 <= k < given.len() implies given.contains(#[trigger] given[k]) by {}
    }
    while rest.len() > 0
        invariant
            out@.len() + rest@.len() == given.len(),
            entry_views(out@).to_multiset().add(entry_views(rest@).to_multiset())
                == given.to_multiset(),
            forall|k: int|
                0 <= k < out@.len() ==> given.contains(#[trigger] entry_views(out@)[k]),
            forall|k: int|
                0 <= k < rest@.len() ==> given.contains(#[trigger] entry_views(rest@)[k]),
            well_named(given) ==> sorted(entry_views(out@)),
        decreases rest.len(),
    {
        let ghost old_rest = entry_views(rest@);
        let ghost old_out = entry_views(out@);
        let entry = rest.pop().unwrap();
        let at = insertion_point(&out, &entry);
        proof {
            let shorter = entry_views(rest@);
            assert(old_rest =~= shorter.push(entry@));
            assert(old_rest[old_rest.len() - 1] == entry@);
            assert(given.contains(entry@));
            to_multiset_build(shorter, entry@);
            to_multiset_insert(old_out, at as int, entry@);
            assert(old_out.insert(at as int, entry@).to_multiset().add(shorter.to_multiset())
                =~= old_out.to_multiset().add(old_rest.to_multiset()));
            assert forall|k: int| 0 <= k < shorter.len() implies given.contains(
                #[trigger] shorter[k],
            ) by {
                assert(shorter[k] == old_rest[k]);
            }
            if well_named(given) {
                assert forall|k: int| 0 <= k < old_out.len() implies compatible(
                    entry@,
                    #[trigger] old_out[k],
                ) by {
                    lemma_members_compatible(given, entry@, old_out[k]);
                }
                assert forall|i: int, j: int|
                    0 <= i < old_out.len() && 0 <= j < old_out.len() implies compatible(
                    #[trigger] old_out[i],
                    #[trigger] old_out[j],
                ) by {
                    lemma_members_compatible(given, old_out[i], old_out[j]);
                }
                lemma_insert_keeps_sorted(old_out, entry@, at as int);
            }
        }
        out.insert(at, entry);
        proof {
            let new_out = entry_views(out@);
            assert(new_out =~= old_out.insert(at as int, entry@));
            assert forall|k: int| 0 <= k < new_out.len() implies given.contains(
                #[trigger] new_out[k],
            ) by {
                if k < at {
                    assert(new_out[k] == old_out[k]);
                } else if k > at {
                    assert(new_out[k] == old_out[k - 1]);
                }
            }
        }
    }
    proof {
        assert(entry_views(rest@) =~= Seq::<EntryView>::empty());
        assert(entry_views(out@).to_multiset().add(entry_views(rest@).to_multiset())
            =~= entry_views(out@).to_multiset());
    }
    out
}

/// In canonical order, entries with different names that can be siblings
/// stand strictly one before the other.
pub proof fn lemma_in_order_both_ways(a: EntryView, b: EntryView)
    requires
        compatible(a, b),
        in_order(a, b),
        in_order(b, a),
    ensures
        a.name == b.name,
{
    lemma_name_order_flips(a.name, is_directory(a), b.name, is_directory(b));
    lemma_order_is_key_order(a.name, is_directory(a), b.name, is_directory(b));
}

/// A sorted list of siblings with different names is the only sorted list
/// of these entries.
pub proof fn lemma_sorted_is_unique(x: Seq<EntryView>, y: Seq<EntryView>)
    requires
        x.to_multiset() == y.to_multiset(),
        well_named(x),
        distinct_names(x),
        sorted(x),
        sorted(y),
    ensures
        x == y,
    decreases x.len(),
{
    broadcast use vstd::seq_lib::group_to_multiset_ensures;

    to_multiset_len(x);
    to_multiset_len(y);
    if x.len() > 0 {
        let last = x.len() - 1;
        let a = x[last];
        let b = y[last];
        assert(y.contains(b));
        assert(x.contains(a));
        assert(x.to_multiset().count(b) > 0);
        assert(x.contains(b));
        assert(y.to_multiset().count(a) > 0);
        assert(y.contains(a));
        let i = choose|i: int| 0 <= i < x.len() && x[i] == b;
        let j = choose|j: int| 0 <= j < y.len() && y[j] == a;
        if i != last && j != last {
            assert(in_order(x[i], x[last]));
            assert(in_order(y[j], y[last]));
            assert(compatible(x[last], x[i]));
            lemma_in_order_both_ways(a, b);
            assert(x[i].name != x[last].name);
        }
        assert(a == b);
        let xs = x.drop_last();
        let ys = y.drop_last();
        assert(x =~= xs.push(a));
        assert(y =~= ys.push(a));
        to_multiset_build(xs, a);
        to_multiset_build(ys, a);
        assert(xs.to_multiset() =~= x.to_multiset().remove(a));
        assert(ys.to_multiset() =~= y.to_multiset().remove(a));
        assert forall|p: int, q: int| 0 <= p < xs.len() && 0 <= q < xs.len() implies compatible(
            #[trigger] xs[p],
            #[trigger] xs[q],
        ) by {
            assert(compatible(x[p], x[q]));
        }
        assert forall|p: int, q: int| 0 <= p < q < xs.len() implies (#[trigger] xs[p]).name != (
        #[trigger] xs[q]).name by {
            assert(x[p].name != x[q].name);
        }
        assert forall|p: int, q: int| 0 <= p < q < xs.len() implies in_order(
            #[trigger] xs[p],
            #[trigger] xs[q],
        ) by {
            assert(in_order(x[p], x[q]));
        }
        assert forall|p: int, q: int| 0 <= p < q < ys.len() implies in_order(
            #[trigger] ys[p],
            #[trigger] ys[q],
        ) by {
            assert(in_order(y[p], y[q]));
        }
        lemma_sorted_is_unique(xs, ys);
        assert(x =~= y);
    } else {
        assert(x =~= y);
    }
}

/// The canonical order is unique: two canonical arrangements of the content
/// of one directory, in which no name occurs twice, are the same list, so
/// the same directory always gives the same tree.
pub proof fn lemma_arrangement_is_unique(
    given: Seq<EntryView>,
    x: Seq<EntryView>,
    y: Seq<EntryView>,
)
    requires
        well_named(given),
        distinct_names(given),
        arranges(x, given),
        arranges(y, given),
    ensures
        x == y,
{
    lemma_rearranged_siblings(given, x);
    lemma_sorted_is_unique(x, y);
}

/// The order in which a directory's children are read does not matter: two
/// lists of the same siblings, in which no name occurs twice, have the
/// same canonical arrangement.
pub proof fn lemma_given_order_does_not_matter(
    first: Seq<EntryView>,
    second: Seq<EntryView>,
    x: Seq<EntryView>,
    y: Seq<EntryView>,
)
    requires
        first.to_multiset() == second.to_multiset(),
        well_named(first),
        distinct_names(first),
        arranges(x, first),
        arranges(y, second),
    ensures
        x == y,
{
    lemma_rearranged_siblings(first, second);
    lemma_arrangement_is_unique(first, x, y);
}

/// A rearrangement of siblings with different names is one too.
pub proof fn lemma_rearranged_siblings(given: Seq<EntryView>, x: Seq<EntryView>)
    requires
        well_named(given),
        distinct_names(given),
        x.to_multiset() == given.to_multiset(),
    ensures
        well_named(x),
        distinct_names(x),
{
    broadcast use vstd::seq_lib::group_to_multiset_ensures;

    assert forall|p: int| 0 <= p < x.len() implies given.contains(#[trigger] x[p]) by {
        assert(x.contains(x[p]));
        assert(given.to_multiset().count(x[p]) > 0);
    }
    assert forall|p: int, q: int| 0 <= p < x.len() && 0 <= q < x.len() implies compatible(
        #[trigger] x[p],
        #[trigger] x[q],
    ) by {
        lemma_members_compatible(given, x[p], x[q]);
    }
    assert(given.no_duplicates()) by {
        assert forall|p: int, q: int|
            0 <= p < given.len() && 0 <= q < given.len() && p != q implies given[p]
            != given[q] by {
            if p < q {
                assert(given[p].name != given[q].name);
            } else {
                assert(given[q].name != given[p].name);
            }
        }
    }
    given.lemma_multiset_has_no_duplicates();
    x.lemma_multiset_has_no_duplicates_conv();
    assert forall|p: int, q: int| 0 <= p < q < x.len() implies (#[trigger] x[p]).name != (
    #[trigger] x[q]).name by {
        assert(x[p] != x[q]);
        let gp = choose|g: int| 0 <= g < given.len() && given[g] == x[p];
        let gq = choose|g: int| 0 <= g < given.len() && given[g] == x[q];
        if gp < gq {
            assert(given[gp].name != given[gq].name);
        } else {
            assert(given[gq].name != given[gp].name);
        }
    }
}

} // verus!
