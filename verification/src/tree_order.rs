//! The canonical order of the entries of a tree.
//!
//! Sibling names are compared byte by byte up to the length of the shorter
//! one. If one name is a prefix of the other, the byte that follows the
//! shorter name decides, where a directory's name counts as followed by `/`
//! and a file's name by nothing, and nothing sorts before every byte.

use vstd::prelude::*;

verus! {

/// The path separator that a directory's name is taken to end in.
pub const SEPARATOR: u8 = 0x2f;

/// How one entry stands to another in the canonical order.
#[derive(Debug, Clone, Copy, PartialEq, Eq, Structural)]
pub enum NameOrder {
    Before,
    Same,
    After,
}

/// The first index at or after `from` at which `a` and `b` differ, or the
/// length of the shorter one if they do not differ before it ends.
pub open spec fn mismatch(a: Seq<u8>, b: Seq<u8>, from: int) -> int
    decreases a.len() - from,
{
    if 0 <= from < a.len() && from < b.len() && a[from] == b[from] {
        mismatch(a, b, from + 1)
    } else {
        from
    }
}

/// The byte that a name is taken to hold at `at`: its own byte, or past its
/// end the separator for a directory and nothing for a file.
pub open spec fn byte_at(name: Seq<u8>, is_dir: bool, at: int) -> Option<u8> {
    if 0 <= at < name.len() {
        Some(name[at])
    } else if is_dir {
        Some(SEPARATOR)
    } else {
        None
    }
}

/// The order of two such bytes: nothing comes before any byte.
pub open spec fn byte_order(x: Option<u8>, y: Option<u8>) -> NameOrder {
    match (x, y) {
        (None, None) => NameOrder::Same,
        (None, Some(_)) => NameOrder::Before,
        (Some(_), None) => NameOrder::After,
        (Some(p), Some(q)) => if p < q {
            NameOrder::Before
        } else if p == q {
            NameOrder::Same
        } else {
            NameOrder::After
        },
    }
}

/// The canonical order of two sibling names.
pub open spec fn name_order(a: Seq<u8>, a_is_dir: bool, b: Seq<u8>, b_is_dir: bool) -> NameOrder {
    let at = mismatch(a, b, 0);
    if at < a.len() && at < b.len() {
        if a[at] < b[at] {
            NameOrder::Before
        } else {
            NameOrder::After
        }
    } else if a.len() == b.len() {
        NameOrder::Same
    } else {
        byte_order(byte_at(a, a_is_dir, at), byte_at(b, b_is_dir, at))
    }
}

/// Whether a name is free of the path separator, as every file name is.
pub open spec fn plain_name(name: Seq<u8>) -> bool {
    forall|i: int| 0 <= i < name.len() ==> #[trigger] name[i] != SEPARATOR
}

/// The byte string by which an entry is ordered: a directory's name with the
/// separator behind it, a file's name as it is.
pub open spec fn sort_key(name: Seq<u8>, is_dir: bool) -> Seq<u8> {
    if is_dir {
        name.push(SEPARATOR)
    } else {
        name
    }
}

/// Plain lexicographic order of byte strings: at the first difference the
/// smaller byte wins, and a prefix comes before what extends it.
pub open spec fn lex_le(x: Seq<u8>, y: Seq<u8>) -> bool {
    let at = mismatch(x, y, 0);
    if at < x.len() && at < y.len() {
        x[at] < y[at]
    } else {
        x.len() <= y.len()
    }
}

/// Compares two sibling names in the canonical order.
pub fn compare_names(a: &[u8], a_is_dir: bool, b: &[u8], b_is_dir: bool) -> (order: NameOrder)
    ensures
        order == name_order(a@, a_is_dir, b@, b_is_dir),
{
    let common = if a.len() < b.len() {
        a.len()
    } else {
        b.len()
    };
    let mut i: usize = 0;
    while i < common
        invariant
            0 <= i <= common,
            common <= a@.len(),
            common <= b@.len(),
            common == a@.len() || common == b@.len(),
            mismatch(a@, b@, 0) == mismatch(a@, b@, i as int),
        decreases common - i,
    {
        if a[i] != b[i] {
            return if a[i] < b[i] {
                NameOrder::Before
            } else {
                NameOrder::After
            };
        }
        i += 1;
    }
    if a.len() == b.len() {
        return NameOrder::Same;
    }
    let next_a: Option<u8> = if i < a.len() {
        Some(a[i])
    } else if a_is_dir {
        Some(SEPARATOR)
    } else {
        None
    };
    let next_b: Option<u8> = if i < b.len() {
        Some(b[i])
    } else if b_is_dir {
        Some(SEPARATOR)
    } else {
        None
    };
    match (next_a, next_b) {
        (None, None) => NameOrder::Same,
        (None, Some(_)) => NameOrder::Before,
        (Some(_), None) => NameOrder::After,
        (Some(p), Some(q)) => if p < q {
            NameOrder::Before
        } else if p == q {
            NameOrder::Same
        } else {
            NameOrder::After
        },
    }
}

/// Where `mismatch` lands: the strings agree before it, and differ at it
/// unless one of them ends there.
pub proof fn lemma_mismatch(a: Seq<u8>, b: Seq<u8>, from: int)
    requires
        0 <= from <= a.len(),
        from <= b.len(),
    ensures
        from <= mismatch(a, b, from) <= a.len(),
        mismatch(a, b, from) <= b.len(),
        forall|k: int| from <= k < mismatch(a, b, from) ==> a[k] == b[k],
        mismatch(a, b, from) < a.len() && mismatch(a, b, from) < b.len() ==> a[mismatch(
            a,
            b,
            from,
        )] != b[mismatch(a, b, from)],
    decreases a.len() - from,
{
    if from < a.len() && from < b.len() && a[from] == b[from] {
        lemma_mismatch(a, b, from + 1);
    }
}

/// An index before which the strings agree, and at which they differ or one
/// of them ends, is what `mismatch` finds.
pub proof fn lemma_mismatch_is(a: Seq<u8>, b: Seq<u8>, from: int, at: int)
    requires
        0 <= from <= at <= a.len(),
        at <= b.len(),
        forall|k: int| from <= k < at ==> a[k] == b[k],
        at == a.len() || at == b.len() || a[at] != b[at],
    ensures
        mismatch(a, b, from) == at,
    decreases at - from,
{
    if from < at {
        lemma_mismatch_is(a, b, from + 1, at);
    }
}

/// The first difference of `a` and `b` is that of `b` and `a`.
pub proof fn lemma_mismatch_symmetric(a: Seq<u8>, b: Seq<u8>)
    ensures
        mismatch(a, b, 0) == mismatch(b, a, 0),
{
    lemma_mismatch(a, b, 0);
    lemma_mismatch_is(b, a, 0, mismatch(a, b, 0));
}

/// Turning a comparison round turns its result round.
pub proof fn lemma_name_order_flips(a: Seq<u8>, a_is_dir: bool, b: Seq<u8>, b_is_dir: bool)
    ensures
        name_order(a, a_is_dir, b, b_is_dir) == NameOrder::Before <==> name_order(
            b,
            b_is_dir,
            a,
            a_is_dir,
        ) == NameOrder::After,
        name_order(a, a_is_dir, b, b_is_dir) == NameOrder::Same <==> name_order(
            b,
            b_is_dir,
            a,
            a_is_dir,
        ) == NameOrder::Same,
{
    lemma_mismatch_symmetric(a, b);
    lemma_mismatch(a, b, 0);
}

/// A file sorts strictly before every sibling whose name extends its own:
/// where the shorter name has no next byte, it comes first.
pub proof fn lemma_file_before_longer_name(file: Seq<u8>, other: Seq<u8>, other_is_dir: bool)
    requires
        file.len() < other.len(),
        other.take(file.len() as int) == file,
    ensures
        name_order(file, false, other, other_is_dir) == NameOrder::Before,
        name_order(other, other_is_dir, file, false) == NameOrder::After,
{
    assert forall|k: int| 0 <= k < file.len() implies file[k] == other[k] by {
        assert(other.take(file.len() as int)[k] == other[k]);
    }
    lemma_mismatch_is(file, other, 0, file.len() as int);
    lemma_name_order_flips(file, false, other, other_is_dir);
}

/// A directory stands to a sibling whose name extends its own as the
/// separator stands to the sibling's next byte: after it where that byte is
/// smaller than `/`, before it where that byte is larger.
pub proof fn lemma_directory_against_longer_name(dir: Seq<u8>, other: Seq<u8>, other_is_dir: bool)
    requires
        dir.len() < other.len(),
        other.take(dir.len() as int) == dir,
    ensures
        name_order(dir, true, other, other_is_dir) == byte_order(
            Some(SEPARATOR),
            Some(other[dir.len() as int]),
        ),
        other[dir.len() as int] < SEPARATOR ==> name_order(dir, true, other, other_is_dir)
            == NameOrder::After,
        other[dir.len() as int] > SEPARATOR ==> name_order(dir, true, other, other_is_dir)
            == NameOrder::Before,
{
    assert forall|k: int| 0 <= k < dir.len() implies dir[k] == other[k] by {
        assert(other.take(dir.len() as int)[k] == other[k]);
    }
    lemma_mismatch_is(dir, other, 0, dir.len() as int);
}

/// Two files are ordered as their names are as plain byte strings, with no
/// separator put in.
pub proof fn lemma_files_in_byte_order(a: Seq<u8>, b: Seq<u8>)
    ensures
        name_order(a, false, b, false) != NameOrder::After <==> lex_le(a, b),
        name_order(a, false, b, false) == NameOrder::Same <==> a == b,
{
    lemma_mismatch(a, b, 0);
    if a.len() == b.len() && mismatch(a, b, 0) == a.len() {
        assert(a =~= b);
    }
}

/// Lexicographic order is transitive.
pub proof fn lemma_lex_le_transitive(x: Seq<u8>, y: Seq<u8>, z: Seq<u8>)
    requires
        lex_le(x, y),
        lex_le(y, z),
    ensures
        lex_le(x, z),
{
    lemma_mismatch(x, y, 0);
    lemma_mismatch(y, z, 0);
    lemma_mismatch(x, z, 0);
    let i = mismatch(x, y, 0);
    let j = mismatch(y, z, 0);
    let k = mismatch(x, z, 0);
    if k < x.len() && k < z.len() {
        if k < i && k < j {
            assert(x[k] == y[k] && y[k] == z[k]);
        } else if i <= j {
            if i < k {
                assert(x[i] == z[i]);
                assert(i < j ==> y[i] == z[i]);
            }
        } else {
            if j < k {
                assert(x[j] == z[j]);
                assert(x[j] == y[j]);
            }
        }
    } else if x.len() > z.len() {
        // `z` is a proper prefix of `x`.
        assert(k == z.len());
        if i < j {
            assert(i < z.len() ==> x[i] == z[i] && y[i] == z[i]);
        } else if j < i {
            assert(j < z.len() ==> x[j] == z[j] && x[j] == y[j]);
        } else {
            assert(i < z.len() ==> x[i] == z[i]);
        }
    }
}

/// Of two byte strings one comes first.
pub proof fn lemma_lex_le_total(x: Seq<u8>, y: Seq<u8>)
    ensures
        lex_le(x, y) || lex_le(y, x),
{
    lemma_mismatch_symmetric(x, y);
    lemma_mismatch(x, y, 0);
}

/// Two byte strings of which each comes before the other are the same.
pub proof fn lemma_lex_le_antisymmetric(x: Seq<u8>, y: Seq<u8>)
    requires
        lex_le(x, y),
        lex_le(y, x),
    ensures
        x == y,
{
    lemma_mismatch_symmetric(x, y);
    lemma_mismatch(x, y, 0);
    assert(x =~= y);
}

/// For names free of the separator, and of which equal ones are of the same
/// sort, the canonical order is the lexicographic order of the sort keys.
pub proof fn lemma_order_is_key_order(a: Seq<u8>, a_is_dir: bool, b: Seq<u8>, b_is_dir: bool)
    requires
        plain_name(a),
        plain_name(b),
        a == b ==> a_is_dir == b_is_dir,
    ensures
        name_order(a, a_is_dir, b, b_is_dir) != NameOrder::After <==> lex_le(
            sort_key(a, a_is_dir),
            sort_key(b, b_is_dir),
        ),
        name_order(a, a_is_dir, b, b_is_dir) == NameOrder::Same <==> a == b,
{
    let ka = sort_key(a, a_is_dir);
    let kb = sort_key(b, b_is_dir);
    let at = mismatch(a, b, 0);
    lemma_mismatch(a, b, 0);
    assert forall|k: int| 0 <= k < at implies ka[k] == kb[k] by {
        assert(ka[k] == a[k] && kb[k] == b[k]);
    }
    if at < a.len() && at < b.len() {
        assert(ka[at] == a[at] && kb[at] == b[at]);
        lemma_mismatch_is(ka, kb, 0, at);
    } else if a.len() == b.len() {
        assert(a =~= b);
        assert(ka =~= kb);
        lemma_mismatch(ka, kb, 0);
    } else if at == a.len() {
        // `a` is a proper prefix of `b`.
        assert(kb[at] == b[at]);
        assert(b[at] != SEPARATOR);
        if a_is_dir {
            assert(ka[at] == SEPARATOR);
            lemma_mismatch_is(ka, kb, 0, at);
        } else {
            lemma_mismatch_is(ka, kb, 0, at);
        }
    } else {
        // `b` is a proper prefix of `a`.
        assert(ka[at] == a[at]);
        assert(a[at] != SEPARATOR);
        if b_is_dir {
            assert(kb[at] == SEPARATOR);
            lemma_mismatch_is(ka, kb, 0, at);
        } else {
            lemma_mismatch_is(ka, kb, 0, at);
        }
    }
}

} // verus!
