//! Where objects live in the store: a flat namespace keyed by digest, laid
//! out as a directory named by the first two hexadecimal characters and a
//! file named by the other thirty-eight.

use crate::error::Error;
use crate::hash::{
    hex_lower, is_hex_char, lemma_hex_lower_chars, lemma_hex_lower_injective, to_hex,
};
use crate::objects::{stores, written_for, ObjectView, Written};
use crate::zlib::inflated;
use vstd::prelude::*;
use vstd::string::StringExecFns;

verus! {

/// The directory that holds the store, below the repository's root.
pub const OBJECTS_DIR: &'static str = ".git/objects";

/// The name under which an object is first written, in the store's
/// directory, before it is moved to its place in one step.
pub const TEMPORARY_NAME: &'static str = "temporary";

/// The place of an object below the store's directory.
#[derive(Debug)]
pub struct Placement {
    /// The subdirectory: two hexadecimal characters.
    pub dir: String,
    /// The file in it: thirty-eight hexadecimal characters.
    pub file: String,
}

/// Whether `text` is the full hexadecimal form of a digest: forty
/// characters, each one of `0`-`9` and `a`-`f`.
pub open spec fn is_full_hex(text: Seq<char>) -> bool {
    &&& text.len() == 40
    &&& forall|i: int| 0 <= i < text.len() ==> is_hex_char(#[trigger] text[i])
}

/// The subdirectory for an object's hexadecimal name.
pub open spec fn dir_of(hex: Seq<char>) -> Seq<char> {
    hex.subrange(0, 2)
}

/// The file name for an object's hexadecimal name.
pub open spec fn file_of(hex: Seq<char>) -> Seq<char> {
    hex.subrange(2, 40)
}

/// The path of an object relative to the store's directory.
pub open spec fn relative_path(hex: Seq<char>) -> Seq<char> {
    dir_of(hex) + seq!['/'] + file_of(hex)
}

impl Placement {
    /// The place of the object with the given digest.
    pub fn of(hash: &[u8; 20]) -> (place: Placement)
        ensures
            place.dir@ == dir_of(hex_lower(hash@)),
            place.file@ == file_of(hex_lower(hash@)),
    {
        let hex = to_hex(hash);
        proof {
            lemma_hex_lower_chars(hash@);
            lemma_hex_is_ascii(hex@);
        }
        let text = hex.as_str();
        let dir = String::from_str(text.substring_ascii(0, 2));
        let file = String::from_str(text.substring_ascii(2, 40));
        Placement { dir, file }
    }

    /// The place of the object that `text` names. The name must be the full
    /// hexadecimal form of a digest; anything else names no object.
    pub fn lookup(text: &str) -> (out: Result<Placement, Error>)
        ensures
            match out {
                Ok(place) => is_full_hex(text@) && place.dir@ == dir_of(text@) && place.file@
                    == file_of(text@),
                Err(e) => e == Error::NotFound && !is_full_hex(text@),
            },
    {
        if !text.is_ascii() {
            proof {
                if is_full_hex(text@) {
                    lemma_hex_is_ascii(text@);
                }
            }
            return Err(Error::NotFound);
        }
        if text.unicode_len() != 40 {
            return Err(Error::NotFound);
        }
        let mut i: usize = 0;
        while i < 40
            invariant
                0 <= i <= 40,
                text@.len() == 40,
                text.is_ascii(),
                forall|k: int| 0 <= k < i ==> is_hex_char(#[trigger] text@[k]),
            decreases 40 - i,
        {
            let b = text.get_ascii(i);
            assert('\0' <= text@[i as int] <= '\u{7f}');
            let digit = 0x30 <= b && b <= 0x39;
            let letter = 0x61 <= b && b <= 0x66;
            if !digit && !letter {
                assert(!is_hex_char(text@[i as int]));
                return Err(Error::NotFound);
            }
            assert(is_hex_char(text@[i as int]));
            i += 1;
        }
        let dir = String::from_str(text.substring_ascii(0, 2));
        let file = String::from_str(text.substring_ascii(2, 40));
        Ok(Placement { dir, file })
    }

    /// The path relative to the store's directory: `dir/file`.
    pub fn relative(&self) -> (path: String)
        ensures
            path@ == self.dir@ + seq!['/'] + self.file@,
    {
        let path = self.dir.clone();
        let path = path.concat("/");
        proof {
            reveal_strlit("/");
            assert("/"@ =~= seq!['/']);
        }
        path.concat(self.file.as_str())
    }
}

/// Hexadecimal text is ASCII.
pub proof fn lemma_hex_is_ascii(text: Seq<char>)
    requires
        forall|i: int| 0 <= i < text.len() ==> is_hex_char(#[trigger] text[i]),
    ensures
        vstd::utf8::is_ascii_chars(text),
{
    assert forall|i: int| 0 <= i < text.len() implies '\0' <= #[trigger] text[i] <= '\u{7f}' by {
        assert(is_hex_char(text[i]));
    }
}

/// Storing is idempotent: what is written for the same object a second
/// time bears the same digest, goes to the same place, and decompresses to
/// the same bytes as what was written the first time, so that putting it
/// there again changes nothing that a reader can see.
pub proof fn lemma_second_write_changes_nothing(first: Written, second: Written, object: ObjectView)
    requires
        stores(first, object),
        stores(second, object),
    ensures
        first.hash@ == second.hash@,
        relative_path(hex_lower(first.hash@)) == relative_path(hex_lower(second.hash@)),
        forall|limit: nat| inflated(first.data@, limit) == inflated(second.data@, limit),
{
}

/// Writing is repeatable: where an object was written once, writing it
/// again does not fail, and yields the same digest and the very same
/// bytes; so the second file put in the object's place is the first one.
pub proof fn lemma_write_is_repeatable(
    first: Result<Written, Error>,
    second: Result<Written, Error>,
    object: ObjectView,
)
    requires
        written_for(first, object),
        written_for(second, object),
    ensures
        first is Ok <==> second is Ok,
        first matches Ok(a) ==> (second matches Ok(b) && a.hash@ == b.hash@ && a.data@ == b.data@
            && relative_path(hex_lower(a.hash@)) == relative_path(hex_lower(b.hash@))),
{
}

/// Objects with different digests never share a place.
pub proof fn lemma_place_tells_digest(a: Seq<u8>, b: Seq<u8>)
    requires
        a.len() == 20,
        b.len() == 20,
        dir_of(hex_lower(a)) == dir_of(hex_lower(b)),
        file_of(hex_lower(a)) == file_of(hex_lower(b)),
    ensures
        a == b,
{
    let x = hex_lower(a);
    let y = hex_lower(b);
    assert(x.len() == 40 && y.len() == 40);
    assert forall|i: int| 0 <= i < 40 implies x[i] == y[i] by {
        if i < 2 {
            assert(dir_of(x)[i] == x[i]);
            assert(dir_of(y)[i] == y[i]);
        } else {
            assert(file_of(x)[i - 2] == x[i]);
            assert(file_of(y)[i - 2] == y[i]);
        }
    }
    assert(x =~= y);
    lemma_hex_lower_injective(a, b);
}

} // verus!
