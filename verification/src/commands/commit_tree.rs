//! Building a commit object from a tree, an optional parent, the author and
//! committer, and a message.

use crate::decimal::{decimal, format_u64};
use crate::error::Error;
use crate::objects::{written_for, Kind, Object, ObjectView, Written};
use vstd::prelude::*;
use vstd::string::StringExecFns;
use vstd::utf8::encode_utf8;

verus! {

/// Who made a change and when, as the contracts see it.
pub struct SignatureView {
    pub name: Seq<char>,
    pub email: Seq<char>,
    pub seconds: u64,
    pub offset: Seq<char>,
}

/// Who made a change and when: a name, an e-mail address, the time in
/// seconds since the Unix epoch, and the offset of the time zone, such as
/// `+0000`.
#[derive(Debug)]
pub struct Signature {
    pub name: String,
    pub email: String,
    pub seconds: u64,
    pub offset: String,
}

impl View for Signature {
    type V = SignatureView;

    open spec fn view(&self) -> SignatureView {
        SignatureView {
            name: self.name@,
            email: self.email@,
            seconds: self.seconds,
            offset: self.offset@,
        }
    }
}

/// What follows `author ` or `committer ` on a commit's line:
/// `NAME <EMAIL> SECONDS OFFSET`.
pub open spec fn signature_line(who: SignatureView) -> Seq<u8> {
    encode_utf8(who.name) + encode_utf8(" <"@) + encode_utf8(who.email) + encode_utf8("> "@)
        + decimal(who.seconds as nat) + encode_utf8(" "@) + encode_utf8(who.offset)
}

/// The line that names the parent, or nothing for a commit without one.
pub open spec fn parent_line(parent: Option<Seq<char>>) -> Seq<u8> {
    match parent {
        Some(hash) => encode_utf8("parent "@) + encode_utf8(hash) + encode_utf8("\n"@),
        None => Seq::<u8>::empty(),
    }
}

/// The payload of a commit: the tree line, the parent line if there is a
/// parent, the author and committer lines, an empty line, and the message
/// with a newline behind it.
pub open spec fn commit_text(
    message: Seq<char>,
    tree_hash: Seq<char>,
    parent_hash: Option<Seq<char>>,
    author: SignatureView,
    committer: SignatureView,
) -> Seq<u8> {
    encode_utf8("tree "@) + encode_utf8(tree_hash) + encode_utf8("\n"@) + parent_line(parent_hash)
        + encode_utf8("author "@) + signature_line(author) + encode_utf8("\n"@) + encode_utf8(
        "committer "@,
    ) + signature_line(committer) + encode_utf8("\n"@) + encode_utf8("\n"@) + encode_utf8(message)
        + encode_utf8("\n"@)
}

/// The commit object with the given content.
pub open spec fn commit_object(
    message: Seq<char>,
    tree_hash: Seq<char>,
    parent_hash: Option<Seq<char>>,
    author: SignatureView,
    committer: SignatureView,
) -> ObjectView {
    let text = commit_text(message, tree_hash, parent_hash, author, committer);
    ObjectView { kind: Kind::Commit, expected_size: text.len() as u64, reader: text }
}

/// The text of an optional parent hash.
pub open spec fn parent_view(parent_hash: Option<&str>) -> Option<Seq<char>> {
    match parent_hash {
        Some(hash) => Some(hash@),
        None => None,
    }
}

impl Signature {
    /// A signature in Coordinated Universal Time.
    pub fn utc(name: &str, email: &str, seconds: u64) -> (who: Signature)
        ensures
            who@ == (SignatureView { name: name@, email: email@, seconds, offset: "+0000"@ }),
    {
        Signature {
            name: String::from_str(name),
            email: String::from_str(email),
            seconds,
            offset: String::from_str("+0000"),
        }
    }

    /// Writes `NAME <EMAIL> SECONDS OFFSET` behind what `out` holds.
    fn write_line(&self, out: &mut Vec<u8>)
        ensures
            final(out)@ == old(out)@ + signature_line(self@),
    {
        let ghost before = out@;
        out.extend_from_slice(self.name.as_str().as_bytes());
        out.extend_from_slice(" <".as_bytes());
        out.extend_from_slice(self.email.as_str().as_bytes());
        out.extend_from_slice("> ".as_bytes());
        let digits = format_u64(self.seconds);
        out.extend_from_slice(digits.as_slice());
        out.extend_from_slice(" ".as_bytes());
        out.extend_from_slice(self.offset.as_str().as_bytes());
        assert(out@ =~= before + signature_line(self@));
    }
}

/// Writes the payload of a commit. Neither the tree nor the parent is
/// looked up: a commit may refer to what the store does not hold.
pub fn commit_payload(
    message: &str,
    tree_hash: &str,
    parent_hash: Option<&str>,
    author: &Signature,
    committer: &Signature,
) -> (out: Vec<u8>)
    ensures
        out@ == commit_text(message@, tree_hash@, parent_view(parent_hash), author@, committer@),
{
    let mut out: Vec<u8> = Vec::new();
    out.extend_from_slice("tree ".as_bytes());
    out.extend_from_slice(tree_hash.as_bytes());
    out.extend_from_slice("\n".as_bytes());
    let ghost tree_part = out@;
    assert(tree_part =~= encode_utf8("tree "@) + encode_utf8(tree_hash@) + encode_utf8("\n"@));
    match parent_hash {
        Some(hash) => {
            out.extend_from_slice("parent ".as_bytes());
            out.extend_from_slice(hash.as_bytes());
            out.extend_from_slice("\n".as_bytes());
        },
        None => {},
    }
    let ghost parent_part = out@;
    assert(parent_part =~= tree_part + parent_line(parent_view(parent_hash)));
    out.extend_from_slice("author ".as_bytes());
    author.write_line(&mut out);
    out.extend_from_slice("\n".as_bytes());
    let ghost author_part = out@;
    assert(author_part =~= parent_part + encode_utf8("author "@) + signature_line(author@)
        + encode_utf8("\n"@));
    out.extend_from_slice("committer ".as_bytes());
    committer.write_line(&mut out);
    out.extend_from_slice("\n".as_bytes());
    let ghost committer_part = out@;
    assert(committer_part =~= author_part + encode_utf8("committer "@) + signature_line(
        committer@,
    ) + encode_utf8("\n"@));
    out.extend_from_slice("\n".as_bytes());
    out.extend_from_slice(message.as_bytes());
    out.extend_from_slice("\n".as_bytes());
    assert(out@ =~= committer_part + encode_utf8("\n"@) + encode_utf8(message@) + encode_utf8(
        "\n"@,
    ));
    assert(out@ =~= commit_text(
        message@,
        tree_hash@,
        parent_view(parent_hash),
        author@,
        committer@,
    ));
    out
}

/// Builds and packs a commit object.
pub fn write_commit(
    message: &str,
    tree_hash: &str,
    parent_hash: Option<&str>,
    author: &Signature,
    committer: &Signature,
) -> (out: Result<Written, Error>)
    ensures
        written_for(
            out,
            commit_object(message@, tree_hash@, parent_view(parent_hash), author@, committer@),
        ),
{
    let payload = commit_payload(message, tree_hash, parent_hash, author, committer);
    Object::new(Kind::Commit, payload).write()
}

/// A commit's payload begins with the line that names its tree and ends
/// with the message and a newline.
pub proof fn lemma_commit_text_frame(
    message: Seq<char>,
    tree_hash: Seq<char>,
    parent_hash: Option<Seq<char>>,
    author: SignatureView,
    committer: SignatureView,
)
    ensures
        ({
            let text = commit_text(message, tree_hash, parent_hash, author, committer);
            let first = encode_utf8("tree "@) + encode_utf8(tree_hash) + encode_utf8("\n"@);
            let last = encode_utf8(message) + encode_utf8("\n"@);
            &&& first.len() + last.len() <= text.len()
            &&& text.take(first.len() as int) == first
            &&& text.skip(text.len() - last.len()) == last
        }),
{
    let text = commit_text(message, tree_hash, parent_hash, author, committer);
    let first = encode_utf8("tree "@) + encode_utf8(tree_hash) + encode_utf8("\n"@);
    let last = encode_utf8(message) + encode_utf8("\n"@);
    let middle = parent_line(parent_hash) + encode_utf8("author "@) + signature_line(author)
        + encode_utf8("\n"@) + encode_utf8("committer "@) + signature_line(committer)
        + encode_utf8("\n"@) + encode_utf8("\n"@);
    assert(text =~= first + middle + last);
    assert(text.take(first.len() as int) =~= first);
    assert(text.skip(text.len() - last.len()) =~= last);
}

} // verus!
