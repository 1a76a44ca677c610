//! SHA-1 digests, the writer that hashes what passes through it, and the
//! hexadecimal rendering of digests.

use crate::error::Error;
use sha1::{Digest, Sha1};
use vstd::prelude::*;
use vstd::slice::slice_subrange;

verus! {

/// Length of a digest rendered in hexadecimal.
pub const HEX_LEN: usize = 40;

/// The SHA-1 digest of a byte string. The algorithm is not written out here:
/// the `sha1` crate computes it, and the contracts below only name its result.
pub uninterp spec fn sha1_of(data: Seq<u8>) -> Seq<u8>;

/// A running SHA-1 computation. It holds a `sha1::Sha1`, whose declaration
/// rests on traits of `digest` and `typenum` that the verifier does not take,
/// so the whole struct is opaque to it and is reached only through the three
/// functions below.
#[verifier::external_body]
pub struct Hasher {
    inner: Sha1,
}

/// The bytes that a hasher has been fed since it was created, in order.
pub uninterp spec fn absorbed(hasher: Hasher) -> Seq<u8>;

impl Hasher {
    /// `Sha1::new`: a hasher that has been fed nothing.
    #[verifier::external_body]
    pub(crate) fn new() -> (hasher: Hasher)
        ensures
            absorbed(hasher) == Seq::<u8>::empty(),
    {
        Hasher { inner: Sha1::new() }
    }

    /// `Digest::update`: feeds `data` to the hasher, after what it was fed
    /// before.
    #[verifier::external_body]
    pub(crate) fn update(&mut self, data: &[u8])
        ensures
            absorbed(*final(self)) == absorbed(*old(self)) + data@,
    {
        self.inner.update(data);
    }

    /// `Digest::finalize`: the SHA-1 digest of everything the hasher was fed,
    /// however the bytes were split over the calls of `update`.
    #[verifier::external_body]
    pub(crate) fn finalize(self) -> (digest: [u8; 20])
        ensures
            digest@ == sha1_of(absorbed(self)),
    {
        self.inner.finalize().into()
    }
}

/// Something that takes bytes: a buffer, a file, a compressor.
pub trait Sink {
    /// Every byte that the sink has taken so far, in order.
    spec fn received(&self) -> Seq<u8>;

    /// Whether the sink is one that never fails and never takes less than
    /// it is offered, now and from now on.
    spec fn takes_all(&self) -> bool;

    /// What the sink, as it stands, answers when it is offered `buf`: how
    /// many bytes it takes, or the error with which it fails.
    spec fn answer(&self, buf: Seq<u8>) -> Result<usize, Error>;

    /// Offers `buf` to the sink. It takes some first part of it, maybe all,
    /// maybe nothing, and says how many bytes it took; or it fails, and
    /// then it took none.
    fn accept(&mut self, buf: &[u8]) -> (out: Result<usize, Error>)
        ensures
            out == old(self).answer(buf@),
            match out {
                Ok(n) => n <= buf@.len() && final(self).received() == old(self).received()
                    + buf@.take(n as int),
                Err(_) => final(self).received() == old(self).received(),
            },
            old(self).takes_all() ==> final(self).takes_all() && out == Ok::<usize, Error>(
                buf@.len() as usize,
            ),
    ;
}

impl Sink for Vec<u8> {
    open spec fn received(&self) -> Seq<u8> {
        self@
    }

    /// A buffer in memory takes all that it is offered.
    open spec fn takes_all(&self) -> bool {
        true
    }

    open spec fn answer(&self, buf: Seq<u8>) -> Result<usize, Error> {
        Ok(buf.len() as usize)
    }

    fn accept(&mut self, buf: &[u8]) -> (out: Result<usize, Error>) {
        self.extend_from_slice(buf);
        assert(buf@.take(buf@.len() as int) =~= buf@);
        Ok(buf.len())
    }
}

/// A buffer in memory with limited room: it takes what still fits, and
/// nothing once it is full.
pub struct Limited {
    data: Vec<u8>,
    left: usize,
}

impl Limited {
    /// How many more bytes fit.
    pub closed spec fn room(&self) -> nat {
        self.left as nat
    }

    /// An empty buffer with room for `room` bytes.
    pub fn new(room: usize) -> (sink: Limited)
        ensures
            sink.received() == Seq::<u8>::empty(),
            sink.room() == room,
    {
        Limited { data: Vec::new(), left: room }
    }

    /// The bytes taken.
    pub fn into_bytes(self) -> (bytes: Vec<u8>)
        ensures
            bytes@ == self.received(),
    {
        self.data
    }
}

impl Sink for Limited {
    closed spec fn received(&self) -> Seq<u8> {
        self.data@
    }

    open spec fn takes_all(&self) -> bool {
        false
    }

    /// As much of `buf` as there is room for.
    open spec fn answer(&self, buf: Seq<u8>) -> Result<usize, Error> {
        Ok(
            if buf.len() <= self.room() {
                buf.len() as usize
            } else {
                self.room() as usize
            },
        )
    }

    /// Takes as much of `buf` as there is room for.
    fn accept(&mut self, buf: &[u8]) -> (out: Result<usize, Error>)
        ensures
            final(self).room() == old(self).room() - out->Ok_0,
    {
        let n = if buf.len() <= self.left {
            buf.len()
        } else {
            self.left
        };
        let taken = slice_subrange(buf, 0, n);
        assert(taken@ =~= buf@.take(n as int));
        self.data.extend_from_slice(taken);
        self.left = self.left - n;
        Ok(n)
    }
}

/// How far a write in steps has come after one more step. `done` bytes
/// were written before it. A step that took some bytes brings the write
/// that much further; one that took nothing cannot be repeated with any
/// hope and fails the write with `Io`; one that failed fails it with its
/// own error.
pub open spec fn after_step_spec(done: usize, step: Result<usize, Error>) -> Result<usize, Error> {
    match step {
        Ok(n) => if n == 0 {
            Err(Error::Io)
        } else {
            Ok((done + n) as usize)
        },
        Err(e) => Err(e),
    }
}

/// Judges one step of a write in steps.
pub fn after_step(done: usize, step: Result<usize, Error>) -> (out: Result<usize, Error>)
    requires
        step matches Ok(n) ==> done + n <= usize::MAX,
    ensures
        out == after_step_spec(done, step),
{
    match step {
        Ok(n) => if n == 0 {
            Err(Error::Io)
        } else {
            Ok(done + n)
        },
        Err(e) => Err(e),
    }
}

/// A byte sink that also hashes every byte that the sink takes through it.
pub struct HashWriter<W: Sink> {
    writer: W,
    hasher: Hasher,
}

impl<W: Sink> HashWriter<W> {
    /// What the wrapped sink has taken: what it held when it was wrapped,
    /// and every byte written since.
    pub closed spec fn written(&self) -> Seq<u8> {
        self.writer.received()
    }

    /// The bytes that have gone into the hash so far.
    pub closed spec fn hashed(&self) -> Seq<u8> {
        absorbed(self.hasher)
    }

    /// Whether the wrapped sink never fails and never takes less than it is
    /// offered.
    pub closed spec fn unfailing(&self) -> bool {
        self.writer.takes_all()
    }

    /// What the wrapped sink, as it stands, answers when it is offered
    /// `buf`.
    pub closed spec fn sink_answer(&self, buf: Seq<u8>) -> Result<usize, Error> {
        self.writer.answer(buf)
    }

    /// Wraps a sink. Nothing has been hashed yet, whatever the sink holds.
    pub fn new(writer: W) -> (w: HashWriter<W>)
        ensures
            w.written() == writer.received(),
            w.hashed() == Seq::<u8>::empty(),
            w.unfailing() == writer.takes_all(),
            forall|buf: Seq<u8>| #[trigger] w.sink_answer(buf) == writer.answer(buf),
    {
        HashWriter { writer, hasher: Hasher::new() }
    }

    /// Takes note of what the sink made of `buf`: where it took the first
    /// `n` bytes, the hash is fed these bytes and no others; where it
    /// failed, the hash is left as it is. The sink's answer is handed on
    /// unchanged, its error being the sink's own.
    pub fn settle(&mut self, buf: &[u8], accepted: Result<usize, Error>) -> (out: Result<
        usize,
        Error,
    >)
        requires
            accepted matches Ok(n) ==> n <= buf@.len(),
        ensures
            out == accepted,
            final(self).written() == old(self).written(),
            final(self).unfailing() == old(self).unfailing(),
            final(self).hashed() == match accepted {
                Ok(n) => old(self).hashed() + buf@.take(n as int),
                Err(_) => old(self).hashed(),
            },
    {
        match accepted {
            Ok(n) => {
                let taken = slice_subrange(buf, 0, n);
                assert(taken@ =~= buf@.take(n as int));
                self.hasher.update(taken);
                Ok(n)
            },
            Err(e) => Err(e),
        }
    }

    /// Offers `buf` to the sink and settles the hash with the sink's
    /// answer, which is returned as it is, the sink's own error included:
    /// after a short write only the accepted bytes are hashed, and after a
    /// failure none.
    pub fn write(&mut self, buf: &[u8]) -> (out: Result<usize, Error>)
        ensures
            out == old(self).sink_answer(buf@),
            match out {
                Ok(n) => {
                    &&& n <= buf@.len()
                    &&& final(self).written() == old(self).written() + buf@.take(n as int)
                    &&& final(self).hashed() == old(self).hashed() + buf@.take(n as int)
                },
                Err(_) => final(self).written() == old(self).written() && final(self).hashed()
                    == old(self).hashed(),
            },
            old(self).unfailing() ==> final(self).unfailing() && out == Ok::<usize, Error>(
                buf@.len() as usize,
            ),
    {
        let accepted = self.writer.accept(buf);
        self.settle(buf, accepted)
    }

    /// Writes all of `buf`, in as many steps as the sink needs, each step
    /// judged by `after_step`: a step that fails ends the write with the
    /// step's error, and a step in which the sink takes nothing of what is
    /// left ends it with `Io`; so the sink's answer to the whole of `buf`
    /// decides the first step. Whatever happens, the hash has been fed
    /// exactly what the sink took. With a sink that takes all, the write
    /// succeeds.
    pub fn write_all(&mut self, buf: &[u8]) -> (out: Result<(), Error>)
        ensures
            match out {
                Ok(_) => {
                    &&& final(self).written() == old(self).written() + buf@
                    &&& final(self).hashed() == old(self).hashed() + buf@
                },
                Err(_) => exists|n: int|
                    0 <= n < buf@.len() && final(self).written() == old(self).written()
                        + #[trigger] buf@.take(n) && final(self).hashed() == old(self).hashed()
                        + buf@.take(n),
            },
            old(self).unfailing() ==> final(self).unfailing() && out is Ok,
            buf@.len() == 0 ==> out is Ok,
            buf@.len() > 0 ==> match old(self).sink_answer(buf@) {
                Ok(n) => n == 0 ==> out == Err::<(), Error>(Error::Io),
                Err(e) => out == Err::<(), Error>(e),
            },
    {
        let mut done: usize = 0;
        assert(buf@.take(0) =~= Seq::<u8>::empty());
        assert(self.written() + Seq::<u8>::empty() =~= self.written());
        assert(self.hashed() + Seq::<u8>::empty() =~= self.hashed());
        while done < buf.len()
            invariant
                0 <= done <= buf@.len(),
                self.written() == old(self).written() + buf@.take(done as int),
                self.hashed() == old(self).hashed() + buf@.take(done as int),
                old(self).unfailing() ==> self.unfailing(),
                done == 0 ==> self.sink_answer(buf@) == old(self).sink_answer(buf@),
                done > 0 ==> (old(self).sink_answer(buf@) matches Ok(n) && n > 0),
            decreases buf.len() - done,
        {
            let rest = slice_subrange(buf, done, buf.len());
            assert(done == 0 ==> rest@ =~= buf@);
            let ghost written_before = self.written();
            let ghost hashed_before = self.hashed();
            let step = self.write(rest);
            assert(done == 0 ==> step == old(self).sink_answer(buf@));
            match after_step(done, step) {
                Ok(next) => {
                    let ghost n = next - done;
                    assert(buf@.take(done as int) + rest@.take(n) =~= buf@.take(next as int));
                    assert(self.written() =~= old(self).written() + buf@.take(next as int));
                    assert(self.hashed() =~= old(self).hashed() + buf@.take(next as int));
                    done = next;
                },
                Err(e) => {
                    proof {
                        if step is Ok {
                            assert(rest@.take(0) =~= Seq::<u8>::empty());
                            assert(self.written() =~= written_before);
                            assert(self.hashed() =~= hashed_before);
                        }
                    }
                    return Err(e);
                },
            }
        }
        assert(buf@.take(done as int) =~= buf@);
        Ok(())
    }

    /// Ends the computation: the sink, and the digest of all the bytes that
    /// it took through this writer.
    pub fn finalize(self) -> (out: (W, [u8; 20]))
        ensures
            out.0.received() == self.written(),
            out.1@ == sha1_of(self.hashed()),
    {
        let digest = self.hasher.finalize();
        (self.writer, digest)
    }
}

/// The digest of `data`.
pub fn digest(data: &[u8]) -> (d: [u8; 20])
    ensures
        d@ == sha1_of(data@),
{
    let mut hasher = Hasher::new();
    hasher.update(data);
    assert(Seq::<u8>::empty() + data@ =~= data@);
    hasher.finalize()
}

/// The lower-case hexadecimal digit for a value below sixteen.
pub open spec fn hex_digit(nibble: int) -> char {
    seq!['0', '1', '2', '3', '4', '5', '6', '7', '8', '9', 'a', 'b', 'c', 'd', 'e', 'f'][nibble]
}

/// Lower-case hexadecimal text of a byte string: two digits per byte, the
/// high half first.
pub open spec fn hex_lower(bytes: Seq<u8>) -> Seq<char> {
    Seq::new(
        2 * bytes.len(),
        |i: int| hex_digit(if i % 2 == 0 { bytes[i / 2] as int / 16 } else { bytes[i / 2] as int % 16 }),
    )
}

/// `hex::encode`: two lower-case digits per byte, taken from the table
/// `0123456789abcdef` by the byte's high and low half.
#[verifier::external_body]
fn hex_encode(bytes: &[u8]) -> (text: String)
    ensures
        text@ == hex_lower(bytes@),
{
    hex::encode(bytes)
}

/// Renders a digest as 40 lower-case hexadecimal characters.
pub fn to_hex(digest: &[u8; 20]) -> (text: String)
    ensures
        text@ == hex_lower(digest@),
        text@.len() == HEX_LEN,
{
    hex_encode(digest.as_slice())
}

/// Whether `c` is one of `0`-`9` and `a`-`f`.
pub open spec fn is_hex_char(c: char) -> bool {
    ('0' <= c <= '9') || ('a' <= c <= 'f')
}

/// Hexadecimal text consists of hexadecimal digits only.
pub proof fn lemma_hex_lower_chars(bytes: Seq<u8>)
    ensures
        hex_lower(bytes).len() == 2 * bytes.len(),
        forall|i: int| 0 <= i < 2 * bytes.len() ==> is_hex_char(#[trigger] hex_lower(bytes)[i]),
{
    assert forall|i: int| 0 <= i < 2 * bytes.len() implies is_hex_char(
        #[trigger] hex_lower(bytes)[i],
    ) by {
        let b = bytes[i / 2] as int;
        let n = if i % 2 == 0 { b / 16 } else { b % 16 };
        assert(0 <= n < 16);
        assert(hex_lower(bytes)[i] == hex_digit(n));
        lemma_hex_digit(n);
    }
}

/// Each digit is a hexadecimal character, and tells its value.
pub proof fn lemma_hex_digit(n: int)
    requires
        0 <= n < 16,
    ensures
        is_hex_char(hex_digit(n)),
        hex_value(hex_digit(n)) == n,
{
    if n == 0 {
    } else if n == 1 {
    } else if n == 2 {
    } else if n == 3 {
    } else if n == 4 {
    } else if n == 5 {
    } else if n == 6 {
    } else if n == 7 {
    } else if n == 8 {
    } else if n == 9 {
    } else if n == 10 {
    } else if n == 11 {
    } else if n == 12 {
    } else if n == 13 {
    } else if n == 14 {
    } else {
    }
}

/// The value of a hexadecimal character.
pub open spec fn hex_value(c: char) -> int {
    if '0' <= c <= '9' {
        c as int - '0' as int
    } else {
        c as int - 'a' as int + 10
    }
}

/// Two byte strings with the same hexadecimal text are the same.
pub proof fn lemma_hex_lower_injective(a: Seq<u8>, b: Seq<u8>)
    requires
        hex_lower(a) == hex_lower(b),
    ensures
        a == b,
{
    assert(2 * a.len() == hex_lower(a).len());
    assert(2 * b.len() == hex_lower(b).len());
    assert(a.len() == b.len());
    assert forall|k: int| 0 <= k < a.len() implies a[k] == b[k] by {
        let hi_a = a[k] as int / 16;
        let lo_a = a[k] as int % 16;
        let hi_b = b[k] as int / 16;
        let lo_b = b[k] as int % 16;
        assert((2 * k) % 2 == 0 && (2 * k) / 2 == k && (2 * k + 1) % 2 == 1 && (2 * k + 1) / 2
            == k);
        assert(hex_lower(a)[2 * k] == hex_digit(hi_a));
        assert(hex_lower(b)[2 * k] == hex_digit(hi_b));
        assert(hex_lower(a)[2 * k + 1] == hex_digit(lo_a));
        assert(hex_lower(b)[2 * k + 1] == hex_digit(lo_b));
        lemma_hex_digit(hi_a);
        lemma_hex_digit(hi_b);
        lemma_hex_digit(lo_a);
        lemma_hex_digit(lo_b);
        assert(hi_a == hi_b && lo_a == lo_b);
    }
    assert(a =~= b);
}

} // verus!
