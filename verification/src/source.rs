//! The byte source that the decoder reads a volume from.

use vstd::prelude::*;

verus! {

/// `std::io::Error`: the failure of a byte source, carried through as it is.
/// Nothing is known of what it holds.
#[verifier::external_type_specification]
#[verifier::external_body]
pub struct ExIoError(std::io::Error);

/// A volume as a run of bytes that can be read at any offset. Byte 0 is the
/// first byte of the partition.
///
/// A read hands back exactly the bytes asked for, or fails; a short read is a
/// failure. Reading leaves the volume as it was. Where the source is
/// `dependable`, a read fails only if it reaches past the end of the volume.
///
/// What this crate proves of a handle rests on `read_at` keeping to this.
/// `MemoryImage` is proved to; a source that is defined elsewhere is taken
/// at its word.
pub trait ByteSource {
    /// The bytes of the volume. A source that does not say what they are
    /// holds some bytes, of which nothing is known.
    open spec fn image(&self) -> Seq<u8> {
        arbitrary()
    }

    /// Whether every read that lies within the volume succeeds. A source
    /// that does not say so is not taken to be dependable.
    open spec fn dependable(&self) -> bool {
        false
    }

    /// Reads the `len` bytes that start at byte `offset`.
    fn read_at(&mut self, offset: u64, len: usize) -> (r: Result<Vec<u8>, std::io::Error>)
        ensures
            final(self).image() == old(self).image(),
            final(self).dependable() == old(self).dependable(),
            r matches Ok(v) ==> offset + len <= old(self).image().len() && v@ == old(
                self,
            ).image().subrange(offset as int, offset + len),
            old(self).dependable() ==> (r is Ok <==> offset + len <= old(self).image().len()),
    ;
}

/// The bytes of `image` from `offset` on, `len` of them; `None` where they
/// reach past its end.
pub open spec fn bytes_at(image: Seq<u8>, offset: int, len: int) -> Option<Seq<u8>> {
    if 0 <= offset && 0 <= len && offset + len <= image.len() {
        Some(image.subrange(offset, offset + len))
    } else {
        None
    }
}

/// `std::io::Error::from` on `ErrorKind::UnexpectedEof`: the error that std's
/// own readers give where a source ends before the buffer is full. Nothing is
/// claimed of the value.
#[verifier::external_body]
pub(crate) fn unexpected_eof() -> std::io::Error {
    std::io::Error::from(std::io::ErrorKind::UnexpectedEof)
}

/// A volume held in memory.
pub struct MemoryImage {
    pub bytes: Vec<u8>,
}

impl MemoryImage {
    /// A volume with the bytes `bytes`.
    pub fn new(bytes: Vec<u8>) -> (r: Self)
        ensures
            r.bytes@ == bytes@,
            r.image() == bytes@,
    {
        MemoryImage { bytes }
    }
}

impl ByteSource for MemoryImage {
    open spec fn image(&self) -> Seq<u8> {
        self.bytes@
    }

    open spec fn dependable(&self) -> bool {
        true
    }

    fn read_at(&mut self, offset: u64, len: usize) -> (r: Result<Vec<u8>, std::io::Error>) {
        let total = self.bytes.len();
        if offset > total as u64 || len > total - offset as usize {
            return Err(unexpected_eof());
        }
        let start = offset as usize;
        let mut out: Vec<u8> = Vec::with_capacity(len);
        let mut i: usize = 0;
        while i < len
            invariant
                i <= len,
                start + len <= self.bytes.len(),
                out@ == self.bytes@.subrange(start as int, start + i),
            decreases len - i,
        {
            out.push(self.bytes[start + i]);
            i += 1;
            assert(out@ =~= self.bytes@.subrange(start as int, start + i));
        }
        Ok(out)
    }
}

} // verus!
