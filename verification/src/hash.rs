//! Content digests: a file's bytes are fed to a hasher piece by piece, and
//! files with the same digest are taken to have the same content.

use vstd::prelude::*;

verus! {

/// `blake3::Hasher`, the state of a digest in the making. What is claimed
/// of it is said by `hasher_input`.
#[verifier::external_type_specification]
#[verifier::external_body]
pub struct ExHasher(blake3::Hasher);

/// The BLAKE3 digest of `input`, as 64 lower-case hexadecimal digits.
pub uninterp spec fn blake3_hex(input: Seq<u8>) -> Seq<char>;

/// What a hasher holds: the bytes it has taken so far, for a hasher of the
/// regular hash function that started empty; `None` for any other hasher.
pub uninterp spec fn hasher_input(hasher: blake3::Hasher) -> Option<Seq<u8>>;

/// `blake3::Hasher::new`: a hasher of the regular hash function that has
/// taken no input.
#[verifier::external_body]
fn hasher_new() -> (r: blake3::Hasher)
    ensures
        hasher_input(r) == Some(Seq::<u8>::empty()),
{
    blake3::Hasher::new()
}

/// `blake3::Hasher::update`: the hasher takes `input` after what it had.
#[verifier::external_body]
fn hasher_update(hasher: &mut blake3::Hasher, input: &[u8])
    requires
        hasher_input(*old(hasher)) is Some,
    ensures
        hasher_input(*final(hasher)) == Some(hasher_input(*old(hasher))->0 + input@),
{
    hasher.update(input);
}

/// `blake3::Hasher::finalize` and `blake3::Hash::to_hex`: the digest of all
/// that the hasher has taken, as 64 hexadecimal digits.
#[verifier::external_body]
fn hasher_finalize(hasher: &blake3::Hasher) -> (r: String)
    requires
        hasher_input(*hasher) is Some,
    ensures
        r@ == blake3_hex(hasher_input(*hasher)->0),
        r@.len() == 64,
{
    hasher.finalize().to_hex().to_string()
}

/// The digest of a file's content.
#[derive(Debug)]
pub struct FileHash {
    pub hex: String,
}

impl FileHash {
    /// Whether two digests are the same.
    pub fn same(&self, other: &FileHash) -> (r: bool)
        ensures
            r == (self.hex@ == other.hex@),
    {
        self.hex == other.hex
    }
}

/// A digest in the making: it takes a content piece by piece.
pub struct ContentHasher {
    hasher: blake3::Hasher,
}

impl ContentHasher {
    /// The bytes taken so far.
    pub closed spec fn taken(&self) -> Seq<u8> {
        hasher_input(self.hasher)->0
    }

    /// The hasher is one that `new` made and only `update` has changed.
    pub closed spec fn wf(&self) -> bool {
        hasher_input(self.hasher) is Some
    }

    /// A hasher that has taken nothing.
    pub fn new() -> (r: ContentHasher)
        ensures
            r.wf(),
            r.taken() == Seq::<u8>::empty(),
    {
        ContentHasher { hasher: hasher_new() }
    }

    /// Takes one more piece of the content.
    pub fn update(&mut self, piece: &[u8])
        requires
            old(self).wf(),
        ensures
            final(self).wf(),
            final(self).taken() == old(self).taken() + piece@,
    {
        hasher_update(&mut self.hasher, piece);
    }

    /// The digest of all that was taken.
    pub fn finish(self) -> (r: FileHash)
        requires
            self.wf(),
        ensures
            r.hex@ == blake3_hex(self.taken()),
            r.hex@.len() == 64,
    {
        FileHash { hex: hasher_finalize(&self.hasher) }
    }
}

} // verus!
