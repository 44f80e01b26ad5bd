//! Content fingerprints: BLAKE3 over the bytes of a file, written as lowercase
//! hexadecimal.

use vstd::prelude::*;
use vstd::slice::slice_subrange;

verus! {

/// Number of bytes handed to the hash function at a time.
pub const CHUNK_SIZE: usize = 8192;

/// `blake3::Hasher`, the state of an incremental hash.
#[verifier::external_type_specification]
#[verifier::external_body]
pub struct ExHasher(blake3::Hasher);

/// The bytes that a `blake3::Hasher` has been given since it was made, in order.
pub uninterp spec fn absorbed(state: blake3::Hasher) -> Seq<u8>;

/// The 32-byte BLAKE3 hash of `data`.
pub uninterp spec fn blake3_digest(data: Seq<u8>) -> Seq<u8>;

/// `blake3::Hasher::new` makes a hasher for the regular hash function; it has
/// been given no input yet.
#[verifier::external_body]
fn hasher_new() -> (state: blake3::Hasher)
    ensures
        absorbed(state) == Seq::<u8>::empty(),
{
    blake3::Hasher::new()
}

/// `blake3::Hasher::update` adds `chunk` to the input of the hash state. On a
/// hasher made by `Hasher::new` it accepts any input.
#[verifier::external_body]
fn hasher_update(state: &mut blake3::Hasher, chunk: &[u8])
    ensures
        absorbed(*final(state)) == absorbed(*old(state)) + chunk@,
{
    state.update(chunk);
}

/// `blake3::Hasher::finalize` returns the hash of all the input given so far
/// and leaves the state as it was; the 32 bytes are copied out of the `Hash`.
#[verifier::external_body]
fn hasher_finalize(state: &blake3::Hasher) -> (digest: [u8; 32])
    ensures
        digest@ == blake3_digest(absorbed(*state)),
{
    *state.finalize().as_bytes()
}

/// The lowercase hexadecimal digit for a value below 16.
pub open spec fn hex_digit(nibble: u8) -> char {
    if nibble < 10 {
        ((48 + nibble) as u8) as char
    } else {
        ((87 + nibble) as u8) as char
    }
}

/// Two lowercase hexadecimal digits for each byte, high half first.
pub open spec fn hex_text(bytes: Seq<u8>) -> Seq<char> {
    Seq::new(
        2 * bytes.len(),
        |i: int|
            if i % 2 == 0 {
                hex_digit(bytes[i / 2] / 16)
            } else {
                hex_digit(bytes[i / 2] % 16)
            },
    )
}

/// The fingerprint of a file's content: a function of the bytes alone.
pub open spec fn fingerprint(content: Seq<u8>) -> Seq<char> {
    hex_text(blake3_digest(content))
}

fn hex_char(nibble: u8) -> (c: char)
    requires
        nibble < 16,
    ensures
        c == hex_digit(nibble),
{
    if nibble < 10 {
        (48 + nibble) as char
    } else {
        (87 + nibble) as char
    }
}

/// Writes `bytes` in lowercase hexadecimal.
pub fn to_hex(bytes: &[u8]) -> (text: String)
    ensures
        text@ == hex_text(bytes@),
{
    let mut text = String::new();
    let mut i: usize = 0;
    while i < bytes.len()
        invariant
            i <= bytes.len(),
            text@ == hex_text(bytes@.take(i as int)),
        decreases bytes.len() - i,
    {
        let b = bytes[i];
        text.push(hex_char(b / 16));
        text.push(hex_char(b % 16));
        i += 1;
        assert(text@ =~= hex_text(bytes@.take(i as int)));
    }
    assert(bytes@.take(i as int) =~= bytes@);
    text
}

/// A fingerprint in the making: content goes in piece by piece, in any
/// division, and the fingerprint of the whole comes out.
pub struct ContentHasher {
    state: blake3::Hasher,
}

impl View for ContentHasher {
    type V = Seq<u8>;

    /// The content given so far.
    closed spec fn view(&self) -> Seq<u8> {
        absorbed(self.state)
    }
}

impl ContentHasher {
    /// A hasher that has seen no content.
    pub fn new() -> (hasher: Self)
        ensures
            hasher@ == Seq::<u8>::empty(),
    {
        ContentHasher { state: hasher_new() }
    }

    /// Appends `chunk` to the content.
    pub fn update(&mut self, chunk: &[u8])
        ensures
            final(self)@ == old(self)@ + chunk@,
    {
        hasher_update(&mut self.state, chunk);
    }

    /// The fingerprint of the content given so far.
    pub fn finish(&self) -> (hash: String)
        ensures
            hash@ == fingerprint(self@),
    {
        let digest = hasher_finalize(&self.state);
        to_hex(digest.as_slice())
    }
}

/// Fingerprints `content`, feeding it to the hash function `CHUNK_SIZE` bytes
/// at a time.
pub fn calculate_file_hash(content: &[u8]) -> (hash: String)
    ensures
        hash@ == fingerprint(content@),
{
    let mut hasher = ContentHasher::new();
    let mut offset: usize = 0;
    while offset < content.len()
        invariant
            offset <= content.len(),
            hasher@ == content@.take(offset as int),
        decreases content.len() - offset,
    {
        let end = if content.len() - offset > CHUNK_SIZE {
            offset + CHUNK_SIZE
        } else {
            content.len()
        };
        hasher.update(slice_subrange(content, offset, end));
        assert(content@.take(offset as int) + content@.subrange(offset as int, end as int)
            =~= content@.take(end as int));
        offset = end;
    }
    assert(content@.take(offset as int) =~= content@);
    hasher.finish()
}

} // verus!
