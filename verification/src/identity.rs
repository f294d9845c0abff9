//! Content identity: a short token derived from the bytes of a file.
//!
//! The token is the first ten characters of the lowercase hexadecimal form of
//! the SHA-256 digest of the content. It is computed over chunks, so a caller
//! never has to hold a whole file in memory.

use crate::text::{chars_of, string_of_range};
use sha2::Digest;
use vstd::prelude::*;

verus! {

/// Number of characters in a content identity token.
pub const IDENTITY_LEN: usize = 10;

/// A SHA-256 computation in progress: a `sha2::Sha256`. That type is an
/// alias of a generic type with type-level numbers as its parameters, which
/// cannot be declared to the verifier, so the value is held in a field that
/// the verifier does not look into. What is known of it is what the four
/// functions below say.
#[verifier::external_body]
pub struct Sha256State {
    inner: sha2::Sha256,
}

/// The bytes that a SHA-256 computation has taken in so far, in order.
pub uninterp spec fn absorbed(state: Sha256State) -> Seq<u8>;

/// The SHA-256 digest of `data`.
pub uninterp spec fn sha256_of(data: Seq<u8>) -> Seq<u8>;

/// The lowercase hexadecimal digit for `nibble`, which is below 16.
pub open spec fn hex_digit(nibble: int) -> char {
    seq!['0', '1', '2', '3', '4', '5', '6', '7', '8', '9', 'a', 'b', 'c', 'd', 'e', 'f'][nibble]
}

/// Two lowercase hexadecimal digits for each byte of `data`, high digit first.
pub open spec fn hex_lower(data: Seq<u8>) -> Seq<char> {
    Seq::new(
        2 * data.len(),
        |i: int|
            if i % 2 == 0 {
                hex_digit(data[i / 2] as int / 16)
            } else {
                hex_digit(data[i / 2] as int % 16)
            },
    )
}

/// Whether `c` is a lowercase hexadecimal digit.
pub open spec fn is_lower_hex(c: char) -> bool {
    ('0' <= c && c <= '9') || ('a' <= c && c <= 'f')
}

/// Whether every character of `s` is a lowercase hexadecimal digit.
pub open spec fn all_lower_hex(s: Seq<char>) -> bool {
    forall|i: int| 0 <= i < s.len() ==> is_lower_hex(#[trigger] s[i])
}

/// The hexadecimal form of bytes has two lowercase hexadecimal digits for
/// each byte, and nothing else.
pub proof fn lemma_hex_lower(data: Seq<u8>)
    ensures
        hex_lower(data).len() == 2 * data.len(),
        all_lower_hex(hex_lower(data)),
{
    assert forall|i: int| 0 <= i < hex_lower(data).len() implies is_lower_hex(
        #[trigger] hex_lower(data)[i],
    ) by {
        let b = data[i / 2] as int;
        let n = if i % 2 == 0 {
            b / 16
        } else {
            b % 16
        };
        assert(0 <= n < 16);
        assert(hex_lower(data)[i] == hex_digit(n));
        assert(is_lower_hex(hex_digit(n))) by {
            if n == 0 {
            } else if n == 1 {
            } else if n == 2 {
            } else if n == 3 {
            } else if n == 4 {
            } else if n == 5 {
            } else if n == 6 {
            } else if n == 7 {
            } else if n == 8 {
            } else if n == 9 {
            } else if n == 10 {
            } else if n == 11 {
            } else if n == 12 {
            } else if n == 13 {
            } else if n == 14 {
            } else {
            }
        }
    }
}

/// The content identity of `data`.
pub open spec fn identity_of(data: Seq<u8>) -> Seq<char> {
    hex_lower(sha256_of(data)).take(IDENTITY_LEN as int)
}

/// `Sha256::new` of the `sha2` crate: a computation that has taken in nothing.
#[verifier::external_body]
fn sha256_start() -> (state: Sha256State)
    ensures
        absorbed(state) == Seq::<u8>::empty(),
{
    Sha256State { inner: sha2::Sha256::new() }
}

/// `Digest::update` of the `sha2` crate: the computation takes in `chunk`
/// behind what it had.
#[verifier::external_body]
fn sha256_feed(state: &mut Sha256State, chunk: &[u8])
    ensures
        absorbed(*final(state)) == absorbed(*old(state)) + chunk@,
{
    state.inner.update(chunk);
}

/// `Digest::finalize` of the `sha2` crate: the digest of all that was taken
/// in, which for SHA-256 has 32 bytes.
#[verifier::external_body]
fn sha256_finish(state: Sha256State) -> (digest: Vec<u8>)
    ensures
        digest@ == sha256_of(absorbed(state)),
        digest@.len() == 32,
{
    state.inner.finalize().to_vec()
}

/// `hex::encode`: each byte becomes two lowercase hexadecimal digits.
#[verifier::external_body]
fn hex_encode(data: &[u8]) -> (text: String)
    ensures
        text@ == hex_lower(data@),
{
    hex::encode(data)
}

/// Computes a content identity from chunks of bytes.
pub struct ContentHasher {
    state: Sha256State,
}

impl View for ContentHasher {
    type V = Seq<u8>;

    /// All bytes given to `update` so far, in order.
    closed spec fn view(&self) -> Seq<u8> {
        absorbed(self.state)
    }
}

impl ContentHasher {
    /// A hasher that has seen no bytes.
    pub fn new() -> (hasher: ContentHasher)
        ensures
            hasher@ == Seq::<u8>::empty(),
    {
        ContentHasher { state: sha256_start() }
    }

    /// Takes in the next chunk of the content.
    pub fn update(&mut self, chunk: &[u8])
        ensures
            final(self)@ == old(self)@ + chunk@,
    {
        sha256_feed(&mut self.state, chunk);
    }

    /// The identity of everything that was taken in.
    pub fn finish(self) -> (token: String)
        ensures
            token@ == identity_of(self@),
            sha256_of(self@).len() == 32,
            token@.len() == IDENTITY_LEN,
            all_lower_hex(token@),
    {
        let digest = sha256_finish(self.state);
        let text = hex_encode(digest.as_slice());
        let cs = chars_of(text.as_str());
        let token = string_of_range(&cs, 0, IDENTITY_LEN);
        proof {
            lemma_hex_lower(digest@);
            assert(cs@.subrange(0, IDENTITY_LEN as int) == cs@.take(IDENTITY_LEN as int));
            assert forall|i: int| 0 <= i < token@.len() implies is_lower_hex(
                #[trigger] token@[i],
            ) by {
                assert(token@[i] == hex_lower(digest@)[i]);
            }
        }
        token
    }
}

/// The content identity of `data`, computed in one step.
pub fn calculate_autov2_hash(data: &[u8]) -> (token: String)
    ensures
        token@ == identity_of(data@),
        sha256_of(data@).len() == 32,
        token@.len() == IDENTITY_LEN,
        all_lower_hex(token@),
{
    let mut hasher = ContentHasher::new();
    hasher.update(data);
    assert(Seq::<u8>::empty() + data@ == data@);
    hasher.finish()
}

/// The bytes of `chunks`, one chunk after the other.
pub open spec fn joined_chunks(chunks: Seq<Vec<u8>>) -> Seq<u8>
    decreases chunks.len(),
{
    if chunks.len() == 0 {
        Seq::empty()
    } else {
        joined_chunks(chunks.drop_last()) + chunks.last()@
    }
}

/// The content identity of content that comes in chunks. It is that of
/// the bytes taken together: where the content was cut plays no part.
pub fn identity_of_chunks(chunks: &Vec<Vec<u8>>) -> (token: String)
    ensures
        token@ == identity_of(joined_chunks(chunks@)),
        sha256_of(joined_chunks(chunks@)).len() == 32,
        token@.len() == IDENTITY_LEN,
        all_lower_hex(token@),
{
    let mut hasher = ContentHasher::new();
    let mut i: usize = 0;
    assert(chunks@.take(0) =~= Seq::<Vec<u8>>::empty());
    while i < chunks.len()
        invariant
            i <= chunks@.len(),
            hasher@ == joined_chunks(chunks@.take(i as int)),
        decreases chunks@.len() - i,
    {
        assert(chunks@.take(i + 1).drop_last() == chunks@.take(i as int));
        hasher.update(chunks[i].as_slice());
        i = i + 1;
    }
    assert(chunks@.take(i as int) == chunks@);
    hasher.finish()
}

} // verus!
