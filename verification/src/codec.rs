//! Codec pipeline for game saves: already-serialized state bytes are
//! encrypted with a fixed symmetric key on the way to disk and decrypted on
//! the way back.  Turning the host's state type into plain bytes and back is
//! the host's affair; the pipeline works on bytes alone.

use vstd::prelude::*;

verus! {

/// Failure taxonomy of the persistence core.
#[derive(Clone, Copy, Debug, PartialEq, Eq, Structural)]
pub enum SaveError {
    /// A file was missing or unreadable.
    Io,
    /// Encoding failed on the way to disk.
    Serialization,
    /// The ciphertext was tampered with, truncated, or made with another key.
    Decryption,
}

/// What `simple_crypt::decrypt` returns, under this library's fixed key, for
/// a given ciphertext: `Some(plain)` when the blob authenticates and decrypts
/// to `plain`, `None` when it is rejected.  The result is a function of the
/// ciphertext alone.
pub uninterp spec fn decrypt_of(cipher: Seq<u8>) -> Option<Seq<u8>>;

/// Plaintexts the cipher is sure to accept: AES-GCM-SIV caps one message's
/// plaintext at 2^36 bytes, and below that cap encryption cannot fail.
pub open spec fn encryptable(plain: Seq<u8>) -> bool {
    plain.len() < 0x1000000000
}

/// Relies on `simple_crypt::encrypt` with this library's fixed key: it draws
/// a fresh salt and nonce, so two calls on one plaintext may return different
/// blobs, but every blob it returns decrypts, under the same key, back to the
/// plaintext handed in.  Its only failure on a fixed valid key is a
/// plaintext over the cipher's size cap.
#[verifier::external_body]
fn crypt_encrypt(plain: &Vec<u8>) -> (r: Option<Vec<u8>>)
    ensures
        r is Some ==> decrypt_of(r->0@) == Some(plain@),
        encryptable(plain@) ==> r is Some,
{
    simple_crypt::encrypt(plain.as_slice(), b"0123456789abcdef").ok()
}

/// Relies on `simple_crypt::decrypt` with this library's fixed key: a pure
/// function of the ciphertext, written `decrypt_of` in specifications.
#[verifier::external_body]
fn crypt_decrypt(cipher: &Vec<u8>) -> (r: Option<Vec<u8>>)
    ensures
        match decrypt_of(cipher@) {
            Some(p) => r is Some && r->0@ == p,
            None => r is None,
        },
{
    simple_crypt::decrypt(cipher.as_slice(), b"0123456789abcdef").ok()
}

/// Encrypts one serialized save state for the durable writer.
pub fn encode_save(plain: &Vec<u8>) -> (r: Result<Vec<u8>, SaveError>)
    ensures
        r is Ok ==> decrypt_of(r->Ok_0@) == Some(plain@),
        encryptable(plain@) ==> r is Ok,
        r is Err ==> r->Err_0 == SaveError::Serialization,
{
    match crypt_encrypt(plain) {
        Some(c) => Ok(c),
        None => Err(SaveError::Serialization),
    }
}

/// Decrypts one save file image back into the serialized save state.
pub fn decode_save(cipher: &Vec<u8>) -> (r: Result<Vec<u8>, SaveError>)
    ensures
        r is Ok <==> decrypt_of(cipher@) is Some,
        r is Ok ==> Some(r->Ok_0@) == decrypt_of(cipher@),
        r is Err ==> r->Err_0 == SaveError::Decryption,
{
    match crypt_decrypt(cipher) {
        Some(p) => Ok(p),
        None => Err(SaveError::Decryption),
    }
}

/// Round trip of the codec pipeline: every blob `encode_save` hands out for a
/// plaintext (that is, every `cipher` with `decrypt_of(cipher) ==
/// Some(plain)`) is accepted by `decode_save`, which returns exactly that
/// plaintext.
pub proof fn lemma_codec_round_trip(plain: Seq<u8>, cipher: Seq<u8>)
    requires
        decrypt_of(cipher) == Some(plain),
    ensures
        decrypt_of(cipher) is Some,
        decrypt_of(cipher)->0 == plain,
{
}

} // verus!
