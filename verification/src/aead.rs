//! XChaCha20-Poly1305: authenticated encryption with a 32-byte key, a 24-byte nonce and a 16-byte
//! tag that follows the encrypted message.

use chacha20poly1305::aead::{Aead, KeyInit, Payload};
use chacha20poly1305::{Key, XChaCha20Poly1305, XNonce};
use vstd::prelude::*;

verus! {

/// `chacha20poly1305::Error`, which says no more than that the operation failed.
#[verifier::external_type_specification]
#[verifier::external_body]
pub struct ExAeadError(chacha20poly1305::Error);

/// Length of a nonce.
pub const NONCE_LEN: usize = 24;

/// Length of a tag.
pub const TAG_LEN: usize = 16;

/// The longest message that the cipher takes: it numbers its 64-byte blocks with 32 bits, block 0
/// gives the authentication key, and the block with the highest number stays unused, which leaves
/// 2^32 - 2 of them.
pub const MAX_MESSAGE_LEN: u64 = 274_877_906_816;

/// The ciphertext of `msg`, tag included, under `key` and `nonce` with associated data `aad`.
pub uninterp spec fn sealed(key: Seq<u8>, nonce: Seq<u8>, aad: Seq<u8>, msg: Seq<u8>) -> Seq<u8>;

/// The message that `ct` decrypts to under `key`, `nonce` and `aad`, or `None` where its tag is
/// not the one that they give.
pub uninterp spec fn opened(key: Seq<u8>, nonce: Seq<u8>, aad: Seq<u8>, ct: Seq<u8>) -> Option<
    Seq<u8>,
>;

/// `Aead::encrypt` of an `XChaCha20Poly1305` made from `key`. It panics on a message that is a
/// little longer than `MAX_MESSAGE_LEN` and on one whose ciphertext no vector can hold. Claimed of
/// the others: it succeeds, the ciphertext depends on the four arguments alone, it is one tag
/// longer than the message, and the same key, nonce and associated data open it again.
#[verifier::external_body]
pub(crate) fn seal(key: &[u8; 32], nonce: &[u8], aad: &[u8], msg: &[u8]) -> (r: Result<
    Vec<u8>,
    chacha20poly1305::Error,
>)
    requires
        nonce@.len() == NONCE_LEN,
        msg@.len() <= MAX_MESSAGE_LEN,
        msg@.len() + TAG_LEN <= isize::MAX,
    ensures
        r is Ok,
        r->Ok_0@ == sealed(key@, nonce@, aad@, msg@),
        r->Ok_0@.len() == msg@.len() + TAG_LEN,
        opened(key@, nonce@, aad@, r->Ok_0@) == Some(msg@),
{
    let cipher = XChaCha20Poly1305::new(Key::from_slice(key));
    cipher.encrypt(XNonce::from_slice(nonce), Payload { msg, aad })
}

/// `Aead::decrypt` of an `XChaCha20Poly1305` made from `key`. It panics on an authentic ciphertext
/// of a message that is a little longer than `MAX_MESSAGE_LEN`. Claimed of the others: whether it
/// succeeds, and with which message, depends on the four arguments alone, and the message is one
/// tag shorter than the ciphertext.
#[verifier::external_body]
pub(crate) fn open(key: &[u8; 32], nonce: &[u8], aad: &[u8], ct: &[u8]) -> (r: Result<
    Vec<u8>,
    chacha20poly1305::Error,
>)
    requires
        nonce@.len() == NONCE_LEN,
        ct@.len() <= MAX_MESSAGE_LEN + TAG_LEN,
    ensures
        r is Err <==> opened(key@, nonce@, aad@, ct@) is None,
        r matches Ok(msg) ==> opened(key@, nonce@, aad@, ct@) == Some(msg@),
        r matches Ok(msg) ==> msg@.len() + TAG_LEN == ct@.len(),
{
    let cipher = XChaCha20Poly1305::new(Key::from_slice(key));
    cipher.decrypt(XNonce::from_slice(nonce), Payload { msg: ct, aad })
}

} // verus!
