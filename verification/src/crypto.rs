//! The block cipher behind the encrypted file formats.
//!
//! Encryption is AES-128 in cipher-block-chaining mode with PKCS#7
//! padding. The ciphertext of a given key, IV and plaintext is named by
//! [`cbc_ciphertext`]; the trusted contracts state only that encryption
//! computes that function and that decryption inverts it.

use vstd::prelude::*;

use aes::cipher::block_padding::Pkcs7;
use aes::cipher::{BlockDecryptMut, BlockEncryptMut, KeyIvInit};

verus! {

/// The AES-128-CBC ciphertext, under PKCS#7 padding, of a plaintext
/// under a 16-byte key and IV.
pub uninterp spec fn cbc_ciphertext(key: Seq<u8>, iv: Seq<u8>, plaintext: Seq<u8>) -> Seq<u8>;

/// What AES-128-CBC decryption with PKCS#7 unpadding returns for a key,
/// IV and input: the recovered plaintext, or nothing when unpadding
/// fails. A function of its three arguments alone.
pub uninterp spec fn cbc_decryption(key: Seq<u8>, iv: Seq<u8>, data: Seq<u8>) -> Option<Seq<u8>>;

/// Relies on `cbc::Encryptor<aes::Aes128>` with PKCS#7 padding: the
/// ciphertext is a function of key, IV and plaintext alone, one cipher
/// block longer than the plaintext rounded down to a block boundary.
#[verifier::external_body]
pub fn aes128_cbc_encrypt(key: &[u8; 16], iv: &[u8; 16], data: &[u8]) -> (r: Vec<u8>)
    ensures
        r@ == cbc_ciphertext(key@, iv@, data@),
        r@.len() == 16 * ((data@.len() / 16) + 1),
{
    cbc::Encryptor::<aes::Aes128>::new(key.into(), iv.into()).encrypt_padded_vec_mut::<Pkcs7>(data)
}

/// What decryption promises: applied to the ciphertext of any plaintext
/// under the same key and IV, it returns exactly that plaintext.
pub open spec fn decrypts_back(r: Option<Vec<u8>>, key: Seq<u8>, iv: Seq<u8>, data: Seq<u8>) -> bool {
    forall|pt: Seq<u8>| data == cbc_ciphertext(key, iv, pt) ==> (r matches Some(v) && v@ == pt)
}

/// Relies on `cbc::Decryptor<aes::Aes128>` with PKCS#7 padding: the
/// result is the decryption named by [`cbc_decryption`], a function of
/// key, IV and input alone; applied to the ciphertext of a plaintext
/// under the same key and IV, it returns that plaintext.
#[verifier::external_body]
pub fn aes128_cbc_decrypt(key: &[u8; 16], iv: &[u8; 16], data: &[u8]) -> (r: Option<Vec<u8>>)
    ensures
        (r matches Some(v) ==> v@.len() < data@.len()),
        (r is Some) == (cbc_decryption(key@, iv@, data@) is Some),
        (r matches Some(v) ==> cbc_decryption(key@, iv@, data@) == Some(v@)),
        decrypts_back(r, key@, iv@, data@),
{
    match cbc::Decryptor::<aes::Aes128>::new(key.into(), iv.into()).decrypt_padded_vec_mut::<
        Pkcs7,
    >(data) {
        Ok(v) => Some(v),
        Err(_) => None,
    }
}

} // verus!
