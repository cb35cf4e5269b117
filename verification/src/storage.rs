//! The single-graph file codec.
//!
//! Two on-disk forms exist: a plaintext form and an encrypted form that
//! frames an AES-128-CBC ciphertext behind an 8-byte magic value. Key and
//! IV are folded from a caller-supplied passphrase of at most 32 bytes.

use vstd::prelude::*;
use vstd::string::StringSliceAdditionalSpecFns;

use crate::crypto::{aes128_cbc_encrypt, aes128_cbc_decrypt, cbc_ciphertext, cbc_decryption};
use crate::text::bytes_to_string;

verus! {

/// The two single-graph file forms.
#[derive(Debug, Clone, Copy, PartialEq, Eq, Structural)]
pub enum BlueprintFormat {
    /// Plaintext.
    Legna,
    /// Encrypted behind the magic value.
    LegnaEncrypted,
}

/// Why a codec operation failed.
#[derive(Debug, Clone, Copy, PartialEq, Eq, Structural)]
pub enum StorageError {
    /// The passphrase is empty or longer than 32 bytes.
    BadPassphrase,
    /// The data does not start with the encrypted form's magic value.
    NotEncrypted,
    /// The ciphertext does not decrypt under this passphrase.
    DecryptFailed,
    /// The decrypted bytes are not text.
    BadText,
}

impl BlueprintFormat {
    /// Reads a format off a file extension, ignoring ASCII case.
    pub fn from_extension(ext: &str) -> (r: Option<BlueprintFormat>)
        ensures
            r == (if crate::text::ascii_eq_ignore_case(ext.spec_bytes(), "l".spec_bytes()) {
                Some(BlueprintFormat::Legna)
            } else if crate::text::ascii_eq_ignore_case(ext.spec_bytes(), "lz".spec_bytes()) {
                Some(BlueprintFormat::LegnaEncrypted)
            } else {
                None::<BlueprintFormat>
            }),
    {
        if crate::text::str_eq_ignore_ascii_case(ext, "l") {
            Some(BlueprintFormat::Legna)
        } else if crate::text::str_eq_ignore_ascii_case(ext, "lz") {
            Some(BlueprintFormat::LegnaEncrypted)
        } else {
            None
        }
    }

    /// The canonical file extension of a format.
    pub fn extension(&self) -> (r: &'static str)
        ensures
            *self == BlueprintFormat::Legna ==> r@ == "L"@,
            *self == BlueprintFormat::LegnaEncrypted ==> r@ == "LZ"@,
    {
        match self {
            BlueprintFormat::Legna => "L",
            BlueprintFormat::LegnaEncrypted => "LZ",
        }
    }
}

/// The 8-byte magic value opening an encrypted single-graph file.
pub open spec fn lz_magic() -> Seq<u8> {
    seq![76u8, 69u8, 71u8, 78u8, 65u8, 95u8, 76u8, 90u8]
}

/// A passphrase the codec accepts: nonempty, at most 32 bytes.
pub open spec fn passphrase_ok(pass: Seq<u8>) -> bool {
    1 <= pass.len() <= 32
}

/// The 16-byte cipher key folded from a passphrase: its bytes repeated.
pub open spec fn spec_key(pass: Seq<u8>) -> Seq<u8> {
    Seq::new(16, |i: int| pass[i % pass.len() as int])
}

/// The 16-byte IV folded from a passphrase: its bytes reversed and
/// offset by position.
pub open spec fn spec_iv(pass: Seq<u8>) -> Seq<u8> {
    Seq::new(16, |i: int| pass[pass.len() - 1 - (i % pass.len() as int)] ^ (i as u8))
}

/// The framed ciphertext of a plaintext under a passphrase.
pub open spec fn spec_encrypted(pass: Seq<u8>, plaintext: Seq<u8>) -> Seq<u8> {
    lz_magic() + cbc_ciphertext(spec_key(pass), spec_iv(pass), plaintext)
}

/// The single-graph codec.
#[derive(Debug)]
pub struct BlueprintStorage;

impl BlueprintStorage {
    /// Folds a passphrase into the cipher key and IV.
    pub fn derive_key_iv(passphrase: &str) -> (r: ([u8; 16], [u8; 16]))
        requires
            passphrase_ok(passphrase.spec_bytes()),
        ensures
            r.0@ == spec_key(passphrase.spec_bytes()),
            r.1@ == spec_iv(passphrase.spec_bytes()),
    {
        let bytes = passphrase.as_bytes();
        let mut key: [u8; 16] = [0; 16];
        let mut iv: [u8; 16] = [0; 16];
        let mut i: usize = 0;
        while i < 16
            invariant
                bytes@ == passphrase.spec_bytes(),
                1 <= bytes@.len() <= 32,
                i <= 16,
                forall|k: int| 0 <= k < i ==> key@[k] == spec_key(bytes@)[k],
                forall|k: int| 0 <= k < i ==> iv@[k] == spec_iv(bytes@)[k],
            decreases 16 - i,
        {
            key[i] = bytes[i % bytes.len()];
            iv[i] = bytes[bytes.len() - 1 - (i % bytes.len())] ^ (i as u8);
            i += 1;
        }
        proof {
            assert(key@ =~= spec_key(bytes@));
            assert(iv@ =~= spec_iv(bytes@));
        }
        (key, iv)
    }

    /// Encrypts text under a passphrase: the magic value followed by the
    /// ciphertext.
    pub fn encrypt(data: &str, passphrase: &str) -> (r: Result<Vec<u8>, StorageError>)
        ensures
            r is Err <==> !passphrase_ok(passphrase.spec_bytes()),
            r is Err ==> r == Err::<Vec<u8>, StorageError>(StorageError::BadPassphrase),
            r matches Ok(v) ==> v@ == spec_encrypted(passphrase.spec_bytes(), data.spec_bytes()),
    {
        let pb = passphrase.as_bytes();
        if pb.len() == 0 || pb.len() > 32 {
            return Err(StorageError::BadPassphrase);
        }
        let (key, iv) = Self::derive_key_iv(passphrase);
        let ct = aes128_cbc_encrypt(&key, &iv, data.as_bytes());
        let mut out: Vec<u8> = Vec::new();
        out.push(76);
        out.push(69);
        out.push(71);
        out.push(78);
        out.push(65);
        out.push(95);
        out.push(76);
        out.push(90);
        let mut j: usize = 0;
        while j < ct.len()
            invariant
                j <= ct@.len(),
                out@ == lz_magic() + ct@.subrange(0, j as int),
            decreases ct@.len() - j,
        {
            out.push(ct[j]);
            proof {
                assert(out@ =~= lz_magic() + ct@.subrange(0, j + 1));
            }
            j += 1;
        }
        proof {
            assert(ct@.subrange(0, ct@.len() as int) =~= ct@);
        }
        Ok(out)
    }

    /// Decrypts an encrypted single-graph file under a passphrase.
    /// Applied to what [`Self::encrypt`] produced from some text under
    /// the same passphrase, it returns exactly that text; on other
    /// well-framed input the outcome follows the raw decryption: a
    /// padding failure, bytes that are not text, or the decrypted text.
    pub fn decrypt(data: &[u8], passphrase: &str) -> (r: Result<String, StorageError>)
        ensures
            !passphrase_ok(passphrase.spec_bytes()) <==> r == Err::<String, StorageError>(
                StorageError::BadPassphrase,
            ),
            passphrase_ok(passphrase.spec_bytes()) && (data@.len() < 8 || data@.subrange(0, 8)
                != lz_magic()) <==> r == Err::<String, StorageError>(StorageError::NotEncrypted),
            passphrase_ok(passphrase.spec_bytes()) && data@.len() >= 8 && data@.subrange(0, 8)
                == lz_magic() ==> ({
                let d = cbc_decryption(
                    spec_key(passphrase.spec_bytes()),
                    spec_iv(passphrase.spec_bytes()),
                    data@.subrange(8, data@.len() as int),
                );
                &&& (r == Err::<String, StorageError>(StorageError::DecryptFailed)) <==> (
                d is None)
                &&& (d matches Some(pt) ==> (if vstd::utf8::valid_utf8(pt) {
                    r matches Ok(s) && s@ == vstd::utf8::decode_utf8(pt)
                } else {
                    r == Err::<String, StorageError>(StorageError::BadText)
                }))
            }),
            forall|text: Seq<char>|
                passphrase_ok(passphrase.spec_bytes()) && data@ == spec_encrypted(
                    passphrase.spec_bytes(),
                    vstd::utf8::encode_utf8(text),
                ) ==> (r matches Ok(s) && s@ == text),
    {
        broadcast use vstd::utf8::encode_utf8_valid_utf8;
        broadcast use vstd::utf8::encode_utf8_decode_utf8;

        let pb = passphrase.as_bytes();
        if pb.len() == 0 || pb.len() > 32 {
            return Err(StorageError::BadPassphrase);
        }
        if data.len() < 8 {
            return Err(StorageError::NotEncrypted);
        }
        let magic_ok = data[0] == 76 && data[1] == 69 && data[2] == 71 && data[3] == 78 && data[4]
            == 65 && data[5] == 95 && data[6] == 76 && data[7] == 90;
        proof {
            assert(magic_ok == (data@.subrange(0, 8) =~= lz_magic()));
        }
        if !magic_ok {
            return Err(StorageError::NotEncrypted);
        }
        let (key, iv) = Self::derive_key_iv(passphrase);
        let ct = slice_tail(data, 8);
        proof {
            assert forall|text: Seq<char>|
                data@ == spec_encrypted(passphrase.spec_bytes(), vstd::utf8::encode_utf8(text))
                implies ct@ == cbc_ciphertext(
                spec_key(passphrase.spec_bytes()),
                spec_iv(passphrase.spec_bytes()),
                vstd::utf8::encode_utf8(text),
            ) by {
                assert(ct@ =~= cbc_ciphertext(
                    spec_key(passphrase.spec_bytes()),
                    spec_iv(passphrase.spec_bytes()),
                    vstd::utf8::encode_utf8(text),
                ));
            }
        }
        match aes128_cbc_decrypt(&key, &iv, ct) {
            Some(pt) => {
                match bytes_to_string(pt) {
                    Some(s) => Ok(s),
                    None => Err(StorageError::BadText),
                }
            }
            None => Err(StorageError::DecryptFailed),
        }
    }
}

/// The bytes of a slice from an offset on.
fn slice_tail(data: &[u8], from: usize) -> (r: &[u8])
    requires
        from <= data@.len(),
    ensures
        r@ == data@.subrange(from as int, data@.len() as int),
{
    let (_, tail) = data.split_at(from);
    tail
}

} // verus!
