//! The package codec: one workflow bundled with the source of every
//! script it references, for standalone distribution.
//!
//! A package file is an 8-byte magic value, a 4-byte little-endian
//! version, and an AES-128-CBC ciphertext of the serialized bundle. Key
//! and IV are folded from an embedded constant passphrase, not a
//! user-supplied one.

use vstd::prelude::*;
use vstd::string::StringSliceAdditionalSpecFns;

use crate::crypto::{aes128_cbc_encrypt, aes128_cbc_decrypt, cbc_ciphertext, cbc_decryption};
use crate::graph::{Workflow, WorkflowView};
use crate::kvmap::KvMap;

verus! {

/// The embedded passphrase every package is encrypted under.
pub const PACKAGE_KEY: &'static str = "LegnaGamePackage2024";

/// The current package format version.
pub const PACKAGE_VERSION: u32 = 1;

/// The 8-byte magic value opening a package file.
pub open spec fn package_magic() -> Seq<u8> {
    seq![76u8, 69u8, 71u8, 78u8, 65u8, 80u8, 65u8, 75u8]
}

/// Why reading a package failed.
#[derive(Debug, Clone, Copy, PartialEq, Eq, Structural)]
pub enum PackageError {
    /// Shorter than magic and version together.
    TooSmall,
    /// The data does not start with the package magic value.
    BadMagic,
    /// Written by a newer format version.
    VersionTooNew,
    /// The ciphertext does not decrypt under the embedded passphrase.
    DecryptFailed,
}

/// The 16-byte cipher key folded from the embedded passphrase.
pub open spec fn package_key(pass: Seq<u8>) -> Seq<u8> {
    Seq::new(16, |i: int| pass[i % pass.len() as int])
}

/// The 16-byte IV folded from the embedded passphrase: bytes taken at an
/// offset and spread by position.
pub open spec fn package_iv(pass: Seq<u8>) -> Seq<u8> {
    Seq::new(16, |i: int| pass[(i + 7) % pass.len() as int] ^ ((i * 17) as u8))
}

/// The little-endian bytes of the version word.
pub open spec fn version_bytes(v: u32) -> Seq<u8> {
    seq![
        (v % 256) as u8,
        ((v / 256) % 256) as u8,
        ((v / 65536) % 256) as u8,
        ((v / 16777216) % 256) as u8,
    ]
}

/// The version word a framed file carries: its bytes at offsets 8
/// through 11, read little-endian.
pub open spec fn spec_version_word(data: Seq<u8>) -> int {
    data[8] + 256 * data[9] + 65536 * data[10] + 16777216 * data[11]
}

/// The framed bytes of a serialized bundle.
pub open spec fn spec_package_bytes(pass: Seq<u8>, payload: Seq<u8>) -> Seq<u8> {
    package_magic() + version_bytes(PACKAGE_VERSION) + cbc_ciphertext(
        package_key(pass),
        package_iv(pass),
        payload,
    )
}


/// Whether a string list carries this text.
pub open spec fn has_str(list: Seq<String>, s: Seq<char>) -> bool {
    exists|i: int| 0 <= i < list.len() && list[i]@ == s
}

/// A workflow bundled with the source text of its scripts.
#[derive(Debug)]
pub struct GamePackage {
    pub name: String,
    pub version: String,
    /// The bundled workflow; stored read-only.
    pub workflow: Workflow,
    /// Script sources by script identifier.
    pub scripts: KvMap<String>,
}

impl GamePackage {
    /// Folds the embedded passphrase into the cipher key and IV.
    pub fn derive_key_iv() -> (r: ([u8; 16], [u8; 16]))
        ensures
            r.0@ == package_key(PACKAGE_KEY.spec_bytes()),
            r.1@ == package_iv(PACKAGE_KEY.spec_bytes()),
    {
        let bytes = PACKAGE_KEY.as_bytes();
        proof {
            vstd::string::is_ascii_spec_bytes(PACKAGE_KEY);
            reveal_strlit("LegnaGamePackage2024");
            assert(PACKAGE_KEY@.len() == 20);
            assert(bytes@.len() == 20);
        }
        let mut key: [u8; 16] = [0; 16];
        let mut iv: [u8; 16] = [0; 16];
        let mut i: usize = 0;
        while i < 16
            invariant
                bytes@ == PACKAGE_KEY.spec_bytes(),
                bytes@.len() == 20,
                i <= 16,
                forall|k: int| 0 <= k < i ==> key@[k] == package_key(bytes@)[k],
                forall|k: int| 0 <= k < i ==> iv@[k] == package_iv(bytes@)[k],
            decreases 16 - i,
        {
            key[i] = bytes[i % bytes.len()];
            let spread = (i as u8) * 17;
            iv[i] = bytes[(i + 7) % bytes.len()] ^ spread;
            i += 1;
        }
        proof {
            assert(key@ =~= package_key(bytes@));
            assert(iv@ =~= package_iv(bytes@));
        }
        (key, iv)
    }

    /// The distinct script identifiers the workflow's blocks reference,
    /// in first-use order.
    #[verifier::rlimit(60)]
    pub fn used_script_ids(workflow: &Workflow) -> (r: Vec<String>)
        ensures
            forall|i: int, j: int| 0 <= i < j < r@.len() ==> r@[i]@ != r@[j]@,
            forall|s: Seq<char>|
                #[trigger] has_str(r@, s) <==> (exists|k: int|
                    0 <= k < workflow.blocks@.len() && (#[trigger] workflow.blocks@[
                    k]).script_id@ == s),
    {
        let mut r: Vec<String> = Vec::new();
        let mut k: usize = 0;
        while k < workflow.blocks.len()
            invariant
                k <= workflow.blocks@.len(),
                forall|x: int, y: int| 0 <= x < y < r@.len() ==> r@[x]@ != r@[y]@,
                forall|s: Seq<char>|
                    #[trigger] has_str(r@, s) <==> (exists|k2: int|
                        0 <= k2 < k && (#[trigger] workflow.blocks@[k2]).script_id@ == s),
            decreases workflow.blocks@.len() - k,
        {
            let ghost riter = r@;
            let sid = &workflow.blocks[k].script_id;
            let mut present = false;
            let mut i: usize = 0;
            while i < r.len()
                invariant
                    i <= r@.len(),
                    present == exists|x: int| 0 <= x < i && (#[trigger] r@[x])@ == sid@,
                decreases r@.len() - i,
            {
                if crate::text::str_eq(r[i].as_str(), sid.as_str()) {
                    present = true;
                }
                i += 1;
            }
            proof {
                assert(present == has_str(riter, sid@));
            }
            if !present {
                r.push(sid.clone());
                proof {
                    assert forall|x: int, y: int|
                        0 <= x < y < r@.len() implies r@[x]@ != r@[y]@ by {
                        if y < riter.len() {
                            assert(riter[x]@ != riter[y]@);
                        } else {
                            assert(r@[x] == riter[x]);
                            assert(r@[y]@ == sid@);
                            assert(!has_str(riter, sid@));
                        }
                    }
                }
            }
            proof {
                assert forall|s: Seq<char>|
                    #[trigger] has_str(r@, s) == ((exists|k2: int|
                        0 <= k2 < k + 1 && (#[trigger] workflow.blocks@[k2]).script_id@
                            == s)) by {
                    if has_str(r@, s) {
                        let x = choose|x: int| 0 <= x < r@.len() && (#[trigger] r@[x])@ == s;
                        if x < riter.len() {
                            assert(r@[x] == riter[x]);
                            assert(has_str(riter, s));
                            let k2 = choose|k2: int|
                                0 <= k2 < k && (#[trigger] workflow.blocks@[k2]).script_id@
                                    == s;
                        } else {
                            assert(s == sid@);
                            assert(workflow.blocks@[k as int].script_id@ == s);
                        }
                    }
                    if exists|k2: int|
                        0 <= k2 < k + 1 && (#[trigger] workflow.blocks@[k2]).script_id@ == s {
                        let k2 = choose|k2: int|
                            0 <= k2 < k + 1 && (#[trigger] workflow.blocks@[k2]).script_id@
                                == s;
                        if k2 < k {
                            assert(has_str(riter, s));
                            let x = choose|x: int|
                                0 <= x < riter.len() && (#[trigger] riter[x])@ == s;
                            assert(r@[x] == riter[x]);
                            assert(has_str(r@, s));
                        } else {
                            if present {
                                let x = choose|x: int|
                                    0 <= x < riter.len() && (#[trigger] riter[x])@ == sid@;
                                assert(r@[x] == riter[x]);
                                assert(has_str(r@, s));
                            } else {
                                assert(r@[r@.len() - 1]@ == sid@);
                                assert(has_str(r@, s));
                            }
                        }
                    }
                }
            }
            k += 1;
        }
        r
    }

    /// Bundles a read-only copy of a workflow with the given script
    /// sources.
    pub fn from_parts(
        workflow: &Workflow,
        name: String,
        version: String,
        scripts: KvMap<String>,
    ) -> (r: GamePackage)
        requires
            workflow.wf(),
            scripts.wf(),
        ensures
            r.name@ == name@,
            r.version@ == version@,
            r.workflow.wf(),
            r.workflow.deep_view() == (WorkflowView { readonly: true, ..workflow.deep_view() }),
            r.scripts == scripts,
    {
        GamePackage { name, version, workflow: workflow.to_distributable(), scripts }
    }

    /// Frames and encrypts a serialized bundle: magic, version, then the
    /// ciphertext under the embedded passphrase.
    pub fn encode_bytes(payload: &[u8]) -> (r: Vec<u8>)
        ensures
            r@ == spec_package_bytes(PACKAGE_KEY.spec_bytes(), payload@),
    {
        let (key, iv) = Self::derive_key_iv();
        let ct = aes128_cbc_encrypt(&key, &iv, payload);
        let mut out: Vec<u8> = Vec::new();
        out.push(76);
        out.push(69);
        out.push(71);
        out.push(78);
        out.push(65);
        out.push(80);
        out.push(65);
        out.push(75);
        out.push(1);
        out.push(0);
        out.push(0);
        out.push(0);
        proof {
            assert(out@ =~= package_magic() + version_bytes(PACKAGE_VERSION));
        }
        let mut j: usize = 0;
        while j < ct.len()
            invariant
                j <= ct@.len(),
                out@ == package_magic() + version_bytes(PACKAGE_VERSION) + ct@.subrange(
                    0,
                    j as int,
                ),
            decreases ct@.len() - j,
        {
            out.push(ct[j]);
            proof {
                assert(out@ =~= package_magic() + version_bytes(PACKAGE_VERSION) + ct@.subrange(
                    0,
                    j + 1,
                ));
            }
            j += 1;
        }
        proof {
            assert(ct@.subrange(0, ct@.len() as int) =~= ct@);
        }
        out
    }

    /// Checks the frame and decrypts a package file back to the
    /// serialized bundle. Applied to what [`Self::encode_bytes`] produced
    /// from some payload, it returns exactly that payload; a version word
    /// above the current one is rejected, and otherwise the outcome
    /// follows the raw decryption.
    pub fn decode_bytes(data: &[u8]) -> (r: Result<Vec<u8>, PackageError>)
        ensures
            data@.len() < 12 <==> r == Err::<Vec<u8>, PackageError>(PackageError::TooSmall),
            data@.len() >= 12 && data@.subrange(0, 8) != package_magic() <==> r == Err::<
                Vec<u8>,
                PackageError,
            >(PackageError::BadMagic),
            data@.len() >= 12 && data@.subrange(0, 8) == package_magic() && spec_version_word(
                data@,
            ) > PACKAGE_VERSION <==> r == Err::<Vec<u8>, PackageError>(
                PackageError::VersionTooNew,
            ),
            data@.len() >= 12 && data@.subrange(0, 8) == package_magic() && spec_version_word(
                data@,
            ) <= PACKAGE_VERSION ==> ({
                let d = cbc_decryption(
                    package_key(PACKAGE_KEY.spec_bytes()),
                    package_iv(PACKAGE_KEY.spec_bytes()),
                    data@.subrange(12, data@.len() as int),
                );
                &&& (r == Err::<Vec<u8>, PackageError>(PackageError::DecryptFailed)) <==> (
                d is None)
                &&& (d matches Some(pt) ==> r matches Ok(v) && v@ == pt)
            }),
            forall|payload: Seq<u8>|
                data@ == spec_package_bytes(PACKAGE_KEY.spec_bytes(), payload) ==> (r matches Ok(
                    v,
                ) && v@ == payload),
    {
        if data.len() < 12 {
            return Err(PackageError::TooSmall);
        }
        let magic_ok = data[0] == 76 && data[1] == 69 && data[2] == 71 && data[3] == 78 && data[4]
            == 65 && data[5] == 80 && data[6] == 65 && data[7] == 75;
        proof {
            assert(magic_ok == (data@.subrange(0, 8) =~= package_magic()));
        }
        if !magic_ok {
            return Err(PackageError::BadMagic);
        }
        let version: u32 = (data[8] as u32) + 256 * (data[9] as u32) + 65536 * (data[10] as u32)
            + 16777216 * (data[11] as u32);
        if version > PACKAGE_VERSION {
            proof {
                assert forall|payload: Seq<u8>|
                    data@ != spec_package_bytes(PACKAGE_KEY.spec_bytes(), payload) by {
                    if data@ == spec_package_bytes(PACKAGE_KEY.spec_bytes(), payload) {
                        assert(data@[8] == 1u8 && data@[9] == 0u8 && data@[10] == 0u8
                            && data@[11] == 0u8);
                    }
                }
            }
            return Err(PackageError::VersionTooNew);
        }
        let (key, iv) = Self::derive_key_iv();
        let ct = tail_from(data, 12);
        proof {
            assert forall|payload: Seq<u8>|
                data@ == spec_package_bytes(PACKAGE_KEY.spec_bytes(), payload) implies ct@
                == cbc_ciphertext(
                package_key(PACKAGE_KEY.spec_bytes()),
                package_iv(PACKAGE_KEY.spec_bytes()),
                payload,
            ) by {
                assert(ct@ =~= cbc_ciphertext(
                    package_key(PACKAGE_KEY.spec_bytes()),
                    package_iv(PACKAGE_KEY.spec_bytes()),
                    payload,
                ));
            }
        }
        match aes128_cbc_decrypt(&key, &iv, ct) {
            Some(pt) => Ok(pt),
            None => Err(PackageError::DecryptFailed),
        }
    }
}

/// The bytes of a slice from an offset on.
fn tail_from(data: &[u8], from: usize) -> (r: &[u8])
    requires
        from <= data@.len(),
    ensures
        r@ == data@.subrange(from as int, data@.len() as int),
{
    let (_, tail) = data.split_at(from);
    tail
}

} // verus!
