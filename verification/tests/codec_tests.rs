use legna_flow::loader::ScriptLoader;
use legna_flow::package::{GamePackage, PackageError};
use legna_flow::storage::{BlueprintFormat, BlueprintStorage, StorageError};

#[test]
fn test_utf8_decode() {
    let content = "-- 中文注释\nreturn {}";
    let decoded = ScriptLoader::decode_content(content.as_bytes());
    assert_eq!(decoded, content);
}

#[test]
fn test_encrypt_decrypt() {
    let data = "Hello, World!";

    let encrypted = BlueprintStorage::encrypt(data, "Legna").unwrap();
    let decrypted = BlueprintStorage::decrypt(&encrypted, "Legna").unwrap();

    assert_eq!(data, decrypted);
}

#[test]
fn encrypt_decrypt_empty_and_long() {
    // Round trips across block boundaries: empty, one byte, and well
    // past one cipher block.
    let long: String = "0123456789abcdef".repeat(13);
    for data in ["", "x", long.as_str()] {
        let encrypted = BlueprintStorage::encrypt(data, "secret").unwrap();
        let decrypted = BlueprintStorage::decrypt(&encrypted, "secret").unwrap();
        assert_eq!(data, decrypted);
    }
}

#[test]
fn encrypted_file_has_magic_and_padding() {
    let encrypted = BlueprintStorage::encrypt("abc", "secret").unwrap();
    assert_eq!(&encrypted[0..8], b"LEGNA_LZ");
    // Three bytes pad to one full cipher block behind the magic value.
    assert_eq!(encrypted.len(), 8 + 16);
}

#[test]
fn wrong_passphrase_never_yields_the_text() {
    let encrypted = BlueprintStorage::encrypt("{\"name\":\"w\"}", "secret").unwrap();
    match BlueprintStorage::decrypt(&encrypted, "not-the-one") {
        Ok(text) => assert_ne!(text, "{\"name\":\"w\"}"),
        Err(e) => assert_eq!(e, StorageError::DecryptFailed),
    }
}

#[test]
fn storage_error_cases() {
    assert_eq!(
        BlueprintStorage::encrypt("x", ""),
        Err(StorageError::BadPassphrase)
    );
    let too_long = "p".repeat(33);
    assert_eq!(
        BlueprintStorage::encrypt("x", &too_long),
        Err(StorageError::BadPassphrase)
    );
    assert_eq!(
        BlueprintStorage::decrypt(b"short", "secret"),
        Err(StorageError::NotEncrypted)
    );
    assert_eq!(
        BlueprintStorage::decrypt(b"NOTMAGIC________", "secret"),
        Err(StorageError::NotEncrypted)
    );
}

#[test]
fn blueprint_format_extensions() {
    assert_eq!(BlueprintFormat::from_extension("l"), Some(BlueprintFormat::Legna));
    assert_eq!(BlueprintFormat::from_extension("L"), Some(BlueprintFormat::Legna));
    assert_eq!(
        BlueprintFormat::from_extension("lz"),
        Some(BlueprintFormat::LegnaEncrypted)
    );
    assert_eq!(
        BlueprintFormat::from_extension("LZ"),
        Some(BlueprintFormat::LegnaEncrypted)
    );
    assert_eq!(BlueprintFormat::from_extension("json"), None);
    assert_eq!(BlueprintFormat::Legna.extension(), "L");
    assert_eq!(BlueprintFormat::LegnaEncrypted.extension(), "LZ");
}

#[test]
fn package_round_trip() {
    let payload = "{\"name\":\"game\",\"version\":\"1\"}".as_bytes();
    let file = GamePackage::encode_bytes(payload);
    assert_eq!(&file[0..8], b"LEGNAPAK");
    assert_eq!(&file[8..12], &[1, 0, 0, 0]);
    let back = GamePackage::decode_bytes(&file).unwrap();
    assert_eq!(back.as_slice(), payload);
}

#[test]
fn package_error_cases() {
    assert_eq!(GamePackage::decode_bytes(b"tiny"), Err(PackageError::TooSmall));
    assert_eq!(
        GamePackage::decode_bytes(b"WRONGMAG\x01\x00\x00\x00rest"),
        Err(PackageError::BadMagic)
    );
    let mut newer = GamePackage::encode_bytes(b"x");
    newer[8] = 2;
    assert_eq!(GamePackage::decode_bytes(&newer), Err(PackageError::VersionTooNew));
}

#[test]
fn decode_content_falls_back_to_gbk() {
    // "中文" in GBK; not valid UTF-8, decoded through the GBK reading.
    let gbk_bytes: [u8; 4] = [0xd6, 0xd0, 0xce, 0xc4];
    let decoded = ScriptLoader::decode_content(&gbk_bytes);
    assert_eq!(decoded, "中文");
}

#[test]
fn decode_content_keeps_bom_when_valid() {
    let mut bytes = vec![0xef_u8, 0xbb, 0xbf];
    bytes.extend_from_slice("return {}".as_bytes());
    let decoded = ScriptLoader::decode_content(&bytes);
    // A byte-order mark followed by valid text is itself valid UTF-8,
    // so the strict reading keeps the mark.
    assert_eq!(decoded, "\u{feff}return {}");
}
