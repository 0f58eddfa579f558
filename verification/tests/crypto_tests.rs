use coredata::crypto::{
    decrypt, decrypt_with_key, derive_key, derive_key_from_secret, encrypt, encrypt_with_key,
    key_for_bundle, key_from_raw_hex, DerivedKey, FileRoot, HardwareRoot, KeySource, RootProbe,
    TpmRoot,
};
use coredata::error::CoreDataError;
use coredata::hex::{decode, encode};

struct StaticRoot(Vec<u8>);

impl HardwareRoot for StaticRoot {
    fn root_secret(&self) -> Result<Vec<u8>, CoreDataError> {
        Ok(self.0.clone())
    }
}

struct BrokenRoot;

impl HardwareRoot for BrokenRoot {
    fn root_secret(&self) -> Result<Vec<u8>, CoreDataError> {
        Err(CoreDataError::crypto("no root"))
    }
}

fn crypto_message<T>(r: Result<T, CoreDataError>) -> String {
    match r {
        Err(CoreDataError::Crypto(m)) => m,
        Err(e) => panic!("unexpected error {:?}", e),
        Ok(_) => panic!("unexpected success"),
    }
}

#[test]
fn roundtrip_static() {
    let root = StaticRoot(b"test-root-secret-32-bytes-long!!".to_vec());
    let key = derive_key("org.example.app", &root).unwrap();
    let pt = b"hello tontoo coredata";
    let ct = encrypt_with_key(pt, &key).unwrap();
    assert!(ct.starts_with(b"CDF1"));
    let dec = decrypt_with_key(&ct, &key).unwrap();
    assert_eq!(dec, pt);
}

#[test]
fn wrong_bundle_fails() {
    let root = StaticRoot(b"same-root".to_vec());
    let k1 = derive_key("org.a", &root).unwrap();
    let k2 = derive_key("org.b", &root).unwrap();
    let ct = encrypt_with_key(b"secret", &k1).unwrap();
    assert!(decrypt_with_key(&ct, &k2).is_err());
}

#[test]
fn derive_key_fails_as_root_fails() {
    assert_eq!(crypto_message(derive_key("org.a", &BrokenRoot)), "no root");
}

#[test]
fn sealed_layout_and_fresh_nonces() {
    let key = DerivedKey([7u8; 32]);
    let a = encrypt_with_key(b"abc", &key).unwrap();
    let b = encrypt_with_key(b"abc", &key).unwrap();
    assert_eq!(a.len(), 4 + 12 + 3 + 16);
    assert_ne!(a[4..16], b[4..16]);
    assert_eq!(decrypt_with_key(&b, &key).unwrap(), b"abc");
}

#[test]
fn decrypt_errors() {
    let key = DerivedKey([1u8; 32]);
    assert_eq!(crypto_message(decrypt_with_key(&[0u8; 31], &key)), "ciphertext too short");
    let mut bad = encrypt_with_key(b"payload", &key).unwrap();
    bad[0] = b'X';
    assert_eq!(
        crypto_message(decrypt_with_key(&bad, &key)),
        "invalid magic – not a CoreData encrypted file"
    );
    let mut flipped = encrypt_with_key(b"payload", &key).unwrap();
    let last = flipped.len() - 1;
    flipped[last] ^= 1;
    assert_eq!(
        crypto_message(decrypt_with_key(&flipped, &key)),
        "decrypt failed – wrong key or corrupted data"
    );
}

#[test]
fn hkdf_key_matches_known_derivation() {
    let a = derive_key_from_secret("org.example.app", b"root".to_vec());
    let b = derive_key_from_secret("org.example.app", b"root".to_vec());
    let c = derive_key_from_secret("org.example.other", b"root".to_vec());
    assert_eq!(a.as_bytes(), b.as_bytes());
    assert_ne!(a.as_bytes(), c.as_bytes());
    assert_ne!(a.as_bytes(), &[0u8; 32]);
}

#[test]
fn raw_hex_keys() {
    let hex = encode(&[0xabu8; 32]);
    assert_eq!(hex.len(), 64);
    let k = key_from_raw_hex(&format!("  {}\n", hex)).unwrap();
    assert_eq!(k.as_bytes(), &[0xabu8; 32]);
    assert_eq!(crypto_message(key_from_raw_hex("abc")), "invalid raw key hex: odd length");
    assert_eq!(
        crypto_message(key_from_raw_hex("zz")),
        "invalid raw key hex: invalid digit found in string"
    );
    assert_eq!(crypto_message(key_from_raw_hex("abcd")), "raw key must be 32 bytes");
}

#[test]
fn hex_roundtrip_and_decode_errors() {
    let bytes = vec![0u8, 1, 0x7f, 0x80, 0xff];
    let h = encode(&bytes);
    assert_eq!(h, "00017f80ff");
    assert_eq!(decode(&h).unwrap(), bytes);
    assert_eq!(decode(" 0A0b ").unwrap(), vec![0x0a, 0x0b]);
    assert_eq!(decode("0").unwrap_err(), "odd length");
    assert_eq!(decode("0g").unwrap_err(), "invalid digit found in string");
}

fn probe() -> RootProbe {
    RootProbe {
        has_tpm: true,
        machine_id: Some(" abc123 \n".to_string()),
        dbus_machine_id: Some("ignored".to_string()),
        hostname: None,
        dmi: vec![None, Some("   ".to_string()), Some(" uuid-1 ".to_string()), Some("later".to_string())],
        home: "/Users/alice".to_string(),
    }
}

#[test]
fn hardware_root_secret_from_probe() {
    assert_eq!(probe().secret(), b"abc123uuid-1:tpm_present".to_vec());
    let bare = RootProbe {
        has_tpm: false,
        machine_id: None,
        dbus_machine_id: None,
        hostname: Some("  ".to_string()),
        dmi: vec![],
        home: "/Users/bob".to_string(),
    };
    assert_eq!(bare.secret(), b"/Users/bob:fallback-tontoo-coredata-root-v1".to_vec());
    let dbus = RootProbe {
        has_tpm: false,
        machine_id: None,
        dbus_machine_id: Some("dbus-id".to_string()),
        hostname: Some("host".to_string()),
        dmi: vec![],
        home: String::new(),
    };
    assert_eq!(TpmRoot(dbus).root_secret().unwrap(), b"dbus-id".to_vec());
}

#[test]
fn file_root_secret() {
    let stored = FileRoot { path: "/k".to_string(), contents: Some(vec![9u8; 5]) };
    assert_eq!(stored.root_secret().unwrap(), vec![9u8; 5]);
    let fresh = FileRoot { path: "/k".to_string(), contents: None };
    assert_eq!(fresh.secret().len(), 32);
}

#[test]
fn bundle_encrypt_decrypt_with_sources() {
    let sources = vec![
        KeySource::Hardware(TpmRoot(probe())),
        KeySource::KeyFile(FileRoot { path: "/k".to_string(), contents: Some(b"file-secret".to_vec()) }),
        KeySource::RawHex(encode(&[3u8; 32])),
    ];
    for src in &sources {
        let ct = encrypt(b"per bundle", "org.example.app", src).unwrap();
        assert!(ct.starts_with(b"CDF1"));
        assert_eq!(decrypt(&ct, "org.example.app", src).unwrap(), b"per bundle");
    }
    // Keys derived from a root differ per bundle; a raw key is the same for all.
    let hw = &sources[0];
    let ct = encrypt(b"x", "org.a", hw).unwrap();
    assert!(decrypt(&ct, "org.b", hw).is_err());
    let raw = &sources[2];
    let ct2 = encrypt(b"x", "org.a", raw).unwrap();
    assert_eq!(decrypt(&ct2, "org.b", raw).unwrap(), b"x");
    let k = key_for_bundle("org.any", raw).unwrap();
    assert_eq!(k.as_bytes(), &[3u8; 32]);
}

#[test]
fn bad_raw_key_source_fails_both_ways() {
    let bad = KeySource::RawHex("xyz".to_string());
    assert_eq!(crypto_message(encrypt(b"x", "org.a", &bad)), "invalid raw key hex: odd length");
    assert_eq!(crypto_message(decrypt(b"x", "org.a", &bad)), "invalid raw key hex: odd length");
}
