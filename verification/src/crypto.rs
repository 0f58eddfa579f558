//! Encryption: AES-256-GCM with a per-bundle key derived by HKDF-SHA256
//! from a hardware root secret.
//!
//! Sealed format: 4 bytes `MAGIC` (`CDF1`) | 12 bytes nonce | ciphertext
//! followed by its 16-byte tag.

use vstd::prelude::*;

use aes_gcm::aead::{Aead, KeyInit};
use rand::RngCore;
use zeroize::Zeroize;

use crate::error::CoreDataError;
use crate::hex::{decode, decode_pairs, pairs_aligned, utf8_len};
use crate::text::{chars_of, concat, string_of, strip_chars, trim_white};
use vstd::utf8::encode_utf8;

verus! {

broadcast use {
    vstd::string::group_string_axioms,
    vstd::array::group_array_axioms,
    vstd::slice::group_slice_axioms,
};

#[verifier::external_type_specification]
#[verifier::external_body]
pub struct ExAeadError(aes_gcm::Error);

#[verifier::external_type_specification]
#[verifier::external_body]
pub struct ExInvalidLength(hkdf::InvalidLength);

/// Key material for one bundle.
pub struct DerivedKey(pub [u8; 32]);

impl DerivedKey {
    /// The 32 key bytes.
    pub fn as_bytes(&self) -> (r: &[u8; 32])
        ensures
            *r == self.0,
    {
        &self.0
    }
}

/// A source of the hardware root secret that keys are derived from.
pub trait HardwareRoot {
    /// Whether `r` is a result this root may give: the secret it hands out,
    /// or the error it fails with. A root that says nothing of itself may
    /// give anything.
    open spec fn gives(&self, r: Result<Seq<u8>, CoreDataError>) -> bool {
        true
    }

    /// The root secret, or why there is none.
    fn root_secret(&self) -> (r: Result<Vec<u8>, CoreDataError>)
        ensures
            self.gives(secret_view(r)),
    ;
}

/// A root's result with the secret taken as a sequence of bytes.
pub open spec fn secret_view(r: Result<Vec<u8>, CoreDataError>) -> Result<Seq<u8>, CoreDataError> {
    match r {
        Ok(s) => Ok(s@),
        Err(e) => Err(e),
    }
}

/// The bytes every sealed blob starts with: `CDF1`.
pub open spec fn magic() -> Seq<u8> {
    seq![0x43u8, 0x44u8, 0x46u8, 0x31u8]
}

/// The most plaintext bytes AES-GCM takes: 2^36.
pub open spec fn max_plaintext() -> nat {
    0x10_0000_0000
}

/// What HKDF-SHA256 (no salt) expands to, as 32 bytes, from an input key
/// material and an info text.
pub uninterp spec fn hkdf_sha256_okm(ikm: Seq<u8>, info: Seq<u8>) -> Seq<u8>;

/// What AES-256-GCM (no associated data) seals a plaintext to under a key
/// and a nonce: the ciphertext followed by the tag.
pub uninterp spec fn aes_gcm_sealed(key: Seq<u8>, nonce: Seq<u8>, pt: Seq<u8>) -> Seq<u8>;

/// What AES-256-GCM (no associated data) opens a sealed text to under a key
/// and a nonce, or `None` where the tag does not verify.
pub uninterp spec fn aes_gcm_opened(key: Seq<u8>, nonce: Seq<u8>, ct: Seq<u8>) -> Option<Seq<u8>>;

/// hkdf's `Hkdf::<Sha256>::new(None, ikm).expand(info, &mut [u8; 32])`.
/// Expansion fails only for outputs over 255 * 32 bytes, so it succeeds here.
#[verifier::external_body]
fn hkdf_sha256(ikm: &[u8], info: &[u8]) -> (r: Result<[u8; 32], hkdf::InvalidLength>)
    ensures
        r is Ok,
        r matches Ok(k) ==> k@ == hkdf_sha256_okm(ikm@, info@),
{
    let mut okm = [0u8; 32];
    hkdf::Hkdf::<sha2::Sha256>::new(None, ikm).expand(info, &mut okm).map(|_| okm)
}

/// rand's `thread_rng().fill_bytes`: overwrites the bytes with random
/// ones; which ones is left open. (rand panics if the system's entropy
/// source fails.)
#[verifier::external_body]
fn random_fill(buf: &mut Vec<u8>)
    ensures
        final(buf)@.len() == old(buf)@.len(),
{
    rand::thread_rng().fill_bytes(buf.as_mut_slice());
}

/// `n` random bytes.
fn random_bytes(n: usize) -> (r: Vec<u8>)
    ensures
        r@.len() == n,
{
    let mut v: Vec<u8> = Vec::new();
    let mut i: usize = 0;
    while i < n
        invariant
            i <= n,
            v@.len() == i,
        decreases n - i,
    {
        v.push(0u8);
        i = i + 1;
    }
    random_fill(&mut v);
    v
}

/// zeroize's `Zeroize for Vec<u8>`: overwrites the bytes with zeros and
/// empties the vector.
#[verifier::external_body]
fn zeroize_bytes(v: &mut Vec<u8>)
    ensures
        final(v)@ == Seq::<u8>::empty(),
{
    v.zeroize();
}

/// aes-gcm's `Aes256Gcm::new(key).encrypt(nonce, pt)`. It fails exactly
/// when the plaintext is over 2^36 bytes; else the result is the ciphertext
/// and its 16-byte tag, which opening under the same key and nonce turns
/// back into the plaintext.
#[verifier::external_body]
fn aes_gcm_seal(key: &[u8; 32], nonce: &[u8], pt: &[u8]) -> (r: Result<Vec<u8>, aes_gcm::Error>)
    requires
        nonce@.len() == 12,
    ensures
        r is Err <==> pt@.len() > max_plaintext(),
        r matches Ok(ct) ==> {
            &&& ct@ == aes_gcm_sealed(key@, nonce@, pt@)
            &&& ct@.len() == pt@.len() + 16
            &&& aes_gcm_opened(key@, nonce@, ct@) == Some(pt@)
        },
{
    let cipher = aes_gcm::Aes256Gcm::new(key.into());
    cipher.encrypt(aes_gcm::Nonce::from_slice(nonce), pt)
}

/// aes-gcm's `Aes256Gcm::new(key).decrypt(nonce, ct)`.
#[verifier::external_body]
fn aes_gcm_open(key: &[u8; 32], nonce: &[u8], ct: &[u8]) -> (r: Result<Vec<u8>, aes_gcm::Error>)
    requires
        nonce@.len() == 12,
    ensures
        match r {
            Ok(pt) => aes_gcm_opened(key@, nonce@, ct@) == Some(pt@),
            Err(_) => aes_gcm_opened(key@, nonce@, ct@) is None,
        },
{
    let cipher = aes_gcm::Aes256Gcm::new(key.into());
    cipher.decrypt(aes_gcm::Nonce::from_slice(nonce), ct)
}

/// The HKDF info for a bundle: `tontoo-coredata v1:<bundle_id>` in UTF-8.
pub open spec fn key_info(bundle_id: Seq<char>) -> Seq<u8> {
    encode_utf8("tontoo-coredata v1:"@ + bundle_id)
}

/// Each bundle has an HKDF info of its own: the keys of two bundles are
/// derived from a root with different infos.
pub proof fn law_info_per_bundle(a: Seq<char>, b: Seq<char>)
    requires
        a != b,
    ensures
        key_info(a) != key_info(b),
{
    let p = "tontoo-coredata v1:"@;
    vstd::utf8::encode_utf8_decode_utf8(p + a);
    vstd::utf8::encode_utf8_decode_utf8(p + b);
    if key_info(a) == key_info(b) {
        assert(p + a == p + b);
        assert((p + a).skip(p.len() as int) =~= a);
        assert((p + b).skip(p.len() as int) =~= b);
    }
}

/// The key of a bundle for a given root secret: HKDF-SHA256 of the secret
/// with the bundle's info. The secret is zeroed afterwards.
pub fn derive_key_from_secret(bundle_id: &str, ikm: Vec<u8>) -> (r: DerivedKey)
    ensures
        r.0@ == hkdf_sha256_okm(ikm@, key_info(bundle_id@)),
{
    let info = concat("tontoo-coredata v1:", bundle_id);
    let okm = match hkdf_sha256(ikm.as_slice(), info.as_str().as_bytes()) {
        Ok(k) => k,
        Err(_) => [0u8; 32],
    };
    let mut ikm_mut = ikm;
    zeroize_bytes(&mut ikm_mut);
    DerivedKey(okm)
}

/// Derive the key of a bundle from the secret of `root` (asked once): the
/// HKDF-SHA256 key of that secret with the bundle's info; where the root
/// fails, its error.
pub fn derive_key<R: HardwareRoot>(bundle_id: &str, root: &R) -> (r: Result<
    DerivedKey,
    CoreDataError,
>)
    ensures
        exists|g: Result<Seq<u8>, CoreDataError>|
            #[trigger] root.gives(g) && match g {
                Ok(b) => r matches Ok(k) && k.0@ == hkdf_sha256_okm(b, key_info(bundle_id@)),
                Err(e) => r matches Err(e2) && e2 == e,
            },
{
    let got = root.root_secret();
    let ghost g = secret_view(got);
    match got {
        Ok(ikm) => {
            let k = derive_key_from_secret(bundle_id, ikm);
            assert(root.gives(g));
            Ok(k)
        },
        Err(e) => {
            assert(root.gives(g));
            Err(e)
        },
    }
}

/// The sealed blob for a nonce and a sealed text: magic, nonce, sealed text.
pub open spec fn framed(nonce: Seq<u8>, sealed: Seq<u8>) -> Seq<u8> {
    magic() + nonce + sealed
}

/// What `decrypt_with_key` gives for a blob: the plaintext, or the message
/// of the `Crypto` error.
pub open spec fn decrypt_outcome(data: Seq<u8>, key: Seq<u8>) -> Result<Seq<u8>, Seq<char>> {
    if data.len() < 32 {
        Err("ciphertext too short"@)
    } else if data.take(4) != magic() {
        Err("invalid magic – not a CoreData encrypted file"@)
    } else {
        match aes_gcm_opened(key, data.subrange(4, 16), data.skip(16)) {
            Some(p) => Ok(p),
            None => Err("decrypt failed – wrong key or corrupted data"@),
        }
    }
}

/// Seal `plaintext` under `key` with a fresh random nonce. Fails (with
/// "encrypt failed: aead::Error") exactly when the plaintext is over 2^36
/// bytes; what it gives decrypts back to the plaintext.
pub fn encrypt_with_key(plaintext: &[u8], key: &DerivedKey) -> (r: Result<Vec<u8>, CoreDataError>)
    ensures
        plaintext@.len() > max_plaintext() ==> (r matches Err(CoreDataError::Crypto(m)) && m@
            == "encrypt failed: aead::Error"@),
        plaintext@.len() <= max_plaintext() ==> (r matches Ok(out) && (exists|n: Seq<u8>|
            n.len() == 12 && out@ == #[trigger] framed(n, aes_gcm_sealed(key.0@, n, plaintext@)))),
        r matches Ok(out) ==> decrypt_outcome(out@, key.0@) == Ok::<Seq<u8>, Seq<char>>(
            plaintext@,
        ),
        r matches Ok(out) ==> out@.len() == plaintext@.len() + 32,
{
    let nonce = random_bytes(12);
    let ns = nonce.as_slice();
    let ct = match aes_gcm_seal(&key.0, ns, plaintext) {
        Ok(c) => c,
        Err(_) => {
            return Err(CoreDataError::crypto("encrypt failed: aead::Error"));
        },
    };
    let mut out: Vec<u8> = Vec::new();
    out.push(0x43u8);
    out.push(0x44u8);
    out.push(0x46u8);
    out.push(0x31u8);
    let mut i: usize = 0;
    while i < 12
        invariant
            i <= 12,
            nonce@.len() == 12,
            out@ == magic() + nonce@.take(i as int),
        decreases 12 - i,
    {
        out.push(nonce[i]);
        i = i + 1;
        assert(out@ =~= magic() + nonce@.take(i as int));
    }
    assert(nonce@.take(12) =~= nonce@);
    let mut j: usize = 0;
    while j < ct.len()
        invariant
            j <= ct@.len(),
            out@ == magic() + nonce@ + ct@.take(j as int),
        decreases ct@.len() - j,
    {
        out.push(ct[j]);
        j = j + 1;
        assert(out@ =~= magic() + nonce@ + ct@.take(j as int));
    }
    assert(ct@.take(ct@.len() as int) =~= ct@);
    assert(out@ == framed(nonce@, aes_gcm_sealed(key.0@, nonce@, plaintext@)));
    proof {
        let d = out@;
        assert(d.take(4) =~= magic());
        assert(d.subrange(4, 16) =~= nonce@);
        assert(d.skip(16) =~= ct@);
    }
    Ok(out)
}

/// Open a sealed blob under `key`: too short (under 32 bytes), a wrong
/// magic, and a tag that does not verify each give a `Crypto` error.
pub fn decrypt_with_key(data: &[u8], key: &DerivedKey) -> (r: Result<Vec<u8>, CoreDataError>)
    ensures
        match decrypt_outcome(data@, key.0@) {
            Ok(p) => r matches Ok(v) && v@ == p,
            Err(m) => r matches Err(CoreDataError::Crypto(s)) && s@ == m,
        },
{
    if data.len() < 32 {
        return Err(CoreDataError::crypto("ciphertext too short"));
    }
    if data[0] != 0x43u8 || data[1] != 0x44u8 || data[2] != 0x46u8 || data[3] != 0x31u8 {
        assert(data@.take(4) != magic()) by {
            if data@.take(4) == magic() {
                assert(data@.take(4)[0] == data@[0]);
                assert(data@.take(4)[1] == data@[1]);
                assert(data@.take(4)[2] == data@[2]);
                assert(data@.take(4)[3] == data@[3]);
            }
        }
        return Err(CoreDataError::crypto("invalid magic – not a CoreData encrypted file"));
    }
    assert(data@.take(4) =~= magic());
    let nonce = vstd::slice::slice_subrange(data, 4, 16);
    let ct = vstd::slice::slice_subrange(data, 16, data.len());
    assert(ct@ =~= data@.skip(16));
    match aes_gcm_open(&key.0, nonce, ct) {
        Ok(pt) => Ok(pt),
        Err(_) => Err(CoreDataError::crypto("decrypt failed – wrong key or corrupted data")),
    }
}

/// Decrypting what `encrypt_with_key` writes gives the plaintext back: for
/// any nonce, the blob framing a sealed text that AES-GCM opens to `pt`
/// decrypts to `pt`.
pub proof fn law_decrypt_inverts_encrypt(key: Seq<u8>, nonce: Seq<u8>, pt: Seq<u8>)
    requires
        nonce.len() == 12,
        aes_gcm_sealed(key, nonce, pt).len() == pt.len() + 16,
        aes_gcm_opened(key, nonce, aes_gcm_sealed(key, nonce, pt)) == Some(pt),
    ensures
        decrypt_outcome(framed(nonce, aes_gcm_sealed(key, nonce, pt)), key) == Ok::<
            Seq<u8>,
            Seq<char>,
        >(pt),
{
    let ct = aes_gcm_sealed(key, nonce, pt);
    let d = framed(nonce, ct);
    assert(d.take(4) =~= magic());
    assert(d.subrange(4, 16) =~= nonce);
    assert(d.skip(16) =~= ct);
}

/// What a key given as hex text reads as (surrounding white space
/// ignored): its 32 bytes, or the message of the `Crypto` error.
pub open spec fn raw_key_outcome(hex: Seq<char>) -> Result<Seq<u8>, Seq<char>> {
    let t = trim_white(hex);
    if utf8_len(t) % 2 == 1 {
        Err("invalid raw key hex: "@ + "odd length"@)
    } else {
        match decode_pairs(t) {
            None => Err("invalid raw key hex: "@ + "invalid digit found in string"@),
            Some(b) => if b.len() == 32 {
                Ok(b)
            } else {
                Err("raw key must be 32 bytes"@)
            },
        }
    }
}

/// Whether a hex key text can be read at all: an odd number of bytes, or
/// every pair of bytes a whole number of characters (slicing it elsewhere
/// would cut a character).
pub open spec fn raw_key_readable(hex: Seq<char>) -> bool {
    utf8_len(trim_white(hex)) % 2 == 1 || pairs_aligned(trim_white(hex))
}

/// A key given as hex text (surrounding white space ignored): 32 bytes.
/// Bad hex gives "invalid raw key hex: <reason>", another length gives
/// "raw key must be 32 bytes".
pub fn key_from_raw_hex(hex: &str) -> (r: Result<DerivedKey, CoreDataError>)
    requires
        raw_key_readable(hex@),
    ensures
        match raw_key_outcome(hex@) {
            Ok(b) => r matches Ok(k) && k.0@ == b,
            Err(m) => r matches Err(CoreDataError::Crypto(s)) && s@ == m,
        },
{
    let cs = chars_of(hex);
    let tc = strip_chars(cs.as_slice(), true, ' ');
    let trimmed = string_of(tc.as_slice());
    proof {
        crate::text::lemma_trim_white_idempotent(hex@);
    }
    let bytes = match decode(trimmed.as_str()) {
        Ok(b) => b,
        Err(e) => {
            let m = concat("invalid raw key hex: ", e.as_str());
            return Err(CoreDataError::Crypto(m));
        },
    };
    if bytes.len() != 32 {
        return Err(CoreDataError::crypto("raw key must be 32 bytes"));
    }
    let mut arr = [0u8; 32];
    let mut i: usize = 0;
    while i < 32
        invariant
            i <= 32,
            bytes@.len() == 32,
            forall|j: int| 0 <= j < i ==> arr@[j] == bytes@[j],
        decreases 32 - i,
    {
        arr[i] = bytes[i];
        i = i + 1;
    }
    assert(arr@ =~= bytes@);
    Ok(DerivedKey(arr))
}

/// What the hardware probe found: whether a TPM device exists, the
/// machine ids and host name that could be read, the DMI identifiers in
/// probe order (`None` where unreadable), and the home directory.
pub struct RootProbe {
    pub has_tpm: bool,
    pub machine_id: Option<String>,
    pub dbus_machine_id: Option<String>,
    pub hostname: Option<String>,
    pub dmi: Vec<Option<String>>,
    pub home: String,
}

/// The optional text as mathematics.
pub open spec fn opt_text(o: Option<String>) -> Option<Seq<char>> {
    match o {
        Some(s) => Some(s@),
        None => None,
    }
}

/// The first DMI identifier that is not blank, trimmed; empty if none.
pub open spec fn first_dmi(ds: Seq<Option<Seq<char>>>) -> Seq<char>
    decreases ds.len(),
{
    if ds.len() == 0 {
        Seq::empty()
    } else {
        match ds[0] {
            Some(v) if trim_white(v).len() > 0 => trim_white(v),
            _ => first_dmi(ds.drop_first()),
        }
    }
}

/// The root secret of a probe: the machine id (else the D-Bus machine id,
/// else the host name) trimmed, then the first non-blank DMI identifier,
/// then `:tpm_present` when there is a TPM; when all that is empty, the
/// home directory followed by `:fallback-tontoo-coredata-root-v1`.
pub open spec fn root_secret_of(
    has_tpm: bool,
    machine_id: Option<Seq<char>>,
    dbus_machine_id: Option<Seq<char>>,
    hostname: Option<Seq<char>>,
    dmi: Seq<Option<Seq<char>>>,
    home: Seq<char>,
) -> Seq<u8> {
    let id: Seq<char> = match machine_id {
        Some(m) => trim_white(m),
        None => match dbus_machine_id {
            Some(m) => trim_white(m),
            None => match hostname {
                Some(h) => trim_white(h),
                None => Seq::empty(),
            },
        },
    };
    let tpm: Seq<char> = if has_tpm {
        ":tpm_present"@
    } else {
        Seq::empty()
    };
    let s = encode_utf8(id) + encode_utf8(first_dmi(dmi)) + encode_utf8(tpm);
    if s.len() == 0 {
        encode_utf8(home) + encode_utf8(":fallback-tontoo-coredata-root-v1"@)
    } else {
        s
    }
}

/// Append the UTF-8 bytes of `s`.
fn push_text(out: &mut Vec<u8>, s: &str)
    ensures
        final(out)@ == old(out)@ + encode_utf8(s@),
{
    let b = s.as_bytes();
    let mut i: usize = 0;
    let ghost start = out@;
    while i < b.len()
        invariant
            i <= b@.len(),
            b@ == encode_utf8(s@),
            out@ == start + b@.take(i as int),
        decreases b@.len() - i,
    {
        out.push(b[i]);
        i = i + 1;
        assert(out@ =~= start + b@.take(i as int));
    }
    assert(b@.take(b@.len() as int) =~= b@);
}

/// `s` with white space trimmed off both ends.
fn trimmed(s: &str) -> (r: String)
    ensures
        r@ == trim_white(s@),
{
    let cs = chars_of(s);
    let t = strip_chars(cs.as_slice(), true, ' ');
    string_of(t.as_slice())
}

/// The root secret of a probe (see `root_secret_of`).
pub open spec fn probe_secret(p: RootProbe) -> Seq<u8> {
    root_secret_of(
        p.has_tpm,
        opt_text(p.machine_id),
        opt_text(p.dbus_machine_id),
        opt_text(p.hostname),
        Seq::new(p.dmi@.len(), |i: int| opt_text(p.dmi@[i])),
        p.home@,
    )
}

impl RootProbe {
    /// The root secret these probe results give (see `root_secret_of`).
    pub fn secret(&self) -> (r: Vec<u8>)
        ensures
            r@ == probe_secret(*self),
    {
        let mut out: Vec<u8> = Vec::new();
        match &self.machine_id {
            Some(m) => push_text(&mut out, trimmed(m.as_str()).as_str()),
            None => match &self.dbus_machine_id {
                Some(m) => push_text(&mut out, trimmed(m.as_str()).as_str()),
                None => match &self.hostname {
                    Some(h) => push_text(&mut out, trimmed(h.as_str()).as_str()),
                    None => {
                        assert(out@ =~= encode_utf8(Seq::<char>::empty()));
                    },
                },
            },
        }
        let ghost ds = Seq::new(self.dmi@.len(), |i: int| opt_text(self.dmi@[i]));
        let ghost id_bytes = out@;
        let mut k: usize = 0;
        assert(ds.skip(0) =~= ds);
        while k < self.dmi.len()
            invariant_except_break
                out@ == id_bytes,
            invariant
                ds == Seq::new(self.dmi@.len(), |i: int| opt_text(self.dmi@[i])),
                k <= ds.len(),
                first_dmi(ds) == first_dmi(ds.skip(k as int)),
            ensures
                out@ == id_bytes + encode_utf8(first_dmi(ds)),
            decreases ds.len() - k,
        {
            assert(ds.skip(k as int)[0] == ds[k as int]);
            assert(ds.skip(k as int).drop_first() =~= ds.skip(k + 1));
            assert(ds[k as int] == opt_text(self.dmi@[k as int]));
            match &self.dmi[k] {
                Some(v) => {
                    let t = trimmed(v.as_str());
                    if !t.as_str().is_empty() {
                        push_text(&mut out, t.as_str());
                        break;
                    }
                },
                None => {},
            }
            assert(first_dmi(ds.skip(k as int)) == first_dmi(ds.skip(k + 1)));
            k = k + 1;
            if k == self.dmi.len() {
                assert(ds.skip(k as int) =~= Seq::<Option<Seq<char>>>::empty());
                assert(first_dmi(ds) == Seq::<char>::empty());
                assert(encode_utf8(Seq::<char>::empty()) =~= Seq::<u8>::empty());
                assert(out@ =~= id_bytes + encode_utf8(first_dmi(ds)));
            }
        }
        let ghost dmi_bytes = out@;
        if self.has_tpm {
            push_text(&mut out, ":tpm_present");
        } else {
            assert(out@ =~= dmi_bytes + encode_utf8(Seq::<char>::empty()));
        }
        if out.len() == 0 {
            push_text(&mut out, self.home.as_str());
            push_text(&mut out, ":fallback-tontoo-coredata-root-v1");
        }
        out
    }
}

/// The hardware root: the secret made of what the hardware probe found.
pub struct TpmRoot(pub RootProbe);

impl HardwareRoot for TpmRoot {
    /// The hardware root gives the probe's secret.
    open spec fn gives(&self, r: Result<Seq<u8>, CoreDataError>) -> bool {
        r == Ok::<Seq<u8>, CoreDataError>(probe_secret(self.0))
    }

    /// The probe's secret (see `probe_secret`); never fails, as the
    /// fallback secret is never empty.
    fn root_secret(&self) -> (r: Result<Vec<u8>, CoreDataError>)
        ensures
            r matches Ok(s) && s@ == probe_secret(self.0),
    {
        Ok(self.0.secret())
    }
}

/// A root secret kept in a file: what the file at `path` held when it was
/// read, `None` where there was no such file.
pub struct FileRoot {
    pub path: String,
    pub contents: Option<Vec<u8>>,
}

impl FileRoot {
    /// The secret: what the file held, else 32 fresh random bytes (which
    /// belong in the file from then on).
    pub fn secret(&self) -> (r: Vec<u8>)
        ensures
            match self.contents {
                Some(b) => r@ == b@,
                None => r@.len() == 32,
            },
    {
        match &self.contents {
            Some(b) => {
                let mut out: Vec<u8> = Vec::new();
                let mut i: usize = 0;
                while i < b.len()
                    invariant
                        i <= b@.len(),
                        out@ == b@.take(i as int),
                    decreases b@.len() - i,
                {
                    out.push(b[i]);
                    i = i + 1;
                    assert(out@ =~= b@.take(i as int));
                }
                assert(b@.take(b@.len() as int) =~= b@);
                out
            },
            None => random_bytes(32),
        }
    }
}

impl HardwareRoot for FileRoot {
    /// A key file gives what it holds, else 32 fresh bytes.
    open spec fn gives(&self, r: Result<Seq<u8>, CoreDataError>) -> bool {
        match self.contents {
            Some(b) => r == Ok::<Seq<u8>, CoreDataError>(b@),
            None => r matches Ok(s) && s.len() == 32,
        }
    }

    /// The file's secret (see `FileRoot::secret`); never fails.
    fn root_secret(&self) -> (r: Result<Vec<u8>, CoreDataError>)
        ensures
            r matches Ok(s) && match self.contents {
                Some(b) => s@ == b@,
                None => s@.len() == 32,
            },
    {
        Ok(self.secret())
    }
}

/// Where the key of a bundle comes from.
pub enum KeySource {
    /// A root secret kept in a file.
    KeyFile(FileRoot),
    /// A key given directly, as hex text.
    RawHex(String),
    /// The hardware root.
    Hardware(TpmRoot),
}

/// Whether `k` is a key that `source` gives for `bundle_id`: HKDF of the
/// root secret for a key file (of some 32 fresh bytes when the file is
/// missing) or the hardware root, the bytes themselves for hex text.
pub open spec fn source_key(bundle_id: Seq<char>, source: KeySource, k: Seq<u8>) -> bool {
    match source {
        KeySource::KeyFile(f) => match f.contents {
            Some(b) => k == hkdf_sha256_okm(b@, key_info(bundle_id)),
            None => exists|s: Seq<u8>|
                s.len() == 32 && k == #[trigger] hkdf_sha256_okm(s, key_info(bundle_id)),
        },
        KeySource::RawHex(h) => raw_key_outcome(h@) == Ok::<Seq<u8>, Seq<char>>(k),
        KeySource::Hardware(t) => k == hkdf_sha256_okm(probe_secret(t.0), key_info(bundle_id)),
    }
}

/// The message of the `Crypto` error a key source gives, if it gives one:
/// only hex text that is no 32-byte key does.
pub open spec fn source_error(source: KeySource) -> Option<Seq<char>> {
    match source {
        KeySource::RawHex(h) => match raw_key_outcome(h@) {
            Err(m) => Some(m),
            Ok(_) => None,
        },
        _ => None,
    }
}

/// Whether a key source can be read at all (see `raw_key_readable`).
pub open spec fn source_readable(source: KeySource) -> bool {
    source matches KeySource::RawHex(h) ==> raw_key_readable(h@)
}

/// Whether a key source gives the same key every time: all do but a key
/// file that does not exist yet.
pub open spec fn source_fixed(source: KeySource) -> bool {
    !(source matches KeySource::KeyFile(f) && f.contents is None)
}

/// The key of a bundle: from the key file's or the hardware's root secret
/// by HKDF, or the hex key itself.
pub fn key_for_bundle(bundle_id: &str, source: &KeySource) -> (r: Result<DerivedKey, CoreDataError>)
    requires
        source_readable(*source),
    ensures
        match source_error(*source) {
            Some(m) => r matches Err(CoreDataError::Crypto(s)) && s@ == m,
            None => r matches Ok(k) && source_key(bundle_id@, *source, k.0@),
        },
{
    match source {
        KeySource::KeyFile(f) => {
            let secret = f.secret();
            let ghost sv = secret@;
            let k = derive_key_from_secret(bundle_id, secret);
            assert(k.0@ == hkdf_sha256_okm(sv, key_info(bundle_id@)));
            Ok(k)
        },
        KeySource::RawHex(h) => key_from_raw_hex(h.as_str()),
        KeySource::Hardware(t) => {
            let secret = t.0.secret();
            Ok(derive_key_from_secret(bundle_id, secret))
        },
    }
}

/// Seal `plaintext` for a bundle under the key from `source`. Fails as the
/// key source does, or (with "encrypt failed: aead::Error") when the
/// plaintext is over 2^36 bytes; what it gives is framed as
/// `encrypt_with_key` frames it and decrypts back to the plaintext.
pub fn encrypt(plaintext: &[u8], bundle_id: &str, source: &KeySource) -> (r: Result<
    Vec<u8>,
    CoreDataError,
>)
    requires
        source_readable(*source),
    ensures
        source_error(*source) matches Some(m) ==> (r matches Err(CoreDataError::Crypto(s)) && s@
            == m),
        source_error(*source) is None && plaintext@.len() > max_plaintext() ==> (r matches Err(
            CoreDataError::Crypto(s),
        ) && s@ == "encrypt failed: aead::Error"@),
        source_error(*source) is None && plaintext@.len() <= max_plaintext() ==> r is Ok,
        r matches Ok(out) ==> exists|k: Seq<u8>, n: Seq<u8>|
            #[trigger] source_key(bundle_id@, *source, k) && n.len() == 12 && out@ == framed(
                n,
                #[trigger] aes_gcm_sealed(k, n, plaintext@),
            ) && decrypt_outcome(out@, k) == Ok::<Seq<u8>, Seq<char>>(plaintext@),
        r matches Ok(out) ==> out@.len() == plaintext@.len() + 32,
{
    let key = key_for_bundle(bundle_id, source)?;
    encrypt_with_key(plaintext, &key)
}

/// Open a sealed blob of a bundle under the key from `source`. Fails as the
/// key source does, else as `decrypt_with_key` does under that key.
pub fn decrypt(data: &[u8], bundle_id: &str, source: &KeySource) -> (r: Result<
    Vec<u8>,
    CoreDataError,
>)
    requires
        source_readable(*source),
    ensures
        source_error(*source) matches Some(m) ==> (r matches Err(CoreDataError::Crypto(s)) && s@
            == m),
        source_error(*source) is None ==> exists|k: Seq<u8>|
            #[trigger] source_key(bundle_id@, *source, k) && match decrypt_outcome(data@, k) {
                Ok(p) => r matches Ok(v) && v@ == p,
                Err(m) => r matches Err(CoreDataError::Crypto(s)) && s@ == m,
            },
{
    let key = key_for_bundle(bundle_id, source)?;
    decrypt_with_key(data, &key)
}

/// A key source that gives the same key every time gives one key per
/// bundle: so what `encrypt` seals for a bundle, `decrypt` opens for it.
pub proof fn law_source_key_unique(bundle_id: Seq<char>, source: KeySource, k1: Seq<u8>, k2: Seq<u8>)
    requires
        source_fixed(source),
        source_key(bundle_id, source, k1),
        source_key(bundle_id, source, k2),
    ensures
        k1 == k2,
{
}

/// What `encrypt` seals for a bundle, `decrypt` opens for that bundle to
/// the plaintext, whenever the key source gives the same key every time:
/// a blob that opens to `pt` under a key the source gives opens to `pt`
/// under any key it gives. (A key file not yet written gives fresh bytes
/// each time, so it is left out.)
pub proof fn law_encrypt_then_decrypt(
    bundle_id: Seq<char>,
    source: KeySource,
    out: Seq<u8>,
    pt: Seq<u8>,
    k1: Seq<u8>,
    k2: Seq<u8>,
)
    requires
        source_fixed(source),
        source_key(bundle_id, source, k1),
        source_key(bundle_id, source, k2),
        decrypt_outcome(out, k1) == Ok::<Seq<u8>, Seq<char>>(pt),
    ensures
        decrypt_outcome(out, k2) == Ok::<Seq<u8>, Seq<char>>(pt),
{
    law_source_key_unique(bundle_id, source, k1, k2);
}

} // verus!
