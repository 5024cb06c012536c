use vstd::prelude::*;

use crate::errors::ConfigError;
use aes_gcm::aead::{Aead, AeadCore, KeyInit};

verus! {

/// The ciphertext (authentication tag included) that AES-256-GCM produces
/// for a given key, nonce and plaintext. The result is a function of those
/// three arguments alone; its definition is left unstated, so everything
/// proved about it goes through the contracts of the functions below.
pub uninterp spec fn enc_of(key: Seq<u8>, nonce: Seq<u8>, plain: Seq<u8>) -> Seq<u8>;

/// The fixed 256-bit symmetric key compiled into the binary. A build-time
/// key shared by every installation is a known design limitation of this
/// tool, kept as-is; it is never serialized.
pub closed spec fn key_spec() -> Seq<u8> {
    seq![
        0x6du8, 0x61u8, 0x69u8, 0x6cu8, 0x72u8, 0x2du8, 0x73u8, 0x74u8,
        0x61u8, 0x74u8, 0x69u8, 0x63u8, 0x2du8, 0x6bu8, 0x65u8, 0x79u8,
        0x9au8, 0x42u8, 0x07u8, 0xd3u8, 0x5cu8, 0xe1u8, 0x88u8, 0x2fu8,
        0x64u8, 0x0bu8, 0xb5u8, 0x71u8, 0xc6u8, 0x3eu8, 0x19u8, 0xa4u8,
    ]
}

/// Longest plaintext (in bytes) the engine will encrypt in one call.
/// AES-GCM itself encrypts anything up to 2^36 bytes and fails beyond;
/// staying at 2^28 keeps every password far inside that cap, makes the
/// encryption calls infallible, and keeps the ciphertext length
/// `plain + 16` comfortably inside `usize`.
pub const MAX_PLAINTEXT_LEN: usize = 0x1000_0000;

fn key_bytes() -> (r: Vec<u8>)
    ensures
        r@ == key_spec(),
        r@.len() == 32,
{
    let r: Vec<u8> = vec![
        0x6du8, 0x61u8, 0x69u8, 0x6cu8, 0x72u8, 0x2du8, 0x73u8, 0x74u8,
        0x61u8, 0x74u8, 0x69u8, 0x63u8, 0x2du8, 0x6bu8, 0x65u8, 0x79u8,
        0x9au8, 0x42u8, 0x07u8, 0xd3u8, 0x5cu8, 0xe1u8, 0x88u8, 0x2fu8,
        0x64u8, 0x0bu8, 0xb5u8, 0x71u8, 0xc6u8, 0x3eu8, 0x19u8, 0xa4u8,
    ];
    proof {
        assert(r@ =~= key_spec());
    }
    r
}

/// Relies on `aes_gcm::Aes256Gcm` (`KeyInit::new_from_slice`, then
/// `Aead::encrypt`): AES-256-GCM encryption of `plain` under `key` and
/// `nonce`, with the 16-byte tag appended. With a 32-byte key, a 12-byte
/// nonce and a plaintext below the algorithm's length cap, encryption
/// cannot fail.
#[verifier::external_body]
fn aead_encrypt(key: &[u8], nonce: &[u8], plain: &[u8]) -> (r: Vec<u8>)
    requires
        key@.len() == 32,
        nonce@.len() == 12,
        plain@.len() <= MAX_PLAINTEXT_LEN,
    ensures
        r@ == enc_of(key@, nonce@, plain@),
        r@.len() == plain@.len() + 16,
{
    let cipher = aes_gcm::Aes256Gcm::new_from_slice(key).unwrap();
    cipher.encrypt(aes_gcm::Nonce::from_slice(nonce), plain).unwrap()
}

/// Relies on `aes_gcm::Aes256Gcm` (`KeyInit::new_from_slice`, then
/// `Aead::decrypt`): verifies the tag and decrypts, all-or-nothing. By the
/// AEAD round-trip guarantee, a ciphertext produced under this key and
/// nonce decrypts to exactly the plaintext it was produced from. And
/// decryption succeeds only on genuine ciphertexts: the tag is recomputed
/// over the ciphertext body (keystream and tag depend on key and nonce
/// alone) and compared in full, so a success means the input was exactly
/// encrypted-body‖tag — the encryption of the returned plaintext.
#[verifier::external_body]
fn aead_decrypt(key: &[u8], nonce: &[u8], ct: &[u8]) -> (r: Option<Vec<u8>>)
    requires
        key@.len() == 32,
        nonce@.len() == 12,
    ensures
        forall|p: Seq<u8>| ct@ == enc_of(key@, nonce@, p) ==> r is Some && r.unwrap()@ == p,
        r is Some ==> ct@ == enc_of(key@, nonce@, r.unwrap()@),
{
    let cipher = aes_gcm::Aes256Gcm::new_from_slice(key).unwrap();
    cipher.decrypt(aes_gcm::Nonce::from_slice(nonce), ct).ok()
}

/// Relies on `aes_gcm::Aes256Gcm::generate_nonce` with
/// `aes_gcm::aead::OsRng`: draws a fresh 96-bit nonce from the operating
/// system's randomness source. The value is random, so nothing is stated
/// of it beyond its length.
#[verifier::external_body]
fn generate_nonce() -> (r: Vec<u8>)
    ensures
        r@.len() == 12,
{
    aes_gcm::Aes256Gcm::generate_nonce(&mut aes_gcm::aead::OsRng).to_vec()
}

/// Stateless-per-call AES-256-GCM engine over the fixed build-time key.
pub struct Cipher {
    key: Vec<u8>,
}

impl Cipher {
    /// The engine holds exactly the build-time key.
    pub closed spec fn wf(&self) -> bool {
        self.key@ == key_spec()
    }

    pub fn new() -> (r: Self)
        ensures
            r.wf(),
    {
        Cipher { key: key_bytes() }
    }

    /// Encrypt `plain` under a nonce generated fresh and at random for
    /// this call; returns `(ciphertext, nonce)`. The ciphertext is
    /// meaningless without its paired nonce.
    pub fn encrypt(&self, plain: &[u8]) -> (r: (Vec<u8>, Vec<u8>))
        requires
            self.wf(),
            plain@.len() <= MAX_PLAINTEXT_LEN,
        ensures
            r.1@.len() == 12,
            r.0@ == enc_of(key_spec(), r.1@, plain@),
            r.0@.len() == plain@.len() + 16,
    {
        let nonce = generate_nonce();
        let ct = aead_encrypt(self.key.as_slice(), nonce.as_slice(), plain);
        (ct, nonce)
    }

    /// Decrypt `ct` with `nonce`, or fail with `AuthenticationFailure`
    /// when tag verification fails; a failure yields no partial plaintext.
    ///
    /// Round trip: the first ensures clause states that every ciphertext
    /// this engine produced under `nonce` decrypts to exactly the
    /// plaintext it encrypted. The second states the converse: success
    /// means `ct` is exactly the encryption of the returned plaintext, so
    /// the call fails on everything that is no genuine ciphertext, and
    /// its result is determined by its arguments.
    pub fn decrypt(&self, ct: &[u8], nonce: &[u8]) -> (r: Result<Vec<u8>, ConfigError>)
        requires
            self.wf(),
            nonce@.len() == 12,
        ensures
            forall|p: Seq<u8>| ct@ == enc_of(key_spec(), nonce@, p) ==> r is Ok && r.unwrap()@ == p,
            r is Ok ==> ct@ == enc_of(key_spec(), nonce@, r.unwrap()@),
            r is Err ==> r->Err_0 is AuthenticationFailure,
    {
        match aead_decrypt(self.key.as_slice(), nonce, ct) {
            Some(p) => Ok(p),
            None => Err(ConfigError::AuthenticationFailure),
        }
    }
}

} // verus!
