use vstd::prelude::*;

use aes_gcm::aead::{Aead, KeyInit};

verus! {

/// What `hkdf::Hkdf::<sha1::Sha1>::expand` returns for the given input key
/// material, salt, info string and output length.
pub uninterp spec fn hkdf_sha1_okm(ikm: Seq<u8>, salt: Seq<u8>, info: Seq<u8>, len: nat) -> Seq<u8>;

/// What `aes_gcm::Aes128Gcm::encrypt` returns: ciphertext followed by the tag.
pub uninterp spec fn aes128_gcm_seal(key: Seq<u8>, nonce: Seq<u8>, pt: Seq<u8>) -> Seq<u8>;

/// What `aes_gcm::Aes128Gcm::decrypt` returns: the plaintext when the tag
/// verifies, nothing otherwise.
pub uninterp spec fn aes128_gcm_open(key: Seq<u8>, nonce: Seq<u8>, ct: Seq<u8>) -> Option<Seq<u8>>;

/// What `aes_gcm::Aes256Gcm::encrypt` returns: ciphertext followed by the tag.
pub uninterp spec fn aes256_gcm_seal(key: Seq<u8>, nonce: Seq<u8>, pt: Seq<u8>) -> Seq<u8>;

/// What `aes_gcm::Aes256Gcm::decrypt` returns: the plaintext when the tag
/// verifies, nothing otherwise.
pub uninterp spec fn aes256_gcm_open(key: Seq<u8>, nonce: Seq<u8>, ct: Seq<u8>) -> Option<Seq<u8>>;

/// Relies on `hkdf::Hkdf::<sha1::Sha1>::new` and `Hkdf::expand`: fills the
/// output with the RFC 5869 output keying material, a deterministic function
/// of the input key material, salt, info string and requested length.
/// `expand` only fails when the requested length exceeds 255 hash blocks,
/// which the precondition rules out.
#[verifier::external_body]
fn hkdf_sha1_call(ikm: &[u8], salt: &[u8], info: &[u8], out_len: usize) -> (r: Vec<u8>)
    requires
        0 < out_len <= 5100,
    ensures
        r@ == hkdf_sha1_okm(ikm@, salt@, info@, out_len as nat),
        r@.len() == out_len,
{
    let hk = hkdf::Hkdf::<sha1::Sha1>::new(Some(salt), ikm);
    let mut okm = vec![0u8; out_len];
    hk.expand(info, &mut okm).expect("output length is within bounds");
    okm
}

/// Relies on `aes_gcm::Aes128Gcm::new_from_slice` and `Aead::encrypt`:
/// returns the ciphertext with the 16-byte tag appended, a deterministic
/// function of key, nonce and plaintext, which `Aead::decrypt` inverts.
#[verifier::external_body]
fn aes128_seal_call(key: &[u8], nonce: &[u8], pt: &[u8]) -> (r: Vec<u8>)
    requires
        key@.len() == 16,
        nonce@.len() == 12,
        pt@.len() <= 0xFFFF,
    ensures
        r@ == aes128_gcm_seal(key@, nonce@, pt@),
        r@.len() == pt@.len() + 16,
        aes128_gcm_open(key@, nonce@, r@) == Some(pt@),
{
    let c = aes_gcm::Aes128Gcm::new_from_slice(key).expect("key length is 16");
    c.encrypt(aes_gcm::Nonce::from_slice(nonce), pt).expect("plaintext length is within bounds")
}

/// Relies on `aes_gcm::Aes128Gcm::new_from_slice` and `Aead::decrypt`:
/// verifies the trailing 16-byte tag and returns the plaintext, whose length
/// is the ciphertext's less the tag; deterministic in key, nonce, ciphertext.
#[verifier::external_body]
fn aes128_open_call(key: &[u8], nonce: &[u8], ct: &[u8]) -> (r: Option<Vec<u8>>)
    requires
        key@.len() == 16,
        nonce@.len() == 12,
    ensures
        r is Some <==> aes128_gcm_open(key@, nonce@, ct@) is Some,
        r is Some ==> r.unwrap()@ == aes128_gcm_open(key@, nonce@, ct@).unwrap()
            && ct@.len() >= 16 && r.unwrap()@.len() == ct@.len() - 16,
{
    let c = match aes_gcm::Aes128Gcm::new_from_slice(key) {
        Ok(c) => c,
        Err(_) => return None,
    };
    c.decrypt(aes_gcm::Nonce::from_slice(nonce), ct).ok()
}

/// Relies on `aes_gcm::Aes256Gcm::new_from_slice` and `Aead::encrypt`:
/// returns the ciphertext with the 16-byte tag appended, a deterministic
/// function of key, nonce and plaintext, which `Aead::decrypt` inverts.
#[verifier::external_body]
fn aes256_seal_call(key: &[u8], nonce: &[u8], pt: &[u8]) -> (r: Vec<u8>)
    requires
        key@.len() == 32,
        nonce@.len() == 12,
        pt@.len() <= 0xFFFF,
    ensures
        r@ == aes256_gcm_seal(key@, nonce@, pt@),
        r@.len() == pt@.len() + 16,
        aes256_gcm_open(key@, nonce@, r@) == Some(pt@),
{
    let c = aes_gcm::Aes256Gcm::new_from_slice(key).expect("key length is 32");
    c.encrypt(aes_gcm::Nonce::from_slice(nonce), pt).expect("plaintext length is within bounds")
}

/// Relies on `aes_gcm::Aes256Gcm::new_from_slice` and `Aead::decrypt`:
/// verifies the trailing 16-byte tag and returns the plaintext, whose length
/// is the ciphertext's less the tag; deterministic in key, nonce, ciphertext.
#[verifier::external_body]
fn aes256_open_call(key: &[u8], nonce: &[u8], ct: &[u8]) -> (r: Option<Vec<u8>>)
    requires
        key@.len() == 32,
        nonce@.len() == 12,
    ensures
        r is Some <==> aes256_gcm_open(key@, nonce@, ct@) is Some,
        r is Some ==> r.unwrap()@ == aes256_gcm_open(key@, nonce@, ct@).unwrap()
            && ct@.len() >= 16 && r.unwrap()@.len() == ct@.len() - 16,
{
    let c = match aes_gcm::Aes256Gcm::new_from_slice(key) {
        Ok(c) => c,
        Err(_) => return None,
    };
    c.decrypt(aes_gcm::Nonce::from_slice(nonce), ct).ok()
}

/// Tag identifying the concrete AEAD algorithm of a stream.
#[derive(Debug, Clone, Copy, PartialEq, Eq, Structural)]
pub enum CipherKind {
    Aes128Gcm,
    Aes256Gcm,
}

impl CipherKind {
    /// Bytes of the per-connection random salt.
    pub open spec fn spec_salt_len(self) -> usize {
        match self {
            CipherKind::Aes128Gcm => 16,
            CipherKind::Aes256Gcm => 32,
        }
    }

    /// Bytes of the AEAD authentication tag.
    pub open spec fn spec_tag_len(self) -> usize {
        16
    }

    /// Bytes of the derived subkey, equal to the pre-shared key length.
    pub open spec fn spec_key_len(self) -> usize {
        match self {
            CipherKind::Aes128Gcm => 16,
            CipherKind::Aes256Gcm => 32,
        }
    }

    #[verifier::when_used_as_spec(spec_salt_len)]
    pub fn salt_len(self) -> (r: usize)
        ensures
            r == self.spec_salt_len(),
    {
        match self {
            CipherKind::Aes128Gcm => 16,
            CipherKind::Aes256Gcm => 32,
        }
    }

    #[verifier::when_used_as_spec(spec_tag_len)]
    pub fn tag_len(self) -> (r: usize)
        ensures
            r == self.spec_tag_len(),
    {
        16
    }

    #[verifier::when_used_as_spec(spec_key_len)]
    pub fn key_len(self) -> (r: usize)
        ensures
            r == self.spec_key_len(),
    {
        match self {
            CipherKind::Aes128Gcm => 16,
            CipherKind::Aes256Gcm => 32,
        }
    }
}

/// The ASCII bytes of the Shadowsocks subkey derivation info string.
pub open spec fn ss_subkey_info() -> Seq<u8> {
    seq![115u8, 115u8, 45u8, 115u8, 117u8, 98u8, 107u8, 101u8, 121u8]
}

fn subkey_info_vec() -> (r: Vec<u8>)
    ensures
        r@ == ss_subkey_info(),
{
    let mut v: Vec<u8> = Vec::new();
    v.push(115u8);
    v.push(115u8);
    v.push(45u8);
    v.push(115u8);
    v.push(117u8);
    v.push(98u8);
    v.push(107u8);
    v.push(101u8);
    v.push(121u8);
    proof {
        assert(v@ =~= ss_subkey_info());
    }
    v
}

/// The subkey a stream works with: HKDF-SHA1 of the pre-shared key and the
/// per-connection salt under the Shadowsocks info string.
pub open spec fn subkey_of(kind: CipherKind, key: Seq<u8>, salt: Seq<u8>) -> Seq<u8> {
    hkdf_sha1_okm(key, salt, ss_subkey_info(), kind.spec_key_len() as nat)
}

/// The twelve nonce bytes for one counter value: the counter little-endian
/// in the first eight bytes, zero in the last four.
pub open spec fn nonce_bytes(ctr: u64) -> Seq<u8> {
    seq![
        (ctr & 0xFF) as u8,
        ((ctr >> 8) & 0xFF) as u8,
        ((ctr >> 16) & 0xFF) as u8,
        ((ctr >> 24) & 0xFF) as u8,
        ((ctr >> 32) & 0xFF) as u8,
        ((ctr >> 40) & 0xFF) as u8,
        ((ctr >> 48) & 0xFF) as u8,
        ((ctr >> 56) & 0xFF) as u8,
        0u8,
        0u8,
        0u8,
        0u8,
    ]
}

fn nonce_vec(ctr: u64) -> (r: Vec<u8>)
    ensures
        r@ == nonce_bytes(ctr),
        r@.len() == 12,
{
    let mut v: Vec<u8> = Vec::new();
    v.push((ctr & 0xFF) as u8);
    v.push(((ctr >> 8) & 0xFF) as u8);
    v.push(((ctr >> 16) & 0xFF) as u8);
    v.push(((ctr >> 24) & 0xFF) as u8);
    v.push(((ctr >> 32) & 0xFF) as u8);
    v.push(((ctr >> 40) & 0xFF) as u8);
    v.push(((ctr >> 48) & 0xFF) as u8);
    v.push(((ctr >> 56) & 0xFF) as u8);
    v.push(0u8);
    v.push(0u8);
    v.push(0u8);
    v.push(0u8);
    proof {
        assert(v@ =~= nonce_bytes(ctr));
    }
    v
}

/// The sealed segment the stream's cipher emits at one counter value.
pub open spec fn seal_of(kind: CipherKind, sk: Seq<u8>, ctr: u64, pt: Seq<u8>) -> Seq<u8> {
    match kind {
        CipherKind::Aes128Gcm => aes128_gcm_seal(sk, nonce_bytes(ctr), pt),
        CipherKind::Aes256Gcm => aes256_gcm_seal(sk, nonce_bytes(ctr), pt),
    }
}

/// What the stream's cipher recovers from a segment at one counter value.
pub open spec fn open_of(kind: CipherKind, sk: Seq<u8>, ctr: u64, ct: Seq<u8>) -> Option<Seq<u8>> {
    match kind {
        CipherKind::Aes128Gcm => aes128_gcm_open(sk, nonce_bytes(ctr), ct),
        CipherKind::Aes256Gcm => aes256_gcm_open(sk, nonce_bytes(ctr), ct),
    }
}

/// A stateful AEAD capability keyed once per stream direction. The nonce
/// counter starts at zero and advances by exactly one per operation; it is
/// hidden here so nonce reuse is structurally impossible at the framer level.
pub struct Cipher {
    kind: CipherKind,
    subkey: Vec<u8>,
    nonce: u64,
    ikey: Ghost<Seq<u8>>,
    isalt: Ghost<Seq<u8>>,
}

impl Cipher {
    pub closed spec fn kind(self) -> CipherKind {
        self.kind
    }

    pub closed spec fn sk(self) -> Seq<u8> {
        self.subkey@
    }

    pub closed spec fn nonce_ctr(self) -> u64 {
        self.nonce
    }

    pub closed spec fn key(self) -> Seq<u8> {
        self.ikey@
    }

    pub closed spec fn salt(self) -> Seq<u8> {
        self.isalt@
    }

    pub closed spec fn wf(self) -> bool {
        &&& self.subkey@.len() == self.kind.spec_key_len()
        &&& self.subkey@ == subkey_of(self.kind, self.ikey@, self.isalt@)
    }

    /// Derives the subkey for `(key, salt)` and starts the nonce counter at
    /// zero.
    pub fn new(kind: CipherKind, key: &[u8], salt: &[u8]) -> (r: Cipher)
        ensures
            r.wf(),
            r.kind() == kind,
            r.nonce_ctr() == 0,
            r.key() == key@,
            r.salt() == salt@,
            r.sk() == subkey_of(kind, key@, salt@),
    {
        let info = subkey_info_vec();
        let subkey = hkdf_sha1_call(key, salt, info.as_slice(), kind.key_len());
        Cipher {
            kind,
            subkey,
            nonce: 0,
            ikey: Ghost(key@),
            isalt: Ghost(salt@),
        }
    }

    /// Seals one segment with the next nonce: returns ciphertext plus tag
    /// and advances the counter.
    pub fn encrypt(&mut self, pt: &[u8]) -> (r: Vec<u8>)
        requires
            old(self).wf(),
            old(self).nonce_ctr() < u64::MAX,
            pt@.len() <= 0xFFFF,
        ensures
            final(self).wf(),
            final(self).kind() == old(self).kind(),
            final(self).sk() == old(self).sk(),
            final(self).key() == old(self).key(),
            final(self).salt() == old(self).salt(),
            final(self).nonce_ctr() == old(self).nonce_ctr() + 1,
            r@ == seal_of(old(self).kind(), old(self).sk(), old(self).nonce_ctr(), pt@),
            r@.len() == pt@.len() + old(self).kind().spec_tag_len(),
            open_of(old(self).kind(), old(self).sk(), old(self).nonce_ctr(), r@) == Some(pt@),
    {
        let n = nonce_vec(self.nonce);
        let r = match self.kind {
            CipherKind::Aes128Gcm => aes128_seal_call(self.subkey.as_slice(), n.as_slice(), pt),
            CipherKind::Aes256Gcm => aes256_seal_call(self.subkey.as_slice(), n.as_slice(), pt),
        };
        self.nonce = self.nonce + 1;
        r
    }

    /// Opens one segment with the next nonce: returns the plaintext when the
    /// tag verifies, nothing otherwise, and advances the counter either way.
    pub fn decrypt(&mut self, ct: &[u8]) -> (r: Option<Vec<u8>>)
        requires
            old(self).wf(),
            old(self).nonce_ctr() < u64::MAX,
        ensures
            final(self).wf(),
            final(self).kind() == old(self).kind(),
            final(self).sk() == old(self).sk(),
            final(self).key() == old(self).key(),
            final(self).salt() == old(self).salt(),
            final(self).nonce_ctr() == old(self).nonce_ctr() + 1,
            r is Some <==> open_of(old(self).kind(), old(self).sk(), old(self).nonce_ctr(), ct@) is Some,
            r is Some ==> r.unwrap()@ == open_of(old(self).kind(), old(self).sk(), old(self).nonce_ctr(), ct@).unwrap()
                && ct@.len() >= old(self).kind().spec_tag_len()
                && r.unwrap()@.len() == ct@.len() - old(self).kind().spec_tag_len(),
    {
        let n = nonce_vec(self.nonce);
        let r = match self.kind {
            CipherKind::Aes128Gcm => aes128_open_call(self.subkey.as_slice(), n.as_slice(), ct),
            CipherKind::Aes256Gcm => aes256_open_call(self.subkey.as_slice(), n.as_slice(), ct),
        };
        self.nonce = self.nonce + 1;
        r
    }

    /// A well-formed cipher's subkey is the derivation of its key and salt.
    pub proof fn lemma_subkey(self)
        requires
            self.wf(),
        ensures
            self.sk() == subkey_of(self.kind(), self.key(), self.salt()),
            self.sk().len() == self.kind().spec_key_len(),
    {
    }

    /// Bytes of the tag this cipher appends to every sealed segment.
    pub fn tag_len(&self) -> (r: usize)
        ensures
            r == self.kind().spec_tag_len(),
    {
        self.kind.tag_len()
    }
}

} // verus!
