//! Secret storage: the stores' identities, the key a secrets file is sealed
//! with, and the sealing and opening of one secret.
//!
//! A secret is sealed with ChaCha20-Poly1305 under a key hashed from the
//! user, home directory and executable, with a fresh nonce; nonce and
//! ciphertext are stored as base64 text. Reading the file, drawing the nonce
//! and looking up the environment are the caller's part.

use vstd::prelude::*;
use vstd::utf8::*;
use vstd::string::StringSliceAdditionalSpecFns;
use base64::Engine;
use chacha20poly1305::aead::{Aead, KeyInit};
use chacha20poly1305::{ChaCha20Poly1305, Key, Nonce};
use sha2::{Digest, Sha256};
use crate::application::error::ApplicationError;
use crate::syntax::utf8_facts::lemma_encode_injective;

verus! {

broadcast use vstd::utf8::encode_utf8_valid_utf8;

/// The OS keychain service name for the application's secrets.
pub const CULINATOR_SERVICE: &'static str = "culinator";

/// The name under which the OpenAI API key is kept.
pub const OPENAI_API_KEY: &'static str = "openai_api_key";

/// Bytes of a ChaCha20-Poly1305 nonce.
pub const NONCE_LEN: usize = 12;

/// The application's salt, appended to the key material.
pub open spec fn app_salt() -> Seq<u8> {
    "culinator-secrets-v1"@.map_values(|c: char| c as u8)
}

/// Secrets kept in an encrypted file.
#[derive(Debug, Clone)]
pub struct EncryptedFileSecretStore {
    path: String,
}

impl EncryptedFileSecretStore {
    pub closed spec fn spec_path(&self) -> Seq<char> {
        self.path@
    }

    pub fn new(path: &str) -> (r: EncryptedFileSecretStore)
        ensures
            r.spec_path() == path@,
    {
        EncryptedFileSecretStore { path: path.to_owned() }
    }

    pub fn path(&self) -> (r: &str)
        ensures
            r@ == self.spec_path(),
    {
        self.path.as_str()
    }
}

/// Secrets kept in the operating system's keychain.
#[derive(Debug, Clone, Copy, Default)]
pub struct KeyringSecretStore;

impl KeyringSecretStore {
    pub fn new() -> (r: KeyringSecretStore) {
        KeyringSecretStore
    }
}

/// One sealed secret as it is stored.
#[derive(Debug, Clone)]
pub struct EncryptedBlob {
    /// The nonce, base64.
    pub nonce: String,
    /// The ciphertext with its tag, base64.
    pub ciphertext: String,
}

// ---------------------------------------------------------------------------
// The outside algorithms.
// ---------------------------------------------------------------------------

/// The SHA-256 digest of `data`.
pub uninterp spec fn sha256_digest(data: Seq<u8>) -> Seq<u8>;

/// The ChaCha20-Poly1305 ciphertext (with tag) of `plaintext` under `key`
/// and `nonce`, with no associated data; `None` when the cipher refuses
/// the message.
pub uninterp spec fn sealed(key: Seq<u8>, nonce: Seq<u8>, plaintext: Seq<u8>) -> Option<Seq<u8>>;

/// The plaintext that opening `ciphertext` under `key` and `nonce` yields;
/// `None` when authentication fails.
pub uninterp spec fn opened(key: Seq<u8>, nonce: Seq<u8>, ciphertext: Seq<u8>) -> Option<Seq<u8>>;

/// The standard, padded base64 text of `data`.
pub uninterp spec fn base64_text(data: Seq<u8>) -> Seq<char>;

/// The bytes that standard base64 `text` decodes to; `None` when it is not
/// valid base64.
pub uninterp spec fn base64_bytes(text: Seq<char>) -> Option<Seq<u8>>;

/// `sha2::Sha256::digest`: the SHA-256 digest, which is 32 bytes long.
#[verifier::external_body]
fn sha256(data: &[u8]) -> (r: Vec<u8>)
    ensures
        r@ == sha256_digest(data@),
        r@.len() == 32,
{
    Sha256::digest(data).to_vec()
}

/// `ChaCha20Poly1305::encrypt` with a 32-byte key and 12-byte nonce: the
/// ciphertext named by `sealed`, or the cipher's error text.
#[verifier::external_body]
fn seal(key: &[u8], nonce: &[u8], plaintext: &[u8]) -> (r: Result<Vec<u8>, String>)
    requires
        key@.len() == 32,
        nonce@.len() == 12,
    ensures
        r is Ok <==> sealed(key@, nonce@, plaintext@) is Some,
        r matches Ok(v) ==> sealed(key@, nonce@, plaintext@) == Some(v@),
{
    let cipher = ChaCha20Poly1305::new(Key::from_slice(key));
    match cipher.encrypt(Nonce::from_slice(nonce), plaintext) {
        Ok(v) => Ok(v),
        Err(e) => Err(e.to_string()),
    }
}

/// `ChaCha20Poly1305::decrypt` with a 32-byte key and 12-byte nonce: the
/// plaintext named by `opened`, or the cipher's error text. Opening what
/// sealing produced under the same key and nonce gives the plaintext back.
#[verifier::external_body]
fn open(key: &[u8], nonce: &[u8], ciphertext: &[u8]) -> (r: Result<Vec<u8>, String>)
    requires
        key@.len() == 32,
        nonce@.len() == 12,
    ensures
        r is Ok <==> opened(key@, nonce@, ciphertext@) is Some,
        r matches Ok(v) ==> opened(key@, nonce@, ciphertext@) == Some(v@),
        (exists|p: Seq<u8>| #[trigger] sealed(key@, nonce@, p) == Some(ciphertext@)) ==> r is Ok,
        r matches Ok(v) ==> forall|p: Seq<u8>|
            #[trigger] sealed(key@, nonce@, p) == Some(ciphertext@) ==> v@ == p,
{
    let cipher = ChaCha20Poly1305::new(Key::from_slice(key));
    match cipher.decrypt(Nonce::from_slice(nonce), ciphertext) {
        Ok(v) => Ok(v),
        Err(e) => Err(e.to_string()),
    }
}

/// `base64::engine::general_purpose::STANDARD.encode`.
#[verifier::external_body]
fn base64_encode(data: &[u8]) -> (r: String)
    ensures
        r@ == base64_text(data@),
{
    base64::engine::general_purpose::STANDARD.encode(data)
}

/// `base64::engine::general_purpose::STANDARD.decode`: the bytes named by
/// `base64_bytes`, or the decoder's error text. Decoding what encoding
/// produced gives the bytes back.
#[verifier::external_body]
fn base64_decode(text: &str) -> (r: Result<Vec<u8>, String>)
    ensures
        r is Ok <==> base64_bytes(text@) is Some,
        r matches Ok(v) ==> base64_bytes(text@) == Some(v@),
        (exists|b: Seq<u8>| #[trigger] base64_text(b) == text@) ==> r is Ok,
        r matches Ok(v) ==> forall|b: Seq<u8>| #[trigger] base64_text(b) == text@ ==> v@ == b,
{
    match base64::engine::general_purpose::STANDARD.decode(text) {
        Ok(v) => Ok(v),
        Err(e) => Err(e.to_string()),
    }
}

/// `String::from_utf8`: succeeds exactly on valid UTF-8, with the text
/// those bytes encode; otherwise the error's text.
#[verifier::external_body]
fn string_from_utf8(bytes: Vec<u8>) -> (r: Result<String, String>)
    ensures
        r is Ok <==> valid_utf8(bytes@),
        r matches Ok(s) ==> encode_utf8(s@) == bytes@,
{
    match String::from_utf8(bytes) {
        Ok(s) => Ok(s),
        Err(e) => Err(e.to_string()),
    }
}

// ---------------------------------------------------------------------------
// The key.
// ---------------------------------------------------------------------------

pub open spec fn opt_bytes(o: Option<&str>) -> Seq<u8> {
    match o {
        Some(s) => s.spec_bytes(),
        None => Seq::empty(),
    }
}

/// What the key is hashed from: the user name, the home directory and the
/// executable's path, each when known, then the salt.
pub open spec fn key_material(user: Option<&str>, home: Option<&str>, exe: Option<&str>) -> Seq<u8> {
    opt_bytes(user) + opt_bytes(home) + opt_bytes(exe) + app_salt()
}

fn append_bytes(out: &mut Vec<u8>, bytes: &[u8])
    ensures
        final(out)@ == old(out)@ + bytes@,
{
    let mut i: usize = 0;
    let ghost start = out@;
    while i < bytes.len()
        invariant
            i <= bytes@.len(),
            out@ == start + bytes@.subrange(0, i as int),
        decreases bytes@.len() - i,
    {
        out.push(bytes[i]);
        proof {
            assert(bytes@.subrange(0, i + 1) =~= bytes@.subrange(0, i as int).push(bytes@[i as int]));
        }
        i = i + 1;
    }
    proof {
        assert(bytes@.subrange(0, bytes@.len() as int) =~= bytes@);
    }
}

fn append_opt(out: &mut Vec<u8>, s: Option<&str>)
    ensures
        final(out)@ == old(out)@ + opt_bytes(s),
{
    match s {
        Some(s) => append_bytes(out, s.as_bytes()),
        None => {
            assert(old(out)@ + Seq::<u8>::empty() =~= old(out)@);
        },
    }
}

fn salt() -> (r: Vec<u8>)
    ensures
        r@ == app_salt(),
{
    let text = "culinator-secrets-v1";
    proof {
        reveal_strlit("culinator-secrets-v1");
    }
    let bytes = text.as_bytes();
    let mut r: Vec<u8> = Vec::new();
    let mut i: usize = 0;
    proof {
        vstd::string::is_ascii_spec_bytes(text);
        assert(vstd::string::is_ascii(text));
    }
    while i < bytes.len()
        invariant
            i <= bytes@.len(),
            bytes@ == text.spec_bytes(),
            text.spec_bytes() =~= Seq::new(text@.len(), |k: int| text@[k] as u8),
            r@ == bytes@.subrange(0, i as int),
        decreases bytes@.len() - i,
    {
        r.push(bytes[i]);
        proof {
            assert(bytes@.subrange(0, i + 1) =~= bytes@.subrange(0, i as int).push(bytes@[i as int]));
        }
        i = i + 1;
    }
    proof {
        assert(r@ =~= app_salt());
    }
    r
}

/// The key a secrets file is sealed with: the SHA-256 digest of the key
/// material.
pub fn encryption_key(user: Option<&str>, home: Option<&str>, exe: Option<&str>) -> (r: Vec<u8>)
    ensures
        r@ == sha256_digest(key_material(user, home, exe)),
        r@.len() == 32,
{
    let mut material: Vec<u8> = Vec::new();
    append_opt(&mut material, user);
    append_opt(&mut material, home);
    append_opt(&mut material, exe);
    let s = salt();
    append_bytes(&mut material, s.as_slice());
    proof {
        assert(material@ =~= key_material(user, home, exe));
    }
    sha256(material.as_slice())
}

// ---------------------------------------------------------------------------
// Sealing and opening.
// ---------------------------------------------------------------------------

/// The stored form of `plaintext` sealed under `key` with `nonce`.
pub open spec fn blob_of(key: Seq<u8>, nonce: Seq<u8>, plaintext: Seq<char>, blob: EncryptedBlob) -> bool {
    &&& sealed(key, nonce, encode_utf8(plaintext)) matches Some(c)
    &&& blob.nonce@ == base64_text(nonce)
    &&& blob.ciphertext@ == base64_text(c)
}

fn prefixed(prefix: &str, detail: &str) -> (r: String)
    ensures
        r@ == prefix@ + detail@,
{
    let mut m = prefix.to_owned();
    m.append(detail);
    m
}

/// Seal `plaintext` under `key` with the freshly drawn `nonce`.
pub fn encrypt(plaintext: &str, key: &[u8], nonce: &[u8]) -> (r: Result<EncryptedBlob, ApplicationError>)
    requires
        key@.len() == 32,
        nonce@.len() == NONCE_LEN,
    ensures
        r is Ok <==> sealed(key@, nonce@, encode_utf8(plaintext@)) is Some,
        r matches Ok(b) ==> blob_of(key@, nonce@, plaintext@, b),
        r matches Err(e) ==> e is Internal,
{
    match seal(key, nonce, plaintext.as_bytes()) {
        Ok(ciphertext) => Ok(
            EncryptedBlob { nonce: base64_encode(nonce), ciphertext: base64_encode(ciphertext.as_slice()) },
        ),
        Err(e) => Err(ApplicationError::Internal(prefixed("encryption failed: ", e.as_str()))),
    }
}

/// Why opening a stored secret fails, in the order it is checked.
pub open spec fn open_failure(blob: EncryptedBlob, key: Seq<u8>) -> Option<Seq<char>> {
    match base64_bytes(blob.nonce@) {
        None => Some("invalid secret nonce: "@),
        Some(n) => if n.len() != 12 {
            Some("invalid secret nonce length"@)
        } else {
            match base64_bytes(blob.ciphertext@) {
                None => Some("invalid secret ciphertext: "@),
                Some(c) => match opened(key, n, c) {
                    None => Some("decryption failed: "@),
                    Some(p) => if valid_utf8(p) {
                        None
                    } else {
                        Some("invalid secret utf-8: "@)
                    },
                },
            }
        },
    }
}

/// Open a stored secret with `key`. A secret sealed under the same key
/// opens to the text that was sealed.
pub fn decrypt(blob: &EncryptedBlob, key: &[u8]) -> (r: Result<String, ApplicationError>)
    requires
        key@.len() == 32,
    ensures
        match open_failure(*blob, key@) {
            None => r is Ok,
            Some(reason) => r matches Err(ApplicationError::Persistence(m)) && m@.len() >= reason.len()
                && m@.subrange(0, reason.len() as int) == reason,
        },
        r matches Ok(s) ==> {
            &&& base64_bytes(blob.nonce@) matches Some(n)
            &&& base64_bytes(blob.ciphertext@) matches Some(c)
            &&& opened(key@, n, c) == Some(encode_utf8(s@))
        },
        forall|nonce: Seq<u8>, p: Seq<char>|
            nonce.len() == 12 && #[trigger] blob_of(key@, nonce, p, *blob) ==> (r matches Ok(s) && s@
                == p),
{
    let nonce = match base64_decode(blob.nonce.as_str()) {
        Ok(v) => v,
        Err(e) => {
            return Err(ApplicationError::Persistence(prefixed("invalid secret nonce: ", e.as_str())));
        },
    };
    if nonce.len() != NONCE_LEN {
        proof {
            reveal_strlit("invalid secret nonce length");
        }
        return Err(ApplicationError::Persistence("invalid secret nonce length".to_owned()));
    }
    let ciphertext = match base64_decode(blob.ciphertext.as_str()) {
        Ok(v) => v,
        Err(e) => {
            return Err(ApplicationError::Persistence(prefixed("invalid secret ciphertext: ", e.as_str())));
        },
    };
    let plaintext = match open(key, nonce.as_slice(), ciphertext.as_slice()) {
        Ok(v) => v,
        Err(e) => {
            return Err(ApplicationError::Persistence(prefixed("decryption failed: ", e.as_str())));
        },
    };
    let ghost bytes = plaintext@;
    match string_from_utf8(plaintext) {
        Ok(s) => {
            proof {
                assert forall|n: Seq<u8>, p: Seq<char>|
                    n.len() == 12 && #[trigger] blob_of(key@, n, p, *blob) implies s@ == p by {
                    let c = sealed(key@, n, encode_utf8(p))->0;
                    assert(base64_text(n) == blob.nonce@);
                    assert(nonce@ == n);
                    assert(base64_text(c) == blob.ciphertext@);
                    assert(ciphertext@ == c);
                    assert(sealed(key@, nonce@, encode_utf8(p)) == Some(ciphertext@));
                    assert(bytes == encode_utf8(p));
                    lemma_encode_injective(s@, p);
                }
            }
            Ok(s)
        },
        Err(e) => Err(ApplicationError::Persistence(prefixed("invalid secret utf-8: ", e.as_str()))),
    }
}


// ---------------------------------------------------------------------------
// The secrets file.
// ---------------------------------------------------------------------------

/// The sealed secrets of a file, by name; a later entry for a name stands
/// over an earlier one.
pub struct SecretFile {
    pub entries: Vec<(String, EncryptedBlob)>,
}

/// The sealed value `entries` hold for `name`: that of its last entry.
pub open spec fn find(entries: Seq<(String, EncryptedBlob)>, name: Seq<char>) -> Option<EncryptedBlob>
    decreases entries.len(),
{
    if entries.len() == 0 {
        None
    } else if entries.last().0@ == name {
        Some(entries.last().1)
    } else {
        find(entries.drop_last(), name)
    }
}

/// `entries` without those for `name`.
pub open spec fn without(entries: Seq<(String, EncryptedBlob)>, name: Seq<char>) -> Seq<(String, EncryptedBlob)>
    decreases entries.len(),
{
    if entries.len() == 0 {
        entries
    } else if entries.last().0@ == name {
        without(entries.drop_last(), name)
    } else {
        without(entries.drop_last(), name).push(entries.last())
    }
}

proof fn lemma_find_without(entries: Seq<(String, EncryptedBlob)>, name: Seq<char>, other: Seq<char>)
    ensures
        find(without(entries, name), other) == if other == name {
            None::<EncryptedBlob>
        } else {
            find(entries, other)
        },
    decreases entries.len(),
{
    if entries.len() > 0 {
        lemma_find_without(entries.drop_last(), name, other);
        if entries.last().0@ != name {
            assert(without(entries, name).drop_last() =~= without(entries.drop_last(), name));
        }
    }
}

fn copy_blob(b: &EncryptedBlob) -> (r: EncryptedBlob)
    ensures
        r == *b,
{
    EncryptedBlob { nonce: b.nonce.clone(), ciphertext: b.ciphertext.clone() }
}

impl SecretFile {
    /// A file with no secrets.
    pub fn new() -> (r: SecretFile)
        ensures
            r.entries@.len() == 0,
    {
        SecretFile { entries: Vec::new() }
    }

    /// The sealed value stored for `name`.
    pub fn get(&self, name: &str) -> (r: Option<&EncryptedBlob>)
        ensures
            match find(self.entries@, name@) {
                Some(b) => r matches Some(x) && *x == b,
                None => r is None,
            },
    {
        let mut k = self.entries.len();
        proof {
            assert(self.entries@.take(k as int) =~= self.entries@);
        }
        while k > 0
            invariant
                k <= self.entries@.len(),
                find(self.entries@, name@) == find(self.entries@.take(k as int), name@),
            decreases k,
        {
            proof {
                assert(self.entries@.take(k as int).drop_last() =~= self.entries@.take(k - 1));
                assert(self.entries@.take(k as int).last() == self.entries@[k - 1]);
            }
            if str_eq_text(self.entries[k - 1].0.as_str(), name) {
                return Some(&self.entries[k - 1].1);
            }
            k = k - 1;
        }
        proof {
            assert(self.entries@.take(0) =~= Seq::<(String, EncryptedBlob)>::empty());
        }
        None
    }

    /// Store `blob` for `name`, in place of what was stored for it.
    pub fn set(&mut self, name: &str, blob: EncryptedBlob)
        ensures
            forall|n: Seq<char>|
                #![trigger find(final(self).entries@, n)]
                find(final(self).entries@, n) == if n == name@ {
                    Some(blob)
                } else {
                    find(old(self).entries@, n)
                },
    {
        let _ = self.delete(name);
        let ghost mid = self.entries@;
        self.entries.push((name.to_owned(), blob));
        proof {
            assert(self.entries@.drop_last() =~= mid);
            assert forall|n: Seq<char>| #![trigger find(self.entries@, n)] find(self.entries@, n) == if n == name@ {
                Some(blob)
            } else {
                find(old(self).entries@, n)
            } by {
                lemma_find_without(old(self).entries@, name@, n);
            }
        }
    }

    /// Remove what is stored for `name`; whether there was anything.
    pub fn delete(&mut self, name: &str) -> (r: bool)
        ensures
            r == find(old(self).entries@, name@) is Some,
            final(self).entries@ == without(old(self).entries@, name@),
    {
        let ghost before = self.entries@;
        let mut kept: Vec<(String, EncryptedBlob)> = Vec::new();
        let mut found = false;
        let mut k: usize = 0;
        proof {
            assert(before.take(0) =~= Seq::<(String, EncryptedBlob)>::empty());
        }
        while k < self.entries.len()
            invariant
                self.entries@ == before,
                k <= before.len(),
                kept@ == without(before.take(k as int), name@),
                found == find(before.take(k as int), name@) is Some,
            decreases before.len() - k,
        {
            proof {
                assert(before.take(k + 1).drop_last() =~= before.take(k as int));
                assert(before.take(k + 1).last() == before[k as int]);
            }
            if str_eq_text(self.entries[k].0.as_str(), name) {
                found = true;
            } else {
                let entry = (self.entries[k].0.clone(), copy_blob(&self.entries[k].1));
                kept.push(entry);
            }
            k = k + 1;
        }
        proof {
            assert(before.take(before.len() as int) =~= before);
        }
        self.entries = kept;
        found
    }
}

fn str_eq_text(a: &str, b: &str) -> (r: bool)
    ensures
        r == (a@ == b@),
{
    crate::syntax::text::str_eq(a, b)
}

/// What `entries` store for `name` opens, under `key`, to `v`: it was sealed
/// from `v` under `key`.
pub open spec fn opens_to(entries: Seq<(String, EncryptedBlob)>, name: Seq<char>, key: Seq<u8>, v: Seq<char>) -> bool {
    find(entries, name) matches Some(b) && exists|nonce: Seq<u8>| nonce.len() == 12 && #[trigger] blob_of(key, nonce, v, b)
}

/// Open what `file` stores for `name` with `key`: nothing when it stores
/// nothing; the error of `decrypt` when what it stores does not open; else
/// the secret, which is the text sealed there under `key`.
pub fn open_secret(file: &SecretFile, name: &str, key: &[u8]) -> (r: Result<Option<String>, ApplicationError>)
    requires
        key@.len() == 32,
    ensures
        find(file.entries@, name@) is None ==> r == Ok::<Option<String>, ApplicationError>(None),
        find(file.entries@, name@) matches Some(b) ==> match open_failure(b, key@) {
            None => r matches Ok(Some(s)) && base64_bytes(b.nonce@) matches Some(n) && base64_bytes(
                b.ciphertext@,
            ) matches Some(c) && opened(key@, n, c) == Some(encode_utf8(s@)),
            Some(reason) => r matches Err(ApplicationError::Persistence(m)) && m@.len() >= reason.len()
                && m@.subrange(0, reason.len() as int) == reason,
        },
        forall|p: Seq<char>| #[trigger] opens_to(file.entries@, name@, key@, p) ==> (r matches Ok(Some(s)) && s@ == p),
{
    match file.get(name) {
        Some(blob) => {
            let r = decrypt(blob, key);
            proof {
                assert forall|p: Seq<char>| #[trigger] opens_to(file.entries@, name@, key@, p) implies (r matches Ok(s) && s@ == p) by {
                    let nonce = choose|nonce: Seq<u8>| nonce.len() == 12 && #[trigger] blob_of(key@, nonce, p, *blob);
                }
            }
            match r {
                Ok(s) => Ok(Some(s)),
                Err(e) => Err(e),
            }
        },
        None => Ok(None),
    }
}

/// Seal `value` under `key` with `nonce` and store it in `file` for `name`.
/// The file is unchanged when sealing fails.
pub fn seal_secret(file: &mut SecretFile, name: &str, value: &str, key: &[u8], nonce: &[u8]) -> (r: Result<
    (),
    ApplicationError,
>)
    requires
        key@.len() == 32,
        nonce@.len() == NONCE_LEN,
    ensures
        r is Ok <==> sealed(key@, nonce@, encode_utf8(value@)) is Some,
        r is Err ==> final(file).entries@ == old(file).entries@,
        r is Ok ==> (find(final(file).entries@, name@) matches Some(b) && blob_of(key@, nonce@, value@, b)),
        r is Ok ==> opens_to(final(file).entries@, name@, key@, value@),
        r is Ok ==> forall|n: Seq<char>|
            n != name@ ==> #[trigger] find(final(file).entries@, n) == find(old(file).entries@, n),
{
    match encrypt(value, key, nonce) {
        Ok(blob) => {
            let ghost b = blob;
            file.set(name, blob);
            proof {
                assert(find(file.entries@, name@) == Some(b));
                assert(blob_of(key@, nonce@, value@, b));
            }
            Ok(())
        },
        Err(e) => Err(e),
    }
}

/// Storing or removing the secret of one name leaves what every other name
/// opens to as it was.
pub proof fn lemma_other_secrets_kept(
    before: Seq<(String, EncryptedBlob)>,
    after: Seq<(String, EncryptedBlob)>,
    name: Seq<char>,
    other: Seq<char>,
    key: Seq<u8>,
    v: Seq<char>,
)
    requires
        forall|n: Seq<char>| n != name ==> #[trigger] find(after, n) == find(before, n),
        other != name,
        opens_to(before, other, key, v),
    ensures
        opens_to(after, other, key, v),
{
    assert(find(after, other) == find(before, other));
}

/// After a removal, nothing is stored for the name; other names keep theirs.
pub proof fn lemma_deleted_secret_gone(entries: Seq<(String, EncryptedBlob)>, name: Seq<char>, other: Seq<char>)
    ensures
        find(without(entries, name), name) is None,
        other != name ==> find(without(entries, name), other) == find(entries, other),
{
    lemma_find_without(entries, name, name);
    lemma_find_without(entries, name, other);
}

} // verus!
