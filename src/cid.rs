use vstd::prelude::*;

verus! {

/// Multihash code of SHA2-256.
pub const SHA2_256: u64 = 0x12;

/// Multihash code of SHA2-512.
pub const SHA2_512: u64 = 0x13;

/// Multicodec code of raw bytes.
pub const RAW: u64 = 0x55;

/// The SHA2-256 digest of a byte sequence.
pub uninterp spec fn sha2_256_of(data: Seq<u8>) -> Seq<u8>;

/// Relies on multihash's `Sha2_256` hasher (re-exported by libipld_core) and its
/// `Hasher::digest`: the digest depends on the input bytes alone.
#[verifier::external_body]
fn sha2_256_digest(data: &[u8]) -> (r: Vec<u8>)
    ensures
        r@ == sha2_256_of(data@),
{
    let d = <libipld_core::multihash::Sha2_256 as libipld_core::multihash::Hasher>::digest(data);
    d.as_ref().to_vec()
}

/// The SHA2-512 digest of a byte sequence.
pub uninterp spec fn sha2_512_of(data: Seq<u8>) -> Seq<u8>;

/// Relies on multihash's `Sha2_512` hasher (re-exported by libipld_core) and its
/// `Hasher::digest`: the digest depends on the input bytes alone.
#[verifier::external_body]
fn sha2_512_digest(data: &[u8]) -> (r: Vec<u8>)
    ensures
        r@ == sha2_512_of(data@),
{
    let d = <libipld_core::multihash::Sha2_512 as libipld_core::multihash::Hasher>::digest(data);
    d.as_ref().to_vec()
}

/// The hash functions whose digests this engine can compute.
pub open spec fn hash_supported(code: u64) -> bool {
    code == SHA2_256 || code == SHA2_512
}

/// The digest of `payload` under the hash function with multihash code `code`.
pub open spec fn hash_of(code: u64, payload: Seq<u8>) -> Seq<u8> {
    if code == SHA2_512 {
        sha2_512_of(payload)
    } else {
        sha2_256_of(payload)
    }
}

/// A self-describing content identifier: hash function, payload type, digest.
#[derive(Debug, Clone, Eq)]
pub struct ContentId {
    pub hash_code: u64,
    pub codec: u64,
    pub digest: Vec<u8>,
}

/// Mathematical value of an identifier: (hash function, payload type, digest).
pub type IdModel = (u64, u64, Seq<u8>);

impl View for ContentId {
    type V = IdModel;

    open spec fn view(&self) -> IdModel {
        (self.hash_code, self.codec, self.digest@)
    }
}

/// The identifier that `ContentId::compute` gives a payload.
pub open spec fn computed_id(payload: Seq<u8>) -> IdModel {
    (SHA2_256, RAW, sha2_256_of(payload))
}

/// Whether `digest`, computed under the identifier's declared hash function,
/// is the identifier's digest. An identifier whose hash function this engine
/// cannot compute agrees with no digest.
pub open spec fn digest_agrees(id: IdModel, digest: Seq<u8>) -> bool {
    hash_supported(id.0) && id.2 == digest
}

/// Whether `payload` is the content that `id` names.
pub open spec fn verifies(payload: Seq<u8>, id: IdModel) -> bool {
    digest_agrees(id, hash_of(id.0, payload))
}

/// Byte-wise equality of two byte slices.
pub fn bytes_equal(a: &[u8], b: &[u8]) -> (r: bool)
    ensures
        r == (a@ == b@),
{
    if a.len() != b.len() {
        return false;
    }
    let mut i: usize = 0;
    while i < a.len()
        invariant
            a@.len() == b@.len(),
            i <= a@.len(),
            a@.subrange(0, i as int) == b@.subrange(0, i as int),
        decreases a@.len() - i,
    {
        if a[i] != b[i] {
            assert(a@[i as int] != b@[i as int]);
            return false;
        }
        assert(a@.subrange(0, i + 1) == a@.subrange(0, i as int).push(a@[i as int]));
        assert(b@.subrange(0, i + 1) == b@.subrange(0, i as int).push(b@[i as int]));
        i = i + 1;
    }
    assert(a@ == a@.subrange(0, a@.len() as int));
    assert(b@ == b@.subrange(0, b@.len() as int));
    true
}

/// A copy of a byte slice.
pub fn copy_bytes(a: &[u8]) -> (r: Vec<u8>)
    ensures
        r@ == a@,
{
    let mut out: Vec<u8> = Vec::new();
    let mut i: usize = 0;
    while i < a.len()
        invariant
            i <= a@.len(),
            out@ == a@.subrange(0, i as int),
        decreases a@.len() - i,
    {
        out.push(a[i]);
        assert(a@.subrange(0, i + 1) == a@.subrange(0, i as int).push(a@[i as int]));
        i = i + 1;
    }
    assert(a@ == a@.subrange(0, a@.len() as int));
    out
}

impl PartialEq for ContentId {
    fn eq(&self, other: &ContentId) -> (r: bool) {
        self.equals(other)
    }
}

impl vstd::std_specs::cmp::PartialEqSpecImpl for ContentId {
    open spec fn obeys_eq_spec() -> bool {
        true
    }

    open spec fn eq_spec(&self, other: &ContentId) -> bool {
        self@ == other@
    }
}

impl ContentId {
    /// An identifier from its three parts.
    pub fn new(hash_code: u64, codec: u64, digest: Vec<u8>) -> (r: ContentId)
        ensures
            r@ == (hash_code, codec, digest@),
    {
        ContentId { hash_code, codec, digest }
    }

    /// The raw-codec SHA2-256 identifier of a payload.
    pub fn compute(payload: &[u8]) -> (r: ContentId)
        ensures
            r@ == computed_id(payload@),
    {
        let digest = sha2_256_digest(payload);
        ContentId { hash_code: SHA2_256, codec: RAW, digest }
    }

    /// Identifiers are equal when all three parts are.
    pub fn equals(&self, other: &ContentId) -> (r: bool)
        ensures
            r == (self@ == other@),
    {
        self.hash_code == other.hash_code && self.codec == other.codec && bytes_equal(
            self.digest.as_slice(),
            other.digest.as_slice(),
        )
    }

    /// An independent copy of the identifier.
    pub fn duplicate(&self) -> (r: ContentId)
        ensures
            r@ == self@,
    {
        ContentId {
            hash_code: self.hash_code,
            codec: self.codec,
            digest: copy_bytes(self.digest.as_slice()),
        }
    }

    /// Whether a digest computed by this identifier's hash function matches it.
    pub fn digest_matches(&self, digest: &[u8]) -> (r: bool)
        ensures
            r == digest_agrees(self@, digest@),
    {
        (self.hash_code == SHA2_256 || self.hash_code == SHA2_512) && bytes_equal(
            self.digest.as_slice(),
            digest,
        )
    }

    /// The digest of `payload` under the hash function `code`, if this engine
    /// can compute it.
    pub fn hash_with(code: u64, payload: &[u8]) -> (r: Option<Vec<u8>>)
        ensures
            r is Some <==> hash_supported(code),
            r matches Some(d) ==> d@ == hash_of(code, payload@),
    {
        if code == SHA2_256 {
            Some(sha2_256_digest(payload))
        } else if code == SHA2_512 {
            Some(sha2_512_digest(payload))
        } else {
            None
        }
    }
}

} // verus!
