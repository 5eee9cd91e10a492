use vstd::prelude::*;
use crate::cid::{ContentId, IdModel, bytes_equal, computed_id, verifies, copy_bytes};

verus! {

/// Verification of a payload against the identifier it was delivered under failed.
#[derive(Debug, PartialEq, Eq, Structural, Clone, Copy)]
pub struct IntegrityError;

/// An identifier together with the payload it names.
#[derive(Debug, Clone, Eq)]
pub struct Block {
    pub cid: ContentId,
    pub data: Vec<u8>,
}

impl PartialEq for Block {
    fn eq(&self, other: &Block) -> (r: bool) {
        self.cid.equals(&other.cid) && bytes_equal(self.data.as_slice(), other.data.as_slice())
    }
}

impl vstd::std_specs::cmp::PartialEqSpecImpl for Block {
    open spec fn obeys_eq_spec() -> bool {
        true
    }

    open spec fn eq_spec(&self, other: &Block) -> bool {
        self.cid@ == other.cid@ && self.data@ == other.data@
    }
}

impl Block {
    /// Pairs a payload with an identifier without checking them; for callers
    /// that computed the identifier from the payload themselves.
    pub fn new(data: Vec<u8>, cid: ContentId) -> (r: Block)
        ensures
            r.cid@ == cid@,
            r.data@ == data@,
    {
        Block { cid, data }
    }

    pub fn cid(&self) -> (r: &ContentId)
        ensures
            r@ == self.cid@,
    {
        &self.cid
    }

    pub fn data(&self) -> (r: &[u8])
        ensures
            r@ == self.data@,
    {
        self.data.as_slice()
    }

    /// Whether `payload` hashes to the digest of `id`.
    pub fn verify(payload: &[u8], id: &ContentId) -> (r: bool)
        ensures
            r == verifies(payload@, id@),
    {
        match ContentId::hash_with(id.hash_code, payload) {
            Some(d) => id.digest_matches(d.as_slice()),
            None => false,
        }
    }

    /// A block whose payload was checked against `id`.
    pub fn checked(id: ContentId, payload: Vec<u8>) -> (r: Result<Block, IntegrityError>)
        ensures
            r is Ok <==> verifies(payload@, id@),
            r matches Ok(b) ==> b.cid@ == id@ && b.data@ == payload@,
    {
        if Block::verify(payload.as_slice(), &id) {
            Ok(Block { cid: id, data: payload })
        } else {
            Err(IntegrityError)
        }
    }
}

/// A block whose identifier is computed from its bytes.
pub fn new_block(bytes: &[u8]) -> (r: Block)
    ensures
        r.cid@ == computed_id(bytes@),
        r.data@ == bytes@,
{
    let cid = ContentId::compute(bytes);
    Block::new(copy_bytes(bytes), cid)
}

/// An identifier computed from a payload always verifies that payload.
pub proof fn lemma_computed_id_verifies(payload: Seq<u8>)
    ensures
        verifies(payload, computed_id(payload)),
{
}

/// Verification succeeds exactly for the identifiers that carry the payload's
/// digest under their declared hash function, where that function is one the
/// engine computes.
pub proof fn lemma_verify_iff_digest(payload: Seq<u8>, id: IdModel)
    ensures
        verifies(payload, id) <==> (crate::cid::hash_supported(id.0) && id.2 == crate::cid::hash_of(
            id.0,
            payload,
        )),
{
}

} // verus!
