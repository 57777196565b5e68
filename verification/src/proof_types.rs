//! Type identifiers for the proof blueprints: well-known identifiers by
//! code, and novel identifiers derived from a type name by digest.

use vstd::prelude::*;

verus! {

/// The digest the hash function assigns to the given bytes.  The result
/// depends on the input bytes alone.
pub uninterp spec fn sha1_of(data: Seq<u8>) -> Seq<u8>;

/// Relies on const_sha1::sha1: a 20-byte digest of the input bytes,
/// depending on the input alone.
#[verifier::external_body]
fn sha1_digest(data: &[u8]) -> (r: Vec<u8>)
    ensures
        r@ == sha1_of(data@),
        r@.len() == 20,
{
    const_sha1::sha1(data).as_bytes().to_vec()
}

/// A global type identifier: a well-known code, or a novel identifier
/// derived from the type name.
#[derive(Debug, Clone, PartialEq, Eq)]
pub enum GlobalTypeId {
    WellKnown(u8),
    Novel(Vec<u8>),
}

/// The novel type identifier of a type name: the digest of its bytes,
/// so equal names yield equal identifiers on every machine.
pub fn novel_type_id(name: &[u8]) -> (r: GlobalTypeId)
    ensures
        r is Novel,
        r->Novel_0@ == sha1_of(name@),
        r->Novel_0@.len() == 20,
{
    GlobalTypeId::Novel(sha1_digest(name))
}

/// Whether a type identifier is the novel identifier with the given
/// digest bytes.
pub fn type_id_has_digest(id: &GlobalTypeId, digest: &[u8]) -> (r: bool)
    ensures
        r == (id is Novel && id->Novel_0@ == digest@),
{
    match id {
        GlobalTypeId::Novel(bytes) => bytes_eq(bytes.as_slice(), digest),
        GlobalTypeId::WellKnown(_) => false,
    }
}

/// Whether two byte strings are equal.
fn bytes_eq(a: &[u8], b: &[u8]) -> (r: bool)
    ensures
        r == (a@ == b@),
{
    if a.len() != b.len() {
        proof {
            assert(a@.len() != b@.len());
        }
        return false;
    }
    let n: usize = a.len();
    let mut i: usize = 0;
    while i < n
        invariant
            i <= n,
            n == a@.len(),
            n == b@.len(),
            forall|j: int| 0 <= j < i ==> a@[j] == b@[j],
        decreases n - i,
    {
        if a[i] != b[i] {
            return false;
        }
        i = i + 1;
    }
    proof {
        assert(a@ =~= b@);
    }
    true
}

} // verus!
