//! Instance identities.
//!
//! A non-fungible instance is identified by the 32-byte BLAKE2b-256 digest
//! of its caller-supplied generation seed.  The digest itself is computed by
//! the execution environment's hasher; this module names its result and
//! wraps the call, and offers small verified helpers for identity lists.

use vstd::prelude::*;
use vstd::string::StrSliceExecFns;

verus! {

/// The 32-byte digest the environment's BLAKE2b-256 hasher assigns to a
/// byte string; a function of the bytes alone.
pub uninterp spec fn blake2_of(data: Seq<u8>) -> Seq<u8>;

/// The instance identity derived from a generation seed: the BLAKE2b-256
/// digest of the seed's UTF-8 bytes.
pub open spec fn identity_of(seed: Seq<char>) -> Seq<u8> {
    blake2_of(vstd::utf8::encode_utf8(seed))
}

/// Relies on `ink_env::hash_bytes` with the `Blake2x256` hasher: it fills
/// the output buffer with the 32-byte BLAKE2b-256 digest of the input,
/// which depends on the input bytes alone.
#[verifier::external_body]
fn blake2_256(data: &Vec<u8>) -> (r: Vec<u8>)
    ensures
        r@ == blake2_of(data@),
        r@.len() == 32,
{
    let mut output: [u8; 32] = [0u8; 32];
    ink_env::hash_bytes::<ink_env::hash::Blake2x256>(data.as_slice(), &mut output);
    output.to_vec()
}

/// The identity assigned to a generation seed.
pub fn seed_identity(seed: &str) -> (r: Vec<u8>)
    ensures
        r@ == identity_of(seed@),
        r@.len() == 32,
{
    let bytes = seed.as_bytes_vec();
    blake2_256(&bytes)
}

/// The deep view of a byte string is its plain view.
pub proof fn lemma_bytes_deep_view(v: Vec<u8>)
    ensures
        v.deep_view() == v@,
{
    assert(v.deep_view() =~= v@);
}

/// The deep view of an integer list is its plain view.
pub proof fn lemma_u128s_deep_view(v: Vec<u128>)
    ensures
        v.deep_view() == v@,
{
    assert(v.deep_view() =~= v@);
}

/// Byte-string equality.
pub fn bytes_eq(a: &Vec<u8>, b: &Vec<u8>) -> (r: bool)
    ensures
        r == (a@ == b@),
{
    if a.len() != b.len() {
        proof {
            assert(a@.len() != b@.len());
        }
        return false;
    }
    let n = a.len();
    let mut i: usize = 0;
    while i < n
        invariant
            n == a@.len(),
            n == b@.len(),
            0 <= i <= n,
            forall|j: int| 0 <= j < i ==> a@[j] == b@[j],
        decreases n - i,
    {
        if a[i] != b[i] {
            proof {
                assert(a@[i as int] != b@[i as int]);
            }
            return false;
        }
        i += 1;
    }
    proof {
        assert(a@ =~= b@);
    }
    true
}

/// Whether an identity list holds the given identity.
pub fn id_list_contains(l: &Vec<Vec<u8>>, id: &Vec<u8>) -> (r: bool)
    ensures
        r == l.deep_view().contains(id@),
{
    let n = l.len();
    let mut i: usize = 0;
    while i < n
        invariant
            n == l@.len(),
            0 <= i <= n,
            forall|j: int| 0 <= j < i ==> l.deep_view()[j] != id@,
        decreases n - i,
    {
        let hit = bytes_eq(&l[i], id);
        proof {
            assert(l.deep_view()[i as int] == l@[i as int]@);
        }
        if hit {
            proof {
                assert(l.deep_view()[i as int] == id@);
            }
            return true;
        }
        i += 1;
    }
    proof {
        assert(forall|j: int| 0 <= j < l.deep_view().len() ==> l.deep_view()[j] != id@);
        if l.deep_view().contains(id@) {
            let j = choose|j: int| 0 <= j < l.deep_view().len() && l.deep_view()[j] == id@;
            assert(l.deep_view()[j] != id@);
        }
    }
    false
}

/// Position of the given identity in a list, if present.
pub fn id_list_find(l: &Vec<Vec<u8>>, id: &Vec<u8>) -> (r: Option<usize>)
    ensures
        match r {
            Some(i) => i < l.deep_view().len() && l.deep_view()[i as int] == id@,
            None => !l.deep_view().contains(id@),
        },
{
    let n = l.len();
    let mut i: usize = 0;
    while i < n
        invariant
            n == l@.len(),
            0 <= i <= n,
            forall|j: int| 0 <= j < i ==> l.deep_view()[j] != id@,
        decreases n - i,
    {
        let hit = bytes_eq(&l[i], id);
        proof {
            assert(l.deep_view()[i as int] == l@[i as int]@);
        }
        if hit {
            return Some(i);
        }
        i += 1;
    }
    proof {
        if l.deep_view().contains(id@) {
            let j = choose|j: int| 0 <= j < l.deep_view().len() && l.deep_view()[j] == id@;
            assert(l.deep_view()[j] != id@);
        }
    }
    None
}

/// A fresh copy of a byte string.
pub fn copy_bytes(a: &Vec<u8>) -> (r: Vec<u8>)
    ensures
        r@ == a@,
{
    let n = a.len();
    let mut r: Vec<u8> = Vec::new();
    let mut i: usize = 0;
    while i < n
        invariant
            n == a@.len(),
            0 <= i <= n,
            r@ == a@.subrange(0, i as int),
        decreases n - i,
    {
        r.push(a[i]);
        proof {
            assert(r@ =~= a@.subrange(0, i + 1));
        }
        i += 1;
    }
    proof {
        assert(r@ =~= a@);
    }
    r
}

/// A fresh copy of an identity list.
pub fn copy_id_list(l: &Vec<Vec<u8>>) -> (r: Vec<Vec<u8>>)
    ensures
        r.deep_view() == l.deep_view(),
{
    let n = l.len();
    let mut r: Vec<Vec<u8>> = Vec::new();
    let mut i: usize = 0;
    while i < n
        invariant
            n == l@.len(),
            0 <= i <= n,
            r.deep_view() == l.deep_view().subrange(0, i as int),
        decreases n - i,
    {
        let cb = copy_bytes(&l[i]);
        proof {
            assert(l.deep_view()[i as int] == l@[i as int]@);
            assert(cb@ == l.deep_view()[i as int]);
        }
        let ghost rv0 = r@;
        let ghost rd0 = r.deep_view();
        r.push(cb);
        proof {
            assert(r@ == rv0.push(cb));
            assert forall|j: int| 0 <= j < rd0.len() implies r.deep_view()[j] == rd0[j] by {
                assert(r@[j] == rv0[j]);
            }
            assert(r.deep_view()[rd0.len() as int] == cb@);
            assert(r.deep_view() =~= l.deep_view().subrange(0, i + 1));
        }
        i += 1;
    }
    proof {
        assert(r.deep_view() =~= l.deep_view());
    }
    r
}

} // verus!
