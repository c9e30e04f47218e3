use vstd::prelude::*;

use crypto::digest::Digest;
use crypto::sha1::Sha1;

verus! {

/// The SHA-1 digest of a byte string, named: the outside library computes
/// it, and the result depends on the input bytes alone.
pub uninterp spec fn sha1_of(data: Seq<u8>) -> Seq<u8>;

/// Relies on crypto::sha1::Sha1 (new, input, result): the SHA-1 digest of
/// the input, always twenty bytes.
#[verifier::external_body]
fn sha1_digest(data: &[u8]) -> (r: Vec<u8>)
    ensures
        r@ == sha1_of(data@),
        r@.len() == 20,
{
    let mut hasher = Sha1::new();
    let mut output = vec![0u8; 20];
    hasher.input(data);
    hasher.result(&mut output[..]);
    output
}

/// The key a stored value lives under: the SHA-1 digest of the application
/// id followed by the caller's key.
pub fn hash(app_id: &Vec<u8>, data: &Vec<u8>) -> (r: Vec<u8>)
    ensures
        r@ == sha1_of(app_id@ + data@),
        r@.len() == 20,
{
    let mut joined: Vec<u8> = Vec::new();
    let an = app_id.len();
    let mut i: usize = 0;
    while i < an
        invariant
            an == app_id@.len(),
            0 <= i <= an,
            joined@ == app_id@.take(i as int),
        decreases an - i,
    {
        joined.push(app_id[i]);
        proof {
            assert(joined@ =~= app_id@.take(i + 1));
        }
        i += 1;
    }
    proof {
        assert(app_id@.take(an as int) =~= app_id@);
    }
    let dn = data.len();
    let mut j: usize = 0;
    while j < dn
        invariant
            dn == data@.len(),
            0 <= j <= dn,
            joined@ == app_id@ + data@.take(j as int),
        decreases dn - j,
    {
        joined.push(data[j]);
        proof {
            assert(joined@ =~= app_id@ + data@.take(j + 1));
        }
        j += 1;
    }
    proof {
        assert(data@.take(dn as int) =~= data@);
        assert(joined@ == app_id@ + data@);
    }
    sha1_digest(joined.as_slice())
}

} // verus!
