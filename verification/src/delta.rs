//! Sending only what changed of a file.
use sha2::Digest;
use vstd::prelude::*;

verus! {

/// The block size of the signatures that are kept.
pub const BLOCK_SIZE: u32 = 2048;

/// How many bytes of the hash of each block a signature holds.
pub const HASH_SIZE: u32 = 16;

/// What `fast_rsync::Signature::calculate` makes of data, a block size and a hash
/// size, in its serialized form.
pub uninterp spec fn rsync_signature(data: Seq<u8>, block_size: u32, hash_size: u32) -> Seq<u8>;

/// What `fast_rsync::diff` writes for the signature that the bytes hold and the
/// data; none if the bytes hold no signature, or one that it does not support.
pub uninterp spec fn rsync_delta(signature: Seq<u8>, data: Seq<u8>) -> Option<Seq<u8>>;

/// The digest that `sha2::Sha256` makes of data.
pub uninterp spec fn sha256(data: Seq<u8>) -> Seq<u8>;

/// The bytes hold a signature that a delta can be made against: the header, if
/// there is one, gives a block size other than 0 and a hash size of less than
/// 2^24.
pub open spec fn is_signature(b: Seq<u8>) -> bool {
    b.len() >= 12 ==> (b[4] != 0 || b[5] != 0 || b[6] != 0 || b[7] != 0) && b[8] == 0
}

/// Calls `fast_rsync::Signature::calculate`, which hashes the data block by
/// block, and `into_serialized`. It panics on a block size of 0 and on a hash
/// size over 16. The serialized form is 4 bytes that name the format, the block
/// size and the hash size in 4 bytes each, most significant first, and the
/// hashes.
#[verifier::external_body]
fn calculate(data: &[u8], block_size: u32, hash_size: u32) -> (r: Vec<u8>)
    requires
        0 < block_size,
        hash_size <= 16,
    ensures
        r@ == rsync_signature(data@, block_size, hash_size),
        is_signature(r@),
        r@.len() >= 12,
{
    let options = fast_rsync::SignatureOptions { block_size, crypto_hash_size: hash_size };
    fast_rsync::Signature::calculate(data, options).into_serialized()
}

/// Calls `fast_rsync::Signature::deserialize`, `index` and `fast_rsync::diff` with
/// an empty output. `diff` does not come to an end properly on a block size of 0.
/// Whether the delta gives the data back when it is applied is not claimed: the
/// crate does not promise it.
#[verifier::external_body]
fn diff(signature: Vec<u8>, data: &[u8]) -> (r: Option<Vec<u8>>)
    requires
        is_signature(signature@),
    ensures
        match r {
            Some(d) => rsync_delta(signature@, data@) == Some(d@),
            None => rsync_delta(signature@, data@) is None,
        },
{
    let parsed = fast_rsync::Signature::deserialize(signature).ok()?;
    let mut out: Vec<u8> = Vec::new();
    fast_rsync::diff(&parsed.index(), data, &mut out).ok()?;
    Some(out)
}

/// Calls `sha2::Sha256::digest`. A digest has 32 bytes.
#[verifier::external_body]
fn digest(data: &[u8]) -> (r: Vec<u8>)
    ensures
        r@ == sha256(data@),
        r@.len() == 32,
{
    sha2::Sha256::digest(data).to_vec()
}

/// The signature that is kept of a file that has been sent.
pub fn signature(data: &[u8]) -> (r: Vec<u8>)
    ensures
        r@ == rsync_signature(data@, BLOCK_SIZE, HASH_SIZE),
        is_signature(r@),
{
    calculate(data, BLOCK_SIZE, HASH_SIZE)
}

/// Whether a delta can be made against the bytes. See `is_signature`.
pub fn usable(b: &Vec<u8>) -> (r: bool)
    ensures
        r == is_signature(b@),
{
    b.len() < 12 || ((b[4] != 0 || b[5] != 0 || b[6] != 0 || b[7] != 0) && b[8] == 0)
}

/// What is sent for a delta: a version byte, the delta and the digest of the
/// file. None if there is no delta, or if it is not shorter than the file.
pub open spec fn framed(delta: Option<Seq<u8>>, size: nat, digest: Seq<u8>) -> Option<Seq<u8>> {
    match delta {
        Some(d) => if 1 + d.len() >= size {
            None
        } else {
            Some(seq![1u8] + d + digest)
        },
        None => None,
    }
}

/// Bytes by their values.
pub open spec fn bytes_view(b: Option<Vec<u8>>) -> Option<Seq<u8>> {
    match b {
        Some(b) => Some(b@),
        None => None,
    }
}

/// See `framed`.
pub fn frame(delta: Option<Vec<u8>>, size: usize, digest: &Vec<u8>) -> (r: Option<Vec<u8>>)
    ensures
        bytes_view(r) == framed(bytes_view(delta), size as nat, digest@),
{
    match delta {
        Some(d) => {
            if d.len() >= size || d.len() + 1 >= size {
                return None;
            }
            let mut body: Vec<u8> = Vec::new();
            body.push(1u8);
            body.extend_from_slice(d.as_slice());
            body.extend_from_slice(digest.as_slice());
            proof {
                assert(body@ =~= seq![1u8] + d@ + digest@);
            }
            Some(body)
        },
        None => None,
    }
}

/// What is sent for a file of which `signature` was kept.
pub open spec fn delta_of(signature: Seq<u8>, data: Seq<u8>) -> Option<Seq<u8>> {
    framed(rsync_delta(signature, data), data.len(), sha256(data))
}

/// What is sent for a file of which `signature` was kept.
pub fn delta_body(signature: Vec<u8>, data: &Vec<u8>) -> (r: Option<Vec<u8>>)
    requires
        is_signature(signature@),
    ensures
        bytes_view(r) == delta_of(signature@, data@),
{
    let d = diff(signature, data.as_slice());
    let sum = digest(data.as_slice());
    frame(d, data.len(), &sum)
}

/// A delta is sent only where it is shorter than the file, and ends with the
/// digest of the whole file.
pub proof fn law_a_delta_is_worth_it(delta: Option<Seq<u8>>, size: nat, digest: Seq<u8>)
    ensures
        framed(delta, size, digest) matches Some(body) ==> {
            &&& body.len() < size + digest.len()
            &&& body[0] == 1
            &&& body.skip(body.len() - digest.len()) == digest
            &&& delta matches Some(d) && body.subrange(1, 1 + d.len() as int) == d
        },
{
    match framed(delta, size, digest) {
        Some(body) => {
            let d = delta->0;
            assert(body.skip(body.len() - digest.len()) =~= digest);
            assert(body.subrange(1, 1 + d.len() as int) =~= d);
        },
        None => {},
    }
}

/// A delta is sent wherever there is one that is shorter than the file.
pub proof fn law_when_a_delta_is_worth_it(delta: Option<Seq<u8>>, size: nat, digest: Seq<u8>)
    ensures
        framed(delta, size, digest) is Some <==> delta is Some && 1 + delta->0.len() < size,
        framed(delta, size, digest) matches Some(body) ==> body.len() == 1 + delta->0.len()
            + digest.len(),
{
}

/// A signature with a header has blocks of some size, and hashes whose size fits in
/// three bytes. Both are written with the high byte first.
pub proof fn law_what_a_signature_is(b: Seq<u8>)
    requires
        b.len() >= 12,
    ensures
        is_signature(b) <==> {
            &&& 0x100_0000 * b[4] + 0x1_0000 * b[5] + 0x100 * b[6] + b[7] > 0
            &&& 0x100_0000 * b[8] + 0x1_0000 * b[9] + 0x100 * b[10] + b[11] < 0x100_0000
        },
{
}

} // verus!
