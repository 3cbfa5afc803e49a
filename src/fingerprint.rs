//! Content fingerprints: a hash over a bounded prefix of a file's bytes.
use vstd::prelude::*;

verus! {

/// Number of leading bytes of a file that its content fingerprint covers.
pub const PREFIX_LEN: usize = 4096;

/// The bytes a content fingerprint is computed over: the whole input when it
/// is shorter than `PREFIX_LEN`, its first `PREFIX_LEN` bytes otherwise.
pub open spec fn prefix_of(bytes: Seq<u8>) -> Seq<u8> {
    if bytes.len() < PREFIX_LEN {
        bytes
    } else {
        bytes.subrange(0, PREFIX_LEN as int)
    }
}

/// What SeaHash returns for the given bytes.
pub uninterp spec fn seahash_of(bytes: Seq<u8>) -> u64;

/// The content fingerprint of a file whose contents are `bytes`.
pub open spec fn content_fingerprint(bytes: Seq<u8>) -> u64 {
    seahash_of(prefix_of(bytes))
}

/// Relies on `seahash::hash`: a 64-bit hash that depends on the bytes alone.
#[verifier::external_body]
fn seahash_bytes(bytes: &[u8]) -> (r: u64)
    ensures
        r == seahash_of(bytes@),
{
    seahash::hash(bytes)
}

/// What the perceptual hash returns for a file's bytes: the 32-byte (256-bit)
/// PDQ descriptor of the image they decode to, or `None` where they do not
/// decode as an image or the image cannot be hashed.
pub uninterp spec fn pdq_descriptor_of(bytes: Seq<u8>) -> Option<Seq<u8>>;

/// Relies on `pdqhash::image::load_from_memory`, which decodes the bytes as
/// an image, and on `pdqhash::generate_pdq`, which computes its descriptor:
/// both depend on the bytes alone. The quality score that `generate_pdq`
/// returns beside the descriptor is left out.
#[verifier::external_body]
fn pdq_descriptor(bytes: &[u8]) -> (r: Option<[u8; 32]>)
    ensures
        match r {
            Some(d) => pdq_descriptor_of(bytes@) == Some(d@),
            None => pdq_descriptor_of(bytes@) is None,
        },
{
    match pdqhash::image::load_from_memory(bytes) {
        Ok(img) => match pdqhash::generate_pdq(&img) {
            Some(pair) => Some(pair.0),
            None => None,
        },
        Err(_) => None,
    }
}

/// Computes the perceptual descriptor of a file's contents, if they decode as
/// an image.
pub fn perceptual_hash(bytes: &[u8]) -> (r: Option<[u8; 32]>)
    ensures
        descriptor_view(r) == pdq_descriptor_of(bytes@),
{
    pdq_descriptor(bytes)
}

/// The view of an optional descriptor.
pub open spec fn descriptor_view(d: Option<[u8; 32]>) -> Option<Seq<u8>> {
    match d {
        Some(d) => Some(d@),
        None => None,
    }
}

/// Computes the content fingerprint of a file's contents.
pub fn content_hash(bytes: &[u8]) -> (r: u64)
    ensures
        r == content_fingerprint(bytes@),
{
    let len = bytes.len();
    let prefix_len: usize = if len < PREFIX_LEN { len } else { PREFIX_LEN };
    let prefix = &bytes[0..prefix_len];
    assert(prefix@ =~= prefix_of(bytes@));
    seahash_bytes(prefix)
}

/// Files whose leading `min(size, PREFIX_LEN)` bytes are identical have equal
/// content fingerprints, whatever follows.
pub proof fn lemma_equal_prefix_equal_fingerprint(a: Seq<u8>, b: Seq<u8>)
    requires
        prefix_of(a) == prefix_of(b),
    ensures
        content_fingerprint(a) == content_fingerprint(b),
{
}

/// The content fingerprint is a function of the prefix alone: hashing the
/// prefix by itself gives the same fingerprint as hashing the whole file.
pub proof fn lemma_fingerprint_of_prefix(bytes: Seq<u8>)
    ensures
        content_fingerprint(prefix_of(bytes)) == content_fingerprint(bytes),
        prefix_of(prefix_of(bytes)) == prefix_of(bytes),
{
}

} // verus!
