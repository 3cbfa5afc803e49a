//! One record per discovered file, and the pass that fingerprints it.
use vstd::prelude::*;

use crate::fingerprint::{content_fingerprint, content_hash, descriptor_view, pdq_descriptor_of, perceptual_hash};

verus! {

/// What the fingerprinting pass learns of a file.
#[derive(Clone, Copy, Debug)]
pub struct Fingerprint {
    /// Total length of the file in bytes.
    pub size: usize,
    /// Hash of the file's leading bytes (see `content_fingerprint`).
    pub content: u64,
    /// 256-bit perceptual descriptor, present only for files that decode as
    /// images, and only when it was asked for.
    pub perceptual: Option<[u8; 32]>,
}

/// A file is either not yet fingerprinted, or fingerprinted once and for all.
#[derive(Clone, Copy, Debug)]
pub enum FingerprintState {
    Unfingerprinted,
    Fingerprinted(Fingerprint),
}

/// A discovered regular file.
#[derive(Clone, Debug)]
pub struct FileData {
    pub path: String,
    pub state: FingerprintState,
}

/// The fingerprint that a pass over `contents` gives.
pub open spec fn fingerprint_of(contents: Seq<u8>, try_perception_hash: bool) -> (
    usize,
    u64,
    Option<Seq<u8>>,
) {
    (
        contents.len() as usize,
        content_fingerprint(contents),
        if try_perception_hash {
            pdq_descriptor_of(contents)
        } else {
            None
        },
    )
}

impl Fingerprint {
    /// The fingerprint with its descriptor viewed as a sequence of bytes.
    pub open spec fn view(self) -> (usize, u64, Option<Seq<u8>>) {
        (self.size, self.content, descriptor_view(self.perceptual))
    }
}

impl FileData {
    /// The content fingerprint, once the file has been fingerprinted.
    pub open spec fn content_spec(self) -> Option<u64> {
        match self.state {
            FingerprintState::Fingerprinted(f) => Some(f.content),
            FingerprintState::Unfingerprinted => None,
        }
    }

    /// The perceptual descriptor, where the file has one.
    pub open spec fn descriptor_spec(self) -> Option<Seq<u8>> {
        match self.state {
            FingerprintState::Fingerprinted(f) => descriptor_view(f.perceptual),
            FingerprintState::Unfingerprinted => None,
        }
    }

    /// The perceptual descriptor, where the file has one.
    pub fn descriptor(&self) -> (r: Option<[u8; 32]>)
        ensures
            descriptor_view(r) == self.descriptor_spec(),
    {
        match self.state {
            FingerprintState::Fingerprinted(f) => f.perceptual,
            FingerprintState::Unfingerprinted => None,
        }
    }

    /// A record for the file at `path`, not yet fingerprinted.
    pub fn from_file(path: String) -> (r: Self)
        ensures
            r.path@ == path@,
            r.state is Unfingerprinted,
    {
        FileData { path, state: FingerprintState::Unfingerprinted }
    }

    /// Fingerprints the record from the file's full contents: its size, the
    /// hash of its prefix and, where `try_perception_hash` is set and the
    /// contents decode as an image, its perceptual descriptor.
    pub fn hash(&mut self, contents: &[u8], try_perception_hash: bool)
        ensures
            final(self).path == old(self).path,
            final(self).state matches FingerprintState::Fingerprinted(f) && f.view()
                == fingerprint_of(contents@, try_perception_hash),
    {
        let size = contents.len();
        let content = content_hash(contents);
        let perceptual = if try_perception_hash {
            perceptual_hash(contents)
        } else {
            None
        };
        self.state = FingerprintState::Fingerprinted(Fingerprint { size, content, perceptual });
    }
}

/// The total size of the fingerprinted records; those not fingerprinted count
/// for nothing.
pub open spec fn total_size_of(data: Seq<FileData>) -> nat
    decreases data.len(),
{
    if data.len() == 0 {
        0
    } else {
        total_size_of(data.drop_last()) + match data.last().state {
            FingerprintState::Fingerprinted(f) => f.size as nat,
            FingerprintState::Unfingerprinted => 0,
        }
    }
}

/// The number of records that carry a perceptual descriptor.
pub open spec fn image_count_of(data: Seq<FileData>) -> nat
    decreases data.len(),
{
    if data.len() == 0 {
        0
    } else {
        image_count_of(data.drop_last()) + if data.last().descriptor_spec() is Some {
            1nat
        } else {
            0nat
        }
    }
}

/// Sums the sizes of the fingerprinted records.
pub fn total_size(data: &[FileData]) -> (r: u128)
    ensures
        r == total_size_of(data@),
{
    let mut total: u128 = 0;
    let mut i: usize = 0;
    while i < data.len()
        invariant
            i <= data.len(),
            total == total_size_of(data@.take(i as int)),
            total <= i * usize::MAX,
        decreases data.len() - i,
    {
        assert(data@.take(i as int + 1).drop_last() =~= data@.take(i as int));
        let size: usize = match data[i].state {
            FingerprintState::Fingerprinted(f) => f.size,
            FingerprintState::Unfingerprinted => 0,
        };
        proof {
            assert((i + 1) * usize::MAX == i * usize::MAX + usize::MAX) by (nonlinear_arith);
            assert(i * usize::MAX <= usize::MAX * usize::MAX) by (nonlinear_arith)
                requires
                    i <= usize::MAX,
            ;
            assert(usize::MAX * usize::MAX < u128::MAX) by (nonlinear_arith)
                requires
                    usize::MAX <= u64::MAX,
            ;
        }
        total = total + size as u128;
        i = i + 1;
    }
    assert(data@.take(data.len() as int) =~= data@);
    total
}

/// Counts the records that carry a perceptual descriptor.
pub fn image_count(data: &[FileData]) -> (r: usize)
    ensures
        r == image_count_of(data@),
{
    let mut count: usize = 0;
    let mut i: usize = 0;
    while i < data.len()
        invariant
            i <= data.len(),
            count == image_count_of(data@.take(i as int)),
            count <= i,
        decreases data.len() - i,
    {
        assert(data@.take(i as int + 1).drop_last() =~= data@.take(i as int));
        if data[i].descriptor().is_some() {
            count = count + 1;
        }
        i = i + 1;
    }
    assert(data@.take(data.len() as int) =~= data@);
    count
}

} // verus!
