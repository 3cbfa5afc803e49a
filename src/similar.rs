//! Near-duplicate clustering: images whose perceptual descriptors differ in
//! at most a given number of bits.
use vstd::prelude::*;

use crate::record::FileData;

verus! {

/// The Hamming-distance threshold used when none is chosen.
pub const ALLOWED_DISTANCE: u64 = 3;

/// The number of set bits of `x`.
pub open spec fn popcount(x: u8) -> nat
    decreases x,
{
    if x == 0 {
        0
    } else {
        (x % 2) as nat + popcount(x / 2)
    }
}

/// The number of differing bits among the first `n` bytes of `a` and `b`.
pub open spec fn bits_differing(a: Seq<u8>, b: Seq<u8>, n: nat) -> nat
    decreases n,
{
    if n == 0 {
        0
    } else {
        bits_differing(a, b, (n - 1) as nat) + popcount(a[n - 1] ^ b[n - 1])
    }
}

/// The Hamming distance between two byte strings of equal length.
pub open spec fn bit_distance(a: Seq<u8>, b: Seq<u8>) -> nat {
    bits_differing(a, b, a.len())
}

/// Relies on `hamming::distance`: the number of bits in which two slices of
/// equal length differ (it panics on slices of unequal length, which two
/// 32-byte arrays never are).
#[verifier::external_body]
fn hamming_distance(a: &[u8; 32], b: &[u8; 32]) -> (r: u64)
    ensures
        r == bit_distance(a@, b@),
{
    hamming::distance(a, b)
}

/// The Hamming distance between two perceptual descriptors.
pub fn descriptor_distance(a: &[u8; 32], b: &[u8; 32]) -> (r: u64)
    ensures
        r == bit_distance(a@, b@),
{
    hamming_distance(a, b)
}

/// The perceptual descriptor of each record, `None` where it has none.
pub open spec fn descriptors(data: Seq<FileData>) -> Seq<Option<Seq<u8>>> {
    data.map_values(|d: FileData| d.descriptor_spec())
}

/// Records `i` and `j` both carry descriptors, at most `t` bits apart.
pub open spec fn is_similar(ds: Seq<Option<Seq<u8>>>, i: int, j: int, t: nat) -> bool {
    &&& ds[i] is Some
    &&& ds[j] is Some
    &&& bit_distance(ds[i].unwrap(), ds[j].unwrap()) <= t
}

/// The indices below `n`, in increasing order, of the records other than `i`
/// that are similar to record `i`.
pub open spec fn similar_upto(ds: Seq<Option<Seq<u8>>>, i: int, t: nat, n: nat) -> Seq<usize>
    decreases n,
{
    if n == 0 {
        seq![]
    } else {
        let rest = similar_upto(ds, i, t, (n - 1) as nat);
        let j = n - 1;
        if j != i && is_similar(ds, i, j, t) {
            rest.push(j as usize)
        } else {
            rest
        }
    }
}

/// The similar-set of record `i`: every other record whose descriptor lies
/// within `t` bits of its own, in input order.
pub open spec fn similar_to(ds: Seq<Option<Seq<u8>>>, i: int, t: nat) -> Seq<usize> {
    similar_upto(ds, i, t, ds.len())
}

/// The clusters among the first `n` records: each image with a non-empty
/// similar-set, in input order, paired with that set.
pub open spec fn clusters_upto(ds: Seq<Option<Seq<u8>>>, t: nat, n: nat) -> Seq<(usize, Seq<usize>)>
    decreases n,
{
    if n == 0 {
        seq![]
    } else {
        let rest = clusters_upto(ds, t, (n - 1) as nat);
        let i = n - 1;
        if ds[i] is Some && similar_to(ds, i, t).len() > 0 {
            rest.push((i as usize, similar_to(ds, i, t)))
        } else {
            rest
        }
    }
}

/// The clusters of all records.
pub open spec fn clusters(ds: Seq<Option<Seq<u8>>>, t: nat) -> Seq<(usize, Seq<usize>)> {
    clusters_upto(ds, t, ds.len())
}

/// An image and the other images similar to it, as indices into the input.
#[derive(Clone, Debug)]
pub struct SimilarGroup {
    pub image: usize,
    pub similars: Vec<usize>,
}

impl SimilarGroup {
    pub open spec fn view(self) -> (usize, Seq<usize>) {
        (self.image, self.similars@)
    }
}

/// The view of a list of clusters.
pub open spec fn groups_view(groups: Seq<SimilarGroup>) -> Seq<(usize, Seq<usize>)> {
    groups.map_values(|g: SimilarGroup| g@)
}

/// What `similar_upto` holds: exactly the records other than `i` below `n`
/// that are similar to it, each once, in increasing order.
pub proof fn lemma_similar_upto(ds: Seq<Option<Seq<u8>>>, i: int, t: nat, n: nat)
    requires
        n <= ds.len() <= usize::MAX,
    ensures
        forall|a: int|
            0 <= a < similar_upto(ds, i, t, n).len() ==> {
                let m = #[trigger] similar_upto(ds, i, t, n)[a];
                m < n && m != i && is_similar(ds, i, m as int, t)
            },
        forall|a: int, b: int|
            0 <= a < b < similar_upto(ds, i, t, n).len() ==> similar_upto(ds, i, t, n)[a]
                < similar_upto(ds, i, t, n)[b],
        forall|j: int|
            0 <= j < n && j != i && is_similar(ds, i, j, t) ==> #[trigger] similar_upto(
                ds,
                i,
                t,
                n,
            ).contains(j as usize),
    decreases n,
{
    if n > 0 {
        let rest = similar_upto(ds, i, t, (n - 1) as nat);
        lemma_similar_upto(ds, i, t, (n - 1) as nat);
        assert forall|j: int| 0 <= j < n && j != i && is_similar(ds, i, j, t) implies #[trigger] similar_upto(
            ds,
            i,
            t,
            n,
        ).contains(j as usize) by {
            if j < n - 1 {
                assert(rest.contains(j as usize));
                let a = choose|a: int| 0 <= a < rest.len() && rest[a] == j as usize;
                assert(similar_upto(ds, i, t, n)[a] == j as usize);
            } else {
                assert(similar_upto(ds, i, t, n).last() == j as usize);
            }
        }
    }
}

/// Groups the images of `data` by similarity: for each record with a
/// perceptual descriptor, in input order, the other records whose
/// descriptors lie within `max_distance` bits of its own, where there are
/// any. A pair of similar images is reported from both sides.
pub fn similar_groups(data: &[FileData], max_distance: u64) -> (r: Vec<SimilarGroup>)
    ensures
        groups_view(r@) == clusters(descriptors(data@), max_distance as nat),
        forall|k: int| 0 <= k < r@.len() ==> !(#[trigger] r@[k].similars@).contains(r@[k].image),
{
    let ghost ds = descriptors(data@);
    let ghost t = max_distance as nat;
    let n = data.len();
    let mut groups: Vec<SimilarGroup> = Vec::new();
    let mut i: usize = 0;
    while i < n
        invariant
            i <= n == data@.len() == ds.len(),
            ds == descriptors(data@),
            t == max_distance as nat,
            groups_view(groups@) == clusters_upto(ds, t, i as nat),
            forall|k: int| 0 <= k < groups@.len() ==> !(#[trigger] groups@[k].similars@).contains(groups@[k].image),
        decreases n - i,
    {
        let ghost prev = groups@;
        assert(ds[i as int] == data@[i as int].descriptor_spec());
        if let Some(own) = data[i].descriptor() {
            let mut similars: Vec<usize> = Vec::new();
            let mut j: usize = 0;
            while j < n
                invariant
                    j <= n == data@.len() == ds.len(),
                    i < n,
                    ds == descriptors(data@),
                    t == max_distance as nat,
                    ds[i as int] == Some(own@),
                    similars@ == similar_upto(ds, i as int, t, j as nat),
                decreases n - j,
            {
                assert(ds[j as int] == data@[j as int].descriptor_spec());
                if j != i {
                    if let Some(other) = data[j].descriptor() {
                        let d = descriptor_distance(&own, &other);
                        if d <= max_distance {
                            similars.push(j);
                        }
                    }
                }
                j = j + 1;
            }
            proof {
                lemma_similar_upto(ds, i as int, t, ds.len());
            }
            if similars.len() > 0 {
                groups.push(SimilarGroup { image: i, similars });
                assert(groups_view(groups@) =~= groups_view(prev).push(groups@.last()@));
                assert forall|k: int| 0 <= k < groups@.len() implies !(#[trigger] groups@[k].similars@).contains(
                    groups@[k].image,
                ) by {
                    if k < prev.len() {
                        assert(groups@[k] == prev[k]);
                    } else {
                        if groups@[k].similars@.contains(groups@[k].image) {
                            let a = choose|a: int|
                                0 <= a < groups@[k].similars@.len() && groups@[k].similars@[a] == i;
                            assert(similar_to(ds, i as int, t)[a] == i);
                        }
                    }
                }
            }
        }
        i = i + 1;
    }
    groups
}

/// The clusters at the default threshold, `ALLOWED_DISTANCE` bits.
pub fn build_perception_groups(data: &[FileData]) -> (r: Vec<SimilarGroup>)
    ensures
        groups_view(r@) == clusters(descriptors(data@), ALLOWED_DISTANCE as nat),
        forall|k: int| 0 <= k < r@.len() ==> !(#[trigger] r@[k].similars@).contains(r@[k].image),
{
    similar_groups(data, ALLOWED_DISTANCE)
}

/// A byte has no set bits exactly when it is zero.
proof fn lemma_popcount_zero(x: u8)
    ensures
        popcount(x) == 0 <==> x == 0,
    decreases x,
{
    if x != 0 {
        lemma_popcount_zero(x / 2);
    }
}

/// The first `n` bytes of `a` and `b` differ in no bit exactly when they are
/// equal.
proof fn lemma_bits_differing_zero(a: Seq<u8>, b: Seq<u8>, n: nat)
    requires
        n <= a.len(),
        n <= b.len(),
    ensures
        bits_differing(a, b, n) == 0 <==> forall|k: int| 0 <= k < n ==> a[k] == b[k],
    decreases n,
{
    if n > 0 {
        lemma_bits_differing_zero(a, b, (n - 1) as nat);
        let x = a[n - 1];
        let y = b[n - 1];
        lemma_popcount_zero(x ^ y);
        assert((x ^ y) == 0 <==> x == y) by (bit_vector);
    }
}

/// Two descriptors of equal length are at distance 0 exactly when they are
/// equal.
pub proof fn lemma_distance_zero_iff_equal(a: Seq<u8>, b: Seq<u8>)
    requires
        a.len() == b.len(),
    ensures
        bit_distance(a, b) == 0 <==> a == b,
{
    lemma_bits_differing_zero(a, b, a.len());
    if bit_distance(a, b) == 0 {
        assert(a =~= b);
    }
}

/// Every perceptual descriptor that a record holds is 32 bytes (256 bits)
/// long.
proof fn lemma_descriptors_len(data: Seq<FileData>)
    ensures
        forall|k: int|
            0 <= k < descriptors(data).len() && #[trigger] descriptors(data)[k] is Some
                ==> descriptors(data)[k].unwrap().len() == 32,
{
    assert forall|k: int|
        0 <= k < descriptors(data).len() && #[trigger] descriptors(data)[k] is Some
            implies descriptors(data)[k].unwrap().len() == 32 by {
        assert(descriptors(data)[k] == data[k].descriptor_spec());
    }
}

/// No record is in its own similar-set, whatever the threshold: records are
/// told apart by position, not by descriptor.
pub proof fn lemma_no_self_similarity(data: Seq<FileData>, i: int, t: nat)
    requires
        data.len() <= usize::MAX,
        0 <= i < data.len(),
    ensures
        !similar_to(descriptors(data), i, t).contains(i as usize),
{
    lemma_similar_upto(descriptors(data), i, t, data.len());
}

/// Two distinct records with bit-identical descriptors are at distance 0 and
/// each is in the other's similar-set, at any threshold.
pub proof fn lemma_identical_descriptors_cluster(data: Seq<FileData>, i: int, j: int, t: nat)
    requires
        data.len() <= usize::MAX,
        0 <= i < data.len(),
        0 <= j < data.len(),
        i != j,
        data[i].descriptor_spec() is Some,
        data[i].descriptor_spec() == data[j].descriptor_spec(),
    ensures
        bit_distance(data[i].descriptor_spec().unwrap(), data[j].descriptor_spec().unwrap()) == 0,
        similar_to(descriptors(data), i, t).contains(j as usize),
        similar_to(descriptors(data), j, t).contains(i as usize),
{
    let ds = descriptors(data);
    assert(ds[i] == data[i].descriptor_spec() && ds[j] == data[j].descriptor_spec());
    lemma_distance_zero_iff_equal(ds[i].unwrap(), ds[j].unwrap());
    lemma_similar_upto(ds, i, t, ds.len());
    lemma_similar_upto(ds, j, t, ds.len());
}

/// At threshold 0, record `j` is in the similar-set of record `i` exactly
/// when they are distinct records with equal descriptors: clustering becomes
/// grouping by descriptor equality.
pub proof fn lemma_threshold_zero_is_equality(data: Seq<FileData>, i: int, j: int)
    requires
        data.len() <= usize::MAX,
        0 <= i < data.len(),
        0 <= j < data.len(),
    ensures
        similar_to(descriptors(data), i, 0).contains(j as usize) <==> (i != j
            && data[i].descriptor_spec() is Some && data[i].descriptor_spec()
            == data[j].descriptor_spec()),
{
    let ds = descriptors(data);
    assert(ds[i] == data[i].descriptor_spec() && ds[j] == data[j].descriptor_spec());
    lemma_descriptors_len(data);
    lemma_similar_upto(ds, i, 0, ds.len());
    if ds[i] is Some && ds[j] is Some {
        lemma_distance_zero_iff_equal(ds[i].unwrap(), ds[j].unwrap());
    }
}

} // verus!
