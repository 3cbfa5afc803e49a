//! Exact grouping: records that share a content fingerprint.
use vstd::prelude::*;

use crate::record::FileData;

verus! {

/// Records sharing one content fingerprint, as indices into the input.
#[derive(Clone, Debug)]
pub struct ExactGroup {
    pub hash: u64,
    pub members: Vec<usize>,
}

/// The content fingerprint of each record, `None` for one not fingerprinted.
pub open spec fn content_fingerprints(data: Seq<FileData>) -> Seq<Option<u64>> {
    data.map_values(|d: FileData| d.content_spec())
}

/// The indices, in increasing order, of the records whose content fingerprint
/// is `h`.
pub open spec fn members_with(fps: Seq<Option<u64>>, h: u64) -> Seq<usize>
    decreases fps.len(),
{
    if fps.len() == 0 {
        seq![]
    } else {
        let rest = members_with(fps.drop_last(), h);
        if fps.last() == Some(h) {
            rest.push((fps.len() - 1) as usize)
        } else {
            rest
        }
    }
}

/// `groups` holds, in increasing order of fingerprint, one group for each
/// fingerprint shared by at least `min_size` records, and each group lists
/// exactly those records.
pub open spec fn is_grouping(groups: Seq<ExactGroup>, fps: Seq<Option<u64>>, min_size: nat) -> bool {
    &&& forall|k: int|
        0 <= k < groups.len() ==> #[trigger] groups[k].members@ == members_with(fps, groups[k].hash)
    &&& forall|k: int|
        0 <= k < groups.len() ==> members_with(fps, #[trigger] groups[k].hash).len() >= min_size
    &&& forall|k: int, l: int| 0 <= k < l < groups.len() ==> groups[k].hash < groups[l].hash
    &&& forall|h: u64|
        #[trigger] members_with(fps, h).len() >= min_size ==> exists|k: int|
            0 <= k < groups.len() && groups[k].hash == h
}

/// What `members_with` holds: the indices of the records with fingerprint
/// `h`, each once, in increasing order.
pub proof fn lemma_members_with(fps: Seq<Option<u64>>, h: u64)
    requires
        fps.len() <= usize::MAX,
    ensures
        forall|j: int|
            0 <= j < members_with(fps, h).len() ==> {
                let m = #[trigger] members_with(fps, h)[j];
                m < fps.len() && fps[m as int] == Some(h)
            },
        forall|j: int, l: int|
            0 <= j < l < members_with(fps, h).len() ==> members_with(fps, h)[j] < members_with(
                fps,
                h,
            )[l],
        forall|i: int|
            0 <= i < fps.len() && fps[i] == Some(h) ==> #[trigger] members_with(fps, h).contains(
                i as usize,
            ),
    decreases fps.len(),
{
    if fps.len() > 0 {
        let rest = fps.drop_last();
        lemma_members_with(rest, h);
        assert forall|i: int| 0 <= i < fps.len() && fps[i] == Some(h) implies #[trigger] members_with(
            fps,
            h,
        ).contains(i as usize) by {
            if i < fps.len() - 1 {
                assert(rest[i] == fps[i]);
                assert(members_with(rest, h).contains(i as usize));
                let j = choose|j: int|
                    0 <= j < members_with(rest, h).len() && members_with(rest, h)[j] == i as usize;
                assert(members_with(fps, h)[j] == i as usize);
            } else {
                assert(members_with(fps, h).last() == i as usize);
            }
        }
    }
}

/// How `members_with` grows when one more record is appended.
proof fn lemma_members_push(fps: Seq<Option<u64>>, x: Option<u64>, h: u64)
    ensures
        members_with(fps.push(x), h) == (if x == Some(h) {
            members_with(fps, h).push(fps.len() as usize)
        } else {
            members_with(fps, h)
        }),
{
    assert(fps.push(x).drop_last() =~= fps);
}

/// The position at which a group with fingerprint `h` stands, or would
/// stand, in `groups`, which are sorted by fingerprint.
fn find_slot(groups: &Vec<ExactGroup>, h: u64) -> (r: usize)
    requires
        forall|k: int, l: int| 0 <= k < l < groups.len() ==> groups[k].hash < groups[l].hash,
    ensures
        r <= groups.len(),
        forall|k: int| 0 <= k < r ==> groups[k].hash < h,
        forall|k: int| r <= k < groups.len() ==> groups[k].hash >= h,
{
    let mut lo: usize = 0;
    let mut hi: usize = groups.len();
    while lo < hi
        invariant
            lo <= hi <= groups.len(),
            forall|k: int, l: int| 0 <= k < l < groups.len() ==> groups[k].hash < groups[l].hash,
            forall|k: int| 0 <= k < lo ==> groups[k].hash < h,
            forall|k: int| hi <= k < groups.len() ==> groups[k].hash >= h,
        decreases hi - lo,
    {
        let mid = lo + (hi - lo) / 2;
        if groups[mid].hash < h {
            lo = mid + 1;
        } else {
            hi = mid;
        }
    }
    lo
}

/// Partitions the fingerprinted records by content fingerprint: one group
/// per fingerprint, in increasing order of fingerprint, each listing its
/// records in input order. Records not yet fingerprinted are left out.
pub fn group_candates(data: &[FileData]) -> (r: Vec<ExactGroup>)
    ensures
        is_grouping(r@, content_fingerprints(data@), 1),
{
    let ghost fps = content_fingerprints(data@);
    let mut groups: Vec<ExactGroup> = Vec::new();
    let mut i: usize = 0;
    while i < data.len()
        invariant
            i <= data.len(),
            fps == content_fingerprints(data@),
            is_grouping(groups@, fps.take(i as int), 1),
        decreases data.len() - i,
    {
        let ghost prev = groups@;
        let ghost before = fps.take(i as int);
        assert(fps.take(i as int + 1) =~= before.push(fps[i as int]));
        match data[i].state {
            crate::record::FingerprintState::Fingerprinted(f) => {
                let h = f.content;
                assert(fps[i as int] == Some(h));
                let pos = find_slot(&groups, h);
                if pos < groups.len() && groups[pos].hash == h {
                    groups[pos].members.push(i);
                    assert(forall|k: int| 0 <= k < groups.len() ==> #[trigger] groups@[k].hash == prev[k].hash);
                    assert forall|k: int| 0 <= k < groups.len() implies #[trigger] groups@[k].members@
                        == members_with(fps.take(i as int + 1), groups@[k].hash) by {
                        lemma_members_push(before, fps[i as int], groups@[k].hash);
                    }
                    assert forall|hh: u64|
                        #[trigger] members_with(fps.take(i as int + 1), hh).len() >= 1 implies exists|
                        k: int,
                    | 0 <= k < groups.len() && groups@[k].hash == hh by {
                        lemma_members_push(before, fps[i as int], hh);
                        if hh == h {
                            assert(groups@[pos as int].hash == hh);
                        } else {
                            assert(members_with(before, hh).len() >= 1);
                            let k = choose|k: int| 0 <= k < prev.len() && prev[k].hash == hh;
                            assert(groups@[k].hash == prev[k].hash);
                        }
                    }
                    assert forall|k: int| 0 <= k < groups.len() implies members_with(
                        fps.take(i as int + 1),
                        #[trigger] groups@[k].hash,
                    ).len() >= 1 by {
                        lemma_members_push(before, fps[i as int], groups@[k].hash);
                    }
                } else {
                    let mut members: Vec<usize> = Vec::new();
                    members.push(i);
                    groups.insert(pos, ExactGroup { hash: h, members });
                    proof {
                        lemma_members_push(before, fps[i as int], h);
                        assert(members_with(before, h).len() == 0) by {
                            if members_with(before, h).len() > 0 {
                                let k = choose|k: int| 0 <= k < prev.len() && prev[k].hash == h;
                                assert(false);
                            }
                        }
                    }
                    assert forall|k: int| 0 <= k < groups.len() implies #[trigger] groups@[k].members@
                        == members_with(fps.take(i as int + 1), groups@[k].hash) by {
                        lemma_members_push(before, fps[i as int], groups@[k].hash);
                        if k < pos {
                            assert(groups@[k] == prev[k]);
                        } else if k > pos {
                            assert(groups@[k] == prev[k - 1]);
                        } else {
                            assert(members_with(before, h) =~= seq![]);
                        }
                    }
                    assert forall|k: int| 0 <= k < groups.len() implies members_with(
                        fps.take(i as int + 1),
                        #[trigger] groups@[k].hash,
                    ).len() >= 1 by {
                        lemma_members_push(before, fps[i as int], groups@[k].hash);
                        if k < pos {
                            assert(groups@[k] == prev[k]);
                        } else if k > pos {
                            assert(groups@[k] == prev[k - 1]);
                        }
                    }
                    assert forall|k: int, l: int| 0 <= k < l < groups.len() implies groups@[k].hash
                        < groups@[l].hash by {
                        if k < pos {
                            assert(groups@[k] == prev[k]);
                        } else if k > pos {
                            assert(groups@[k] == prev[k - 1]);
                        }
                        if l < pos {
                            assert(groups@[l] == prev[l]);
                        } else if l > pos {
                            assert(groups@[l] == prev[l - 1]);
                        }
                    }
                    assert forall|hh: u64|
                        #[trigger] members_with(fps.take(i as int + 1), hh).len() >= 1 implies exists|
                        k: int,
                    | 0 <= k < groups.len() && groups@[k].hash == hh by {
                        lemma_members_push(before, fps[i as int], hh);
                        if hh == h {
                            assert(groups@[pos as int].hash == hh);
                        } else {
                            assert(members_with(before, hh).len() >= 1);
                            let k = choose|k: int| 0 <= k < prev.len() && prev[k].hash == hh;
                            if k < pos {
                                assert(groups@[k] == prev[k]);
                            } else {
                                assert(groups@[k + 1] == prev[k]);
                            }
                        }
                    }
                }
            },
            crate::record::FingerprintState::Unfingerprinted => {
                assert forall|hh: u64| #[trigger]
                    members_with(fps.take(i as int + 1), hh) == members_with(before, hh) by {
                    lemma_members_push(before, fps[i as int], hh);
                }
            },
        }
        i = i + 1;
    }
    assert(fps.take(data.len() as int) =~= fps);
    groups
}

/// The groups of records that share a content fingerprint with at least one
/// other record, in increasing order of fingerprint, each listing its records
/// in input order. A fingerprint held by a single record is no duplicate and
/// gets no group.
pub fn build_exact_groups(data: &[FileData]) -> (r: Vec<ExactGroup>)
    ensures
        is_grouping(r@, content_fingerprints(data@), 2),
{
    let ghost fps = content_fingerprints(data@);
    let mut candidates = group_candates(data);
    let ghost cands = candidates@;
    let mut groups: Vec<ExactGroup> = Vec::new();
    let mut k: usize = 0;
    while k < candidates.len()
        invariant
            k <= candidates.len() == cands.len(),
            is_grouping(cands, fps, 1),
            forall|j: int| k <= j < cands.len() ==> #[trigger] candidates@[j] == cands[j],
            forall|j: int|
                0 <= j < groups.len() ==> #[trigger] groups@[j].members@ == members_with(
                    fps,
                    groups@[j].hash,
                ) && members_with(fps, groups@[j].hash).len() >= 2,
            forall|j: int, l: int| 0 <= j < l < groups.len() ==> groups@[j].hash < groups@[l].hash,
            forall|j: int|
                0 <= j < groups.len() ==> exists|c: int|
                    0 <= c < k && cands[c].hash == #[trigger] groups@[j].hash,
            forall|c: int|
                0 <= c < k && cands[c].members@.len() >= 2 ==> exists|j: int|
                    0 <= j < groups.len() && #[trigger] groups@[j].hash == cands[c].hash,
        decreases cands.len() - k,
    {
        assert(candidates@[k as int] == cands[k as int]);
        if candidates[k].members.len() >= 2 {
            let ghost prev = groups@;
            let mut members: Vec<usize> = Vec::new();
            core::mem::swap(&mut members, &mut candidates[k].members);
            let hash = candidates[k].hash;
            groups.push(ExactGroup { hash, members });
            assert forall|j: int| 0 <= j < groups.len() implies exists|c: int|
                0 <= c < k + 1 && cands[c].hash == #[trigger] groups@[j].hash by {
                if j < prev.len() {
                    assert(groups@[j] == prev[j]);
                } else {
                    assert(cands[k as int].hash == groups@[j].hash);
                }
            }
            assert forall|j: int, l: int| 0 <= j < l < groups.len() implies groups@[j].hash
                < groups@[l].hash by {
                if l == prev.len() {
                    assert(groups@[j] == prev[j]);
                    let c = choose|c: int| 0 <= c < k && cands[c].hash == prev[j].hash;
                } else {
                    assert(groups@[j] == prev[j]);
                    assert(groups@[l] == prev[l]);
                }
            }
            assert forall|c: int| 0 <= c < k + 1 && cands[c].members@.len() >= 2 implies exists|
                j: int,
            | 0 <= j < groups.len() && #[trigger] groups@[j].hash == cands[c].hash by {
                if c < k {
                    let j = choose|j: int| 0 <= j < prev.len() && #[trigger] prev[j].hash == cands[c].hash;
                    assert(groups@[j] == prev[j]);
                } else {
                    assert(groups@[prev.len() as int].hash == cands[c].hash);
                }
            }
        }
        k = k + 1;
    }
    assert forall|h: u64| #[trigger] members_with(fps, h).len() >= 2 implies exists|j: int|
        0 <= j < groups.len() && groups@[j].hash == h by {
        let c = choose|c: int| 0 <= c < cands.len() && cands[c].hash == h;
        assert(cands[c].members@ == members_with(fps, cands[c].hash));
    }
    assert forall|j: int| 0 <= j < groups.len() implies members_with(fps, #[trigger] groups@[j].hash).len() >= 2 by {
        assert(groups@[j].members@ == members_with(fps, groups@[j].hash));
    }
    groups
}

/// The number of records listed over all of `groups`.
pub open spec fn total_members(groups: Seq<ExactGroup>) -> nat
    decreases groups.len(),
{
    if groups.len() == 0 {
        0
    } else {
        total_members(groups.drop_last()) + groups.last().members@.len()
    }
}

/// The number of records per group, rounded down; `None` when there are no
/// groups.
pub fn average_group_size(groups: &[ExactGroup]) -> (r: Option<usize>)
    ensures
        groups@.len() == 0 ==> r is None,
        groups@.len() > 0 ==> r == Some((total_members(groups@) / groups@.len()) as usize),
        groups@.len() > 0 ==> total_members(groups@) / groups@.len() <= usize::MAX,
{
    if groups.len() == 0 {
        return None;
    }
    let mut total: u128 = 0;
    let mut i: usize = 0;
    while i < groups.len()
        invariant
            i <= groups.len(),
            total == total_members(groups@.take(i as int)),
            total <= i * usize::MAX,
        decreases groups.len() - i,
    {
        assert(groups@.take(i as int + 1).drop_last() =~= groups@.take(i as int));
        let n = groups[i].members.len();
        proof {
            assert((i + 1) * usize::MAX == i * usize::MAX + usize::MAX) by (nonlinear_arith);
            assert(i * usize::MAX <= usize::MAX * usize::MAX) by (nonlinear_arith)
                requires
                    i <= usize::MAX,
            ;
            assert(usize::MAX * usize::MAX < u128::MAX) by (nonlinear_arith)
                requires
                    usize::MAX <= u64::MAX,
            ;
        }
        total = total + n as u128;
        i = i + 1;
    }
    assert(groups@.take(groups.len() as int) =~= groups@);
    let count = groups.len() as u128;
    proof {
        let t = total as int;
        let c = count as int;
        assert(t / c <= usize::MAX) by (nonlinear_arith)
            requires
                t <= c * usize::MAX,
                c > 0,
        ;
    }
    Some((total / count) as usize)
}

/// The exact groups partition the records that share a fingerprint: every
/// group has at least two members, no record stands in two groups or twice
/// in one, and every record whose fingerprint another record shares stands
/// in a group.
pub proof fn lemma_exact_groups_partition(fps: Seq<Option<u64>>, groups: Seq<ExactGroup>)
    requires
        fps.len() <= usize::MAX,
        is_grouping(groups, fps, 2),
    ensures
        forall|k: int| 0 <= k < groups.len() ==> #[trigger] groups[k].members@.len() >= 2,
        forall|k: int, l: int, m: usize|
            0 <= k < groups.len() && 0 <= l < groups.len() && #[trigger] groups[k].members@.contains(m)
                && #[trigger] groups[l].members@.contains(m) ==> k == l,
        forall|k: int, a: int, b: int|
            0 <= k < groups.len() && 0 <= a < b < groups[k].members@.len() ==> #[trigger] groups[k].members@[a]
                != #[trigger] groups[k].members@[b],
        forall|i: int|
            0 <= i < fps.len() && #[trigger] fps[i] is Some && members_with(fps, fps[i].unwrap()).len() >= 2
                ==> exists|k: int| 0 <= k < groups.len() && groups[k].members@.contains(i as usize),
{
    assert forall|k: int| 0 <= k < groups.len() implies #[trigger] groups[k].members@.len() >= 2 by {
        assert(members_with(fps, groups[k].hash).len() >= 2);
    }
    assert forall|k: int, l: int, m: usize|
        0 <= k < groups.len() && 0 <= l < groups.len() && #[trigger] groups[k].members@.contains(m)
            && #[trigger] groups[l].members@.contains(m) implies k == l by {
        lemma_members_with(fps, groups[k].hash);
        lemma_members_with(fps, groups[l].hash);
        let a = choose|a: int| 0 <= a < groups[k].members@.len() && groups[k].members@[a] == m;
        let b = choose|b: int| 0 <= b < groups[l].members@.len() && groups[l].members@[b] == m;
        assert(members_with(fps, groups[k].hash)[a] == m);
        assert(members_with(fps, groups[l].hash)[b] == m);
        if k < l {
            assert(groups[k].hash < groups[l].hash);
        } else if l < k {
            assert(groups[l].hash < groups[k].hash);
        }
    }
    assert forall|k: int, a: int, b: int|
        0 <= k < groups.len() && 0 <= a < b < groups[k].members@.len() implies #[trigger] groups[k].members@[a]
            != #[trigger] groups[k].members@[b] by {
        lemma_members_with(fps, groups[k].hash);
    }
    assert forall|i: int|
        0 <= i < fps.len() && #[trigger] fps[i] is Some && members_with(fps, fps[i].unwrap()).len() >= 2
            implies exists|k: int| 0 <= k < groups.len() && groups[k].members@.contains(i as usize) by {
        let h = fps[i].unwrap();
        lemma_members_with(fps, h);
        let k = choose|k: int| 0 <= k < groups.len() && groups[k].hash == h;
        assert(groups[k].members@ == members_with(fps, groups[k].hash));
    }
}

} // verus!
