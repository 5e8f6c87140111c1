use vstd::prelude::*;

use crate::bytes;
use crate::digest;
use crate::digest::HashAlgorithm;

verus! {

/// One digest group: the paths of the files whose content yielded this
/// digest, in the order they were filed.
pub struct DigestGroup {
    pub digest: Vec<u8>,
    pub paths: Vec<Vec<u8>>,
}

/// No two groups share a digest.
pub open spec fn groups_unique(gs: Seq<DigestGroup>) -> bool {
    forall|i: int, j: int|
        0 <= i < j < gs.len() ==> (#[trigger] gs[i]).digest@ != (#[trigger] gs[j]).digest@
}

/// Every group holds at least one path.
pub open spec fn groups_nonempty(gs: Seq<DigestGroup>) -> bool {
    forall|i: int| 0 <= i < gs.len() ==> (#[trigger] gs[i]).paths@.len() > 0
}

/// The mapping from digest to path list that a sequence of groups denotes.
pub open spec fn groups_map(gs: Seq<DigestGroup>) -> Map<Seq<u8>, Seq<Seq<u8>>>
    decreases gs.len(),
{
    if gs.len() == 0 {
        Map::empty()
    } else {
        groups_map(gs.drop_last()).insert(
            gs.last().digest@,
            bytes::views_of(gs.last().paths@),
        )
    }
}

/// With unique digests, the denoted map has exactly the groups' digests in
/// its domain, and maps each digest to that group's paths.
pub proof fn lemma_groups_props(gs: Seq<DigestGroup>)
    requires
        groups_unique(gs),
    ensures
        forall|d: Seq<u8>|
            #[trigger] groups_map(gs).dom().contains(d) ==> exists|i: int|
                0 <= i < gs.len() && (#[trigger] gs[i]).digest@ == d,
        forall|i: int|
            0 <= i < gs.len() ==> groups_map(gs).dom().contains((#[trigger] gs[i]).digest@),
        forall|i: int|
            0 <= i < gs.len() ==> groups_map(gs)[(#[trigger] gs[i]).digest@] == bytes::views_of(
                gs[i].paths@,
            ),
    decreases gs.len(),
{
    if gs.len() > 0 {
        let pre = gs.drop_last();
        assert(forall|i: int| 0 <= i < pre.len() ==> pre[i] == gs[i]);
        assert(groups_unique(pre));
        lemma_groups_props(pre);
        let ld = gs.last().digest@;
        assert(gs[gs.len() - 1].digest@ == ld);
        assert forall|d: Seq<u8>| #[trigger] groups_map(gs).dom().contains(d) implies exists|i: int|
            0 <= i < gs.len() && (#[trigger] gs[i]).digest@ == d by {
            if d == ld {
                assert(gs[gs.len() - 1].digest@ == d);
            } else {
                assert(groups_map(pre).dom().contains(d));
                let i = choose|i: int| 0 <= i < pre.len() && (#[trigger] pre[i]).digest@ == d;
                assert(gs[i].digest@ == d);
            }
        }
        assert forall|i: int| 0 <= i < gs.len() implies groups_map(gs).dom().contains(
            (#[trigger] gs[i]).digest@,
        ) by {
            if i < gs.len() - 1 {
                assert(pre[i].digest@ == gs[i].digest@);
                assert(groups_map(pre).dom().contains(pre[i].digest@));
            }
        }
        assert forall|i: int| 0 <= i < gs.len() implies groups_map(gs)[(#[trigger] gs[i]).digest@]
            == bytes::views_of(gs[i].paths@) by {
            if i < gs.len() - 1 {
                assert(pre[i].digest@ == gs[i].digest@);
                assert(groups_map(pre)[pre[i].digest@] == bytes::views_of(pre[i].paths@));
                assert(gs[i].digest@ != ld);
            }
        }
    }
}

/// Views of a path list, with one more path appended.
proof fn lemma_views_of_push(s: Seq<Vec<u8>>, v: Vec<u8>)
    ensures
        bytes::views_of(s.push(v)) == bytes::views_of(s).push(v@),
{
    assert(bytes::views_of(s.push(v)) =~= bytes::views_of(s).push(v@));
}

/// A digest-to-paths mapping under construction. Two files are filed
/// together exactly when their contents yielded the same digest.
pub struct DigestGroups {
    pub entries: Vec<DigestGroup>,
}

/// One path filed under one digest: the single step of building and of
/// merging digest mappings.
pub open spec fn spec_add_pair(
    m: Map<Seq<u8>, Seq<Seq<u8>>>,
    d: Seq<u8>,
    p: Seq<u8>,
) -> Map<Seq<u8>, Seq<Seq<u8>>> {
    if m.dom().contains(d) {
        m.insert(d, m[d].push(p))
    } else {
        m.insert(d, seq![p])
    }
}

impl DigestGroups {
    /// No two groups share a digest, and none is empty.
    pub open spec fn wf(self) -> bool {
        groups_unique(self.entries@) && groups_nonempty(self.entries@)
    }

    /// The mapping this value denotes.
    pub open spec fn view_map(self) -> Map<Seq<u8>, Seq<Seq<u8>>> {
        groups_map(self.entries@)
    }

    /// An empty mapping.
    pub fn new() -> (r: DigestGroups)
        ensures
            r.wf(),
            r.view_map() == Map::<Seq<u8>, Seq<Seq<u8>>>::empty(),
    {
        DigestGroups { entries: Vec::new() }
    }

    /// Files one path under one digest, appending to that digest's group
    /// or opening a fresh one.
    pub fn add(&mut self, d: &Vec<u8>, path: Vec<u8>)
        requires
            old(self).wf(),
        ensures
            final(self).wf(),
            final(self).view_map() == spec_add_pair(old(self).view_map(), d@, path@),
    {
        let ghost gs = self.entries@;
        proof {
            lemma_groups_props(gs);
        }
        let n = self.entries.len();
        let mut i: usize = 0;
        while i < n
            invariant
                n == self.entries@.len(),
                i <= n,
                self.entries@ == gs,
                gs == old(self).entries@,
                groups_unique(gs),
                groups_nonempty(gs),
                forall|j: int| 0 <= j < i ==> (#[trigger] gs[j]).digest@ != d@,
            decreases n - i,
        {
            if bytes::bytes_eq(&self.entries[i].digest, d) {
                proof {
                    assert(gs[i as int].digest@ == d@);
                    lemma_groups_props(gs);
                }
                let mut entry = self.entries.remove(i);
                proof {
                    assert(entry == gs[i as int]);
                }
                entry.paths.push(path);
                self.entries.push(entry);
                proof {
                    let gs2 = self.entries@;
                    assert(gs2.len() == gs.len());
                    assert(forall|j: int| 0 <= j < i ==> gs2[j] == gs[j]);
                    assert(forall|j: int| i <= j < gs.len() - 1 ==> gs2[j] == gs[j + 1]);
                    assert(gs2.last() == entry);
                    assert(gs2.last().digest@ == d@);
                    lemma_views_of_push(gs[i as int].paths@, path);
                    assert(bytes::views_of(gs2.last().paths@) == bytes::views_of(
                        gs[i as int].paths@,
                    ).push(path@));
                    assert forall|j1: int, j2: int| 0 <= j1 < j2 < gs2.len() implies (
                    #[trigger] gs2[j1]).digest@ != (#[trigger] gs2[j2]).digest@ by {
                        let o1 = if j1 < i {
                            j1
                        } else {
                            j1 + 1
                        };
                        if j2 == gs2.len() - 1 {
                            assert(gs2[j1] == gs[o1]);
                            assert(o1 != i);
                            assert(gs[o1].digest@ != gs[i as int].digest@);
                        } else {
                            let o2 = if j2 < i {
                                j2
                            } else {
                                j2 + 1
                            };
                            assert(gs2[j1] == gs[o1] && gs2[j2] == gs[o2]);
                            assert(o1 < o2);
                        }
                    }
                    assert(groups_unique(gs2));
                    assert forall|j: int| 0 <= j < gs2.len() implies (
                    #[trigger] gs2[j]).paths@.len() > 0 by {
                        if j < gs2.len() - 1 {
                            let o = if j < i {
                                j
                            } else {
                                j + 1
                            };
                            assert(gs2[j] == gs[o]);
                        }
                    }
                    assert(groups_nonempty(gs2));
                    lemma_groups_props(gs2);
                    assert(groups_map(gs).dom().contains(d@));
                    let target = groups_map(gs).insert(d@, groups_map(gs)[d@].push(path@));
                    assert forall|d2: Seq<u8>| #[trigger]
                        groups_map(gs2).dom().contains(d2) implies target.dom().contains(d2) by {
                        let j = choose|j: int|
                            0 <= j < gs2.len() && (#[trigger] gs2[j]).digest@ == d2;
                        if j == gs2.len() - 1 {
                            assert(d2 == d@);
                        } else {
                            let o = if j < i {
                                j
                            } else {
                                j + 1
                            };
                            assert(gs2[j] == gs[o]);
                            assert(groups_map(gs).dom().contains(gs[o].digest@));
                        }
                    }
                    assert forall|d2: Seq<u8>| #[trigger]
                        target.dom().contains(d2) implies groups_map(gs2).dom().contains(d2) by {
                        if d2 == d@ {
                            assert(gs2[gs2.len() - 1].digest@ == d2);
                            assert(groups_map(gs2).dom().contains(gs2[gs2.len() - 1].digest@));
                        } else {
                            assert(groups_map(gs).dom().contains(d2));
                            let j = choose|j: int|
                                0 <= j < gs.len() && (#[trigger] gs[j]).digest@ == d2;
                            assert(j != i);
                            let j2 = if j < i {
                                j
                            } else {
                                j - 1
                            };
                            assert(gs2[j2] == gs[j]);
                            assert(groups_map(gs2).dom().contains(gs2[j2].digest@));
                        }
                    }
                    assert forall|d2: Seq<u8>|
                        groups_map(gs2).dom().contains(d2) implies #[trigger] groups_map(gs2)[d2]
                        == target[d2] by {
                        if d2 == d@ {
                            assert(gs2[gs2.len() - 1].digest@ == d@);
                            assert(groups_map(gs2)[d@] == bytes::views_of(
                                gs2[gs2.len() - 1].paths@,
                            ));
                            assert(groups_map(gs)[d@] == bytes::views_of(gs[i as int].paths@));
                        } else {
                            let j = choose|j: int|
                                0 <= j < gs2.len() && (#[trigger] gs2[j]).digest@ == d2;
                            assert(j != gs2.len() - 1);
                            let o = if j < i {
                                j
                            } else {
                                j + 1
                            };
                            assert(gs2[j] == gs[o]);
                            assert(groups_map(gs2)[d2] == bytes::views_of(gs2[j].paths@));
                            assert(groups_map(gs)[gs[o].digest@] == bytes::views_of(gs[o].paths@));
                            assert(target[d2] == groups_map(gs)[d2]);
                        }
                    }
                    assert(groups_map(gs2) =~= target);
                }
                return ;
            }
            i = i + 1;
        }
        // no group bears this digest yet
        proof {
            if groups_map(gs).dom().contains(d@) {
                let j = choose|j: int| 0 <= j < gs.len() && (#[trigger] gs[j]).digest@ == d@;
                assert(false);
            }
        }
        let mut paths: Vec<Vec<u8>> = Vec::new();
        paths.push(path);
        let entry = DigestGroup { digest: bytes::copy_bytes(d), paths };
        self.entries.push(entry);
        proof {
            let gs2 = self.entries@;
            assert(gs2.drop_last() =~= gs);
            assert(gs2.last().digest@ == d@);
            assert(bytes::views_of(gs2.last().paths@) =~= seq![path@]);
            assert(forall|j: int| 0 <= j < gs.len() ==> gs2[j] == gs[j]);
            assert(groups_unique(gs2));
            assert(groups_nonempty(gs2));
            assert(groups_map(gs2) == groups_map(gs).insert(d@, seq![path@]));
        }
    }
}

/// One file handed to the Hasher: its path and its content.
pub struct FileBytes {
    pub path: Vec<u8>,
    pub data: Vec<u8>,
}

/// The digest-to-paths mapping the Hasher owes for the given files under
/// one algorithm, built in file order.
pub open spec fn spec_hash_map(items: Seq<FileBytes>, algo: HashAlgorithm) -> Map<
    Seq<u8>,
    Seq<Seq<u8>>,
>
    decreases items.len(),
{
    if items.len() == 0 {
        Map::empty()
    } else {
        spec_add_pair(
            spec_hash_map(items.drop_last(), algo),
            digest::spec_digest_bytes(algo, items.last().data@),
            items.last().path@,
        )
    }
}

/// The paths of the files whose content yields one digest, in file order.
pub open spec fn spec_digest_group(items: Seq<FileBytes>, algo: HashAlgorithm, d: Seq<u8>) -> Seq<
    Seq<u8>,
>
    decreases items.len(),
{
    if items.len() == 0 {
        Seq::empty()
    } else {
        let pre = spec_digest_group(items.drop_last(), algo, d);
        if digest::spec_digest_bytes(algo, items.last().data@) == d {
            pre.push(items.last().path@)
        } else {
            pre
        }
    }
}

/// Hashing partitions the files by digest: the mapping holds a digest
/// exactly when some file's content yields it, and maps it to exactly the
/// paths of those files, in file order.
pub proof fn lemma_hash_map_partitions(items: Seq<FileBytes>, algo: HashAlgorithm)
    ensures
        forall|d: Seq<u8>|
            #[trigger] spec_hash_map(items, algo).dom().contains(d) <==> spec_digest_group(
                items,
                algo,
                d,
            ).len() > 0,
        forall|d: Seq<u8>|
            spec_hash_map(items, algo).dom().contains(d) ==> #[trigger] spec_hash_map(items, algo)[d]
                == spec_digest_group(items, algo, d),
    decreases items.len(),
{
    if items.len() > 0 {
        let pre = items.drop_last();
        lemma_hash_map_partitions(pre, algo);
        let m_pre = spec_hash_map(pre, algo);
        let m = spec_hash_map(items, algo);
        let d0 = digest::spec_digest_bytes(algo, items.last().data@);
        assert forall|d: Seq<u8>| #[trigger]
            m.dom().contains(d) <==> spec_digest_group(items, algo, d).len() > 0 by {
            if d == d0 {
                assert(m.dom().contains(d0));
                assert(spec_digest_group(items, algo, d0) == spec_digest_group(
                    pre,
                    algo,
                    d0,
                ).push(items.last().path@));
            } else {
                assert(m.dom().contains(d) <==> m_pre.dom().contains(d));
                assert(spec_digest_group(items, algo, d) == spec_digest_group(pre, algo, d));
            }
        }
        assert forall|d: Seq<u8>| m.dom().contains(d) implies #[trigger] m[d] == spec_digest_group(
            items,
            algo,
            d,
        ) by {
            if d == d0 {
                if m_pre.dom().contains(d0) {
                    assert(m[d0] == m_pre[d0].push(items.last().path@));
                } else {
                    assert(spec_digest_group(pre, algo, d0).len() == 0);
                    assert(spec_digest_group(pre, algo, d0) =~= Seq::<Seq<u8>>::empty());
                    assert(m[d0] =~= seq![items.last().path@]);
                }
            } else {
                assert(m[d] == m_pre[d]);
                assert(spec_digest_group(items, algo, d) == spec_digest_group(pre, algo, d));
            }
        }
    }
}

/// Hasher: files every given file under the digest of its content, with
/// the chosen algorithm. Files whose content could not be read never reach
/// this function: the caller drops them beforehand, so a read failure
/// degrades that one file out of the result, never the whole run.
pub fn hash_files(items: &Vec<FileBytes>, algo: HashAlgorithm) -> (r: DigestGroups)
    ensures
        r.wf(),
        r.view_map() == spec_hash_map(items@, algo),
{
    let mut out = DigestGroups::new();
    let n = items.len();
    let mut i: usize = 0;
    while i < n
        invariant
            n == items@.len(),
            i <= n,
            out.wf(),
            out.view_map() == spec_hash_map(items@.subrange(0, i as int), algo),
        decreases n - i,
    {
        let d = digest::hash_bytes(algo, &items[i].data);
        let path = bytes::copy_bytes(&items[i].path);
        out.add(&d, path);
        i = i + 1;
        proof {
            assert(items@.subrange(0, i as int).drop_last() =~= items@.subrange(0, i - 1));
            assert(items@.subrange(0, i as int).last() == items@[i - 1]);
        }
    }
    proof {
        assert(items@.subrange(0, n as int) =~= items@);
    }
    out
}

/// Files with identical content land in the same digest group, whatever
/// their paths: the digest is a function of content and algorithm alone.
pub proof fn lemma_identical_content_same_group(items: Seq<FileBytes>, algo: HashAlgorithm, i: int, j: int)
    requires
        0 <= i < items.len(),
        0 <= j < items.len(),
        items[i].data@ == items[j].data@,
    ensures
        spec_hash_map(items, algo).dom().contains(digest::spec_digest_bytes(algo, items[i].data@)),
        spec_hash_map(items, algo)[digest::spec_digest_bytes(algo, items[i].data@)].contains(
            items[i].path@,
        ),
        spec_hash_map(items, algo)[digest::spec_digest_bytes(algo, items[i].data@)].contains(
            items[j].path@,
        ),
{
    let d = digest::spec_digest_bytes(algo, items[i].data@);
    lemma_hash_map_partitions(items, algo);
    lemma_digest_group_member(items, algo, i);
    lemma_digest_group_member(items, algo, j);
}

/// A file's path stands in the group of its own digest.
pub proof fn lemma_digest_group_member(items: Seq<FileBytes>, algo: HashAlgorithm, i: int)
    requires
        0 <= i < items.len(),
    ensures
        spec_digest_group(
            items,
            algo,
            digest::spec_digest_bytes(algo, items[i].data@),
        ).contains(items[i].path@),
    decreases items.len(),
{
    let d = digest::spec_digest_bytes(algo, items[i].data@);
    let pre = items.drop_last();
    if i == items.len() - 1 {
        assert(spec_digest_group(items, algo, d).last() == items[i].path@);
    } else {
        assert(pre[i] == items[i]);
        lemma_digest_group_member(pre, algo, i);
        let g_pre = spec_digest_group(pre, algo, d);
        let g = spec_digest_group(items, algo, d);
        let w = choose|w: int| 0 <= w < g_pre.len() && g_pre[w] == items[i].path@;
        assert(g[w] == items[i].path@);
    }
}

/// Files whose contents yield different digests land in different groups:
/// with pairwise distinct paths, neither file's path stands in the
/// other's group.
pub proof fn lemma_distinct_digests_distinct_groups(
    items: Seq<FileBytes>,
    algo: HashAlgorithm,
    i: int,
    j: int,
)
    requires
        0 <= i < items.len(),
        0 <= j < items.len(),
        digest::spec_digest_bytes(algo, items[i].data@) != digest::spec_digest_bytes(
            algo,
            items[j].data@,
        ),
        forall|a: int, b: int|
            0 <= a < b < items.len() ==> (#[trigger] items[a]).path@ != (#[trigger] items[b]).path@,
    ensures
        !spec_digest_group(items, algo, digest::spec_digest_bytes(algo, items[i].data@)).contains(
            items[j].path@,
        ),
{
    let d = digest::spec_digest_bytes(algo, items[i].data@);
    if spec_digest_group(items, algo, d).contains(items[j].path@) {
        lemma_group_holds_only_matching(items, algo, d, items[j].path@);
        let w = choose|w: int|
            0 <= w < items.len() && (#[trigger] items[w]).path@ == items[j].path@
                && digest::spec_digest_bytes(algo, items[w].data@) == d;
        if w < j {
            assert(items[w].path@ != items[j].path@);
        } else if w > j {
            assert(items[j].path@ != items[w].path@);
        }
        assert(w == j);
        assert(false);
    }
}

/// A group holds only the paths of files whose content yields its digest:
/// files whose contents yield different digests land in different groups.
pub proof fn lemma_group_holds_only_matching(
    items: Seq<FileBytes>,
    algo: HashAlgorithm,
    d: Seq<u8>,
    p: Seq<u8>,
)
    requires
        spec_digest_group(items, algo, d).contains(p),
    ensures
        exists|i: int|
            0 <= i < items.len() && (#[trigger] items[i]).path@ == p && digest::spec_digest_bytes(
                algo,
                items[i].data@,
            ) == d,
    decreases items.len(),
{
    if items.len() > 0 {
        let pre = items.drop_last();
        let g = spec_digest_group(items, algo, d);
        let g_pre = spec_digest_group(pre, algo, d);
        if digest::spec_digest_bytes(algo, items.last().data@) == d && p == items.last().path@ {
            assert(items[items.len() - 1].path@ == p);
        } else {
            assert(g_pre.contains(p)) by {
                let w = choose|w: int| 0 <= w < g.len() && g[w] == p;
                if digest::spec_digest_bytes(algo, items.last().data@) == d {
                    assert(w < g.len() - 1);
                    assert(g_pre[w] == p);
                } else {
                    assert(g_pre[w] == p);
                }
            }
            lemma_group_holds_only_matching(pre, algo, d, p);
            let i = choose|i: int|
                0 <= i < pre.len() && (#[trigger] pre[i]).path@ == p && digest::spec_digest_bytes(
                    algo,
                    pre[i].data@,
                ) == d;
            assert(items[i].path@ == p);
        }
    }
}


/// The associative merge of two digest mappings: keys union, and path
/// lists of shared keys concatenate. Partial results of independent
/// hashing workers combine with this merge, so the final mapping does not
/// depend on how the work was split.
pub open spec fn spec_merge(
    m1: Map<Seq<u8>, Seq<Seq<u8>>>,
    m2: Map<Seq<u8>, Seq<Seq<u8>>>,
) -> Map<Seq<u8>, Seq<Seq<u8>>> {
    Map::new(
        |d: Seq<u8>| m1.dom().contains(d) || m2.dom().contains(d),
        |d: Seq<u8>|
            if m1.dom().contains(d) && m2.dom().contains(d) {
                m1[d] + m2[d]
            } else if m1.dom().contains(d) {
                m1[d]
            } else {
                m2[d]
            },
    )
}

/// The empty mapping is the identity of the merge.
pub proof fn lemma_merge_identity(m: Map<Seq<u8>, Seq<Seq<u8>>>)
    ensures
        spec_merge(Map::<Seq<u8>, Seq<Seq<u8>>>::empty(), m) == m,
        spec_merge(m, Map::<Seq<u8>, Seq<Seq<u8>>>::empty()) == m,
{
    assert(spec_merge(Map::<Seq<u8>, Seq<Seq<u8>>>::empty(), m) =~= m);
    assert(spec_merge(m, Map::<Seq<u8>, Seq<Seq<u8>>>::empty()) =~= m);
}

/// The merge is associative: however hashing work is split and recombined,
/// the mapping that comes out is the same.
pub proof fn lemma_merge_associative(
    a: Map<Seq<u8>, Seq<Seq<u8>>>,
    b: Map<Seq<u8>, Seq<Seq<u8>>>,
    c: Map<Seq<u8>, Seq<Seq<u8>>>,
)
    ensures
        spec_merge(spec_merge(a, b), c) == spec_merge(a, spec_merge(b, c)),
{
    let l = spec_merge(spec_merge(a, b), c);
    let r = spec_merge(a, spec_merge(b, c));
    assert forall|d: Seq<u8>| l.dom().contains(d) implies #[trigger] l[d] == r[d] by {
        if a.dom().contains(d) && b.dom().contains(d) && c.dom().contains(d) {
            assert((a[d] + b[d]) + c[d] =~= a[d] + (b[d] + c[d]));
        }
    }
    assert(l =~= r);
}

/// The merge is commutative up to the order inside each group: both orders
/// of merging yield the same keys, and the same multiset of paths per key.
pub proof fn lemma_merge_commutative(
    m1: Map<Seq<u8>, Seq<Seq<u8>>>,
    m2: Map<Seq<u8>, Seq<Seq<u8>>>,
)
    ensures
        spec_merge(m1, m2).dom() == spec_merge(m2, m1).dom(),
        forall|d: Seq<u8>|
            #[trigger] spec_merge(m1, m2).dom().contains(d) ==> spec_merge(
                m1,
                m2,
            )[d].to_multiset() == spec_merge(m2, m1)[d].to_multiset(),
{
    assert(spec_merge(m1, m2).dom() =~= spec_merge(m2, m1).dom());
    assert forall|d: Seq<u8>| #[trigger] spec_merge(m1, m2).dom().contains(d) implies spec_merge(
        m1,
        m2,
    )[d].to_multiset() == spec_merge(m2, m1)[d].to_multiset() by {
        if m1.dom().contains(d) && m2.dom().contains(d) {
            vstd::seq_lib::lemma_multiset_commutative(m1[d], m2[d]);
            vstd::seq_lib::lemma_multiset_commutative(m2[d], m1[d]);
        }
    }
}

/// A path list folded into a mapping at one digest, path by path.
pub open spec fn spec_add_paths(
    m: Map<Seq<u8>, Seq<Seq<u8>>>,
    d: Seq<u8>,
    ps: Seq<Seq<u8>>,
) -> Map<Seq<u8>, Seq<Seq<u8>>>
    decreases ps.len(),
{
    if ps.len() == 0 {
        m
    } else {
        spec_add_pair(spec_add_paths(m, d, ps.drop_last()), d, ps.last())
    }
}

/// Folding a non-empty path list into a mapping at one digest appends the
/// whole list to that digest's group, or opens the group with it.
proof fn lemma_add_paths(m: Map<Seq<u8>, Seq<Seq<u8>>>, d: Seq<u8>, ps: Seq<Seq<u8>>)
    ensures
        spec_add_paths(m, d, ps) == (if m.dom().contains(d) {
            m.insert(d, m[d] + ps)
        } else if ps.len() > 0 {
            m.insert(d, ps)
        } else {
            m
        }),
    decreases ps.len(),
{
    if ps.len() == 0 {
        if m.dom().contains(d) {
            assert(m[d] + ps =~= m[d]);
            assert(m.insert(d, m[d]) =~= m);
        }
    } else {
        lemma_add_paths(m, d, ps.drop_last());
        let before = spec_add_paths(m, d, ps.drop_last());
        if m.dom().contains(d) {
            assert(before == m.insert(d, m[d] + ps.drop_last()));
            assert(before.dom().contains(d));
            assert((m[d] + ps.drop_last()).push(ps.last()) =~= m[d] + ps);
            assert(spec_add_paths(m, d, ps) =~= m.insert(d, m[d] + ps));
        } else if ps.len() == 1 {
            assert(before == m);
            assert(seq![ps.last()] =~= ps);
        } else {
            assert(before == m.insert(d, ps.drop_last()));
            assert(before.dom().contains(d));
            assert(ps.drop_last().push(ps.last()) =~= ps);
            assert(spec_add_paths(m, d, ps) =~= m.insert(d, ps));
        }
    }
}

/// A sequence of groups folded into a mapping, group by group.
pub open spec fn spec_fold_groups(
    m: Map<Seq<u8>, Seq<Seq<u8>>>,
    gs: Seq<DigestGroup>,
) -> Map<Seq<u8>, Seq<Seq<u8>>>
    decreases gs.len(),
{
    if gs.len() == 0 {
        m
    } else {
        spec_add_paths(
            spec_fold_groups(m, gs.drop_last()),
            gs.last().digest@,
            bytes::views_of(gs.last().paths@),
        )
    }
}

/// Folding well-formed groups into a mapping merges their denoted mapping
/// into it.
proof fn lemma_fold_groups_merges(m: Map<Seq<u8>, Seq<Seq<u8>>>, gs: Seq<DigestGroup>)
    requires
        groups_unique(gs),
        groups_nonempty(gs),
    ensures
        spec_fold_groups(m, gs) == spec_merge(m, groups_map(gs)),
    decreases gs.len(),
{
    if gs.len() == 0 {
        lemma_merge_identity(m);
    } else {
        let pre = gs.drop_last();
        assert(forall|i: int| 0 <= i < pre.len() ==> pre[i] == gs[i]);
        assert(groups_unique(pre));
        assert(groups_nonempty(pre));
        lemma_fold_groups_merges(m, pre);
        lemma_groups_props(pre);
        let d = gs.last().digest@;
        let ps = bytes::views_of(gs.last().paths@);
        assert(gs[gs.len() - 1].paths@.len() > 0);
        assert(ps.len() > 0);
        assert(!groups_map(pre).dom().contains(d)) by {
            if groups_map(pre).dom().contains(d) {
                let j = choose|j: int| 0 <= j < pre.len() && (#[trigger] pre[j]).digest@ == d;
                assert(gs[j].digest@ == gs[gs.len() - 1].digest@);
                assert(false);
            }
        }
        let merged = spec_merge(m, groups_map(pre));
        lemma_add_paths(merged, d, ps);
        assert(merged.dom().contains(d) <==> m.dom().contains(d));
        if m.dom().contains(d) {
            assert(merged[d] == m[d]);
            assert(spec_fold_groups(m, gs) == merged.insert(d, m[d] + ps));
            assert(merged.insert(d, m[d] + ps) =~= spec_merge(m, groups_map(gs)));
        } else {
            assert(spec_fold_groups(m, gs) == merged.insert(d, ps));
            assert(merged.insert(d, ps) =~= spec_merge(m, groups_map(gs)));
        }
    }
}

impl DigestGroups {
    /// Merges another mapping into this one: keys union, and path lists of
    /// shared digests concatenate, the other mapping's paths after this
    /// one's.
    pub fn merge(&mut self, other: &DigestGroups)
        requires
            old(self).wf(),
            other.wf(),
        ensures
            final(self).wf(),
            final(self).view_map() == spec_merge(old(self).view_map(), other.view_map()),
    {
        let ghost m0 = self.view_map();
        let ghost gs = other.entries@;
        let n = other.entries.len();
        let mut i: usize = 0;
        while i < n
            invariant
                n == gs.len(),
                i <= n,
                gs == other.entries@,
                groups_unique(gs),
                groups_nonempty(gs),
                self.wf(),
                self.view_map() == spec_fold_groups(m0, gs.subrange(0, i as int)),
            decreases n - i,
        {
            let group = &other.entries[i];
            let ghost d = group.digest@;
            let ghost ps = bytes::views_of(group.paths@);
            let ghost before = self.view_map();
            let m = group.paths.len();
            let mut j: usize = 0;
            while j < m
                invariant
                    m == group.paths@.len(),
                    j <= m,
                    group == other.entries@[i as int],
                    i < n == other.entries@.len(),
                    d == group.digest@,
                    ps == bytes::views_of(group.paths@),
                    self.wf(),
                    self.view_map() == spec_add_paths(before, d, ps.subrange(0, j as int)),
                decreases m - j,
            {
                let path = bytes::copy_bytes(&group.paths[j]);
                self.add(&group.digest, path);
                j = j + 1;
                proof {
                    assert(ps.subrange(0, j as int).drop_last() =~= ps.subrange(0, j - 1));
                    assert(ps.subrange(0, j as int).last() == ps[j - 1]);
                    assert(ps[j - 1] == group.paths@[j - 1]@);
                }
            }
            i = i + 1;
            proof {
                assert(ps.subrange(0, m as int) =~= ps);
                assert(gs.subrange(0, i as int).drop_last() =~= gs.subrange(0, i - 1));
                assert(gs.subrange(0, i as int).last() == gs[i - 1]);
            }
        }
        proof {
            assert(gs.subrange(0, n as int) =~= gs);
            lemma_fold_groups_merges(m0, gs);
        }
    }
}

} // verus!

