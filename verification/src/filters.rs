use vstd::prelude::*;

use crate::bytes;
use crate::scanner::FileRecord;

verus! {

/// One batch: the paths of the files sharing an (extension, size) key.
pub struct Batch {
    pub ext: Vec<u8>,
    pub size: u64,
    pub paths: Vec<Vec<u8>>,
}

impl Batch {
    /// The (extension, size) key of this batch.
    pub open spec fn key(self) -> (Seq<u8>, u64) {
        (self.ext@, self.size)
    }
}

/// No two batches share a key.
pub open spec fn unique_keys(bs: Seq<Batch>) -> bool {
    forall|i: int, j: int|
        0 <= i < j < bs.len() ==> (#[trigger] bs[i]).key() != (#[trigger] bs[j]).key()
}

/// The mapping from (extension, size) to path lists that a sequence of
/// batches denotes.
pub open spec fn map_of(bs: Seq<Batch>) -> Map<(Seq<u8>, u64), Seq<Seq<u8>>>
    decreases bs.len(),
{
    if bs.len() == 0 {
        Map::empty()
    } else {
        map_of(bs.drop_last()).insert(bs.last().key(), bytes::views_of(bs.last().paths@))
    }
}

/// With unique keys, the denoted map has exactly the batches' keys in its
/// domain, and maps each key to that batch's paths.
pub proof fn lemma_map_of_props(bs: Seq<Batch>)
    requires
        unique_keys(bs),
    ensures
        forall|k: (Seq<u8>, u64)|
            #[trigger] map_of(bs).dom().contains(k) ==> exists|i: int|
                0 <= i < bs.len() && (#[trigger] bs[i]).key() == k,
        forall|i: int|
            0 <= i < bs.len() ==> map_of(bs).dom().contains((#[trigger] bs[i]).key()),
        forall|i: int|
            0 <= i < bs.len() ==> map_of(bs)[(#[trigger] bs[i]).key()] == bytes::views_of(
                bs[i].paths@,
            ),
    decreases bs.len(),
{
    if bs.len() > 0 {
        let pre = bs.drop_last();
        assert(forall|i: int| 0 <= i < pre.len() ==> pre[i] == bs[i]);
        assert(unique_keys(pre));
        lemma_map_of_props(pre);
        let lk = bs.last().key();
        assert(bs[bs.len() - 1].key() == lk);
        assert forall|k: (Seq<u8>, u64)| #[trigger]
            map_of(bs).dom().contains(k) implies exists|i: int|
            0 <= i < bs.len() && (#[trigger] bs[i]).key() == k by {
            if k == lk {
                assert(bs[bs.len() - 1].key() == k);
            } else {
                assert(map_of(pre).dom().contains(k));
                let i = choose|i: int| 0 <= i < pre.len() && (#[trigger] pre[i]).key() == k;
                assert(bs[i].key() == k);
            }
        }
        assert forall|i: int| 0 <= i < bs.len() implies map_of(bs).dom().contains(
            (#[trigger] bs[i]).key(),
        ) by {
            if i < bs.len() - 1 {
                assert(pre[i].key() == bs[i].key());
                assert(map_of(pre).dom().contains(pre[i].key()));
            }
        }
        assert forall|i: int| 0 <= i < bs.len() implies map_of(bs)[(#[trigger] bs[i]).key()]
            == bytes::views_of(bs[i].paths@) by {
            if i < bs.len() - 1 {
                assert(pre[i].key() == bs[i].key());
                assert(map_of(pre)[pre[i].key()] == bytes::views_of(pre[i].paths@));
                assert(bs[i].key() != lk);
            }
        }
    }
}

/// Views of a path list, with one more path appended.
proof fn lemma_views_of_push(s: Seq<Vec<u8>>, v: Vec<u8>)
    ensures
        bytes::views_of(s.push(v)) == bytes::views_of(s).push(v@),
{
    assert(bytes::views_of(s.push(v)) =~= bytes::views_of(s).push(v@));
}

/// The batches keyed by (extension, size). Batches of a single file are
/// kept; they never yield duplicates downstream.
pub struct Batches {
    pub entries: Vec<Batch>,
}

impl Batches {
    /// No two batches share a key.
    pub open spec fn wf(self) -> bool {
        unique_keys(self.entries@)
    }

    /// The mapping this value denotes.
    pub open spec fn view_map(self) -> Map<(Seq<u8>, u64), Seq<Seq<u8>>> {
        map_of(self.entries@)
    }

    /// An empty set of batches.
    pub fn new() -> (r: Batches)
        ensures
            r.wf(),
            r.view_map() == Map::<(Seq<u8>, u64), Seq<Seq<u8>>>::empty(),
    {
        Batches { entries: Vec::new() }
    }

    /// Files one path under the (ext, size) key, appending to that key's
    /// batch or opening a fresh one.
    pub fn add(&mut self, ext: &Vec<u8>, size: u64, path: Vec<u8>)
        requires
            old(self).wf(),
        ensures
            final(self).wf(),
            final(self).view_map() == (if old(self).view_map().dom().contains((ext@, size)) {
                old(self).view_map().insert(
                    (ext@, size),
                    old(self).view_map()[(ext@, size)].push(path@),
                )
            } else {
                old(self).view_map().insert((ext@, size), seq![path@])
            }),
    {
        let ghost bs = self.entries@;
        let ghost k = (ext@, size);
        proof {
            lemma_map_of_props(bs);
        }
        let n = self.entries.len();
        let mut i: usize = 0;
        while i < n
            invariant
                n == self.entries@.len(),
                i <= n,
                self.entries@ == bs,
                bs == old(self).entries@,
                k == (ext@, size),
                unique_keys(bs),
                forall|j: int| 0 <= j < i ==> (#[trigger] bs[j]).key() != k,
            decreases n - i,
        {
            let same_ext = bytes::bytes_eq(&self.entries[i].ext, ext);
            let same_size = self.entries[i].size == size;
            proof {
                assert(same_ext <==> bs[i as int].ext@ == ext@);
                assert(same_size <==> bs[i as int].size == size);
            }
            if same_ext && same_size {
                proof {
                    assert(bs[i as int].key() == k);
                    lemma_map_of_props(bs);
                }
                let mut entry = self.entries.remove(i);
                proof {
                    assert(entry == bs[i as int]);
                }
                entry.paths.push(path);
                self.entries.push(entry);
                proof {
                    let bs2 = self.entries@;
                    assert(bs2.len() == bs.len());
                    assert(forall|j: int| 0 <= j < i ==> bs2[j] == bs[j]);
                    assert(forall|j: int| i <= j < bs.len() - 1 ==> bs2[j] == bs[j + 1]);
                    assert(bs2.last() == entry);
                    assert(bs2.last().key() == k);
                    lemma_views_of_push(bs[i as int].paths@, path);
                    assert(bytes::views_of(bs2.last().paths@) == bytes::views_of(
                        bs[i as int].paths@,
                    ).push(path@));
                    assert forall|j1: int, j2: int| 0 <= j1 < j2 < bs2.len() implies (
                    #[trigger] bs2[j1]).key() != (#[trigger] bs2[j2]).key() by {
                        let o1 = if j1 < i {
                            j1
                        } else {
                            j1 + 1
                        };
                        if j2 == bs2.len() - 1 {
                            assert(bs2[j1] == bs[o1]);
                            assert(o1 != i);
                            assert(bs[o1].key() != bs[i as int].key());
                        } else {
                            let o2 = if j2 < i {
                                j2
                            } else {
                                j2 + 1
                            };
                            assert(bs2[j1] == bs[o1] && bs2[j2] == bs[o2]);
                            assert(o1 < o2);
                        }
                    }
                    assert(unique_keys(bs2));
                    lemma_map_of_props(bs2);
                    assert(map_of(bs).dom().contains(k));
                    let target = map_of(bs).insert(k, map_of(bs)[k].push(path@));
                    assert forall|k2: (Seq<u8>, u64)| #[trigger]
                        map_of(bs2).dom().contains(k2) implies target.dom().contains(k2) by {
                        let j = choose|j: int| 0 <= j < bs2.len() && (#[trigger] bs2[j]).key() == k2;
                        if j == bs2.len() - 1 {
                            assert(k2 == k);
                        } else {
                            let o = if j < i {
                                j
                            } else {
                                j + 1
                            };
                            assert(bs2[j] == bs[o]);
                            assert(map_of(bs).dom().contains(bs[o].key()));
                        }
                    }
                    assert forall|k2: (Seq<u8>, u64)| #[trigger]
                        target.dom().contains(k2) implies map_of(bs2).dom().contains(k2) by {
                        if k2 == k {
                            assert(bs2[bs2.len() - 1].key() == k2);
                            assert(map_of(bs2).dom().contains(bs2[bs2.len() - 1].key()));
                        } else {
                            assert(map_of(bs).dom().contains(k2));
                            let j = choose|j: int|
                                0 <= j < bs.len() && (#[trigger] bs[j]).key() == k2;
                            assert(j != i);
                            let j2 = if j < i {
                                j
                            } else {
                                j - 1
                            };
                            assert(bs2[j2] == bs[j]);
                            assert(map_of(bs2).dom().contains(bs2[j2].key()));
                        }
                    }
                    assert forall|k2: (Seq<u8>, u64)|
                        map_of(bs2).dom().contains(k2) implies #[trigger] map_of(bs2)[k2]
                        == target[k2] by {
                        if k2 == k {
                            assert(bs2[bs2.len() - 1].key() == k);
                            assert(map_of(bs2)[k] == bytes::views_of(bs2[bs2.len() - 1].paths@));
                            assert(map_of(bs)[k] == bytes::views_of(bs[i as int].paths@));
                        } else {
                            let j = choose|j: int|
                                0 <= j < bs2.len() && (#[trigger] bs2[j]).key() == k2;
                            assert(j != bs2.len() - 1);
                            let o = if j < i {
                                j
                            } else {
                                j + 1
                            };
                            assert(bs2[j] == bs[o]);
                            assert(map_of(bs2)[k2] == bytes::views_of(bs2[j].paths@));
                            assert(map_of(bs)[bs[o].key()] == bytes::views_of(bs[o].paths@));
                            assert(target[k2] == map_of(bs)[k2]);
                        }
                    }
                    assert(map_of(bs2) =~= target);
                }
                return ;
            }
            proof {
                assert(bs[i as int].key() != k);
            }
            i = i + 1;
        }
        // no batch holds this key yet
        proof {
            if map_of(bs).dom().contains(k) {
                let j = choose|j: int| 0 <= j < bs.len() && (#[trigger] bs[j]).key() == k;
                assert(false);
            }
        }
        let mut paths: Vec<Vec<u8>> = Vec::new();
        paths.push(path);
        let entry = Batch { ext: bytes::copy_bytes(ext), size, paths };
        self.entries.push(entry);
        proof {
            let bs2 = self.entries@;
            assert(bs2.drop_last() =~= bs);
            assert(bs2.last().key() == k);
            assert(bytes::views_of(bs2.last().paths@) =~= seq![path@]);
            assert(forall|j: int| 0 <= j < bs.len() ==> bs2[j] == bs[j]);
            assert(unique_keys(bs2));
            assert(map_of(bs2) == map_of(bs).insert(k, seq![path@]));
        }
    }

    /// The paths under one (ext, size) key, if any file bears it.
    pub fn get(&self, ext: &Vec<u8>, size: u64) -> (r: Option<&Vec<Vec<u8>>>)
        requires
            self.wf(),
        ensures
            match r {
                Some(paths) => self.view_map().dom().contains((ext@, size))
                    && self.view_map()[(ext@, size)] == bytes::views_of(paths@),
                None => !self.view_map().dom().contains((ext@, size)),
            },
    {
        let ghost bs = self.entries@;
        let ghost k = (ext@, size);
        proof {
            lemma_map_of_props(bs);
        }
        let n = self.entries.len();
        let mut i: usize = 0;
        while i < n
            invariant
                self.wf(),
                self.entries@ == bs,
                n == bs.len(),
                i <= n,
                k == (ext@, size),
                forall|j: int| 0 <= j < i ==> (#[trigger] bs[j]).key() != k,
            decreases n - i,
        {
            let same_ext = bytes::bytes_eq(&self.entries[i].ext, ext);
            let same_size = self.entries[i].size == size;
            proof {
                assert(same_ext <==> bs[i as int].ext@ == ext@);
                assert(same_size <==> bs[i as int].size == size);
            }
            if same_ext && same_size {
                proof {
                    assert(bs[i as int].key() == k);
                    lemma_map_of_props(bs);
                    assert(map_of(bs).dom().contains(bs[i as int].key()));
                    assert(map_of(bs)[bs[i as int].key()] == bytes::views_of(bs[i as int].paths@));
                }
                return Some(&self.entries[i].paths);
            }
            proof {
                assert(bs[i as int].key() != k);
            }
            i = i + 1;
        }
        proof {
            if map_of(bs).dom().contains(k) {
                let j = choose|j: int| 0 <= j < bs.len() && (#[trigger] bs[j]).key() == k;
                assert(false);
            }
        }
        None
    }

    /// How many distinct (ext, size) keys hold at least one file.
    pub fn len(&self) -> (r: usize)
        requires
            self.wf(),
        ensures
            r == self.entries@.len(),
            r == self.view_map().dom().len(),
    {
        proof {
            lemma_map_of_len(self.entries@);
        }
        self.entries.len()
    }
}

/// With unique keys, the denoted map has exactly one entry per batch.
proof fn lemma_map_of_len(bs: Seq<Batch>)
    requires
        unique_keys(bs),
    ensures
        map_of(bs).dom().len() == bs.len(),
        map_of(bs).dom().finite(),
    decreases bs.len(),
{
    if bs.len() > 0 {
        let pre = bs.drop_last();
        assert(forall|i: int| 0 <= i < pre.len() ==> pre[i] == bs[i]);
        assert(unique_keys(pre));
        lemma_map_of_len(pre);
        lemma_map_of_props(pre);
        assert(!map_of(pre).dom().contains(bs.last().key())) by {
            if map_of(pre).dom().contains(bs.last().key()) {
                let j = choose|j: int|
                    0 <= j < pre.len() && (#[trigger] pre[j]).key() == bs.last().key();
                assert(bs[j].key() == bs[bs.len() - 1].key());
                assert(false);
            }
        }
        assert(map_of(bs).dom() =~= map_of(pre).dom().insert(bs.last().key()));
        vstd::set::axiom_set_insert_finite(map_of(pre).dom(), bs.last().key());
        vstd::set::axiom_set_insert_len(map_of(pre).dom(), bs.last().key());
    }
}


/// The mapping that the Batcher owes for the given records and allowed
/// extensions, built in record order.
pub open spec fn spec_batch(records: Seq<FileRecord>, allowed: Seq<Seq<u8>>) -> Map<
    (Seq<u8>, u64),
    Seq<Seq<u8>>,
>
    decreases records.len(),
{
    if records.len() == 0 {
        Map::empty()
    } else {
        let m = spec_batch(records.drop_last(), allowed);
        let r = records.last();
        match r.ext {
            Some(e) => if allowed.contains(e@) {
                let k = (e@, r.size);
                if m.dom().contains(k) {
                    m.insert(k, m[k].push(r.path@))
                } else {
                    m.insert(k, seq![r.path@])
                }
            } else {
                m
            },
            None => m,
        }
    }
}

/// The paths of the records bearing one (ext, size) key whose extension is
/// allowed, in record order.
pub open spec fn spec_group(
    records: Seq<FileRecord>,
    allowed: Seq<Seq<u8>>,
    ext: Seq<u8>,
    size: u64,
) -> Seq<Seq<u8>>
    decreases records.len(),
{
    if records.len() == 0 {
        Seq::empty()
    } else {
        let pre = spec_group(records.drop_last(), allowed, ext, size);
        let r = records.last();
        match r.ext {
            Some(e) => if e@ == ext && r.size == size && allowed.contains(e@) {
                pre.push(r.path@)
            } else {
                pre
            },
            None => pre,
        }
    }
}

/// Batching partitions the records that pass the extension filter: the
/// mapping holds a key exactly when some passing record bears it, and maps
/// it to exactly the paths of the records bearing it, in record order.
pub proof fn lemma_batch_partitions(records: Seq<FileRecord>, allowed: Seq<Seq<u8>>)
    ensures
        forall|k: (Seq<u8>, u64)|
            #[trigger] spec_batch(records, allowed).dom().contains(k) <==> spec_group(
                records,
                allowed,
                k.0,
                k.1,
            ).len() > 0,
        forall|k: (Seq<u8>, u64)|
            spec_batch(records, allowed).dom().contains(k) ==> #[trigger] spec_batch(
                records,
                allowed,
            )[k] == spec_group(records, allowed, k.0, k.1),
    decreases records.len(),
{
    if records.len() > 0 {
        let pre = records.drop_last();
        lemma_batch_partitions(pre, allowed);
        let m_pre = spec_batch(pre, allowed);
        let m = spec_batch(records, allowed);
        let r = records.last();
        let passes = match r.ext {
            Some(e) => allowed.contains(e@),
            None => false,
        };
        if passes {
            let e = r.ext->Some_0;
            let k0 = (e@, r.size);
            assert forall|k: (Seq<u8>, u64)| #[trigger]
                m.dom().contains(k) <==> spec_group(records, allowed, k.0, k.1).len() > 0 by {
                if k == k0 {
                    assert(m.dom().contains(k0));
                    assert(spec_group(records, allowed, k0.0, k0.1) == spec_group(
                        pre,
                        allowed,
                        k0.0,
                        k0.1,
                    ).push(r.path@));
                } else {
                    assert(m.dom().contains(k) <==> m_pre.dom().contains(k));
                    assert(spec_group(records, allowed, k.0, k.1) == spec_group(
                        pre,
                        allowed,
                        k.0,
                        k.1,
                    ));
                }
            }
            assert forall|k: (Seq<u8>, u64)| m.dom().contains(k) implies #[trigger] m[k]
                == spec_group(records, allowed, k.0, k.1) by {
                if k == k0 {
                    if m_pre.dom().contains(k0) {
                        assert(m[k0] == m_pre[k0].push(r.path@));
                    } else {
                        assert(spec_group(pre, allowed, k0.0, k0.1).len() == 0);
                        assert(spec_group(pre, allowed, k0.0, k0.1) =~= Seq::<Seq<u8>>::empty());
                        assert(m[k0] =~= seq![r.path@]);
                    }
                } else {
                    assert(m[k] == m_pre[k]);
                    assert(spec_group(records, allowed, k.0, k.1) == spec_group(
                        pre,
                        allowed,
                        k.0,
                        k.1,
                    ));
                }
            }
        } else {
            assert(m == m_pre);
            assert forall|k: (Seq<u8>, u64)|
                spec_group(records, allowed, k.0, k.1) == spec_group(pre, allowed, k.0, k.1) by {}
        }
    }
}

/// Batcher: files each record whose extension, after lower-casing, is one
/// of the allowed values under its (extension, size) key. Records without
/// an extension, or with one not allowed, are left out. Batches of one
/// file are kept.
pub fn batch(records: &Vec<FileRecord>, allowed: &Vec<Vec<u8>>) -> (r: Batches)
    ensures
        r.wf(),
        r.view_map() == spec_batch(records@, bytes::views_of(allowed@)),
{
    let ghost va = bytes::views_of(allowed@);
    let mut out = Batches::new();
    let n = records.len();
    let mut i: usize = 0;
    while i < n
        invariant
            n == records@.len(),
            i <= n,
            out.wf(),
            va == bytes::views_of(allowed@),
            out.view_map() == spec_batch(records@.subrange(0, i as int), va),
        decreases n - i,
    {
        let rec = &records[i];
        match &rec.ext {
            Some(e) => {
                if bytes::list_contains(allowed, e) {
                    let path = bytes::copy_bytes(&rec.path);
                    out.add(e, rec.size, path);
                }
            },
            None => {},
        }
        i = i + 1;
        proof {
            assert(records@.subrange(0, i as int).drop_last() =~= records@.subrange(0, i - 1));
            assert(records@.subrange(0, i as int).last() == records@[i - 1]);
        }
    }
    proof {
        assert(records@.subrange(0, n as int) =~= records@);
    }
    out
}

/// The paths of every batch that holds two or more files, batch by batch.
pub open spec fn spec_shared(bs: Seq<Batch>) -> Seq<Seq<u8>>
    decreases bs.len(),
{
    if bs.len() == 0 {
        Seq::empty()
    } else if bs.last().paths@.len() >= 2 {
        spec_shared(bs.drop_last()) + bytes::views_of(bs.last().paths@)
    } else {
        spec_shared(bs.drop_last())
    }
}

impl Batches {
    /// The paths of every batch of two or more files, batch by batch: only
    /// these are worth hashing, since a batch of one file can never yield
    /// a duplicate.
    pub fn shared_paths(&self) -> (r: Vec<Vec<u8>>)
        ensures
            bytes::views_of(r@) == spec_shared(self.entries@),
    {
        let n = self.entries.len();
        let mut r: Vec<Vec<u8>> = Vec::new();
        let mut i: usize = 0;
        while i < n
            invariant
                n == self.entries@.len(),
                i <= n,
                bytes::views_of(r@) == spec_shared(self.entries@.subrange(0, i as int)),
            decreases n - i,
        {
            let group = &self.entries[i].paths;
            if group.len() >= 2 {
                let m = group.len();
                let mut j: usize = 0;
                while j < m
                    invariant
                        m == group@.len(),
                        j <= m,
                        group == self.entries@[i as int].paths,
                        i < n == self.entries@.len(),
                        bytes::views_of(r@) == spec_shared(self.entries@.subrange(0, i as int))
                            + bytes::views_of(group@).subrange(0, j as int),
                    decreases m - j,
                {
                    let ghost r0 = r@;
                    let p = bytes::copy_bytes(&group[j]);
                    proof {
                        assert(p@ == group@[j as int]@);
                    }
                    r.push(p);
                    j = j + 1;
                    proof {
                        lemma_views_of_push(r0, p);
                        assert(bytes::views_of(group@).subrange(0, j as int) =~= bytes::views_of(
                            group@,
                        ).subrange(0, j - 1).push(group@[j - 1]@));
                        assert(bytes::views_of(r@) =~= spec_shared(
                            self.entries@.subrange(0, i as int),
                        ) + bytes::views_of(group@).subrange(0, j as int));
                    }
                }
                proof {
                    assert(bytes::views_of(group@).subrange(0, m as int) =~= bytes::views_of(
                        group@,
                    ));
                }
            }
            i = i + 1;
            proof {
                assert(self.entries@.subrange(0, i as int).drop_last() =~= self.entries@.subrange(
                    0,
                    i - 1,
                ));
                assert(self.entries@.subrange(0, i as int).last() == self.entries@[i - 1]);
                if self.entries@[i - 1].paths@.len() < 2 {
                    assert(bytes::views_of(r@) =~= spec_shared(
                        self.entries@.subrange(0, i as int),
                    ));
                }
            }
        }
        proof {
            assert(self.entries@.subrange(0, n as int) =~= self.entries@);
        }
        r
    }
}

} // verus!

