use vstd::prelude::*;

use crate::bytes;
use crate::digest;
use crate::digest::HashAlgorithm;
use crate::errors::DeduckError;
use crate::hasher::DigestGroups;
use crate::hasher::FileBytes;
use crate::quarantine::QuarantineState;
use crate::quarantine::file_views;
use crate::quarantine::spec_quarantine_steps;
use crate::similar;
use crate::similar::SimilarGroup;

verus! {

/// The algorithm each scan mode runs: fast non-cryptographic for quick,
/// cryptographic fast for normal, cryptographic strong for deep. Any
/// other mode index is rejected.
pub open spec fn spec_algorithm(choice: usize) -> Option<HashAlgorithm> {
    if choice == 0 {
        Some(HashAlgorithm::XxHash)
    } else if choice == 1 {
        Some(HashAlgorithm::Blake3)
    } else if choice == 2 {
        Some(HashAlgorithm::Sha256)
    } else {
        None
    }
}

/// The algorithm of a scan mode index, or `None` for an unknown index:
/// an unknown persisted value is rejected with a typed error upstream,
/// never treated as unreachable.
pub fn select_algorithm(choice: usize) -> (r: Option<HashAlgorithm>)
    ensures
        r == spec_algorithm(choice),
{
    if choice == 0 {
        Some(HashAlgorithm::XxHash)
    } else if choice == 1 {
        Some(HashAlgorithm::Blake3)
    } else if choice == 2 {
        Some(HashAlgorithm::Sha256)
    } else {
        None
    }
}

/// A three-byte string.
fn bytes3(a: u8, b: u8, c: u8) -> (r: Vec<u8>)
    ensures
        r@ == seq![a, b, c],
{
    let mut r: Vec<u8> = Vec::new();
    r.push(a);
    r.push(b);
    r.push(c);
    proof {
        assert(r@ =~= seq![a, b, c]);
    }
    r
}

/// A four-byte string.
fn bytes4(a: u8, b: u8, c: u8, d: u8) -> (r: Vec<u8>)
    ensures
        r@ == seq![a, b, c, d],
{
    let mut r: Vec<u8> = Vec::new();
    r.push(a);
    r.push(b);
    r.push(c);
    r.push(d);
    proof {
        assert(r@ =~= seq![a, b, c, d]);
    }
    r
}

/// The document extensions: pdf, txt, doc, xlsx.
pub open spec fn spec_doc_exts() -> Seq<Seq<u8>> {
    seq![
        seq![112u8, 100u8, 102u8],
        seq![116u8, 120u8, 116u8],
        seq![100u8, 111u8, 99u8],
        seq![120u8, 108u8, 115u8, 120u8],
    ]
}

/// The image extensions: png, jpg, jpeg.
pub open spec fn spec_image_exts() -> Seq<Seq<u8>> {
    seq![seq![112u8, 110u8, 103u8], seq![106u8, 112u8, 103u8], seq![106u8, 112u8, 101u8, 103u8]]
}

/// Every extension the detector considers: documents and images.
pub open spec fn spec_allowed_exts() -> Seq<Seq<u8>> {
    spec_doc_exts() + spec_image_exts()
}

/// The document extensions, as byte strings.
pub fn doc_extensions() -> (r: Vec<Vec<u8>>)
    ensures
        bytes::views_of(r@) == spec_doc_exts(),
{
    let mut r: Vec<Vec<u8>> = Vec::new();
    r.push(bytes3(112, 100, 102));
    r.push(bytes3(116, 120, 116));
    r.push(bytes3(100, 111, 99));
    r.push(bytes4(120, 108, 115, 120));
    proof {
        assert(bytes::views_of(r@) =~= spec_doc_exts());
    }
    r
}

/// The image extensions, as byte strings.
pub fn image_extensions() -> (r: Vec<Vec<u8>>)
    ensures
        bytes::views_of(r@) == spec_image_exts(),
{
    let mut r: Vec<Vec<u8>> = Vec::new();
    r.push(bytes3(112, 110, 103));
    r.push(bytes3(106, 112, 103));
    r.push(bytes4(106, 112, 101, 103));
    proof {
        assert(bytes::views_of(r@) =~= spec_image_exts());
    }
    r
}

/// Every extension the detector considers, as byte strings.
pub fn allowed_extensions() -> (r: Vec<Vec<u8>>)
    ensures
        bytes::views_of(r@) == spec_allowed_exts(),
{
    let mut r = doc_extensions();
    let imgs = image_extensions();
    let ghost docs = r@;
    let n = imgs.len();
    let mut i: usize = 0;
    while i < n
        invariant
            n == imgs@.len(),
            i <= n,
            bytes::views_of(imgs@) == spec_image_exts(),
            bytes::views_of(docs) == spec_doc_exts(),
            bytes::views_of(r@) == spec_doc_exts() + spec_image_exts().subrange(0, i as int),
        decreases n - i,
    {
        let ghost r0 = r@;
        let e = bytes::copy_bytes(&imgs[i]);
        r.push(e);
        i = i + 1;
        proof {
            bytes::lemma_views_of_push(r0, e);
            assert(bytes::views_of(imgs@)[i - 1] == spec_image_exts()[i - 1]);
            assert(bytes::views_of(r@) =~= spec_doc_exts() + spec_image_exts().subrange(
                0,
                i as int,
            ));
        }
    }
    proof {
        assert(spec_image_exts().subrange(0, n as int) =~= spec_image_exts());
    }
    r
}

/// One duplicate set: its identifier (a digest, or the base path of a
/// similarity cluster) and its paths. The first path is the keeper; the
/// rest are the duplicates scheduled for quarantine.
pub struct DuplicateGroup {
    pub key: Vec<u8>,
    pub paths: Vec<Vec<u8>>,
}

/// The (key, paths) views of duplicate groups.
pub open spec fn dup_views(gs: Seq<DuplicateGroup>) -> Seq<(Seq<u8>, Seq<Seq<u8>>)> {
    gs.map_values(|g: DuplicateGroup| (g.key@, bytes::views_of(g.paths@)))
}


/// Views of duplicate groups, with one more group appended.
proof fn lemma_dup_views_push(s: Seq<DuplicateGroup>, g: DuplicateGroup)
    ensures
        dup_views(s.push(g)) == dup_views(s).push((g.key@, bytes::views_of(g.paths@))),
{
    assert(dup_views(s.push(g)) =~= dup_views(s).push((g.key@, bytes::views_of(g.paths@))));
}

/// The digest groups of two or more files, in first-appearance order:
/// only these are duplicate sets.
pub open spec fn spec_reportable(entries: Seq<crate::hasher::DigestGroup>) -> Seq<
    (Seq<u8>, Seq<Seq<u8>>),
>
    decreases entries.len(),
{
    if entries.len() == 0 {
        Seq::empty()
    } else if entries.last().paths@.len() >= 2 {
        spec_reportable(entries.drop_last()).push(
            (entries.last().digest@, bytes::views_of(entries.last().paths@)),
        )
    } else {
        spec_reportable(entries.drop_last())
    }
}

/// Duplicate Grouper, exact half: every digest group of two or more paths
/// becomes a duplicate set, keyed by the digest, keeper first.
pub fn collect_digest_groups(groups: &DigestGroups) -> (r: Vec<DuplicateGroup>)
    ensures
        dup_views(r@) == spec_reportable(groups.entries@),
{
    let n = groups.entries.len();
    let mut r: Vec<DuplicateGroup> = Vec::new();
    let mut i: usize = 0;
    while i < n
        invariant
            n == groups.entries@.len(),
            i <= n,
            dup_views(r@) == spec_reportable(groups.entries@.subrange(0, i as int)),
        decreases n - i,
    {
        let entry = &groups.entries[i];
        if entry.paths.len() >= 2 {
            let key = bytes::copy_bytes(&entry.digest);
            let mut paths: Vec<Vec<u8>> = Vec::new();
            let m = entry.paths.len();
            let mut j: usize = 0;
            while j < m
                invariant
                    m == entry.paths@.len(),
                    j <= m,
                    entry == groups.entries@[i as int],
                    i < n == groups.entries@.len(),
                    bytes::views_of(paths@) == bytes::views_of(entry.paths@).subrange(0, j as int),
                decreases m - j,
            {
                let ghost paths0 = paths@;
                let p = bytes::copy_bytes(&entry.paths[j]);
                paths.push(p);
                j = j + 1;
                proof {
                    bytes::lemma_views_of_push(paths0, p);
                    assert(bytes::views_of(paths@) =~= bytes::views_of(entry.paths@).subrange(
                        0,
                        j as int,
                    ));
                }
            }
            proof {
                assert(bytes::views_of(entry.paths@).subrange(0, m as int) =~= bytes::views_of(
                    entry.paths@,
                ));
            }
            let ghost r0 = r@;
            let group = DuplicateGroup { key, paths };
            proof {
                lemma_dup_views_push(r0, group);
            }
            r.push(group);
        }
        i = i + 1;
        proof {
            assert(groups.entries@.subrange(0, i as int).drop_last() =~= groups.entries@.subrange(
                0,
                i - 1,
            ));
            assert(groups.entries@.subrange(0, i as int).last() == groups.entries@[i - 1]);
            assert(dup_views(r@) =~= spec_reportable(groups.entries@.subrange(0, i as int)));
        }
    }
    proof {
        assert(groups.entries@.subrange(0, n as int) =~= groups.entries@);
    }
    r
}

/// A similarity cluster as a duplicate set: the base path is both the key
/// and the keeper, and the similar paths follow it.
pub open spec fn spec_similarity_sets(groups: Seq<(Seq<u8>, Seq<Seq<u8>>)>) -> Seq<
    (Seq<u8>, Seq<Seq<u8>>),
> {
    groups.map_values(|g: (Seq<u8>, Seq<Seq<u8>>)| (g.0, seq![g.0] + g.1))
}

/// Duplicate Grouper, similarity half: every base with a non-empty
/// similar-list becomes a duplicate set, keyed and kept by the base.
pub fn similar_to_groups(sims: &Vec<SimilarGroup>) -> (r: Vec<DuplicateGroup>)
    ensures
        dup_views(r@) == spec_similarity_sets(similar::group_views(sims@)),
{
    let n = sims.len();
    let mut r: Vec<DuplicateGroup> = Vec::new();
    let mut i: usize = 0;
    while i < n
        invariant
            n == sims@.len(),
            i <= n,
            dup_views(r@) == spec_similarity_sets(
                similar::group_views(sims@).subrange(0, i as int),
            ),
        decreases n - i,
    {
        let g = &sims[i];
        let key = bytes::copy_bytes(&g.base);
        let mut paths: Vec<Vec<u8>> = Vec::new();
        let base_copy = bytes::copy_bytes(&g.base);
        proof {
            bytes::lemma_views_of_push(paths@, base_copy);
        }
        paths.push(base_copy);
        proof {
            assert(bytes::views_of(paths@) =~= seq![g.base@] + bytes::views_of(
                g.similar@,
            ).subrange(0, 0));
        }
        let m = g.similar.len();
        let mut j: usize = 0;
        while j < m
            invariant
                m == g.similar@.len(),
                j <= m,
                g == sims@[i as int],
                i < n == sims@.len(),
                bytes::views_of(paths@) == seq![g.base@] + bytes::views_of(g.similar@).subrange(
                    0,
                    j as int,
                ),
            decreases m - j,
        {
            let ghost paths0 = paths@;
            let p = bytes::copy_bytes(&g.similar[j]);
            paths.push(p);
            j = j + 1;
            proof {
                bytes::lemma_views_of_push(paths0, p);
                assert(bytes::views_of(paths@) =~= seq![g.base@] + bytes::views_of(
                    g.similar@,
                ).subrange(0, j as int));
            }
        }
        let ghost r0 = r@;
        let group = DuplicateGroup { key, paths };
        proof {
            lemma_dup_views_push(r0, group);
        }
        r.push(group);
        i = i + 1;
        proof {
            assert(bytes::views_of(sims@[i - 1].similar@).subrange(0, m as int) =~= bytes::views_of(
                sims@[i - 1].similar@,
            ));
            assert(similar::group_views(sims@).subrange(0, i as int).drop_last()
                =~= similar::group_views(sims@).subrange(0, i - 1));
            assert(dup_views(r@) =~= spec_similarity_sets(
                similar::group_views(sims@).subrange(0, i as int),
            ));
        }
    }
    proof {
        assert(similar::group_views(sims@).subrange(0, n as int) =~= similar::group_views(sims@));
    }
    r
}

/// The paths a set of duplicate groups schedules for quarantine: each
/// group's paths after its keeper, group by group.
pub open spec fn spec_schedule(groups: Seq<(Seq<u8>, Seq<Seq<u8>>)>) -> Seq<Seq<u8>>
    decreases groups.len(),
{
    if groups.len() == 0 {
        Seq::empty()
    } else if groups.last().1.len() >= 1 {
        spec_schedule(groups.drop_last()) + groups.last().1.subrange(
            1,
            groups.last().1.len() as int,
        )
    } else {
        spec_schedule(groups.drop_last())
    }
}

/// Duplicate Grouper, schedule: all paths after each keeper.
pub fn quarantine_plan(groups: &Vec<DuplicateGroup>) -> (r: Vec<Vec<u8>>)
    ensures
        bytes::views_of(r@) == spec_schedule(dup_views(groups@)),
{
    let n = groups.len();
    let mut r: Vec<Vec<u8>> = Vec::new();
    let mut i: usize = 0;
    while i < n
        invariant
            n == groups@.len(),
            i <= n,
            bytes::views_of(r@) == spec_schedule(dup_views(groups@).subrange(0, i as int)),
        decreases n - i,
    {
        let g = &groups[i];
        if g.paths.len() >= 1 {
            let m = g.paths.len();
            let mut j: usize = 1;
            while j < m
                invariant
                    m == g.paths@.len(),
                    1 <= j <= m || (j == 1 && m == 0),
                    g == groups@[i as int],
                    i < n == groups@.len(),
                    m >= 1,
                    bytes::views_of(r@) == spec_schedule(dup_views(groups@).subrange(0, i as int))
                        + bytes::views_of(g.paths@).subrange(1, j as int),
                decreases m - j,
            {
                let ghost r0 = r@;
                let p = bytes::copy_bytes(&g.paths[j]);
                r.push(p);
                j = j + 1;
                proof {
                    bytes::lemma_views_of_push(r0, p);
                    assert(bytes::views_of(r@) =~= spec_schedule(
                        dup_views(groups@).subrange(0, i as int),
                    ) + bytes::views_of(g.paths@).subrange(1, j as int));
                }
            }
            proof {
                assert(bytes::views_of(r@) =~= spec_schedule(
                    dup_views(groups@).subrange(0, i as int),
                ) + bytes::views_of(g.paths@).subrange(1, m as int));
            }
        }
        i = i + 1;
        proof {
            assert(dup_views(groups@).subrange(0, i as int).drop_last() =~= dup_views(
                groups@,
            ).subrange(0, i - 1));
            assert(dup_views(groups@).subrange(0, i as int).last() == dup_views(groups@)[i - 1]);
            if groups@[i - 1].paths@.len() == 0 {
                assert(bytes::views_of(r@) =~= spec_schedule(
                    dup_views(groups@).subrange(0, i as int),
                ));
            } else {
                assert(bytes::views_of(r@) =~= spec_schedule(
                    dup_views(groups@).subrange(0, i as int),
                ));
            }
        }
    }
    proof {
        assert(dup_views(groups@).subrange(0, n as int) =~= dup_views(groups@));
    }
    r
}


/// The (path, content) views of a sequence of in-memory files.
pub open spec fn fb_views(files: Seq<FileBytes>) -> Seq<(Seq<u8>, Seq<u8>)> {
    files.map_values(|f: FileBytes| (f.path@, f.data@))
}

/// Views of in-memory files, with one more appended.
proof fn lemma_fb_views_push(s: Seq<FileBytes>, f: FileBytes)
    ensures
        fb_views(s.push(f)) == fb_views(s).push((f.path@, f.data@)),
{
    assert(fb_views(s.push(f)) =~= fb_views(s).push((f.path@, f.data@)));
}

/// How many files bear the (extension, size) key.
pub open spec fn spec_key_count(files: Seq<(Seq<u8>, Seq<u8>)>, e: Seq<u8>, sz: int) -> int
    decreases files.len(),
{
    if files.len() == 0 {
        0
    } else {
        spec_key_count(files.drop_last(), e, sz) + (if bytes::spec_extension(files.last().0)
            == Some(e) && files.last().1.len() == sz {
            1int
        } else {
            0int
        })
    }
}

/// The count above is exactly the size of the Batcher's batch for the
/// key: selecting the files whose key count is at least two is selecting
/// the files of the shared batches.
pub proof fn lemma_key_count_is_batch_size(
    records: Seq<crate::scanner::FileRecord>,
    files: Seq<(Seq<u8>, Seq<u8>)>,
    allowed: Seq<Seq<u8>>,
    e: Seq<u8>,
    size: u64,
)
    requires
        records.len() == files.len(),
        forall|i: int|
            0 <= i < records.len() ==> {
                &&& (#[trigger] records[i]).path@ == files[i].0
                &&& records[i].size == files[i].1.len()
                &&& records[i].wf()
            },
        allowed.contains(e),
    ensures
        crate::filters::spec_group(records, allowed, e, size).len() == spec_key_count(
            files,
            e,
            size as int,
        ),
    decreases records.len(),
{
    if records.len() > 0 {
        let rpre = records.drop_last();
        let fpre = files.drop_last();
        assert(forall|i: int| 0 <= i < rpre.len() ==> rpre[i] == records[i]);
        assert(forall|i: int| 0 <= i < fpre.len() ==> fpre[i] == files[i]);
        lemma_key_count_is_batch_size(rpre, fpre, allowed, e, size);
        let r = records.last();
        let f = files.last();
        assert(r == records[records.len() - 1]);
        assert(r.ext_view() == bytes::spec_extension(f.0));
        match r.ext {
            Some(e2) => {
                assert(bytes::spec_extension(f.0) == Some(e2@));
            },
            None => {
                assert(bytes::spec_extension(f.0) is None);
            },
        }
    }
}

/// Whether the file at one index is worth hashing: its extension is
/// allowed, and its (extension, size) batch holds at least one other
/// file, since a batch of one can never yield a duplicate.
pub open spec fn spec_hashable(
    files: Seq<(Seq<u8>, Seq<u8>)>,
    i: int,
    allowed: Seq<Seq<u8>>,
) -> bool {
    match bytes::spec_extension(files[i].0) {
        Some(e) => allowed.contains(e) && spec_key_count(files, e, files[i].1.len() as int) >= 2,
        None => false,
    }
}

/// The files selected for hashing among the first `k`, in file order.
pub open spec fn spec_selected(
    files: Seq<(Seq<u8>, Seq<u8>)>,
    allowed: Seq<Seq<u8>>,
    k: int,
) -> Seq<(Seq<u8>, Seq<u8>)>
    decreases k,
{
    if k <= 0 || k > files.len() {
        Seq::empty()
    } else {
        let pre = spec_selected(files, allowed, k - 1);
        if spec_hashable(files, k - 1, allowed) {
            pre.push(files[k - 1])
        } else {
            pre
        }
    }
}

/// The (digest, path) pair of every hashed file, in file order.
pub open spec fn spec_pairs(
    items: Seq<(Seq<u8>, Seq<u8>)>,
    algo: HashAlgorithm,
) -> Seq<(Seq<u8>, Seq<u8>)> {
    items.map_values(
        |f: (Seq<u8>, Seq<u8>)| (digest::spec_digest_bytes(algo, f.1), f.0),
    )
}

/// Whether an earlier file already produced this file's digest: if so,
/// that earlier file is the keeper and this one is a duplicate.
pub open spec fn spec_seen_before(pairs: Seq<(Seq<u8>, Seq<u8>)>, i: int) -> bool {
    exists|j: int| 0 <= j < i && (#[trigger] pairs[j]).0 == pairs[i].0
}

/// The paths scheduled for quarantine by exact-digest detection over the
/// first `k` files: every file whose digest some earlier file already
/// produced, in file order.
pub open spec fn spec_hash_schedule(pairs: Seq<(Seq<u8>, Seq<u8>)>, k: int) -> Seq<Seq<u8>>
    decreases k,
{
    if k <= 0 || k > pairs.len() {
        Seq::empty()
    } else {
        let pre = spec_hash_schedule(pairs, k - 1);
        if spec_seen_before(pairs, k - 1) {
            pre.push(pairs[k - 1].1)
        } else {
            pre
        }
    }
}

/// The files among the first `k` bearing one of the listed extensions, in
/// file order.
pub open spec fn spec_with_ext(
    files: Seq<(Seq<u8>, Seq<u8>)>,
    exts: Seq<Seq<u8>>,
    k: int,
) -> Seq<(Seq<u8>, Seq<u8>)>
    decreases k,
{
    if k <= 0 || k > files.len() {
        Seq::empty()
    } else {
        let pre = spec_with_ext(files, exts, k - 1);
        match bytes::spec_extension(files[k - 1].0) {
            Some(e) => if exts.contains(e) {
                pre.push(files[k - 1])
            } else {
                pre
            },
            None => pre,
        }
    }
}

/// The fingerprints of the files whose bytes decode as images, over plain
/// (path, content) views.
pub open spec fn spec_fingerprints_v(files: Seq<(Seq<u8>, Seq<u8>)>) -> Seq<(Seq<u8>, Seq<bool>)>
    decreases files.len(),
{
    if files.len() == 0 {
        Seq::empty()
    } else {
        let pre = spec_fingerprints_v(files.drop_last());
        match similar::spec_fingerprint(files.last().1) {
            Some(bits) => pre.push((files.last().0, bits)),
            None => pre,
        }
    }
}

/// The fingerprints of in-memory files depend only on their views.
proof fn lemma_fingerprints_views(files: Seq<FileBytes>)
    ensures
        similar::spec_fingerprints(files) == spec_fingerprints_v(fb_views(files)),
    decreases files.len(),
{
    if files.len() > 0 {
        lemma_fingerprints_views(files.drop_last());
        assert(fb_views(files).drop_last() =~= fb_views(files.drop_last()));
        assert(fb_views(files).last() == (files.last().path@, files.last().data@));
    }
}

/// Everything one detection run schedules for quarantine, as a function of
/// the root's (path, content) views and the scan mode. Deep mode links
/// visually similar images first, and hashes documents with the strong
/// algorithm; the other modes hash every file whose (extension, size)
/// batch is shared. The order of paths inside each digest group follows
/// file order; the keeper of a group is its first file.
pub open spec fn spec_plan(files: Seq<(Seq<u8>, Seq<u8>)>, choice: usize) -> Seq<Seq<u8>> {
    if choice == 2 {
        let imgs = spec_with_ext(files, spec_image_exts(), files.len() as int);
        let prints = spec_fingerprints_v(imgs);
        let sims = similar::spec_sim_groups(prints, prints.len() as int, 10);
        let docs = spec_with_ext(files, spec_doc_exts(), files.len() as int);
        spec_schedule(spec_similarity_sets(sims)) + spec_hash_schedule(
            spec_pairs(docs, HashAlgorithm::Sha256),
            docs.len() as int,
        )
    } else {
        let algo = if choice == 0 {
            HashAlgorithm::XxHash
        } else {
            HashAlgorithm::Blake3
        };
        let sel = spec_selected(files, spec_allowed_exts(), files.len() as int);
        spec_hash_schedule(spec_pairs(sel, algo), sel.len() as int)
    }
}

/// Counts the files bearing the (extension, size) key.
fn count_key_matches(files: &Vec<crate::quarantine::StoredFile>, e: &Vec<u8>, sz: usize) -> (r:
    usize)
    ensures
        r == spec_key_count(file_views(files@), e@, sz as int),
        r <= files@.len(),
{
    let ghost fv = file_views(files@);
    let n = files.len();
    let mut r: usize = 0;
    let mut i: usize = 0;
    while i < n
        invariant
            n == files@.len(),
            i <= n,
            fv == file_views(files@),
            r <= i,
            r == spec_key_count(fv.subrange(0, i as int), e@, sz as int),
        decreases n - i,
    {
        let hit = match bytes::extension(&files[i].path) {
            Some(ei) => bytes::bytes_eq(&ei, e) && files[i].content.len() == sz,
            None => false,
        };
        if hit {
            r = r + 1;
        }
        i = i + 1;
        proof {
            assert(fv[i - 1].0 == files@[i - 1].path@);
            assert(fv[i - 1].1 == files@[i - 1].content@);
            assert(fv.subrange(0, i as int).drop_last() =~= fv.subrange(0, i - 1));
            assert(fv.subrange(0, i as int).last() == fv[i - 1]);
            assert(hit <==> (bytes::spec_extension(fv[i - 1].0) == Some(e@) && fv[i - 1].1.len()
                == sz));
        }
    }
    proof {
        assert(fv.subrange(0, n as int) =~= fv);
    }
    r
}

/// The files worth hashing: extension allowed and batch shared.
fn select_hashable(files: &Vec<crate::quarantine::StoredFile>, allowed: &Vec<Vec<u8>>) -> (r: Vec<
    FileBytes,
>)
    ensures
        fb_views(r@) == spec_selected(
            file_views(files@),
            bytes::views_of(allowed@),
            files@.len() as int,
        ),
{
    let ghost fv = file_views(files@);
    let ghost av = bytes::views_of(allowed@);
    let n = files.len();
    let mut r: Vec<FileBytes> = Vec::new();
    let mut i: usize = 0;
    while i < n
        invariant
            n == files@.len(),
            i <= n,
            fv == file_views(files@),
            av == bytes::views_of(allowed@),
            fb_views(r@) == spec_selected(fv, av, i as int),
        decreases n - i,
    {
        proof {
            assert(fv[i as int].0 == files@[i as int].path@);
            assert(fv[i as int].1 == files@[i as int].content@);
        }
        let take = match bytes::extension(&files[i].path) {
            Some(e) => {
                if bytes::list_contains(allowed, &e) {
                    let c = count_key_matches(files, &e, files[i].content.len());
                    c >= 2
                } else {
                    false
                }
            },
            None => false,
        };
        proof {
            assert(take <==> spec_hashable(fv, i as int, av));
        }
        if take {
            let ghost r0 = r@;
            let item = FileBytes {
                path: bytes::copy_bytes(&files[i].path),
                data: bytes::copy_bytes(&files[i].content),
            };
            proof {
                lemma_fb_views_push(r0, item);
            }
            r.push(item);
        }
        i = i + 1;
        proof {
            assert(fb_views(r@) =~= spec_selected(fv, av, i as int));
        }
    }
    r
}

/// The files bearing one of the listed extensions.
fn files_with_ext(files: &Vec<crate::quarantine::StoredFile>, exts: &Vec<Vec<u8>>) -> (r: Vec<
    FileBytes,
>)
    ensures
        fb_views(r@) == spec_with_ext(
            file_views(files@),
            bytes::views_of(exts@),
            files@.len() as int,
        ),
{
    let ghost fv = file_views(files@);
    let ghost ev = bytes::views_of(exts@);
    let n = files.len();
    let mut r: Vec<FileBytes> = Vec::new();
    let mut i: usize = 0;
    while i < n
        invariant
            n == files@.len(),
            i <= n,
            fv == file_views(files@),
            ev == bytes::views_of(exts@),
            fb_views(r@) == spec_with_ext(fv, ev, i as int),
        decreases n - i,
    {
        proof {
            assert(fv[i as int].0 == files@[i as int].path@);
            assert(fv[i as int].1 == files@[i as int].content@);
        }
        let take = match bytes::extension(&files[i].path) {
            Some(e) => bytes::list_contains(exts, &e),
            None => false,
        };
        if take {
            let ghost r0 = r@;
            let item = FileBytes {
                path: bytes::copy_bytes(&files[i].path),
                data: bytes::copy_bytes(&files[i].content),
            };
            proof {
                lemma_fb_views_push(r0, item);
            }
            r.push(item);
        }
        i = i + 1;
        proof {
            assert(fb_views(r@) =~= spec_with_ext(fv, ev, i as int));
        }
    }
    r
}

/// The quarantine schedule of exact-digest detection: hashes every item
/// and schedules each whose digest an earlier item already produced. The
/// earliest item of each digest is the keeper and is never scheduled.
fn hash_schedule(items: &Vec<FileBytes>, algo: HashAlgorithm) -> (r: Vec<Vec<u8>>)
    ensures
        bytes::views_of(r@) == spec_hash_schedule(
            spec_pairs(fb_views(items@), algo),
            items@.len() as int,
        ),
{
    let ghost pairs = spec_pairs(fb_views(items@), algo);
    let n = items.len();
    let mut r: Vec<Vec<u8>> = Vec::new();
    let mut seen: Vec<Vec<u8>> = Vec::new();
    let mut i: usize = 0;
    while i < n
        invariant
            n == items@.len(),
            i <= n,
            pairs == spec_pairs(fb_views(items@), algo),
            pairs.len() == n,
            bytes::views_of(r@) == spec_hash_schedule(pairs, i as int),
            forall|dv: Seq<u8>|
                #[trigger] bytes::views_of(seen@).contains(dv) <==> exists|j: int|
                    0 <= j < i && (#[trigger] pairs[j]).0 == dv,
        decreases n - i,
    {
        let d = digest::hash_bytes(algo, &items[i].data);
        proof {
            assert(fb_views(items@)[i as int] == (items@[i as int].path@, items@[i as int].data@));
            assert(pairs[i as int].0 == d@);
            assert(pairs[i as int].1 == items@[i as int].path@);
        }
        if bytes::list_contains(&seen, &d) {
            proof {
                assert(spec_seen_before(pairs, i as int));
            }
            let ghost r0 = r@;
            let p = bytes::copy_bytes(&items[i].path);
            r.push(p);
            proof {
                bytes::lemma_views_of_push(r0, p);
            }
        } else {
            proof {
                if spec_seen_before(pairs, i as int) {
                    let j = choose|j: int|
                        0 <= j < i && (#[trigger] pairs[j]).0 == pairs[i as int].0;
                    assert(bytes::views_of(seen@).contains(d@));
                }
            }
            let ghost seen0 = seen@;
            seen.push(d);
            proof {
                bytes::lemma_views_of_push(seen0, d);
                assert forall|dv: Seq<u8>| #[trigger]
                    bytes::views_of(seen@).contains(dv) implies exists|j: int|
                    0 <= j <= i && (#[trigger] pairs[j]).0 == dv by {
                    let w = choose|w: int|
                        0 <= w < bytes::views_of(seen@).len() && bytes::views_of(seen@)[w] == dv;
                    if w < seen0.len() {
                        assert(bytes::views_of(seen0)[w] == dv);
                        assert(bytes::views_of(seen0).contains(dv));
                        let j = choose|j: int| 0 <= j < i && (#[trigger] pairs[j]).0 == dv;
                        assert(pairs[j].0 == dv);
                    } else {
                        assert(pairs[i as int].0 == dv);
                    }
                }
                assert forall|dv: Seq<u8>|
                    (exists|j: int| 0 <= j <= i && (#[trigger] pairs[j]).0 == dv) implies #[trigger]
                    bytes::views_of(seen@).contains(dv) by {
                    let j = choose|j: int| 0 <= j <= i && (#[trigger] pairs[j]).0 == dv;
                    if j < i {
                        assert(bytes::views_of(seen0).contains(dv));
                        let w = choose|w: int|
                            0 <= w < bytes::views_of(seen0).len() && bytes::views_of(
                                seen0,
                            )[w] == dv;
                        assert(bytes::views_of(seen@)[w] == dv);
                    } else {
                        assert(bytes::views_of(seen@).last() == dv);
                    }
                }
            }
        }
        i = i + 1;
        proof {
            assert(bytes::views_of(r@) =~= spec_hash_schedule(pairs, i as int));
        }
    }
    r
}

/// The detection-and-quarantine pipeline over a directory snapshot: finds
/// the duplicate sets for the scan mode and, when asked, isolates every
/// scheduled path through the Quarantine Manager. An unknown mode is
/// rejected with `ConfigMissing`. Without the quarantine flag nothing is
/// mutated. A failed move is surfaced to the report by the caller, never
/// rolled back; the count of files found is returned either way.
pub fn duplicates(state: &mut QuarantineState, scan_choice: usize, quarantine_flag: bool) -> (r:
    Result<usize, DeduckError>)
    ensures
        spec_algorithm(scan_choice) is None ==> {
            &&& r == Result::<usize, DeduckError>::Err(DeduckError::ConfigMissing)
            &&& *final(state) == *old(state)
        },
        spec_algorithm(scan_choice) is Some ==> r is Ok && r->Ok_0
            == old(state).root_files@.len(),
        !quarantine_flag ==> *final(state) == *old(state),
        spec_algorithm(scan_choice) is Some && quarantine_flag ==> ({
            let fv = file_views(old(state).root_files@);
            let plan = spec_plan(fv, scan_choice);
            if plan.len() == 0 {
                *final(state) == *old(state)
            } else {
                let qv0 = match old(state).quarantined {
                    Some(q) => file_views(q@),
                    None => Seq::<(Seq<u8>, Seq<u8>)>::empty(),
                };
                let out = spec_quarantine_steps(fv, qv0, plan, plan.len() as int);
                &&& final(state).quarantined is Some
                &&& file_views(final(state).root_files@) == out.0
                &&& file_views(final(state).quarantined->Some_0@) == out.1
            }
        }),
{
    let ghost fv = file_views(state.root_files@);
    let algo = match select_algorithm(scan_choice) {
        Some(a) => a,
        None => {
            return Err(DeduckError::ConfigMissing);
        },
    };
    let files_found = state.root_files.len();
    let plan: Vec<Vec<u8>> = if scan_choice == 2 {
        let img_exts = image_extensions();
        let images = files_with_ext(&state.root_files, &img_exts);
        let sims = similar::similar_images(&images, 10);
        let sgroups = similar_to_groups(&sims);
        let mut plan = quarantine_plan(&sgroups);
        proof {
            lemma_fingerprints_views(images@);
        }
        let doc_exts_v = doc_extensions();
        let docs = files_with_ext(&state.root_files, &doc_exts_v);
        let mut plan_docs = hash_schedule(&docs, algo);
        plan.append(&mut plan_docs);
        proof {
            assert(bytes::views_of(plan@) =~= spec_plan(fv, scan_choice));
        }
        plan
    } else {
        let allowed = allowed_extensions();
        let sel = select_hashable(&state.root_files, &allowed);
        let plan = hash_schedule(&sel, algo);
        proof {
            assert(bytes::views_of(plan@) =~= spec_plan(fv, scan_choice));
        }
        plan
    };
    if quarantine_flag && plan.len() > 0 {
        // a failure here surfaces in the caller's accounting; moves
        // already made are not rolled back
        match state.quarantine_duplicates(&plan) {
            Ok(()) => {},
            Err(_) => {},
        }
    }
    Ok(files_found)
}

} // verus!

