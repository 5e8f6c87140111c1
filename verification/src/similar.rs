use vstd::prelude::*;

use crate::bytes;
use crate::hasher::FileBytes;

verus! {

/// The perceptual fingerprint of an encoded image's bytes: 64 bits for an
/// input that decodes as an image, `None` for one that does not.
pub uninterp spec fn spec_fingerprint(data: Seq<u8>) -> Option<Seq<bool>>;

/// Relies on image::load_from_memory to decode the bytes, and on
/// imagehash::perceptual_hash for the pHash bits of the decoded image:
/// together a function of the encoded bytes alone, with 8 x 8 = 64 bits
/// for every image that decodes.
#[verifier::external_body]
fn fingerprint_bytes(data: &Vec<u8>) -> (r: Option<Vec<bool>>)
    ensures
        match r {
            Some(bits) => spec_fingerprint(data@) == Some(bits@) && bits@.len() == 64,
            None => spec_fingerprint(data@) is None,
        },
{
    match image::load_from_memory(data.as_slice()) {
        Ok(img) => Some(imagehash::perceptual_hash(&img).bits),
        Err(_) => None,
    }
}

/// The Hamming distance of two bit vectors: how many positions up to the
/// shorter length differ.
pub open spec fn spec_hamming(a: Seq<bool>, b: Seq<bool>) -> nat
    decreases a.len(),
{
    if a.len() == 0 || b.len() == 0 {
        0
    } else {
        (if a.first() != b.first() {
            1nat
        } else {
            0nat
        }) + spec_hamming(a.drop_first(), b.drop_first())
    }
}

/// Appending one position to each of two equally long bit vectors adds
/// exactly that position's difference to their Hamming distance.
proof fn lemma_hamming_push(a: Seq<bool>, b: Seq<bool>, p: bool, q: bool)
    requires
        a.len() == b.len(),
    ensures
        spec_hamming(a.push(p), b.push(q)) == spec_hamming(a, b) + (if p != q {
            1nat
        } else {
            0nat
        }),
    decreases a.len(),
{
    if a.len() == 0 {
        assert(a.push(p).len() == 1);
        assert(a.push(p).first() == p);
        assert(b.push(q).first() == q);
        assert(a.push(p).drop_first() =~= a);
        assert(b.push(q).drop_first() =~= b);
        assert(spec_hamming(a, b) == 0);
    } else {
        assert(a.push(p).first() == a.first());
        assert(b.push(q).first() == b.first());
        assert(a.push(p).drop_first() =~= a.drop_first().push(p));
        assert(b.push(q).drop_first() =~= b.drop_first().push(q));
        lemma_hamming_push(a.drop_first(), b.drop_first(), p, q);
    }
}

/// The count of differing bit positions of two equally long bit vectors.
pub fn hamming_distance(a: &Vec<bool>, b: &Vec<bool>) -> (r: u32)
    requires
        a@.len() <= u32::MAX || b@.len() <= u32::MAX,
    ensures
        r == spec_hamming(a@, b@),
{
    let n = if a.len() < b.len() {
        a.len()
    } else {
        b.len()
    };
    let mut r: u32 = 0;
    let mut i: usize = 0;
    while i < n
        invariant
            n <= a@.len(),
            n <= b@.len(),
            n == a@.len() || n == b@.len(),
            n <= u32::MAX,
            i <= n,
            r <= i,
            r == spec_hamming(a@.subrange(0, i as int), b@.subrange(0, i as int)),
        decreases n - i,
    {
        if a[i] != b[i] {
            r = r + 1;
        }
        i = i + 1;
        proof {
            lemma_hamming_push(
                a@.subrange(0, i - 1),
                b@.subrange(0, i - 1),
                a@[i - 1],
                b@[i - 1],
            );
            assert(a@.subrange(0, i - 1).push(a@[i - 1]) =~= a@.subrange(0, i as int));
            assert(b@.subrange(0, i - 1).push(b@[i - 1]) =~= b@.subrange(0, i as int));
        }
    }
    proof {
        lemma_hamming_prefix(a@, b@, n as int);
    }
    r
}

/// Up to the shorter length, the Hamming distance of the prefixes is the
/// Hamming distance of the whole vectors.
proof fn lemma_hamming_prefix(a: Seq<bool>, b: Seq<bool>, n: int)
    requires
        n == a.len() || n == b.len(),
        n <= a.len(),
        n <= b.len(),
    ensures
        spec_hamming(a.subrange(0, n), b.subrange(0, n)) == spec_hamming(a, b),
    decreases n,
{
    if n == 0 {
        assert(a.subrange(0, 0) =~= Seq::<bool>::empty());
        assert(b.subrange(0, 0) =~= Seq::<bool>::empty());
        assert(a.len() == 0 || b.len() == 0);
    } else {
        assert(a.len() > 0 && b.len() > 0);
        assert(a.subrange(0, n).first() == a.first());
        assert(a.subrange(0, n).drop_first() =~= a.drop_first().subrange(0, n - 1));
        assert(b.subrange(0, n).drop_first() =~= b.drop_first().subrange(0, n - 1));
        lemma_hamming_prefix(a.drop_first(), b.drop_first(), n - 1);
    }
}

/// Two fingerprints within the threshold.
pub open spec fn spec_close(a: Seq<bool>, b: Seq<bool>, threshold: u32) -> bool {
    spec_hamming(a, b) <= threshold
}

/// One fingerprinted image: its path and its perceptual fingerprint.
pub struct ImagePrint {
    pub path: Vec<u8>,
    pub bits: Vec<bool>,
}

/// The (path, fingerprint) views of a sequence of fingerprinted images.
pub open spec fn print_views(prints: Seq<ImagePrint>) -> Seq<(Seq<u8>, Seq<bool>)> {
    prints.map_values(|p: ImagePrint| (p.path@, p.bits@))
}

/// The fingerprints the Similarity Matcher works on: one per file whose
/// bytes decode as an image, in file order; files that do not decode are
/// skipped.
pub open spec fn spec_fingerprints(files: Seq<FileBytes>) -> Seq<(Seq<u8>, Seq<bool>)>
    decreases files.len(),
{
    if files.len() == 0 {
        Seq::empty()
    } else {
        let pre = spec_fingerprints(files.drop_last());
        match spec_fingerprint(files.last().data@) {
            Some(bits) => pre.push((files.last().path@, bits)),
            None => pre,
        }
    }
}

/// The paths of the images at indices strictly between `i` and `j` whose
/// fingerprints lie within the threshold of image `i`'s, in index order.
pub open spec fn spec_similars_upto(
    prints: Seq<(Seq<u8>, Seq<bool>)>,
    i: int,
    j: int,
    threshold: u32,
) -> Seq<Seq<u8>>
    decreases j,
{
    if i < 0 || j <= i + 1 || j > prints.len() {
        Seq::empty()
    } else if spec_close(prints[i].1, prints[j - 1].1, threshold) {
        spec_similars_upto(prints, i, j - 1, threshold).push(prints[j - 1].0)
    } else {
        spec_similars_upto(prints, i, j - 1, threshold)
    }
}

/// The paths of all later images within the threshold of image `i`'s
/// fingerprint.
pub open spec fn spec_similars(
    prints: Seq<(Seq<u8>, Seq<bool>)>,
    i: int,
    threshold: u32,
) -> Seq<Seq<u8>> {
    spec_similars_upto(prints, i, prints.len() as int, threshold)
}

/// The similarity groups over the first `k` images as bases: one group per
/// base with at least one later image within the threshold, in base order.
/// Grouping is pairwise, not transitive: each base keeps its own list, and
/// a path is never linked to itself.
pub open spec fn spec_sim_groups(
    prints: Seq<(Seq<u8>, Seq<bool>)>,
    k: int,
    threshold: u32,
) -> Seq<(Seq<u8>, Seq<Seq<u8>>)>
    decreases k,
{
    if k <= 0 || k > prints.len() {
        Seq::empty()
    } else {
        let pre = spec_sim_groups(prints, k - 1, threshold);
        let sims = spec_similars(prints, k - 1, threshold);
        if sims.len() > 0 {
            pre.push((prints[k - 1].0, sims))
        } else {
            pre
        }
    }
}

/// One similarity group: the base image and the later images whose
/// fingerprints lie within the threshold of the base's.
pub struct SimilarGroup {
    pub base: Vec<u8>,
    pub similar: Vec<Vec<u8>>,
}

/// The (base, similars) views of a sequence of similarity groups.
pub open spec fn group_views(groups: Seq<SimilarGroup>) -> Seq<(Seq<u8>, Seq<Seq<u8>>)> {
    groups.map_values(|g: SimilarGroup| (g.base@, bytes::views_of(g.similar@)))
}

/// Clusters fingerprinted images: every unordered pair is compared once,
/// and each pair within the threshold is linked under the earlier image's
/// entry. Only bases with at least one match are reported.
pub fn similar_clusters(prints: &Vec<ImagePrint>, threshold: u32) -> (r: Vec<SimilarGroup>)
    requires
        forall|i: int| 0 <= i < prints@.len() ==> (#[trigger] prints@[i]).bits@.len() <= u32::MAX,
    ensures
        group_views(r@) == spec_sim_groups(print_views(prints@), prints@.len() as int, threshold),
{
    let ghost pv = print_views(prints@);
    let n = prints.len();
    let mut r: Vec<SimilarGroup> = Vec::new();
    let mut i: usize = 0;
    while i < n
        invariant
            n == prints@.len(),
            i <= n,
            pv == print_views(prints@),
            forall|w: int| 0 <= w < prints@.len() ==> (#[trigger] prints@[w]).bits@.len() <= u32::MAX,
            group_views(r@) == spec_sim_groups(pv, i as int, threshold),
        decreases n - i,
    {
        let mut sims: Vec<Vec<u8>> = Vec::new();
        let mut j: usize = i + 1;
        while j < n
            invariant
                n == prints@.len(),
                i < j <= n || (i + 1 == j && j > n),
                i < n,
                pv == print_views(prints@),
                forall|w: int|
                    0 <= w < prints@.len() ==> (#[trigger] prints@[w]).bits@.len() <= u32::MAX,
                bytes::views_of(sims@) == spec_similars_upto(pv, i as int, j as int, threshold),
            decreases n - j,
        {
            let dist = hamming_distance(&prints[i].bits, &prints[j].bits);
            if dist <= threshold {
                sims.push(bytes::copy_bytes(&prints[j].path));
            }
            j = j + 1;
            proof {
                assert(pv[i as int].1 == prints@[i as int].bits@);
                assert(pv[j - 1].1 == prints@[j - 1].bits@);
                assert(pv[j - 1].0 == prints@[j - 1].path@);
                assert(bytes::views_of(sims@) =~= spec_similars_upto(
                    pv,
                    i as int,
                    j as int,
                    threshold,
                ));
            }
        }
        if sims.len() > 0 {
            let base = bytes::copy_bytes(&prints[i].path);
            r.push(SimilarGroup { base, similar: sims });
        }
        i = i + 1;
        proof {
            assert(pv.len() == prints@.len());
            assert(pv[i - 1].0 == prints@[i - 1].path@);
            assert(group_views(r@) =~= spec_sim_groups(pv, i as int, threshold));
        }
    }
    r
}

/// Similarity Matcher: fingerprints every file that decodes as an image
/// (skipping, never failing on, those that do not) and clusters the
/// fingerprints pairwise by Hamming distance within the threshold.
pub fn similar_images(files: &Vec<FileBytes>, threshold: u32) -> (r: Vec<SimilarGroup>)
    ensures
        group_views(r@) == spec_sim_groups(
            spec_fingerprints(files@),
            spec_fingerprints(files@).len() as int,
            threshold,
        ),
{
    let n = files.len();
    let mut prints: Vec<ImagePrint> = Vec::new();
    let mut i: usize = 0;
    while i < n
        invariant
            n == files@.len(),
            i <= n,
            print_views(prints@) == spec_fingerprints(files@.subrange(0, i as int)),
            forall|w: int|
                0 <= w < prints@.len() ==> (#[trigger] prints@[w]).bits@.len() <= u32::MAX,
        decreases n - i,
    {
        match fingerprint_bytes(&files[i].data) {
            Some(bits) => {
                let path = bytes::copy_bytes(&files[i].path);
                prints.push(ImagePrint { path, bits });
            },
            None => {},
        }
        i = i + 1;
        proof {
            assert(files@.subrange(0, i as int).drop_last() =~= files@.subrange(0, i - 1));
            assert(files@.subrange(0, i as int).last() == files@[i - 1]);
            assert(print_views(prints@) =~= spec_fingerprints(files@.subrange(0, i as int)));
        }
    }
    proof {
        assert(files@.subrange(0, n as int) =~= files@);
        assert(print_views(prints@).len() == spec_fingerprints(files@).len());
    }
    similar_clusters(&prints, threshold)
}

} // verus!
