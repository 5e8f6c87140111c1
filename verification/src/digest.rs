use vstd::prelude::*;

verus! {

/// The content-hash algorithm of a run: fast non-cryptographic (quick
/// scan), cryptographic fast (normal scan), or cryptographic strong (deep
/// scan, and the document hash when similarity mode is active).
#[derive(Debug, Clone, Copy, PartialEq, Eq, Structural)]
pub enum HashAlgorithm {
    Sha256,
    Blake3,
    XxHash,
}

#[verifier::external_type_specification]
#[verifier::external_body]
pub struct ExSha256(sha2::Sha256);

#[verifier::external_type_specification]
#[verifier::external_body]
pub struct ExBlake3Hasher(blake3::Hasher);

#[verifier::external_type_specification]
#[verifier::external_body]
pub struct ExXxHash64(twox_hash::XxHash64);

/// The bytes a SHA-256 state has absorbed so far.
pub uninterp spec fn sha256_absorbed(h: sha2::Sha256) -> Seq<u8>;

/// The bytes a BLAKE3 state has absorbed so far.
pub uninterp spec fn blake3_absorbed(h: blake3::Hasher) -> Seq<u8>;

/// The bytes an XXH64 state seeded with zero has absorbed so far.
pub uninterp spec fn xxh64_absorbed(h: twox_hash::XxHash64) -> Seq<u8>;

/// The SHA-256 digest of a byte sequence: 32 bytes.
pub uninterp spec fn spec_sha256(data: Seq<u8>) -> Seq<u8>;

/// The BLAKE3 digest of a byte sequence: 32 bytes.
pub uninterp spec fn spec_blake3(data: Seq<u8>) -> Seq<u8>;

/// The XXH64 hash of a byte sequence under seed zero.
pub uninterp spec fn spec_xxh64(data: Seq<u8>) -> u64;

/// Relies on sha2: `Digest::new` yields a state that has absorbed nothing.
#[verifier::external_body]
fn sha256_new() -> (h: sha2::Sha256)
    ensures
        sha256_absorbed(h) == Seq::<u8>::empty(),
{
    <sha2::Sha256 as sha2::Digest>::new()
}

/// Relies on sha2: `Digest::update` absorbs exactly the given bytes, in
/// order, after everything absorbed before.
#[verifier::external_body]
fn sha256_update(h: &mut sha2::Sha256, chunk: &[u8])
    ensures
        sha256_absorbed(*final(h)) == sha256_absorbed(*old(h)) + chunk@,
{
    <sha2::Sha256 as sha2::Digest>::update(h, chunk)
}

/// Relies on sha2: `Digest::finalize` returns the 32-byte SHA-256 digest
/// of the absorbed bytes, a function of those bytes alone.
#[verifier::external_body]
fn sha256_finalize(h: sha2::Sha256) -> (r: Vec<u8>)
    ensures
        r@ == spec_sha256(sha256_absorbed(h)),
        r@.len() == 32,
{
    <sha2::Sha256 as sha2::Digest>::finalize(h).to_vec()
}

/// Relies on blake3: `Hasher::new` yields a state that has absorbed
/// nothing.
#[verifier::external_body]
fn blake3_new() -> (h: blake3::Hasher)
    ensures
        blake3_absorbed(h) == Seq::<u8>::empty(),
{
    blake3::Hasher::new()
}

/// Relies on blake3: `Hasher::update` absorbs exactly the given bytes, in
/// order, after everything absorbed before.
#[verifier::external_body]
fn blake3_update(h: &mut blake3::Hasher, chunk: &[u8])
    ensures
        blake3_absorbed(*final(h)) == blake3_absorbed(*old(h)) + chunk@,
{
    h.update(chunk);
}

/// Relies on blake3: `Hasher::finalize` returns the 32-byte BLAKE3 digest
/// of the absorbed bytes, a function of those bytes alone.
#[verifier::external_body]
fn blake3_finalize(h: blake3::Hasher) -> (r: Vec<u8>)
    ensures
        r@ == spec_blake3(blake3_absorbed(h)),
        r@.len() == 32,
{
    h.finalize().as_bytes().to_vec()
}

/// Relies on twox-hash: `XxHash64::with_seed(0)` yields a state that has
/// absorbed nothing.
#[verifier::external_body]
fn xxh64_new() -> (h: twox_hash::XxHash64)
    ensures
        xxh64_absorbed(h) == Seq::<u8>::empty(),
{
    twox_hash::XxHash64::with_seed(0)
}

/// Relies on twox-hash: `Hasher::write` absorbs exactly the given bytes,
/// in order, after everything absorbed before.
#[verifier::external_body]
fn xxh64_update(h: &mut twox_hash::XxHash64, chunk: &[u8])
    ensures
        xxh64_absorbed(*final(h)) == xxh64_absorbed(*old(h)) + chunk@,
{
    <twox_hash::XxHash64 as core::hash::Hasher>::write(h, chunk)
}

/// Relies on twox-hash: `Hasher::finish` returns the 64-bit XXH64 hash of
/// the absorbed bytes under the chosen seed, a function of those alone.
#[verifier::external_body]
fn xxh64_finish(h: &twox_hash::XxHash64) -> (r: u64)
    ensures
        r == spec_xxh64(xxh64_absorbed(*h)),
{
    <twox_hash::XxHash64 as core::hash::Hasher>::finish(h)
}

/// The lower-case hex digit of a value below 16.
pub open spec fn spec_hex_digit(n: u8) -> u8 {
    if n < 10 {
        (48 + n) as u8
    } else {
        (87 + n) as u8
    }
}

/// The lower-case hex encoding of a byte sequence: two digits per byte.
pub open spec fn spec_hex(data: Seq<u8>) -> Seq<u8>
    decreases data.len(),
{
    if data.len() == 0 {
        Seq::empty()
    } else {
        spec_hex(data.drop_last()) + seq![
            spec_hex_digit(data.last() / 16),
            spec_hex_digit(data.last() % 16),
        ]
    }
}

/// Hex-encodes a byte string in lower case.
pub fn hex_encode(data: &Vec<u8>) -> (r: Vec<u8>)
    ensures
        r@ == spec_hex(data@),
{
    let n = data.len();
    let mut r: Vec<u8> = Vec::new();
    let mut i: usize = 0;
    while i < n
        invariant
            n == data@.len(),
            i <= n,
            r@ == spec_hex(data@.subrange(0, i as int)),
        decreases n - i,
    {
        let b = data[i];
        let hi = b / 16;
        let lo = b % 16;
        if hi < 10 {
            r.push(48 + hi);
        } else {
            r.push(87 + hi);
        }
        if lo < 10 {
            r.push(48 + lo);
        } else {
            r.push(87 + lo);
        }
        i = i + 1;
        proof {
            assert(data@.subrange(0, i as int).drop_last() =~= data@.subrange(0, i - 1));
            assert(data@.subrange(0, i as int).last() == data@[i - 1]);
            assert(r@ =~= spec_hex(data@.subrange(0, i as int)));
        }
    }
    proof {
        assert(data@.subrange(0, n as int) =~= data@);
    }
    r
}

/// The big-endian bytes of a 64-bit value.
pub open spec fn spec_u64_bytes(x: u64) -> Seq<u8> {
    seq![
        (x >> 56) as u8,
        (x >> 48) as u8,
        (x >> 40) as u8,
        (x >> 32) as u8,
        (x >> 24) as u8,
        (x >> 16) as u8,
        (x >> 8) as u8,
        x as u8,
    ]
}

/// Splits a 64-bit value into its big-endian bytes.
pub fn u64_bytes(x: u64) -> (r: Vec<u8>)
    ensures
        r@ == spec_u64_bytes(x),
{
    let mut r: Vec<u8> = Vec::new();
    r.push(#[verifier::truncate] ((x >> 56) as u8));
    r.push(#[verifier::truncate] ((x >> 48) as u8));
    r.push(#[verifier::truncate] ((x >> 40) as u8));
    r.push(#[verifier::truncate] ((x >> 32) as u8));
    r.push(#[verifier::truncate] ((x >> 24) as u8));
    r.push(#[verifier::truncate] ((x >> 16) as u8));
    r.push(#[verifier::truncate] ((x >> 8) as u8));
    r.push(#[verifier::truncate] (x as u8));
    proof {
        assert(r@ =~= spec_u64_bytes(x));
    }
    r
}

/// The digest string (as bytes) that one algorithm yields for the given
/// content: a fixed-width lower-case hex rendering of the raw digest.
pub open spec fn spec_digest_bytes(algo: HashAlgorithm, data: Seq<u8>) -> Seq<u8> {
    match algo {
        HashAlgorithm::Sha256 => spec_hex(spec_sha256(data)),
        HashAlgorithm::Blake3 => spec_hex(spec_blake3(data)),
        HashAlgorithm::XxHash => spec_hex(spec_u64_bytes(spec_xxh64(data))),
    }
}

/// A streaming content hasher for one algorithm: bytes go in chunk by
/// chunk, so memory use stays bounded by the chunk size, and the digest
/// of everything absorbed comes out once at the end.
pub enum Digester {
    Sha256(sha2::Sha256),
    Blake3(blake3::Hasher),
    XxHash(twox_hash::XxHash64),
}

impl Digester {
    /// Which algorithm this state runs.
    pub open spec fn algo(self) -> HashAlgorithm {
        match self {
            Digester::Sha256(_) => HashAlgorithm::Sha256,
            Digester::Blake3(_) => HashAlgorithm::Blake3,
            Digester::XxHash(_) => HashAlgorithm::XxHash,
        }
    }

    /// The bytes absorbed so far.
    pub open spec fn absorbed(self) -> Seq<u8> {
        match self {
            Digester::Sha256(h) => sha256_absorbed(h),
            Digester::Blake3(h) => blake3_absorbed(h),
            Digester::XxHash(h) => xxh64_absorbed(h),
        }
    }

    /// A fresh state for the given algorithm, with nothing absorbed.
    pub fn new(algo: HashAlgorithm) -> (r: Digester)
        ensures
            r.algo() == algo,
            r.absorbed() == Seq::<u8>::empty(),
    {
        match algo {
            HashAlgorithm::Sha256 => Digester::Sha256(sha256_new()),
            HashAlgorithm::Blake3 => Digester::Blake3(blake3_new()),
            HashAlgorithm::XxHash => Digester::XxHash(xxh64_new()),
        }
    }

    /// Absorbs one chunk after everything absorbed before.
    pub fn update(&mut self, chunk: &[u8])
        ensures
            final(self).algo() == old(self).algo(),
            final(self).absorbed() == old(self).absorbed() + chunk@,
    {
        match self {
            Digester::Sha256(h) => sha256_update(h, chunk),
            Digester::Blake3(h) => blake3_update(h, chunk),
            Digester::XxHash(h) => xxh64_update(h, chunk),
        }
    }

    /// The digest of everything absorbed, as lower-case hex bytes.
    pub fn finalize(self) -> (r: Vec<u8>)
        ensures
            r@ == spec_digest_bytes(self.algo(), self.absorbed()),
    {
        match self {
            Digester::Sha256(h) => {
                let raw = sha256_finalize(h);
                hex_encode(&raw)
            },
            Digester::Blake3(h) => {
                let raw = blake3_finalize(h);
                hex_encode(&raw)
            },
            Digester::XxHash(h) => {
                let x = xxh64_finish(&h);
                let raw = u64_bytes(x);
                hex_encode(&raw)
            },
        }
    }
}

/// How many bytes one absorbed chunk holds at most.
pub const CHUNK_SIZE: usize = 8192;

/// The digest of a whole byte string, absorbed in fixed-size chunks.
pub fn hash_bytes(algo: HashAlgorithm, data: &Vec<u8>) -> (r: Vec<u8>)
    ensures
        r@ == spec_digest_bytes(algo, data@),
{
    let mut d = Digester::new(algo);
    let n = data.len();
    let mut i: usize = 0;
    while i < n
        invariant
            n == data@.len(),
            i <= n,
            d.algo() == algo,
            d.absorbed() == data@.subrange(0, i as int),
        decreases n - i,
    {
        let end = if n - i < CHUNK_SIZE {
            n
        } else {
            i + CHUNK_SIZE
        };
        let chunk = vstd::slice::slice_subrange(data.as_slice(), i, end);
        d.update(chunk);
        proof {
            assert(data@.subrange(0, i as int) + data@.subrange(i as int, end as int)
                =~= data@.subrange(0, end as int));
        }
        i = end;
    }
    proof {
        assert(data@.subrange(0, n as int) =~= data@);
    }
    d.finalize()
}

} // verus!
