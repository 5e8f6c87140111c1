use vstd::prelude::*;

verus! {

/// The path separator byte, `/`.
pub const SLASH: u8 = 47;

/// The extension separator byte, `.`.
pub const DOT: u8 = 46;

/// The views of a sequence of byte strings.
pub open spec fn views_of(s: Seq<Vec<u8>>) -> Seq<Seq<u8>> {
    s.map_values(|v: Vec<u8>| v@)
}

/// True iff the two byte strings hold the same bytes.
pub fn bytes_eq(a: &Vec<u8>, b: &Vec<u8>) -> (r: bool)
    ensures
        r <==> a@ == b@,
{
    if a.len() != b.len() {
        return false;
    }
    let n = a.len();
    let mut i: usize = 0;
    while i < n
        invariant
            n == a@.len() == b@.len(),
            i <= n,
            forall|j: int| 0 <= j < i ==> a@[j] == b@[j],
        decreases n - i,
    {
        if a[i] != b[i] {
            return false;
        }
        i = i + 1;
    }
    proof {
        assert(a@ =~= b@);
    }
    true
}

/// A fresh byte string holding the same bytes.
pub fn copy_bytes(src: &Vec<u8>) -> (r: Vec<u8>)
    ensures
        r@ == src@,
{
    let mut r: Vec<u8> = Vec::new();
    let n = src.len();
    let mut i: usize = 0;
    while i < n
        invariant
            n == src@.len(),
            i <= n,
            r@ == src@.subrange(0, i as int),
        decreases n - i,
    {
        r.push(src[i]);
        i = i + 1;
        proof {
            assert(r@ =~= src@.subrange(0, i as int));
        }
    }
    proof {
        assert(src@.subrange(0, n as int) =~= src@);
    }
    r
}

/// Appends every byte of `src` to `dst`.
pub fn push_all(dst: &mut Vec<u8>, src: &Vec<u8>)
    ensures
        final(dst)@ == old(dst)@ + src@,
{
    let n = src.len();
    let mut i: usize = 0;
    while i < n
        invariant
            n == src@.len(),
            i <= n,
            dst@ == old(dst)@ + src@.subrange(0, i as int),
        decreases n - i,
    {
        dst.push(src[i]);
        i = i + 1;
        proof {
            assert(old(dst)@ + src@.subrange(0, i - 1) + seq![src@[i - 1]] =~= old(dst)@
                + src@.subrange(0, i as int));
        }
    }
    proof {
        assert(old(dst)@ + src@.subrange(0, n as int) =~= old(dst)@ + src@);
    }
}

/// True iff some byte string in `list` holds the same bytes as `x`.
pub fn list_contains(list: &Vec<Vec<u8>>, x: &Vec<u8>) -> (r: bool)
    ensures
        r <==> views_of(list@).contains(x@),
{
    let n = list.len();
    let mut i: usize = 0;
    while i < n
        invariant
            n == list@.len(),
            i <= n,
            forall|j: int| 0 <= j < i ==> views_of(list@)[j] != x@,
        decreases n - i,
    {
        if bytes_eq(&list[i], x) {
            proof {
                assert(views_of(list@)[i as int] == x@);
            }
            return true;
        }
        i = i + 1;
    }
    false
}


/// Views of a byte-string list, with one more byte string appended.
pub proof fn lemma_views_of_push(s: Seq<Vec<u8>>, v: Vec<u8>)
    ensures
        views_of(s.push(v)) == views_of(s).push(v@),
{
    assert(views_of(s.push(v)) =~= views_of(s).push(v@));
}

/// The final component of a byte-string path: the suffix that follows the
/// last `/`, or the whole string if it holds no `/`.
pub open spec fn spec_file_name(p: Seq<u8>) -> Seq<u8>
    decreases p.len(),
{
    if p.len() == 0 {
        p
    } else if p.last() == SLASH {
        Seq::empty()
    } else {
        spec_file_name(p.drop_last()).push(p.last())
    }
}

/// If every byte from `k` on is not `/`, and `k` is 0 or is preceded by a
/// `/`, the file name is exactly the suffix starting at `k`.
proof fn lemma_file_name_suffix(p: Seq<u8>, k: int)
    requires
        0 <= k <= p.len(),
        forall|j: int| k <= j < p.len() ==> p[j] != SLASH,
        k == 0 || p[k - 1] == SLASH,
    ensures
        spec_file_name(p) == p.subrange(k, p.len() as int),
    decreases p.len(),
{
    if p.len() == 0 {
        assert(spec_file_name(p) =~= p.subrange(k, p.len() as int));
    } else if k == p.len() {
        assert(p.last() == SLASH);
        assert(spec_file_name(p) =~= p.subrange(k, p.len() as int));
    } else {
        assert(p.last() != SLASH);
        lemma_file_name_suffix(p.drop_last(), k);
        assert(p.drop_last().subrange(k, p.len() - 1) =~= p.subrange(k, p.len() - 1));
        assert(p.subrange(k, p.len() - 1).push(p.last()) =~= p.subrange(k, p.len() as int));
    }
}

/// The final component of a byte-string path.
pub fn file_name(p: &Vec<u8>) -> (r: Vec<u8>)
    ensures
        r@ == spec_file_name(p@),
{
    let n = p.len();
    let mut start: usize = 0;
    let mut i: usize = 0;
    while i < n
        invariant
            n == p@.len(),
            i <= n,
            start <= i,
            forall|j: int| start <= j < i ==> p@[j] != SLASH,
            start == 0 || p@[start - 1] == SLASH,
        decreases n - i,
    {
        if p[i] == SLASH {
            start = i + 1;
        }
        i = i + 1;
    }
    proof {
        lemma_file_name_suffix(p@, start as int);
    }
    let mut r: Vec<u8> = Vec::new();
    let mut j: usize = start;
    while j < n
        invariant
            n == p@.len(),
            start <= j <= n,
            r@ == p@.subrange(start as int, j as int),
        decreases n - j,
    {
        r.push(p[j]);
        j = j + 1;
        proof {
            assert(r@ =~= p@.subrange(start as int, j as int));
        }
    }
    r
}

/// An ASCII upper-case letter mapped to its lower-case form; any other
/// byte unchanged.
pub open spec fn spec_lower_byte(b: u8) -> u8 {
    if 65 <= b <= 90 {
        (b + 32) as u8
    } else {
        b
    }
}

/// A byte string with every ASCII upper-case letter lower-cased.
pub open spec fn spec_lower(s: Seq<u8>) -> Seq<u8> {
    s.map_values(|b: u8| spec_lower_byte(b))
}

/// Lower-cases the ASCII letters of a byte string.
pub fn to_lowercase(s: &Vec<u8>) -> (r: Vec<u8>)
    ensures
        r@ == spec_lower(s@),
{
    let n = s.len();
    let mut r: Vec<u8> = Vec::new();
    let mut i: usize = 0;
    while i < n
        invariant
            n == s@.len(),
            i <= n,
            r@ == spec_lower(s@.subrange(0, i as int)),
        decreases n - i,
    {
        let b = s[i];
        if 65 <= b && b <= 90 {
            r.push(b + 32);
        } else {
            r.push(b);
        }
        i = i + 1;
        proof {
            assert(r@ =~= spec_lower(s@.subrange(0, i as int)));
        }
    }
    proof {
        assert(s@.subrange(0, n as int) =~= s@);
    }
    r
}

/// The suffix of a file name that follows its last `.`, provided that `.`
/// is not the leading byte: `None` for a name with no `.` and for a name
/// whose only `.` leads it, as for dot-files.
pub open spec fn spec_ext_raw(name: Seq<u8>) -> Option<Seq<u8>>
    decreases name.len(),
{
    if name.len() == 0 {
        None
    } else if name.last() == DOT {
        if name.len() >= 2 {
            Some(Seq::empty())
        } else {
            None
        }
    } else {
        match spec_ext_raw(name.drop_last()) {
            Some(e) => Some(e.push(name.last())),
            None => None,
        }
    }
}

/// The extension of a byte-string path: the part of its file name after
/// the last `.`, lower-cased.
pub open spec fn spec_extension(p: Seq<u8>) -> Option<Seq<u8>> {
    match spec_ext_raw(spec_file_name(p)) {
        Some(e) => Some(spec_lower(e)),
        None => None,
    }
}

/// If byte `k - 1` is `.`, `k >= 2`, and no later byte is `.`, the raw
/// extension is exactly the suffix starting at `k`.
proof fn lemma_ext_raw_suffix(name: Seq<u8>, k: int)
    requires
        2 <= k <= name.len(),
        name[k - 1] == DOT,
        forall|j: int| k <= j < name.len() ==> name[j] != DOT,
    ensures
        spec_ext_raw(name) == Some(name.subrange(k, name.len() as int)),
    decreases name.len(),
{
    if k == name.len() {
        assert(name.last() == DOT);
        assert(name.subrange(k, name.len() as int) =~= Seq::<u8>::empty());
    } else {
        assert(name.last() != DOT);
        lemma_ext_raw_suffix(name.drop_last(), k);
        assert(name.drop_last().subrange(k, name.len() - 1) =~= name.subrange(k, name.len() - 1));
        assert(name.subrange(k, name.len() - 1).push(name.last()) =~= name.subrange(
            k,
            name.len() as int,
        ));
    }
}

/// A name in which no byte after the first is `.` has no raw extension.
proof fn lemma_ext_raw_none(name: Seq<u8>)
    requires
        forall|j: int| 1 <= j < name.len() ==> name[j] != DOT,
    ensures
        spec_ext_raw(name) is None,
    decreases name.len(),
{
    if name.len() == 0 {
    } else if name.last() == DOT {
        assert(name.len() < 2);
    } else {
        lemma_ext_raw_none(name.drop_last());
    }
}

/// The lower-cased extension of a byte-string path, or `None` if its file
/// name has none.
pub fn extension(p: &Vec<u8>) -> (r: Option<Vec<u8>>)
    ensures
        match r {
            Some(e) => spec_extension(p@) == Some(e@),
            None => spec_extension(p@) is None,
        },
{
    let name = file_name(p);
    let n = name.len();
    let mut dot: usize = 0;
    let mut seen: bool = false;
    let mut i: usize = 0;
    while i < n
        invariant
            n == name@.len(),
            i <= n,
            seen ==> 1 <= dot < i && name@[dot as int] == DOT,
            forall|j: int| (if seen { dot < j } else { 1 <= j }) && j < i ==> name@[j] != DOT,
        decreases n - i,
    {
        if i >= 1 && name[i] == DOT {
            dot = i;
            seen = true;
        }
        i = i + 1;
    }
    if !seen {
        proof {
            lemma_ext_raw_none(name@);
        }
        return None;
    }
    proof {
        lemma_ext_raw_suffix(name@, dot + 1);
    }
    let mut raw: Vec<u8> = Vec::new();
    let mut j: usize = dot + 1;
    while j < n
        invariant
            n == name@.len(),
            dot + 1 <= j <= n,
            raw@ == name@.subrange(dot + 1, j as int),
        decreases n - j,
    {
        raw.push(name[j]);
        j = j + 1;
        proof {
            assert(raw@ =~= name@.subrange(dot + 1, j as int));
        }
    }
    Some(to_lowercase(&raw))
}


/// A file name holds no `/`.
pub proof fn lemma_file_name_no_slash(p: Seq<u8>)
    ensures
        forall|k: int| 0 <= k < spec_file_name(p).len() ==> spec_file_name(p)[k] != SLASH,
    decreases p.len(),
{
    if p.len() == 0 {
    } else if p.last() == SLASH {
    } else {
        lemma_file_name_no_slash(p.drop_last());
        let f0 = spec_file_name(p.drop_last());
        assert forall|k: int| 0 <= k < spec_file_name(p).len() implies spec_file_name(p)[k]
            != SLASH by {
            if k < f0.len() {
                assert(spec_file_name(p)[k] == f0[k]);
            } else {
                assert(spec_file_name(p)[k] == p.last());
            }
        }
    }
}

/// A byte string without `/` is its own file name.
pub proof fn lemma_file_name_of_plain(s: Seq<u8>)
    requires
        forall|k: int| 0 <= k < s.len() ==> s[k] != SLASH,
    ensures
        spec_file_name(s) == s,
{
    lemma_file_name_suffix(s, 0);
    assert(s.subrange(0, s.len() as int) =~= s);
}

/// The file name of `<dir>/<name>` is `name`, for a slash-free name.
pub proof fn lemma_file_name_of_join(dir: Seq<u8>, name: Seq<u8>)
    requires
        forall|k: int| 0 <= k < name.len() ==> name[k] != SLASH,
    ensures
        spec_file_name(dir + seq![SLASH] + name) == name,
{
    let p = dir + seq![SLASH] + name;
    let k = dir.len() as int + 1;
    assert(p[k - 1] == SLASH);
    assert forall|j: int| k <= j < p.len() implies p[j] != SLASH by {
        assert(p[j] == name[j - k]);
    }
    lemma_file_name_suffix(p, k);
    assert(p.subrange(k, p.len() as int) =~= name);
}

/// `dir` and `name` joined with a single `/`.
pub fn join(dir: &Vec<u8>, name: &Vec<u8>) -> (r: Vec<u8>)
    ensures
        r@ == dir@ + seq![SLASH] + name@,
{
    let mut r = copy_bytes(dir);
    r.push(SLASH);
    proof {
        assert(r@ =~= dir@ + seq![SLASH]);
    }
    push_all(&mut r, name);
    r
}

} // verus!
