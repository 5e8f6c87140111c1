use vstd::prelude::*;

use crate::bytes;
use crate::errors::DeduckError;
use crate::report::Report;

verus! {

/// One file of the directory model: its path and its content.
pub struct StoredFile {
    pub path: Vec<u8>,
    pub content: Vec<u8>,
}

/// The (path, content) views of a sequence of stored files.
pub open spec fn file_views(files: Seq<StoredFile>) -> Seq<(Seq<u8>, Seq<u8>)> {
    files.map_values(|f: StoredFile| (f.path@, f.content@))
}

/// The Quarantine Manager's view of the world: the files under the root,
/// by full path, and the quarantine directory, absent or holding files by
/// bare file name, flat and one level deep. The manager's transitions are
/// the only operations that move files.
pub struct QuarantineState {
    pub root_files: Vec<StoredFile>,
    pub quarantined: Option<Vec<StoredFile>>,
}

impl QuarantineState {
    /// The (path, content) pairs under the root.
    pub open spec fn root_view(self) -> Seq<(Seq<u8>, Seq<u8>)> {
        file_views(self.root_files@)
    }

    /// The (name, content) pairs the quarantine holds, if it exists: what
    /// a restore could still bring back.
    pub open spec fn recoverable(self) -> Seq<(Seq<u8>, Seq<u8>)> {
        match self.quarantined {
            Some(q) => file_views(q@),
            None => Seq::empty(),
        }
    }
}

/// The name of the quarantine directory, `.deduck_quarantine`.
pub open spec fn spec_quarantine_dir_name() -> Seq<u8> {
    seq![
        46u8, 100u8, 101u8, 100u8, 117u8, 99u8, 107u8, 95u8, 113u8, 117u8, 97u8, 114u8, 97u8,
        110u8, 116u8, 105u8, 110u8, 101u8,
    ]
}

/// The name of the quarantine directory, as bytes.
fn quarantine_dir_name() -> (r: Vec<u8>)
    ensures
        r@ == spec_quarantine_dir_name(),
{
    let mut r: Vec<u8> = Vec::new();
    r.push(46);
    r.push(100);
    r.push(101);
    r.push(100);
    r.push(117);
    r.push(99);
    r.push(107);
    r.push(95);
    r.push(113);
    r.push(117);
    r.push(97);
    r.push(114);
    r.push(97);
    r.push(110);
    r.push(116);
    r.push(105);
    r.push(110);
    r.push(101);
    proof {
        assert(r@ =~= spec_quarantine_dir_name());
    }
    r
}

/// The quarantine directory that belongs to a root: `<root>/.deduck_quarantine`.
pub fn get_quarantine_dir(base_dir: &Vec<u8>) -> (r: Vec<u8>)
    ensures
        r@ == base_dir@ + seq![bytes::SLASH] + spec_quarantine_dir_name(),
{
    let name = quarantine_dir_name();
    bytes::join(base_dir, &name)
}

/// The smallest index of a file at the given path, or -1 if none is.
pub open spec fn spec_find_path(files: Seq<(Seq<u8>, Seq<u8>)>, p: Seq<u8>) -> int
    decreases files.len(),
{
    if files.len() == 0 {
        -1
    } else if files.first().0 == p {
        0
    } else {
        let r = spec_find_path(files.drop_first(), p);
        if r < 0 {
            -1
        } else {
            r + 1
        }
    }
}

/// What a found index means.
pub proof fn lemma_find_path_props(files: Seq<(Seq<u8>, Seq<u8>)>, p: Seq<u8>)
    ensures
        spec_find_path(files, p) == -1 ==> (forall|j: int|
            0 <= j < files.len() ==> (#[trigger] files[j]).0 != p),
        spec_find_path(files, p) != -1 ==> {
            let r = spec_find_path(files, p);
            &&& 0 <= r < files.len()
            &&& files[r].0 == p
            &&& forall|j: int| 0 <= j < r ==> (#[trigger] files[j]).0 != p
        },
    decreases files.len(),
{
    if files.len() > 0 && files.first().0 != p {
        let rest = files.drop_first();
        lemma_find_path_props(rest, p);
        assert(forall|j: int| 0 <= j < rest.len() ==> rest[j] == files[j + 1]);
        let r0 = spec_find_path(rest, p);
        if r0 == -1 {
            assert forall|j: int| 0 <= j < files.len() implies (#[trigger] files[j]).0 != p by {
                if j > 0 {
                    assert(rest[j - 1] == files[j]);
                    assert(rest[j - 1].0 != p);
                }
            }
        } else {
            assert(rest[r0] == files[r0 + 1]);
            assert(files[r0 + 1].0 == p);
            assert forall|j: int| 0 <= j < r0 + 1 implies (#[trigger] files[j]).0 != p by {
                if j > 0 {
                    assert(rest[j - 1] == files[j]);
                    assert(rest[j - 1].0 != p);
                }
            }
        }
    }
}

/// A forward scan that stops at the first match finds the same index.
proof fn lemma_find_path_hit(files: Seq<(Seq<u8>, Seq<u8>)>, p: Seq<u8>, i: int)
    requires
        0 <= i < files.len(),
        files[i].0 == p,
        forall|j: int| 0 <= j < i ==> (#[trigger] files[j]).0 != p,
    ensures
        spec_find_path(files, p) == i,
    decreases i,
{
    if i == 0 {
    } else {
        assert(files.first().0 != p);
        assert(forall|j: int|
            0 <= j < files.drop_first().len() ==> files.drop_first()[j] == files[j + 1]);
        lemma_find_path_hit(files.drop_first(), p, i - 1);
    }
}

/// A scan that matches nowhere finds nothing.
proof fn lemma_find_path_miss(files: Seq<(Seq<u8>, Seq<u8>)>, p: Seq<u8>)
    requires
        forall|j: int| 0 <= j < files.len() ==> (#[trigger] files[j]).0 != p,
    ensures
        spec_find_path(files, p) == -1,
    decreases files.len(),
{
    if files.len() > 0 {
        assert(files.first().0 != p);
        assert(forall|j: int|
            0 <= j < files.drop_first().len() ==> files.drop_first()[j] == files[j + 1]);
        lemma_find_path_miss(files.drop_first(), p);
    }
}

/// The index of the first stored file at the given path.
fn find_path_index(files: &Vec<StoredFile>, p: &Vec<u8>) -> (r: Option<usize>)
    ensures
        match r {
            Some(i) => i < files@.len() && spec_find_path(file_views(files@), p@) == i as int,
            None => spec_find_path(file_views(files@), p@) == -1,
        },
{
    let ghost fv = file_views(files@);
    let n = files.len();
    let mut i: usize = 0;
    while i < n
        invariant
            n == files@.len(),
            i <= n,
            fv == file_views(files@),
            forall|j: int| 0 <= j < i ==> (#[trigger] fv[j]).0 != p@,
        decreases n - i,
    {
        if bytes::bytes_eq(&files[i].path, p) {
            proof {
                assert(fv[i as int].0 == p@);
                lemma_find_path_hit(fv, p@, i as int);
            }
            return Some(i);
        }
        proof {
            assert(fv[i as int].0 != p@);
        }
        i = i + 1;
    }
    proof {
        lemma_find_path_miss(fv, p@);
    }
    None
}

/// One rename into the quarantine: the file at the path leaves the root
/// and enters the quarantine under its bare file name. The move fails,
/// changing nothing, if no file lives at the path or if the name is
/// already taken in the quarantine: a collision is refused rather than
/// silently overwritten.
pub open spec fn spec_move_one(
    root: Seq<(Seq<u8>, Seq<u8>)>,
    q: Seq<(Seq<u8>, Seq<u8>)>,
    p: Seq<u8>,
) -> Option<(Seq<(Seq<u8>, Seq<u8>)>, Seq<(Seq<u8>, Seq<u8>)>)> {
    let i = spec_find_path(root, p);
    if i < 0 {
        None
    } else {
        let name = bytes::spec_file_name(p);
        if spec_find_path(q, name) >= 0 {
            None
        } else {
            Some((root.remove(i), q.push((name, root[i].1))))
        }
    }
}

/// The first `k` moves of a quarantine call, in order. Once one move has
/// failed, the rest are not attempted: the state stays where it was, and
/// the failure is remembered. Files already moved are not rolled back.
pub open spec fn spec_quarantine_steps(
    root: Seq<(Seq<u8>, Seq<u8>)>,
    q: Seq<(Seq<u8>, Seq<u8>)>,
    paths: Seq<Seq<u8>>,
    k: int,
) -> (Seq<(Seq<u8>, Seq<u8>)>, Seq<(Seq<u8>, Seq<u8>)>, bool)
    decreases k,
{
    if k <= 0 {
        (root, q, true)
    } else {
        let pre = spec_quarantine_steps(root, q, paths, k - 1);
        if !pre.2 {
            pre
        } else {
            match spec_move_one(pre.0, pre.1, paths[k - 1]) {
                Some(moved) => (moved.0, moved.1, true),
                None => (pre.0, pre.1, false),
            }
        }
    }
}

/// After a failed move, later steps change nothing.
proof fn lemma_steps_frozen(
    root: Seq<(Seq<u8>, Seq<u8>)>,
    q: Seq<(Seq<u8>, Seq<u8>)>,
    paths: Seq<Seq<u8>>,
    k: int,
    m: int,
)
    requires
        0 <= k <= m,
        !spec_quarantine_steps(root, q, paths, k).2,
    ensures
        spec_quarantine_steps(root, q, paths, m) == spec_quarantine_steps(root, q, paths, k),
    decreases m - k,
{
    if m > k {
        lemma_steps_frozen(root, q, paths, k, m - 1);
    }
}

impl QuarantineState {
    /// Quarantine Manager, isolate: creates the quarantine directory if
    /// absent, and renames each given path into it under its bare file
    /// name, in order. A move whose source is missing or whose name is
    /// already taken fails with `IoError`; files moved earlier in the same
    /// call stay moved, and the directory stays.
    pub fn quarantine_duplicates(&mut self, files: &Vec<Vec<u8>>) -> (r: Result<(), DeduckError>)
        ensures
            final(self).quarantined is Some,
            ({
                let rv0 = file_views(old(self).root_files@);
                let qv0 = match old(self).quarantined {
                    Some(q) => file_views(q@),
                    None => Seq::empty(),
                };
                let out = spec_quarantine_steps(
                    rv0,
                    qv0,
                    bytes::views_of(files@),
                    files@.len() as int,
                );
                &&& file_views(final(self).root_files@) == out.0
                &&& file_views(final(self).quarantined->Some_0@) == out.1
                &&& (r is Ok <==> out.2)
                &&& (r is Err ==> r == Result::<(), DeduckError>::Err(DeduckError::IoError))
            }),
    {
        let ghost rv0 = file_views(self.root_files@);
        let ghost qv0 = match self.quarantined {
            Some(ref q) => file_views(q@),
            None => Seq::<(Seq<u8>, Seq<u8>)>::empty(),
        };
        let ghost ps = bytes::views_of(files@);
        // take the quarantine directory's contents, creating it if absent
        let mut taken: Option<Vec<StoredFile>> = None;
        core::mem::swap(&mut self.quarantined, &mut taken);
        let mut q: Vec<StoredFile> = match taken {
            Some(v) => v,
            None => Vec::new(),
        };
        proof {
            assert(file_views(q@) == qv0);
        }
        let n = files.len();
        let mut i: usize = 0;
        while i < n
            invariant
                n == files@.len(),
                i <= n,
                ps == bytes::views_of(files@),
                rv0 == file_views(old(self).root_files@),
                qv0 == (match old(self).quarantined {
                    Some(qq) => file_views(qq@),
                    None => Seq::<(Seq<u8>, Seq<u8>)>::empty(),
                }),
                spec_quarantine_steps(rv0, qv0, ps, i as int) == (
                    file_views(self.root_files@),
                    file_views(q@),
                    true,
                ),
            decreases n - i,
        {
            let ghost root_before = file_views(self.root_files@);
            let ghost q_before = file_views(q@);
            proof {
                assert(ps[i as int] == files@[i as int]@);
            }
            let idx = match find_path_index(&self.root_files, &files[i]) {
                Some(idx) => idx,
                None => {
                    self.quarantined = Some(q);
                    proof {
                        assert(spec_move_one(root_before, q_before, ps[i as int]) is None);
                        assert(!spec_quarantine_steps(rv0, qv0, ps, i + 1).2);
                        lemma_steps_frozen(rv0, qv0, ps, i + 1, n as int);
                    }
                    return Err(DeduckError::IoError);
                },
            };
            proof {
                lemma_find_path_props(root_before, ps[i as int]);
                assert(root_before[idx as int].0 == ps[i as int]);
            }
            let name = bytes::file_name(&self.root_files[idx].path);
            proof {
                assert(root_before[idx as int].0 == self.root_files@[idx as int].path@);
                assert(name@ == bytes::spec_file_name(ps[i as int]));
            }
            match find_path_index(&q, &name) {
                Some(_) => {
                    self.quarantined = Some(q);
                    proof {
                        assert(spec_move_one(root_before, q_before, ps[i as int]) is None);
                        assert(!spec_quarantine_steps(rv0, qv0, ps, i + 1).2);
                        lemma_steps_frozen(rv0, qv0, ps, i + 1, n as int);
                    }
                    return Err(DeduckError::IoError);
                },
                None => {},
            }
            let f = self.root_files.remove(idx);
            let entry = StoredFile { path: name, content: f.content };
            q.push(entry);
            proof {
                assert(file_views(self.root_files@) =~= root_before.remove(idx as int));
                assert(file_views(q@) =~= q_before.push(
                    (bytes::spec_file_name(ps[i as int]), root_before[idx as int].1),
                ));
                assert(spec_move_one(root_before, q_before, ps[i as int]) == Some(
                    (file_views(self.root_files@), file_views(q@)),
                ));
            }
            i = i + 1;
        }
        self.quarantined = Some(q);
        Ok(())
    }
}


/// One move back out of the quarantine: the entry lands at
/// `<target>/<name>`, overwriting a file already at that exact path.
pub open spec fn spec_restore_one(
    root: Seq<(Seq<u8>, Seq<u8>)>,
    name: Seq<u8>,
    content: Seq<u8>,
    target: Seq<u8>,
) -> Seq<(Seq<u8>, Seq<u8>)> {
    let p = target + seq![bytes::SLASH] + name;
    let i = spec_find_path(root, p);
    if i < 0 {
        root.push((p, content))
    } else {
        root.update(i, (p, content))
    }
}

/// The first `k` entries of the quarantine moved back under the target, in
/// order.
pub open spec fn spec_restore_steps(
    root: Seq<(Seq<u8>, Seq<u8>)>,
    q: Seq<(Seq<u8>, Seq<u8>)>,
    target: Seq<u8>,
    k: int,
) -> Seq<(Seq<u8>, Seq<u8>)>
    decreases k,
{
    if k <= 0 || k > q.len() {
        root
    } else {
        let pre = spec_restore_steps(root, q, target, k - 1);
        spec_restore_one(pre, q[k - 1].0, q[k - 1].1, target)
    }
}

/// The total size in bytes of the given files.
pub open spec fn spec_total_size(files: Seq<(Seq<u8>, Seq<u8>)>) -> int
    decreases files.len(),
{
    if files.len() == 0 {
        0
    } else {
        spec_total_size(files.drop_last()) + files.last().1.len()
    }
}

/// A total size is never negative.
proof fn lemma_total_size_nonneg(files: Seq<(Seq<u8>, Seq<u8>)>)
    ensures
        spec_total_size(files) >= 0,
    decreases files.len(),
{
    if files.len() > 0 {
        lemma_total_size_nonneg(files.drop_last());
    }
}

/// A prefix never outweighs the whole.
proof fn lemma_total_size_prefix(files: Seq<(Seq<u8>, Seq<u8>)>, k: int)
    requires
        0 <= k <= files.len(),
    ensures
        spec_total_size(files.subrange(0, k)) <= spec_total_size(files),
        k < files.len() ==> spec_total_size(files.subrange(0, k)) + files[k].1.len()
            <= spec_total_size(files),
    decreases files.len() - k,
{
    if k == files.len() {
        assert(files.subrange(0, k) =~= files);
    } else {
        lemma_total_size_prefix(files, k + 1);
        assert(files.subrange(0, k + 1).drop_last() =~= files.subrange(0, k));
        assert(files.subrange(0, k + 1).last() == files[k]);
        lemma_total_size_nonneg(files.subrange(0, k));
    }
}

impl QuarantineState {
    /// Quarantine Manager, restore: fails with `NotFound` if the
    /// quarantine directory does not exist; otherwise moves every entry
    /// back under the target by its file name, in order, overwriting a
    /// file already at that exact path, and removes the now-empty
    /// quarantine directory.
    pub fn restore_quarantined(&mut self, target: &Vec<u8>) -> (r: Result<(), DeduckError>)
        ensures
            old(self).quarantined is None ==> {
                &&& r == Result::<(), DeduckError>::Err(DeduckError::NotFound)
                &&& final(self).root_files == old(self).root_files
                &&& final(self).quarantined is None
            },
            old(self).quarantined is Some ==> {
                let qv = file_views(old(self).quarantined->Some_0@);
                &&& r is Ok
                &&& final(self).quarantined is None
                &&& file_views(final(self).root_files@) == spec_restore_steps(
                    file_views(old(self).root_files@),
                    qv,
                    target@,
                    qv.len() as int,
                )
            },
    {
        let ghost rv0 = file_views(self.root_files@);
        let mut taken: Option<Vec<StoredFile>> = None;
        core::mem::swap(&mut self.quarantined, &mut taken);
        let q: Vec<StoredFile> = match taken {
            Some(v) => v,
            None => {
                return Err(DeduckError::NotFound);
            },
        };
        let ghost qv = file_views(q@);
        let n = q.len();
        let mut i: usize = 0;
        while i < n
            invariant
                n == q@.len(),
                i <= n,
                qv == file_views(q@),
                rv0 == file_views(old(self).root_files@),
                self.quarantined is None,
                file_views(self.root_files@) == spec_restore_steps(rv0, qv, target@, i as int),
            decreases n - i,
        {
            let ghost before = file_views(self.root_files@);
            let p = bytes::join(target, &q[i].path);
            let content = bytes::copy_bytes(&q[i].content);
            proof {
                assert(qv[i as int].0 == q@[i as int].path@);
                assert(qv[i as int].1 == q@[i as int].content@);
            }
            match find_path_index(&self.root_files, &p) {
                Some(idx) => {
                    let replacement = StoredFile { path: p, content };
                    self.root_files.set(idx, replacement);
                    proof {
                        assert(file_views(self.root_files@) =~= before.update(
                            idx as int,
                            (target@ + seq![bytes::SLASH] + qv[i as int].0, qv[i as int].1),
                        ));
                    }
                },
                None => {
                    self.root_files.push(StoredFile { path: p, content });
                    proof {
                        assert(file_views(self.root_files@) =~= before.push(
                            (target@ + seq![bytes::SLASH] + qv[i as int].0, qv[i as int].1),
                        ));
                    }
                },
            }
            i = i + 1;
        }
        Ok(())
    }

    /// Quarantine Manager, purge: removes the quarantine directory and
    /// everything inside it, permanently; a no-op, not an error, if the
    /// directory does not exist. The root files are untouched.
    pub fn delete_quarantine_dir(&mut self)
        ensures
            *final(self) == spec_purge(*old(self)),
            final(self).root_files == old(self).root_files,
            final(self).quarantined is None,
            final(self).recoverable() == Seq::<(Seq<u8>, Seq<u8>)>::empty(),
    {
        self.quarantined = None;
        proof {
            assert(final(self).recoverable() =~= Seq::<(Seq<u8>, Seq<u8>)>::empty());
        }
    }

    /// Accounting for a purge: records one removal event per quarantined
    /// file, with its size and its path under the quarantine directory.
    /// A no-op if the quarantine directory does not exist.
    pub fn process_quarantined_files(&self, dir: &Vec<u8>, report: &mut Report)
        requires
            old(report).files_deleted + self.recoverable().len() <= usize::MAX,
            old(report).space_freed + spec_total_size(self.recoverable()) <= u64::MAX,
        ensures
            final(report).files_found == old(report).files_found,
            final(report).files_deleted == old(report).files_deleted
                + self.recoverable().len(),
            final(report).space_freed == old(report).space_freed + spec_total_size(
                self.recoverable(),
            ),
            final(report).deleted_files@.len() == old(report).deleted_files@.len()
                + self.recoverable().len(),
            forall|j: int| #![trigger final(report).deleted_files@[j]]
                0 <= j < old(report).deleted_files@.len()
                    ==> final(report).deleted_files@[j] == old(report).deleted_files@[j],
            forall|j: int| #![trigger self.recoverable()[j]]
                0 <= j < self.recoverable().len()
                    ==> (final(report).deleted_files@[old(report).deleted_files@.len() + j])@
                        == dir@ + seq![bytes::SLASH] + self.recoverable()[j].0,
    {
        let q: &Vec<StoredFile> = match &self.quarantined {
            Some(v) => v,
            None => {
                proof {
                    assert(self.recoverable() =~= Seq::<(Seq<u8>, Seq<u8>)>::empty());
                }
                return ;
            },
        };
        let ghost qv = file_views(q@);
        let ghost r0 = *report;
        let n = q.len();
        let mut i: usize = 0;
        while i < n
            invariant
                n == q@.len(),
                qv == file_views(q@),
                qv == self.recoverable(),
                i <= n,
                r0.files_deleted + qv.len() <= usize::MAX,
                r0.space_freed + spec_total_size(qv) <= u64::MAX,
                report.files_found == r0.files_found,
                report.files_deleted == r0.files_deleted + i,
                report.space_freed == r0.space_freed + spec_total_size(
                    qv.subrange(0, i as int),
                ),
                report.deleted_files@.len() == r0.deleted_files@.len() + i,
                forall|j: int|
                    0 <= j < r0.deleted_files@.len() ==> report.deleted_files@[j]
                        == r0.deleted_files@[j],
                forall|j: int|
                    0 <= j < i ==> (#[trigger] report.deleted_files@[r0.deleted_files@.len()
                        + j])@ == dir@ + seq![bytes::SLASH] + qv[j].0,
            decreases n - i,
        {
            let p = bytes::join(dir, &q[i].path);
            let size = q[i].content.len() as u64;
            proof {
                assert(qv[i as int].0 == q@[i as int].path@);
                assert(qv[i as int].1 == q@[i as int].content@);
                lemma_total_size_prefix(qv, i as int);
                lemma_total_size_nonneg(qv.subrange(0, i as int));
                assert(qv.subrange(0, i + 1).drop_last() =~= qv.subrange(0, i as int));
                assert(qv.subrange(0, i + 1).last() == qv[i as int]);
            }
            report.add_file(p, size);
            i = i + 1;
        }
        proof {
            assert(qv.subrange(0, n as int) =~= qv);
        }
    }

    /// The purge command: accounts for every quarantined file, removes the
    /// quarantine directory for good, and returns the report. Running it
    /// again when the directory is already gone is not an error: it
    /// reports zero removals.
    pub fn run_purge(&mut self, dir: &Vec<u8>) -> (report: Report)
        requires
            spec_total_size(old(self).recoverable()) <= u64::MAX,
            old(self).recoverable().len() <= usize::MAX,
        ensures
            final(self).root_files == old(self).root_files,
            final(self).quarantined is None,
            report.files_found == 0,
            report.files_deleted == old(self).recoverable().len(),
            report.space_freed == spec_total_size(old(self).recoverable()),
            report.deleted_files@.len() == old(self).recoverable().len(),
            forall|j: int|
                0 <= j < old(self).recoverable().len() ==> (#[trigger] report.deleted_files@[j])@
                    == dir@ + seq![bytes::SLASH] + spec_quarantine_dir_name() + seq![
                    bytes::SLASH,
                ] + old(self).recoverable()[j].0,
    {
        let qdir = get_quarantine_dir(dir);
        let mut report = Report::new();
        self.process_quarantined_files(&qdir, &mut report);
        self.delete_quarantine_dir();
        report
    }
}

/// Purging is idempotent: purging an already purged state changes
/// nothing, and in particular the second purge is not an error.
pub open spec fn spec_purge(s: QuarantineState) -> QuarantineState {
    QuarantineState { root_files: s.root_files, quarantined: Option::None }
}

/// Purge after quarantine leaves zero files recoverable and the
/// quarantine directory absent, whatever the quarantine step did.
pub proof fn lemma_purge_leaves_nothing(s: QuarantineState)
    ensures
        spec_purge(s).quarantined is None,
        spec_purge(s).recoverable() == Seq::<(Seq<u8>, Seq<u8>)>::empty(),
        spec_purge(s).root_files == s.root_files,
{
    assert(spec_purge(s).recoverable() =~= Seq::<(Seq<u8>, Seq<u8>)>::empty());
}

/// Purging twice is the same as purging once.
pub proof fn lemma_purge_idempotent(s: QuarantineState)
    ensures
        spec_purge(spec_purge(s)) == spec_purge(s),
{
}


/// The (file name, content) pairs of a sequence of files: what survives a
/// move that keys files by bare name.
pub open spec fn name_content(files: Seq<(Seq<u8>, Seq<u8>)>) -> Seq<(Seq<u8>, Seq<u8>)> {
    files.map_values(|f: (Seq<u8>, Seq<u8>)| (bytes::spec_file_name(f.0), f.1))
}

/// Pairwise distinct file names.
pub open spec fn distinct_names(files: Seq<(Seq<u8>, Seq<u8>)>) -> bool {
    forall|i: int, j: int|
        0 <= i < j < files.len() ==> bytes::spec_file_name((#[trigger] files[i]).0)
            != bytes::spec_file_name((#[trigger] files[j]).0)
}

/// Pairwise distinct first components.
pub open spec fn distinct_firsts(files: Seq<(Seq<u8>, Seq<u8>)>) -> bool {
    forall|i: int, j: int|
        0 <= i < j < files.len() ==> (#[trigger] files[i]).0 != (#[trigger] files[j]).0
}

/// Every first component is free of `/`: a bare file name.
pub open spec fn bare_names(files: Seq<(Seq<u8>, Seq<u8>)>) -> bool {
    forall|i: int, k: int|
        0 <= i < files.len() && 0 <= k < files[i].0.len() ==> #[trigger] files[i].0[k]
            != bytes::SLASH
}

/// No file name under the root coincides with a quarantined name.
pub open spec fn no_name_overlap(
    root: Seq<(Seq<u8>, Seq<u8>)>,
    q: Seq<(Seq<u8>, Seq<u8>)>,
) -> bool {
    forall|i: int, j: int|
        0 <= i < root.len() && 0 <= j < q.len() ==> bytes::spec_file_name(
            (#[trigger] root[i]).0,
        ) != (#[trigger] q[j]).0
}

/// A path is found exactly when some file bears it.
proof fn lemma_find_path_exists(files: Seq<(Seq<u8>, Seq<u8>)>, p: Seq<u8>)
    ensures
        spec_find_path(files, p) >= 0 <==> exists|i: int|
            0 <= i < files.len() && (#[trigger] files[i]).0 == p,
{
    lemma_find_path_props(files, p);
    if spec_find_path(files, p) >= 0 {
        let r = spec_find_path(files, p);
        assert(files[r].0 == p);
    }
}

/// A quarantine call whose paths are distinct, all present under the root,
/// and whose root files bear pairwise distinct names, succeeds move by
/// move; it keeps the (file name, content) pairs of root and quarantine
/// together unchanged, keeps names distinct, and never reuses a name.
proof fn lemma_quarantine_success(
    root: Seq<(Seq<u8>, Seq<u8>)>,
    paths: Seq<Seq<u8>>,
    k: int,
)
    requires
        distinct_names(root),
        forall|i: int, j: int| 0 <= i < j < paths.len() ==> paths[i] != paths[j],
        forall|j: int| 0 <= j < paths.len() ==> spec_find_path(root, #[trigger] paths[j]) >= 0,
        0 <= k <= paths.len(),
    ensures
        ({
            let out = spec_quarantine_steps(root, Seq::empty(), paths, k);
            &&& out.2
            &&& distinct_names(out.0)
            &&& distinct_firsts(out.1)
            &&& bare_names(out.1)
            &&& no_name_overlap(out.0, out.1)
            &&& name_content(out.0).to_multiset().add(name_content(out.1).to_multiset())
                == name_content(root).to_multiset()
            &&& forall|j: int|
                k <= j < paths.len() ==> spec_find_path(out.0, #[trigger] paths[j]) >= 0
        }),
    decreases k,
{
    broadcast use vstd::multiset::group_multiset_axioms;

    let empty_q = Seq::<(Seq<u8>, Seq<u8>)>::empty();
    if k == 0 {
        assert(name_content(empty_q) =~= Seq::<(Seq<u8>, Seq<u8>)>::empty());
        name_content(empty_q).to_multiset_ensures();
        assert(name_content(empty_q).to_multiset().len() == 0);
        assert(name_content(root).to_multiset().add(name_content(empty_q).to_multiset())
            =~= name_content(root).to_multiset());
    } else {
        lemma_quarantine_success(root, paths, k - 1);
        let pre = spec_quarantine_steps(root, empty_q, paths, k - 1);
        let p = paths[k - 1];
        let idx = spec_find_path(pre.0, p);
        assert(idx >= 0);
        lemma_find_path_props(pre.0, p);
        assert(pre.0[idx].0 == p);
        let name = bytes::spec_file_name(p);
        bytes::lemma_file_name_no_slash(p);
        // the name is still free in the quarantine
        assert(spec_find_path(pre.1, name) < 0) by {
            lemma_find_path_exists(pre.1, name);
            if spec_find_path(pre.1, name) >= 0 {
                let j = choose|j: int| 0 <= j < pre.1.len() && (#[trigger] pre.1[j]).0 == name;
                assert(bytes::spec_file_name(pre.0[idx].0) == pre.1[j].0);
                assert(false);
            }
        }
        let out = spec_quarantine_steps(root, empty_q, paths, k);
        assert(out.0 == pre.0.remove(idx));
        assert(out.1 == pre.1.push((name, pre.0[idx].1)));
        assert(out.2);
        // index bookkeeping for the removal
        assert(forall|j: int| 0 <= j < idx ==> out.0[j] == pre.0[j]);
        assert(forall|j: int| idx <= j < out.0.len() ==> out.0[j] == pre.0[j + 1]);
        // names stay distinct under the root
        assert forall|i1: int, i2: int| 0 <= i1 < i2 < out.0.len() implies bytes::spec_file_name(
            (#[trigger] out.0[i1]).0,
        ) != bytes::spec_file_name((#[trigger] out.0[i2]).0) by {
            let o1 = if i1 < idx { i1 } else { i1 + 1 };
            let o2 = if i2 < idx { i2 } else { i2 + 1 };
            assert(out.0[i1] == pre.0[o1] && out.0[i2] == pre.0[o2]);
        }
        // quarantined names stay distinct and bare
        assert forall|i1: int, i2: int| 0 <= i1 < i2 < out.1.len() implies (
        #[trigger] out.1[i1]).0 != (#[trigger] out.1[i2]).0 by {
            if i2 == out.1.len() - 1 {
                lemma_find_path_props(pre.1, name);
                assert(out.1[i1] == pre.1[i1]);
            }
        }
        assert forall|i: int, kk: int|
            0 <= i < out.1.len() && 0 <= kk < out.1[i].0.len() implies #[trigger] out.1[i].0[kk]
            != bytes::SLASH by {
            if i < out.1.len() - 1 {
                assert(out.1[i] == pre.1[i]);
                assert(pre.1[i].0[kk] != bytes::SLASH);
            } else {
                assert(out.1[i].0 == name);
            }
        }
        // no name moves back into overlap
        assert forall|i: int, j: int|
            0 <= i < out.0.len() && 0 <= j < out.1.len() implies bytes::spec_file_name(
            (#[trigger] out.0[i]).0,
        ) != (#[trigger] out.1[j]).0 by {
            let o = if i < idx { i } else { i + 1 };
            assert(out.0[i] == pre.0[o]);
            if j < out.1.len() - 1 {
                assert(out.1[j] == pre.1[j]);
            } else {
                assert(out.1[j].0 == name);
                assert(o != idx);
                assert(bytes::spec_file_name(pre.0[o].0) != bytes::spec_file_name(pre.0[idx].0));
            }
        }
        // the moved pair leaves one multiset and enters the other
        let x = (name, pre.0[idx].1);
        assert(name_content(pre.0)[idx] == x);
        assert(name_content(out.0) =~= name_content(pre.0).remove(idx));
        assert(name_content(out.1) =~= name_content(pre.1).push(x)) by {
            bytes::lemma_file_name_of_plain(name);
        }
        name_content(pre.0).to_multiset_ensures();
        name_content(pre.1).to_multiset_ensures();
        let m0 = name_content(pre.0).to_multiset();
        let m1 = name_content(pre.1).to_multiset();
        assert(name_content(out.0).to_multiset() == m0.remove(x));
        assert(name_content(out.1).to_multiset() == m1.insert(x));
        assert(name_content(pre.0).contains(x));
        assert(m0.count(x) > 0);
        assert(m0.remove(x).add(m1.insert(x)) =~= m0.add(m1));
        // later paths stay present
        assert forall|j: int| k <= j < paths.len() implies spec_find_path(
            out.0,
            #[trigger] paths[j],
        ) >= 0 by {
            lemma_find_path_exists(pre.0, paths[j]);
            let w = choose|w: int| 0 <= w < pre.0.len() && (#[trigger] pre.0[w]).0 == paths[j];
            assert(paths[j] != p);
            assert(w != idx);
            let w2 = if w < idx { w } else { w - 1 };
            assert(out.0[w2] == pre.0[w]);
            lemma_find_path_exists(out.0, paths[j]);
        }
    }
}

/// Restoring distinct, bare quarantined names whose names are free under
/// the root never overwrites: it adds exactly the quarantined (name,
/// content) pairs to the root's.
proof fn lemma_restore_keeps_pairs(
    root: Seq<(Seq<u8>, Seq<u8>)>,
    q: Seq<(Seq<u8>, Seq<u8>)>,
    target: Seq<u8>,
    k: int,
)
    requires
        bare_names(q),
        distinct_firsts(q),
        no_name_overlap(root, q),
        0 <= k <= q.len(),
    ensures
        ({
            let out = spec_restore_steps(root, q, target, k);
            &&& name_content(out).to_multiset() == name_content(root).to_multiset().add(
                name_content(q.subrange(0, k)).to_multiset(),
            )
            &&& forall|i: int, j: int|
                0 <= i < out.len() && k <= j < q.len() ==> bytes::spec_file_name(
                    (#[trigger] out[i]).0,
                ) != (#[trigger] q[j]).0
        }),
    decreases k,
{
    broadcast use vstd::multiset::group_multiset_axioms;

    if k == 0 {
        assert(q.subrange(0, 0) =~= Seq::<(Seq<u8>, Seq<u8>)>::empty());
        assert(name_content(q.subrange(0, 0)) =~= Seq::<(Seq<u8>, Seq<u8>)>::empty());
        name_content(q.subrange(0, 0)).to_multiset_ensures();
        assert(name_content(root).to_multiset().add(
            name_content(q.subrange(0, 0)).to_multiset(),
        ) =~= name_content(root).to_multiset());
    } else {
        lemma_restore_keeps_pairs(root, q, target, k - 1);
        let pre = spec_restore_steps(root, q, target, k - 1);
        let name = q[k - 1].0;
        let content = q[k - 1].1;
        let p = target + seq![bytes::SLASH] + name;
        assert forall|kk: int| 0 <= kk < name.len() implies name[kk] != bytes::SLASH by {
            assert(q[k - 1].0[kk] != bytes::SLASH);
        }
        bytes::lemma_file_name_of_join(target, name);
        // nothing already lives at the restored path
        assert(spec_find_path(pre, p) < 0) by {
            lemma_find_path_exists(pre, p);
            if spec_find_path(pre, p) >= 0 {
                let i = choose|i: int| 0 <= i < pre.len() && (#[trigger] pre[i]).0 == p;
                assert(bytes::spec_file_name(pre[i].0) == name);
                assert(bytes::spec_file_name(pre[i].0) != q[k - 1].0);
                assert(false);
            }
        }
        let out = spec_restore_steps(root, q, target, k);
        assert(out == pre.push((p, content)));
        let x = (name, content);
        assert(name_content(out) =~= name_content(pre).push(x));
        assert(q.subrange(0, k).drop_last() =~= q.subrange(0, k - 1));
        assert(q.subrange(0, k).last() == q[k - 1]);
        assert(name_content(q.subrange(0, k)) =~= name_content(q.subrange(0, k - 1)).push(
            (bytes::spec_file_name(q[k - 1].0), content),
        ));
        assert(bytes::spec_file_name(q[k - 1].0) == name) by {
            bytes::lemma_file_name_of_plain(name);
        }
        name_content(pre).to_multiset_ensures();
        name_content(q.subrange(0, k - 1)).to_multiset_ensures();
        let mr = name_content(root).to_multiset();
        let mp = name_content(pre).to_multiset();
        let mq = name_content(q.subrange(0, k - 1)).to_multiset();
        assert(name_content(out).to_multiset() == mp.insert(x));
        assert(name_content(q.subrange(0, k)).to_multiset() == mq.insert(x));
        assert(mp.insert(x) =~= mr.add(mq.insert(x)));
        // later names stay free
        assert forall|i: int, j: int|
            0 <= i < out.len() && k <= j < q.len() implies bytes::spec_file_name(
            (#[trigger] out[i]).0,
        ) != (#[trigger] q[j]).0 by {
            if i < out.len() - 1 {
                assert(out[i] == pre[i]);
                assert(bytes::spec_file_name(pre[i].0) != q[j].0);
            } else {
                assert(out[i].0 == p);
                assert(bytes::spec_file_name(out[i].0) == name);
                assert(q[k - 1].0 != q[j].0);
            }
        }
    }
}

/// Quarantine followed by restore is a round trip: when the root's file
/// names are pairwise distinct, the quarantine directory starts absent,
/// and the chosen paths are distinct and all present, every move
/// succeeds, and the set of (file name, content) pairs after restoring
/// equals the set before quarantining. The quarantine directory itself is
/// gone after the restore, which `restore_quarantined` ensures.
pub proof fn lemma_quarantine_restore_round_trip(
    root: Seq<(Seq<u8>, Seq<u8>)>,
    paths: Seq<Seq<u8>>,
    target: Seq<u8>,
)
    requires
        distinct_names(root),
        forall|i: int, j: int| 0 <= i < j < paths.len() ==> paths[i] != paths[j],
        forall|j: int| 0 <= j < paths.len() ==> spec_find_path(root, #[trigger] paths[j]) >= 0,
    ensures
        ({
            let out = spec_quarantine_steps(
                root,
                Seq::empty(),
                paths,
                paths.len() as int,
            );
            let back = spec_restore_steps(out.0, out.1, target, out.1.len() as int);
            &&& out.2
            &&& name_content(back).to_multiset() == name_content(root).to_multiset()
        }),
{
    lemma_quarantine_success(root, paths, paths.len() as int);
    let out = spec_quarantine_steps(root, Seq::empty(), paths, paths.len() as int);
    lemma_restore_keeps_pairs(out.0, out.1, target, out.1.len() as int);
    assert(out.1.subrange(0, out.1.len() as int) =~= out.1);
}

} // verus!


