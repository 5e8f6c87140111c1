use vstd::prelude::*;

use crate::bytes;
use crate::errors::DeduckError;

verus! {

/// One entry of a directory traversal, as the walker reports it: its path,
/// its size in bytes, and whether its type resolved to a regular file.
pub struct FsEntry {
    pub path: Vec<u8>,
    pub size: u64,
    pub is_file: bool,
}

/// A regular file found beneath the root: its path, its size in bytes, and
/// its extension, lower-cased, if its file name has one.
#[derive(Debug)]
pub struct FileRecord {
    pub path: Vec<u8>,
    pub size: u64,
    pub ext: Option<Vec<u8>>,
}

impl FileRecord {
    /// The extension field as a sequence, if present.
    pub open spec fn ext_view(self) -> Option<Seq<u8>> {
        match self.ext {
            Some(e) => Some(e@),
            None => None,
        }
    }

    /// The extension field agrees with the record's own path.
    pub open spec fn wf(self) -> bool {
        self.ext_view() == bytes::spec_extension(self.path@)
    }
}

/// A record for a regular file of the given path and size.
pub fn make_record(path: Vec<u8>, size: u64) -> (r: FileRecord)
    ensures
        r.path@ == path@,
        r.size == size,
        r.wf(),
{
    let ext = bytes::extension(&path);
    FileRecord { path, size, ext }
}

/// The entries of a traversal whose type resolved to a regular file, in
/// traversal order.
pub open spec fn spec_files(entries: Seq<FsEntry>) -> Seq<FsEntry>
    decreases entries.len(),
{
    if entries.len() == 0 {
        entries
    } else if entries.last().is_file {
        spec_files(entries.drop_last()).push(entries.last())
    } else {
        spec_files(entries.drop_last())
    }
}

/// The records mirror the given entries, one per entry, in order.
pub open spec fn records_match(recs: Seq<FileRecord>, files: Seq<FsEntry>) -> bool {
    &&& recs.len() == files.len()
    &&& forall|i: int|
        0 <= i < recs.len() ==> {
            &&& (#[trigger] recs[i]).path@ == files[i].path@
            &&& recs[i].size == files[i].size
            &&& recs[i].wf()
        }
}

/// Scanner: turns a directory traversal into file records. Fails with
/// `NotFound` if the root does not exist; otherwise yields one record per
/// entry whose type resolved to a regular file, keeping traversal order.
/// Directories, symlinked non-files and other entries are skipped.
pub fn scan_directory(root_exists: bool, entries: &Vec<FsEntry>) -> (r: Result<
    Vec<FileRecord>,
    DeduckError,
>)
    ensures
        !root_exists ==> r == Result::<Vec<FileRecord>, DeduckError>::Err(DeduckError::NotFound),
        root_exists ==> {
            &&& r is Ok
            &&& records_match(r->Ok_0@, spec_files(entries@))
        },
{
    if !root_exists {
        return Err(DeduckError::NotFound);
    }
    let n = entries.len();
    let mut recs: Vec<FileRecord> = Vec::new();
    let mut i: usize = 0;
    while i < n
        invariant
            n == entries@.len(),
            i <= n,
            records_match(recs@, spec_files(entries@.subrange(0, i as int))),
        decreases n - i,
    {
        if entries[i].is_file {
            let path = bytes::copy_bytes(&entries[i].path);
            let rec = make_record(path, entries[i].size);
            recs.push(rec);
        }
        i = i + 1;
        proof {
            assert(entries@.subrange(0, i as int).drop_last() =~= entries@.subrange(0, i - 1));
            assert(entries@.subrange(0, i as int).last() == entries@[i - 1]);
        }
    }
    proof {
        assert(entries@.subrange(0, n as int) =~= entries@);
    }
    Ok(recs)
}

} // verus!
