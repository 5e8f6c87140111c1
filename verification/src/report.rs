use vstd::prelude::*;

verus! {

/// Accounting report: a pure accumulator of (path, size) removal events,
/// plus the count of files found by scanning. It never touches the
/// filesystem; callers feed it as side effects occur.
pub struct Report {
    /// Files seen by the scanner before any filtering.
    pub files_found: usize,
    /// Removal events recorded so far.
    pub files_deleted: usize,
    /// Total size in bytes of the recorded removals.
    pub space_freed: u64,
    /// Paths of the recorded removals, in the order they were recorded.
    pub deleted_files: Vec<Vec<u8>>,
}

impl Report {
    /// An empty report: no files found, nothing removed.
    pub fn new() -> (r: Report)
        ensures
            r.files_found == 0,
            r.files_deleted == 0,
            r.space_freed == 0,
            r.deleted_files@ == Seq::<Vec<u8>>::empty(),
    {
        Report { files_found: 0, files_deleted: 0, space_freed: 0, deleted_files: Vec::new() }
    }

    /// Records one removal: bumps the count, adds the size, appends the path.
    pub fn add_file(&mut self, path: Vec<u8>, size: u64)
        requires
            old(self).files_deleted < usize::MAX,
            old(self).space_freed + size <= u64::MAX,
        ensures
            final(self).files_found == old(self).files_found,
            final(self).files_deleted == old(self).files_deleted + 1,
            final(self).space_freed == old(self).space_freed + size,
            final(self).deleted_files@ == old(self).deleted_files@.push(path),
    {
        self.files_deleted = self.files_deleted + 1;
        self.space_freed = self.space_freed + size;
        self.deleted_files.push(path);
    }

    /// Records how many files the scan found, overwriting any earlier count.
    pub fn set_files_found(&mut self, count: usize)
        ensures
            final(self).files_found == count,
            final(self).files_deleted == old(self).files_deleted,
            final(self).space_freed == old(self).space_freed,
            final(self).deleted_files@ == old(self).deleted_files@,
    {
        self.files_found = count;
    }
}

impl Default for Report {
    /// Same as `Report::new`: an empty report.
    fn default() -> (r: Report)
        ensures
            r.files_found == 0,
            r.files_deleted == 0,
            r.space_freed == 0,
            r.deleted_files@ == Seq::<Vec<u8>>::empty(),
    {
        Report::new()
    }
}

} // verus!
