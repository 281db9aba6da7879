//! What the scan records of each path: its size, whether it is a
//! directory, and for the largest entries their child count and date.
use vstd::prelude::*;

verus! {

/// The data kept for one scanned path.
pub struct Entry {
    /// Size in bytes; for a directory, the sum credited by its files.
    pub size: u64,
    pub is_dir: bool,
    /// Last modification time as `YYYY-MM-DD HH:MM`.
    pub mtime: Option<String>,
    /// Number of direct children.
    pub child_count: Option<u64>,
}

/// The characters of an optional string.
pub open spec fn opt_view(o: Option<String>) -> Option<Seq<char>> {
    match o {
        Some(s) => Some(s@),
        None => None,
    }
}

/// A copy of an optional string.
pub fn clone_opt(o: &Option<String>) -> (r: Option<String>)
    ensures
        opt_view(r) == opt_view(*o),
{
    match o {
        Some(s) => Some(s.clone()),
        None => None,
    }
}

impl Default for Entry {
    fn default() -> (e: Entry)
        ensures
            e.size == 0,
            !e.is_dir,
            e.mtime is None,
            e.child_count is None,
    {
        Entry { size: 0, is_dir: false, mtime: None, child_count: None }
    }
}

impl Entry {
    /// A copy of this entry.
    pub fn duplicate(&self) -> (e: Entry)
        ensures
            e.size == self.size,
            e.is_dir == self.is_dir,
            opt_view(e.mtime) == opt_view(self.mtime),
            e.child_count == self.child_count,
    {
        Entry { size: self.size, is_dir: self.is_dir, mtime: clone_opt(&self.mtime), child_count: self.child_count }
    }

    /// Records a scanned path itself: its kind, and for a file its size.
    pub fn record_scanned(&mut self, is_dir: bool, size: u64)
        ensures
            final(self).is_dir == is_dir,
            final(self).size == (if is_dir { old(self).size } else { size }),
            opt_view(final(self).mtime) == opt_view(old(self).mtime),
            final(self).child_count == old(self).child_count,
    {
        self.is_dir = is_dir;
        if !is_dir {
            self.size = size;
        }
    }

    /// Records a listed remote path: its kind, for a file its size, and its
    /// date.
    pub fn record_listed(&mut self, is_dir: bool, size: u64, mtime: String)
        ensures
            final(self).is_dir == is_dir,
            final(self).size == (if is_dir { old(self).size } else { size }),
            opt_view(final(self).mtime) == Some(mtime@),
            final(self).child_count == old(self).child_count,
    {
        self.record_scanned(is_dir, size);
        self.mtime = Some(mtime);
    }

    /// Credits a directory with the size of a file below it.
    pub fn credit(&mut self, size: u64)
        requires
            old(self).size + size <= u64::MAX,
        ensures
            final(self).size == old(self).size + size,
            final(self).is_dir,
            opt_view(final(self).mtime) == opt_view(old(self).mtime),
            final(self).child_count == old(self).child_count,
    {
        self.size = self.size + size;
        self.is_dir = true;
    }
}

} // verus!
