//! Counters of what the tables of a version hold.

use vstd::prelude::*;

verus! {

/// What one edit adds to or takes from the counters of a version: the bytes
/// on disk and the number of entries of the tables it names.
#[derive(Clone, Copy, Debug, PartialEq, Eq, Structural)]
pub struct TableMeta {
    pub size_of_disk: u64,
    pub len: usize,
}

impl Default for TableMeta {
    fn default() -> (r: Self)
        ensures
            r == (TableMeta { size_of_disk: 0, len: 0 }),
    {
        TableMeta { size_of_disk: 0, len: 0 }
    }
}

/// The counters of a version: bytes on disk and entries over all its tables.
#[derive(Clone, Copy, Debug, PartialEq, Eq, Structural)]
pub struct VersionMeta {
    pub size_of_disk: u64,
    pub len: usize,
}

impl VersionMeta {
    /// The counters after tables described by `meta` were added, if both
    /// still fit their types.
    pub open spec fn plus(self, meta: TableMeta) -> Option<VersionMeta> {
        if self.size_of_disk + meta.size_of_disk <= u64::MAX && self.len + meta.len <= usize::MAX {
            Some(
                VersionMeta {
                    size_of_disk: (self.size_of_disk + meta.size_of_disk) as u64,
                    len: (self.len + meta.len) as usize,
                },
            )
        } else {
            None
        }
    }

    /// The counters after tables described by `meta` were taken away, if
    /// neither falls below zero.
    pub open spec fn minus(self, meta: TableMeta) -> Option<VersionMeta> {
        if meta.size_of_disk <= self.size_of_disk && meta.len <= self.len {
            Some(
                VersionMeta {
                    size_of_disk: (self.size_of_disk - meta.size_of_disk) as u64,
                    len: (self.len - meta.len) as usize,
                },
            )
        } else {
            None
        }
    }

    /// Adds the counters of new tables; `None` where a counter would
    /// overflow.
    pub fn added(&self, meta: &TableMeta) -> (r: Option<VersionMeta>)
        ensures
            r == self.plus(*meta),
    {
        match self.size_of_disk.checked_add(meta.size_of_disk) {
            Some(size_of_disk) => match self.len.checked_add(meta.len) {
                Some(len) => Some(VersionMeta { size_of_disk, len }),
                None => None,
            },
            None => None,
        }
    }

    /// Takes away the counters of deleted tables; `None` where a counter
    /// would fall below zero.
    pub fn removed(&self, meta: &TableMeta) -> (r: Option<VersionMeta>)
        ensures
            r == self.minus(*meta),
    {
        match self.size_of_disk.checked_sub(meta.size_of_disk) {
            Some(size_of_disk) => match self.len.checked_sub(meta.len) {
                Some(len) => Some(VersionMeta { size_of_disk, len }),
                None => None,
            },
            None => None,
        }
    }
}

} // verus!
