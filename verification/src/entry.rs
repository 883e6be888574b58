//! The immutable snapshot of one directory entry, and the scalar
//! configuration types a run is driven by.

use vstd::prelude::*;

verus! {

/// How transfers are performed: `Move` renames each entry into its bucket,
/// `Copy` duplicates its bytes and leaves the source in place.
#[derive(Clone, Copy, Debug, PartialEq, Eq, Structural)]
pub enum SplitMode {
    Copy,
    Move,
}

/// Which timestamp of an entry the date policy reads.
#[derive(Clone, Copy, Debug, PartialEq, Eq, Structural)]
pub enum DateField {
    Created,
    Accessed,
    Modified,
}

/// The time resolution a timestamp is truncated to for date bucketing.
#[derive(Clone, Copy, Debug, PartialEq, Eq, Structural)]
pub enum DateGranularity {
    Hour,
    Day,
    Month,
    Year,
}

/// Why a run was refused before any directory was created.
#[derive(Clone, Copy, Debug, PartialEq, Eq, Structural)]
pub enum SplitError {
    /// A zero limit, or an unrecognized unit, field or granularity token.
    InvalidPolicyParameter,
    /// The directory already holds no more entries than the count limit.
    NothingToDo,
    /// One entry alone exceeds the size limit, so it can never fit a bucket.
    EntryTooLarge,
}

/// Snapshot of one directory entry, taken once at listing time.  Timestamps
/// are seconds since the Unix epoch, UTC.
pub struct DirectoryEntry {
    pub name: String,
    pub is_directory: bool,
    pub size_bytes: u64,
    pub created: u64,
    pub accessed: u64,
    pub modified: u64,
}

impl DirectoryEntry {
    /// The timestamp the given date field selects.
    pub open spec fn spec_timestamp(&self, field: DateField) -> u64 {
        match field {
            DateField::Created => self.created,
            DateField::Accessed => self.accessed,
            DateField::Modified => self.modified,
        }
    }

    pub fn timestamp(&self, field: DateField) -> (t: u64)
        ensures
            t == self.spec_timestamp(field),
    {
        match field {
            DateField::Created => self.created,
            DateField::Accessed => self.accessed,
            DateField::Modified => self.modified,
        }
    }
}

impl Clone for DirectoryEntry {
    fn clone(&self) -> (res: Self)
        ensures
            res == *self,
    {
        DirectoryEntry {
            name: self.name.clone(),
            is_directory: self.is_directory,
            size_bytes: self.size_bytes,
            created: self.created,
            accessed: self.accessed,
            modified: self.modified,
        }
    }
}

/// Which entries a run organizes: everything listed, or regular entries
/// only when directories are ignored.
pub open spec fn kept(ignore_directories: bool) -> spec_fn(DirectoryEntry) -> bool {
    |e: DirectoryEntry| !(ignore_directories && e.is_directory)
}

/// Drops directory entries from the snapshot when `ignore_directories` is
/// set; otherwise returns the snapshot unchanged.
pub fn filter_entries(entries: &Vec<DirectoryEntry>, ignore_directories: bool) -> (r: Vec<
    DirectoryEntry,
>)
    ensures
        r@ == entries@.filter(kept(ignore_directories)),
{
    let mut r: Vec<DirectoryEntry> = Vec::new();
    let mut i: usize = 0;
    proof {
        assert(entries@.take(0) =~= Seq::<DirectoryEntry>::empty());
        reveal(Seq::filter);
    }
    while i < entries.len()
        invariant
            i <= entries@.len(),
            r@ == entries@.take(i as int).filter(kept(ignore_directories)),
        decreases entries@.len() - i,
    {
        proof {
            reveal(Seq::filter);
            assert(entries@.take(i + 1).drop_last() =~= entries@.take(i as int));
            assert(entries@.take(i + 1).last() == entries@[i as int]);
        }
        if !(ignore_directories && entries[i].is_directory) {
            r.push(entries[i].clone());
        }
        i = i + 1;
    }
    proof {
        assert(entries@.take(entries@.len() as int) =~= entries@);
    }
    r
}

} // verus!
