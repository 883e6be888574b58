//! The placement driver: turns a bucket assignment into a sequence of
//! filesystem steps and tracks how far a run got.
//!
//! The library performs no filesystem access itself.  The caller asks for
//! the next action, performs it (create a directory, rename or copy one
//! entry), and reports the outcome.  On the first failure the run aborts:
//! no further action is ever issued, already-created directories and
//! already-moved entries stay as they are, and the report says which
//! transfers completed and where the run stopped.

use vstd::prelude::*;
use crate::assign::Bucket;
use crate::entry::SplitMode;

verus! {

/// Why a run aborted during placement.
#[derive(Clone, Copy, Debug, PartialEq, Eq, Structural)]
pub enum PlacementError {
    /// The destination directory of this bucket already existed; it was
    /// not merged into.
    DestinationExists { bucket: usize },
    /// Transferring this entry of this bucket failed.
    TransferFailed { bucket: usize, entry: usize },
}

/// The next filesystem step the caller must perform.
#[derive(Clone, Copy, Debug, PartialEq, Eq, Structural)]
pub enum Action {
    /// Create the destination directory of this bucket; fail the step if
    /// the path already exists.
    CreateDir { bucket: usize },
    /// Transfer this entry of this bucket into the bucket's directory:
    /// rename when `copy` is false, duplicate bytes and keep the source
    /// when `copy` is true.
    Transfer { bucket: usize, entry: usize, copy: bool },
    /// Nothing is left to do: the run completed or aborted.
    Finished,
}

/// What a run reports: the transfers that completed, in order, and the
/// failure that stopped it, if one did.
pub struct PlacementReport {
    pub completed: Vec<(usize, usize)>,
    pub failure: Option<PlacementError>,
}

/// The (bucket, entry) pairs of the first `n` entries of bucket `b`.
pub open spec fn bucket_pairs(b: int, n: int) -> Seq<(usize, usize)> {
    Seq::new(n as nat, |i: int| (b as usize, i as usize))
}

/// The (bucket, entry) pairs of every entry of the first `b` buckets.
pub open spec fn pairs_before(bs: Seq<Bucket>, b: int) -> Seq<(usize, usize)>
    decreases b,
{
    if b <= 0 {
        Seq::empty()
    } else {
        pairs_before(bs, b - 1) + bucket_pairs(b - 1, bs[b - 1].entries@.len() as int)
    }
}

/// Drives one placement run, bucket by bucket, entry by entry.
pub struct PlacementRun {
    pub buckets: Vec<Bucket>,
    pub mode: SplitMode,
    pub bucket_idx: usize,
    pub entry_idx: usize,
    pub dir_created: bool,
    pub failure: Option<PlacementError>,
}

impl PlacementRun {
    /// The driver's position is inside the assignment, and a bucket is
    /// only open while entries of it remain.
    pub open spec fn wf(&self) -> bool {
        &&& self.bucket_idx <= self.buckets@.len()
        &&& !self.dir_created ==> self.entry_idx == 0
        &&& self.dir_created ==> self.bucket_idx < self.buckets@.len() && self.entry_idx
            < self.buckets@[self.bucket_idx as int].entries@.len()
    }

    /// The transfers completed so far, in the order they were performed.
    pub open spec fn completed_pairs(&self) -> Seq<(usize, usize)> {
        pairs_before(self.buckets@, self.bucket_idx as int) + bucket_pairs(
            self.bucket_idx as int,
            self.entry_idx as int,
        )
    }

    /// The step the caller must perform next.
    pub open spec fn spec_next_action(&self) -> Action {
        if self.failure is Some || self.bucket_idx == self.buckets@.len() {
            Action::Finished
        } else if !self.dir_created {
            Action::CreateDir { bucket: self.bucket_idx }
        } else {
            Action::Transfer {
                bucket: self.bucket_idx,
                entry: self.entry_idx,
                copy: self.mode is Copy,
            }
        }
    }

    /// Starts a run over an assignment.
    pub fn new(buckets: Vec<Bucket>, mode: SplitMode) -> (r: PlacementRun)
        ensures
            r == (PlacementRun {
                buckets,
                mode,
                bucket_idx: 0,
                entry_idx: 0,
                dir_created: false,
                failure: None,
            }),
            r.wf(),
            r.completed_pairs() == Seq::<(usize, usize)>::empty(),
    {
        let r = PlacementRun {
            buckets,
            mode,
            bucket_idx: 0,
            entry_idx: 0,
            dir_created: false,
            failure: None,
        };
        proof {
            assert(r.completed_pairs() =~= Seq::<(usize, usize)>::empty());
        }
        r
    }

    pub fn next_action(&self) -> (a: Action)
        requires
            self.wf(),
        ensures
            a == self.spec_next_action(),
    {
        if self.failure.is_some() || self.bucket_idx == self.buckets.len() {
            Action::Finished
        } else if !self.dir_created {
            Action::CreateDir { bucket: self.bucket_idx }
        } else {
            Action::Transfer {
                bucket: self.bucket_idx,
                entry: self.entry_idx,
                copy: match self.mode {
                    SplitMode::Copy => true,
                    SplitMode::Move => false,
                },
            }
        }
    }

    /// Steps past finished buckets: closes the open bucket once its last
    /// entry is transferred, and skips buckets with no entries.
    fn advance(&mut self)
        requires
            old(self).bucket_idx < old(self).buckets@.len(),
            old(self).entry_idx <= old(self).buckets@[old(self).bucket_idx as int].entries@.len(),
            old(self).dir_created,
        ensures
            final(self).buckets == old(self).buckets,
            final(self).mode == old(self).mode,
            final(self).failure == old(self).failure,
            final(self).wf(),
            final(self).completed_pairs() == old(self).completed_pairs(),
            old(self).entry_idx < old(self).buckets@[old(self).bucket_idx as int].entries@.len()
                ==> *final(self) == *old(self),
            old(self).entry_idx == old(self).buckets@[old(self).bucket_idx as int].entries@.len()
                ==> final(self).bucket_idx == old(self).bucket_idx + 1 && !final(self).dir_created
                && final(self).entry_idx == 0,
    {
        let nbuckets = self.buckets.len();
        if self.entry_idx == self.buckets[self.bucket_idx].entries.len() {
            let ghost before = *self;
            self.bucket_idx = self.bucket_idx + 1;
            self.entry_idx = 0;
            self.dir_created = false;
            proof {
                assert(pairs_before(self.buckets@, self.bucket_idx as int) == pairs_before(
                    before.buckets@,
                    before.bucket_idx as int,
                ) + bucket_pairs(
                    before.bucket_idx as int,
                    before.buckets@[before.bucket_idx as int].entries@.len() as int,
                ));
                assert(bucket_pairs(self.bucket_idx as int, 0) =~= Seq::<(usize, usize)>::empty());
                assert(self.completed_pairs() =~= before.completed_pairs());
            }
        }
    }

    /// The caller created the open bucket's directory.
    pub fn note_dir_created(&mut self)
        requires
            old(self).wf(),
            old(self).spec_next_action() matches Action::CreateDir { .. },
        ensures
            final(self).wf(),
            final(self).buckets == old(self).buckets,
            final(self).mode == old(self).mode,
            final(self).failure == old(self).failure,
            final(self).completed_pairs() == old(self).completed_pairs(),
            old(self).buckets@[old(self).bucket_idx as int].entries@.len() > 0
                ==> final(self).bucket_idx == old(self).bucket_idx
                && final(self).entry_idx == 0 && final(self).dir_created,
            old(self).buckets@[old(self).bucket_idx as int].entries@.len() == 0
                ==> final(self).bucket_idx == old(self).bucket_idx + 1
                && !final(self).dir_created,
    {
        self.dir_created = true;
        self.advance();
    }

    /// The caller found the open bucket's destination already existing:
    /// the run aborts and no further action is issued.
    pub fn note_dir_exists(&mut self)
        requires
            old(self).wf(),
            old(self).spec_next_action() matches Action::CreateDir { .. },
        ensures
            final(self).wf(),
            final(self).failure == Some(
                PlacementError::DestinationExists { bucket: old(self).bucket_idx },
            ),
            final(self).buckets == old(self).buckets,
            final(self).mode == old(self).mode,
            final(self).bucket_idx == old(self).bucket_idx,
            final(self).entry_idx == old(self).entry_idx,
            final(self).dir_created == old(self).dir_created,
            final(self).completed_pairs() == old(self).completed_pairs(),
            final(self).spec_next_action() is Finished,
    {
        self.failure = Some(PlacementError::DestinationExists { bucket: self.bucket_idx });
    }

    /// The caller transferred the current entry into the open bucket.
    pub fn note_transfer_done(&mut self)
        requires
            old(self).wf(),
            old(self).spec_next_action() matches Action::Transfer { .. },
        ensures
            final(self).wf(),
            final(self).buckets == old(self).buckets,
            final(self).mode == old(self).mode,
            final(self).failure == old(self).failure,
            final(self).completed_pairs() == old(self).completed_pairs().push(
                (old(self).bucket_idx, old(self).entry_idx),
            ),
    {
        let ghost before = *self;
        let nentries = self.buckets[self.bucket_idx].entries.len();
        self.entry_idx = self.entry_idx + 1;
        proof {
            assert(bucket_pairs(self.bucket_idx as int, self.entry_idx as int) =~= bucket_pairs(
                before.bucket_idx as int,
                before.entry_idx as int,
            ).push((before.bucket_idx, before.entry_idx)));
            assert(self.completed_pairs() =~= before.completed_pairs().push(
                (before.bucket_idx, before.entry_idx),
            ));
        }
        self.advance();
    }

    /// The caller could not transfer the current entry: the run aborts
    /// and no further action is issued.
    pub fn note_transfer_failed(&mut self)
        requires
            old(self).wf(),
            old(self).spec_next_action() matches Action::Transfer { .. },
        ensures
            final(self).wf(),
            final(self).failure == Some(
                PlacementError::TransferFailed {
                    bucket: old(self).bucket_idx,
                    entry: old(self).entry_idx,
                },
            ),
            final(self).buckets == old(self).buckets,
            final(self).mode == old(self).mode,
            final(self).bucket_idx == old(self).bucket_idx,
            final(self).entry_idx == old(self).entry_idx,
            final(self).dir_created == old(self).dir_created,
            final(self).completed_pairs() == old(self).completed_pairs(),
            final(self).spec_next_action() is Finished,
    {
        self.failure = Some(
            PlacementError::TransferFailed { bucket: self.bucket_idx, entry: self.entry_idx },
        );
    }

    /// What happened: every completed transfer in order, and the failure
    /// if the run aborted.
    pub fn report(&self) -> (r: PlacementReport)
        requires
            self.wf(),
        ensures
            r.completed@ == self.completed_pairs(),
            r.failure == self.failure,
    {
        let mut completed: Vec<(usize, usize)> = Vec::new();
        let mut b: usize = 0;
        proof {
            assert(completed@ =~= pairs_before(self.buckets@, 0) + bucket_pairs(0, 0));
        }
        while b < self.bucket_idx
            invariant
                b <= self.bucket_idx,
                self.wf(),
                completed@ == pairs_before(self.buckets@, b as int) + bucket_pairs(b as int, 0),
            decreases self.bucket_idx - b,
        {
            let n = self.buckets[b].entries.len();
            let mut e: usize = 0;
            while e < n
                invariant
                    e <= n,
                    b < self.buckets@.len(),
                    n == self.buckets@[b as int].entries@.len(),
                    completed@ == pairs_before(self.buckets@, b as int) + bucket_pairs(
                        b as int,
                        e as int,
                    ),
                decreases n - e,
            {
                completed.push((b, e));
                proof {
                    assert(pairs_before(self.buckets@, b as int) + bucket_pairs(b as int, e + 1)
                        =~= (pairs_before(self.buckets@, b as int) + bucket_pairs(
                        b as int,
                        e as int,
                    )).push((b, e)));
                }
                e = e + 1;
            }
            proof {
                assert(pairs_before(self.buckets@, b + 1) == pairs_before(self.buckets@, b as int)
                    + bucket_pairs(b as int, n as int));
                assert(pairs_before(self.buckets@, b + 1) + bucket_pairs(b + 1, 0) =~= pairs_before(
                    self.buckets@,
                    b as int,
                ) + bucket_pairs(b as int, n as int));
            }
            b = b + 1;
        }
        let mut e: usize = 0;
        while e < self.entry_idx
            invariant
                e <= self.entry_idx,
                self.wf(),
                completed@ == pairs_before(self.buckets@, self.bucket_idx as int) + bucket_pairs(
                    self.bucket_idx as int,
                    e as int,
                ),
            decreases self.entry_idx - e,
        {
            completed.push((self.bucket_idx, e));
            proof {
                assert(pairs_before(self.buckets@, self.bucket_idx as int) + bucket_pairs(
                    self.bucket_idx as int,
                    e + 1,
                ) =~= (pairs_before(self.buckets@, self.bucket_idx as int) + bucket_pairs(
                    self.bucket_idx as int,
                    e as int,
                )).push((self.bucket_idx, e)));
            }
            e = e + 1;
        }
        let failure = match &self.failure {
            Some(f) => Some(*f),
            None => None,
        };
        PlacementReport { completed, failure }
    }
}

/// Once a run has aborted it issues no further action: no directory is
/// created and no entry is moved after a failure.
pub proof fn lemma_aborted_run_is_finished(p: PlacementRun)
    requires
        p.failure is Some,
    ensures
        p.spec_next_action() is Finished,
{
}

/// In copy mode every transfer the driver asks for is a copy: no issued
/// step removes a source entry.
pub proof fn lemma_copy_mode_never_moves(p: PlacementRun)
    requires
        p.mode is Copy,
    ensures
        p.spec_next_action() matches Action::Transfer { copy, .. } ==> copy,
{
}

/// In move mode every transfer the driver asks for is a rename: no source
/// entry is left behind by an issued step.
pub proof fn lemma_move_mode_never_copies(p: PlacementRun)
    requires
        p.mode is Move,
    ensures
        p.spec_next_action() matches Action::Transfer { copy, .. } ==> !copy,
{
}

/// A run that worked through every bucket completed exactly the transfers
/// of the whole assignment.
pub proof fn lemma_complete_run_covers(p: PlacementRun)
    requires
        p.wf(),
        p.failure is None,
        p.bucket_idx == p.buckets@.len(),
    ensures
        p.completed_pairs() == pairs_before(p.buckets@, p.buckets@.len() as int),
{
    assert(bucket_pairs(p.bucket_idx as int, 0) =~= Seq::<(usize, usize)>::empty());
    assert(p.completed_pairs() =~= pairs_before(p.buckets@, p.buckets@.len() as int));
}

/// The transfers of a whole assignment name each entry of each bucket
/// exactly once: every pair is a real position, every position occurs,
/// and no pair repeats.
pub proof fn lemma_pairs_exact(bs: Seq<Bucket>, b: int)
    requires
        0 <= b <= bs.len(),
        bs.len() <= usize::MAX,
        forall|i: int| 0 <= i < bs.len() ==> (#[trigger] bs[i]).entries@.len() <= usize::MAX,
    ensures
        forall|i: int|
            0 <= i < pairs_before(bs, b).len() ==> ((#[trigger] pairs_before(bs, b)[i]).0 as int)
                < b && (pairs_before(bs, b)[i].1 as int) < bs[pairs_before(
                bs,
                b,
            )[i].0 as int].entries@.len(),
        forall|bb: usize, ee: usize|
            (bb as int) < b && (ee as int) < bs[bb as int].entries@.len() ==> #[trigger]
            pairs_before(bs, b).contains((bb, ee)),
        forall|i: int, j: int|
            0 <= i < j < pairs_before(bs, b).len() ==> pairs_before(bs, b)[i] != pairs_before(
                bs,
                b,
            )[j],
    decreases b,
{
    if b > 0 {
        lemma_pairs_exact(bs, b - 1);
        let prev = pairs_before(bs, b - 1);
        let n = bs[b - 1].entries@.len() as int;
        let ps = pairs_before(bs, b);
        assert(ps == prev + bucket_pairs(b - 1, n));
        assert forall|i: int| 0 <= i < ps.len() implies ((#[trigger] ps[i]).0 as int) < b && (
        ps[i].1 as int) < bs[ps[i].0 as int].entries@.len() by {
            if i < prev.len() {
                assert(ps[i] == prev[i]);
            } else {
                assert(ps[i] == bucket_pairs(b - 1, n)[i - prev.len()]);
            }
        }
        assert forall|bb: usize, ee: usize|
            (bb as int) < b && (ee as int) < bs[bb as int].entries@.len() implies #[trigger]
        ps.contains((bb, ee)) by {
            if (bb as int) < b - 1 {
                assert(prev.contains((bb, ee)));
                let i = choose|i: int| 0 <= i < prev.len() && prev[i] == (bb, ee);
                assert(ps[i] == (bb, ee));
            } else {
                assert(bucket_pairs(b - 1, n)[ee as int] == (bb, ee));
                assert(ps[prev.len() + ee] == (bb, ee));
            }
        }
        assert forall|i: int, j: int| 0 <= i < j < ps.len() implies ps[i] != ps[j] by {
            if j < prev.len() {
                assert(prev[i] != prev[j]);
            } else if i >= prev.len() {
                assert(ps[i] == bucket_pairs(b - 1, n)[i - prev.len()]);
                assert(ps[j] == bucket_pairs(b - 1, n)[j - prev.len()]);
            } else {
                assert(ps[i] == prev[i]);
                assert(ps[j] == bucket_pairs(b - 1, n)[j - prev.len()]);
                assert((prev[i].0 as int) < b - 1);
            }
        }
    }
}

} // verus!
