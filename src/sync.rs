use vstd::prelude::*;

verus! {

/// Nanoseconds in one minute: two timestamps closer than this are treated as
/// the same moment.
pub const TOLERANCE_NANOS: i128 = 60_000_000_000;

/// A point in time, as nanoseconds since the Unix epoch (UTC).
#[derive(Clone, Copy, PartialEq, Eq, Structural, PartialOrd, Ord, Hash, Debug)]
pub struct Timestamp {
    pub unix_nanos: i128,
}

/// Mode for synchronizing between local and remote.
#[derive(Clone, Copy, PartialEq, Eq, Structural, Hash, Debug)]
pub enum SyncMode {
    /// Push if local is newer, pull if remote is newer.
    Sync,
    /// Only push, and only if newer.
    Push,
    /// Only pull, and only if newer.
    Pull,
    /// Always push.
    PushAlways,
    /// Always pull.
    PullAlways,
}

impl Default for SyncMode {
    /// Push if local is newer, pull if remote is newer.
    fn default() -> (r: SyncMode)
        ensures
            r == SyncMode::Sync,
    {
        SyncMode::Sync
    }
}

/// Why a unit is left alone.
#[derive(Clone, Copy, PartialEq, Eq, Structural, PartialOrd, Ord, Hash, Debug)]
pub enum SkipReason {
    Unchanged,
    PullDisabled,
    NothingToPull,
    PushDisabled,
    NothingToPush,
    NotFound,
}

impl SkipReason {
    /// The reason as it is shown to the user.
    pub fn as_str(&self) -> (r: &'static str)
        ensures
            r@ == self.text(),
    {
        proof {
            reveal_strlit("unchanged");
            reveal_strlit("pull disabled");
            reveal_strlit("nothing to pull");
            reveal_strlit("push disabled");
            reveal_strlit("nothing to push");
            reveal_strlit("not found");
        }
        match self {
            SkipReason::Unchanged => "unchanged",
            SkipReason::PullDisabled => "pull disabled",
            SkipReason::NothingToPull => "nothing to pull",
            SkipReason::PushDisabled => "push disabled",
            SkipReason::NothingToPush => "nothing to push",
            SkipReason::NotFound => "not found",
        }
    }

    pub open spec fn text(&self) -> Seq<char> {
        match self {
            SkipReason::Unchanged => "unchanged"@,
            SkipReason::PullDisabled => "pull disabled"@,
            SkipReason::NothingToPull => "nothing to pull"@,
            SkipReason::PushDisabled => "push disabled"@,
            SkipReason::NothingToPush => "nothing to push"@,
            SkipReason::NotFound => "not found"@,
        }
    }
}

/// The outcome of reconciliation for one unit, without its payload: push or
/// pull with the timestamp that the transfer carries, or skip with a reason.
#[derive(Clone, Copy, PartialEq, Eq, Structural, Debug)]
pub enum Choice {
    Push(Timestamp),
    Pull(Timestamp),
    Skip(SkipReason),
}

/// `a` and `b` lie less than a minute apart.
pub open spec fn close_in_time(a: Timestamp, b: Timestamp) -> bool {
    -TOLERANCE_NANOS < a.unix_nanos - b.unix_nanos < TOLERANCE_NANOS
}

/// The reconciliation table: what to do with one unit under `mode`, given
/// when each side was last modified (`None` where the side is absent).
pub open spec fn decision(mode: SyncMode, local: Option<Timestamp>, remote: Option<Timestamp>) -> Choice {
    match (local, remote) {
        (Some(l), Some(r)) => if close_in_time(l, r) {
            match mode {
                SyncMode::PushAlways => Choice::Push(l),
                SyncMode::PullAlways => Choice::Pull(l),
                _ => Choice::Skip(SkipReason::Unchanged),
            }
        } else if l.unix_nanos > r.unix_nanos {
            match mode {
                SyncMode::Pull => Choice::Skip(SkipReason::PullDisabled),
                SyncMode::PullAlways => Choice::Pull(r),
                _ => Choice::Push(l),
            }
        } else {
            match mode {
                SyncMode::Push => Choice::Skip(SkipReason::PushDisabled),
                SyncMode::PushAlways => Choice::Push(l),
                _ => Choice::Pull(r),
            }
        },
        (Some(l), None) => match mode {
            SyncMode::Pull => Choice::Skip(SkipReason::PullDisabled),
            SyncMode::PullAlways => Choice::Skip(SkipReason::NothingToPull),
            _ => Choice::Push(l),
        },
        (None, Some(r)) => match mode {
            SyncMode::Push => Choice::Skip(SkipReason::PushDisabled),
            SyncMode::PushAlways => Choice::Skip(SkipReason::NothingToPush),
            _ => Choice::Pull(r),
        },
        (None, None) => Choice::Skip(SkipReason::NotFound),
    }
}

/// Whether two timestamps lie less than a minute apart.
pub fn within_tolerance(a: Timestamp, b: Timestamp) -> (r: bool)
    ensures
        r == close_in_time(a, b),
{
    match a.unix_nanos.checked_sub(b.unix_nanos) {
        Some(d) => -TOLERANCE_NANOS < d && d < TOLERANCE_NANOS,
        None => false,
    }
}

/// Decides what to do with one unit under `mode`.
pub fn reconcile(mode: SyncMode, local: Option<Timestamp>, remote: Option<Timestamp>) -> (r: Choice)
    ensures
        r == decision(mode, local, remote),
{
    match (local, remote) {
        (Some(l), Some(r)) => if within_tolerance(l, r) {
            match mode {
                SyncMode::PushAlways => Choice::Push(l),
                SyncMode::PullAlways => Choice::Pull(l),
                _ => Choice::Skip(SkipReason::Unchanged),
            }
        } else if l.unix_nanos > r.unix_nanos {
            match mode {
                SyncMode::Pull => Choice::Skip(SkipReason::PullDisabled),
                SyncMode::PullAlways => Choice::Pull(r),
                _ => Choice::Push(l),
            }
        } else {
            match mode {
                SyncMode::Push => Choice::Skip(SkipReason::PushDisabled),
                SyncMode::PushAlways => Choice::Push(l),
                _ => Choice::Pull(r),
            }
        },
        (Some(l), None) => match mode {
            SyncMode::Pull => Choice::Skip(SkipReason::PullDisabled),
            SyncMode::PullAlways => Choice::Skip(SkipReason::NothingToPull),
            _ => Choice::Push(l),
        },
        (None, Some(r)) => match mode {
            SyncMode::Push => Choice::Skip(SkipReason::PushDisabled),
            SyncMode::PushAlways => Choice::Skip(SkipReason::NothingToPush),
            _ => Choice::Pull(r),
        },
        (None, None) => Choice::Skip(SkipReason::NotFound),
    }
}

/// A kind of synchronization operation, each carrying a payload chosen by
/// the caller.
pub enum SyncType<Push, Pull, Skip> {
    /// Push local data to remote storage.
    Push(Push),
    /// Pull remote data to local storage.
    Pull(Pull),
    /// Do nothing.
    Skip {
        /// The reason for skipping.
        reason: SkipReason,
        /// Data associated with skipping.
        data: Skip,
    },
}

impl<Push, Pull, Skip> SyncType<Push, Pull, Skip> {
    /// Sync based on the last modified times of the local and remote value.
    ///
    /// The payload of the chosen variant is built by the matching closure
    /// from `seed` (and, for a transfer, the timestamp it carries).
    pub fn from_modified<T, FPush, FPull, FSkip>(
        sync_mode: SyncMode,
        local_modified: Option<Timestamp>,
        remote_modified: Option<Timestamp>,
        seed: T,
        push: FPush,
        pull: FPull,
        skip: FSkip,
    ) -> (r: Self) where
        FPush: FnOnce(Timestamp, T) -> Push,
        FPull: FnOnce(Timestamp, T) -> Pull,
        FSkip: FnOnce(T) -> Skip,

        requires
            forall|t: Timestamp| push.requires((t, seed)),
            forall|t: Timestamp| pull.requires((t, seed)),
            skip.requires((seed,)),
        ensures
            match decision(sync_mode, local_modified, remote_modified) {
                Choice::Push(t) => r is Push && push.ensures((t, seed), r->Push_0),
                Choice::Pull(t) => r is Pull && pull.ensures((t, seed), r->Pull_0),
                Choice::Skip(why) => r is Skip && r->reason == why && skip.ensures((seed,), r->data),
            },
    {
        match reconcile(sync_mode, local_modified, remote_modified) {
            Choice::Push(t) => SyncType::Push(push(t, seed)),
            Choice::Pull(t) => SyncType::Pull(pull(t, seed)),
            Choice::Skip(why) => SyncType::Skip { reason: why, data: skip(seed) },
        }
    }
}

} // verus!
