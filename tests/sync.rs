use azsync::sync::reconcile;
use azsync::{Choice, SkipReason, SyncMode, SyncType, Timestamp};

const NANOS_PER_SEC: i128 = 1_000_000_000;
// 2024-01-01T00:00:00Z and 2025-01-01T00:00:00Z
const DT_2024: Timestamp = Timestamp { unix_nanos: 1_704_067_200 * NANOS_PER_SEC };
const DT_2025: Timestamp = Timestamp { unix_nanos: 1_735_689_600 * NANOS_PER_SEC };

fn from_modified(
    mode: SyncMode,
    local: Option<Timestamp>,
    remote: Option<Timestamp>,
) -> SyncType<Timestamp, Timestamp, ()> {
    SyncType::from_modified(mode, local, remote, (), |t, ()| t, |t, ()| t, |()| ())
}

fn is_push(r: SyncType<Timestamp, Timestamp, ()>, t: Timestamp) -> bool {
    matches!(r, SyncType::Push(x) if x == t)
}

fn is_pull(r: SyncType<Timestamp, Timestamp, ()>, t: Timestamp) -> bool {
    matches!(r, SyncType::Pull(x) if x == t)
}

fn skip_reason(r: SyncType<Timestamp, Timestamp, ()>) -> Option<SkipReason> {
    match r {
        SyncType::Skip { reason, .. } => Some(reason),
        _ => None,
    }
}

#[test]
fn sync_mode_table() {
    assert_eq!(skip_reason(from_modified(SyncMode::Sync, None, None)), Some(SkipReason::NotFound));
    assert!(is_push(from_modified(SyncMode::Sync, Some(DT_2025), None), DT_2025));
    assert!(is_pull(from_modified(SyncMode::Sync, None, Some(DT_2025)), DT_2025));
    assert!(is_push(from_modified(SyncMode::Sync, Some(DT_2025), Some(DT_2024)), DT_2025));
    assert!(is_pull(from_modified(SyncMode::Sync, Some(DT_2024), Some(DT_2025)), DT_2025));
    assert_eq!(skip_reason(from_modified(SyncMode::Sync, Some(DT_2025), Some(DT_2025))), Some(SkipReason::Unchanged));
}

#[test]
fn push_mode_table() {
    assert_eq!(skip_reason(from_modified(SyncMode::Push, None, None)), Some(SkipReason::NotFound));
    assert!(is_push(from_modified(SyncMode::Push, Some(DT_2025), None), DT_2025));
    assert_eq!(skip_reason(from_modified(SyncMode::Push, None, Some(DT_2025))), Some(SkipReason::PushDisabled));
    assert!(is_push(from_modified(SyncMode::Push, Some(DT_2025), Some(DT_2024)), DT_2025));
    assert_eq!(skip_reason(from_modified(SyncMode::Push, Some(DT_2024), Some(DT_2025))), Some(SkipReason::PushDisabled));
    assert_eq!(skip_reason(from_modified(SyncMode::Push, Some(DT_2025), Some(DT_2025))), Some(SkipReason::Unchanged));
}

#[test]
fn pull_mode_table() {
    assert_eq!(skip_reason(from_modified(SyncMode::Pull, None, None)), Some(SkipReason::NotFound));
    assert_eq!(skip_reason(from_modified(SyncMode::Pull, Some(DT_2025), None)), Some(SkipReason::PullDisabled));
    assert!(is_pull(from_modified(SyncMode::Pull, None, Some(DT_2025)), DT_2025));
    assert_eq!(skip_reason(from_modified(SyncMode::Pull, Some(DT_2025), Some(DT_2024))), Some(SkipReason::PullDisabled));
    assert!(is_pull(from_modified(SyncMode::Pull, Some(DT_2024), Some(DT_2025)), DT_2025));
    assert_eq!(skip_reason(from_modified(SyncMode::Pull, Some(DT_2025), Some(DT_2025))), Some(SkipReason::Unchanged));
}

#[test]
fn push_always_mode_table() {
    assert_eq!(skip_reason(from_modified(SyncMode::PushAlways, None, None)), Some(SkipReason::NotFound));
    assert!(is_push(from_modified(SyncMode::PushAlways, Some(DT_2025), None), DT_2025));
    assert_eq!(skip_reason(from_modified(SyncMode::PushAlways, None, Some(DT_2025))), Some(SkipReason::NothingToPush));
    assert!(is_push(from_modified(SyncMode::PushAlways, Some(DT_2025), Some(DT_2024)), DT_2025));
    assert!(is_push(from_modified(SyncMode::PushAlways, Some(DT_2024), Some(DT_2025)), DT_2024));
    assert!(is_push(from_modified(SyncMode::PushAlways, Some(DT_2025), Some(DT_2025)), DT_2025));
}

#[test]
fn pull_always_mode_table() {
    assert_eq!(skip_reason(from_modified(SyncMode::PullAlways, None, None)), Some(SkipReason::NotFound));
    assert_eq!(skip_reason(from_modified(SyncMode::PullAlways, Some(DT_2025), None)), Some(SkipReason::NothingToPull));
    assert!(is_pull(from_modified(SyncMode::PullAlways, None, Some(DT_2025)), DT_2025));
    assert!(is_pull(from_modified(SyncMode::PullAlways, Some(DT_2025), Some(DT_2024)), DT_2024));
    assert!(is_pull(from_modified(SyncMode::PullAlways, Some(DT_2024), Some(DT_2025)), DT_2025));
    assert!(is_pull(from_modified(SyncMode::PullAlways, Some(DT_2025), Some(DT_2025)), DT_2025));
}

#[test]
fn within_a_minute_is_unchanged() {
    let t = DT_2025;
    let later = Timestamp { unix_nanos: t.unix_nanos + 30 * NANOS_PER_SEC };
    let earlier = Timestamp { unix_nanos: t.unix_nanos - 30 * NANOS_PER_SEC };
    assert_eq!(reconcile(SyncMode::Sync, Some(t), Some(later)), Choice::Skip(SkipReason::Unchanged));
    assert_eq!(reconcile(SyncMode::Sync, Some(t), Some(earlier)), Choice::Skip(SkipReason::Unchanged));
    let minute = Timestamp { unix_nanos: t.unix_nanos + 60 * NANOS_PER_SEC };
    assert_eq!(reconcile(SyncMode::Sync, Some(t), Some(minute)), Choice::Pull(minute));
}

#[test]
fn extreme_timestamps_do_not_overflow() {
    let lo = Timestamp { unix_nanos: i128::MIN };
    let hi = Timestamp { unix_nanos: i128::MAX };
    assert_eq!(reconcile(SyncMode::Sync, Some(hi), Some(lo)), Choice::Push(hi));
    assert_eq!(reconcile(SyncMode::Sync, Some(lo), Some(hi)), Choice::Pull(hi));
}

#[test]
fn skip_reasons_read_as_text() {
    assert_eq!(SkipReason::Unchanged.as_str(), "unchanged");
    assert_eq!(SkipReason::PullDisabled.as_str(), "pull disabled");
    assert_eq!(SkipReason::NothingToPull.as_str(), "nothing to pull");
    assert_eq!(SkipReason::PushDisabled.as_str(), "push disabled");
    assert_eq!(SkipReason::NothingToPush.as_str(), "nothing to push");
    assert_eq!(SkipReason::NotFound.as_str(), "not found");
}

