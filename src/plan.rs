use vstd::prelude::*;

use crate::sync::{decision, reconcile, Choice, SkipReason, SyncMode, Timestamp};
use crate::text::{chars_of, string_of};

verus! {

broadcast use vstd::string::group_string_axioms;

/// What to do with one variable, given its local value (and the local file's
/// modification time) and its remote value (with the remote's modification
/// time, where the store gives one). Equal values are left alone; otherwise
/// the local time counts only where the variable is defined locally.
pub open spec fn var_decision(
    mode: SyncMode,
    local: Option<Seq<char>>,
    local_modified: Option<Timestamp>,
    remote: Option<Seq<char>>,
    remote_modified: Option<Timestamp>,
) -> Choice {
    if local is Some && remote is Some && local->0 == remote->0 {
        Choice::Skip(SkipReason::Unchanged)
    } else {
        decision(mode, if local is Some { local_modified } else { None }, remote_modified)
    }
}

/// Decides what to do with one variable.
pub fn var_choice(
    mode: SyncMode,
    local: Option<&String>,
    local_modified: Option<Timestamp>,
    remote: Option<&String>,
    remote_modified: Option<Timestamp>,
) -> (r: Choice)
    ensures
        r == var_decision(
            mode,
            match local {
                Some(s) => Some(s@),
                None => None,
            },
            local_modified,
            match remote {
                Some(s) => Some(s@),
                None => None,
            },
            remote_modified,
        ),
{
    match (local, remote) {
        (Some(l), Some(r)) => {
            if *l == *r {
                return Choice::Skip(SkipReason::Unchanged);
            }
            reconcile(mode, local_modified, remote_modified)
        },
        (Some(_), None) => reconcile(mode, local_modified, remote_modified),
        (None, _) => reconcile(mode, None, remote_modified),
    }
}

/// The later of two optional timestamps.
pub open spec fn later_of(a: Option<Timestamp>, b: Option<Timestamp>) -> Option<Timestamp> {
    match (a, b) {
        (Some(x), Some(y)) => if x.unix_nanos >= y.unix_nanos {
            Some(x)
        } else {
            Some(y)
        },
        (Some(x), None) => Some(x),
        (None, y) => y,
    }
}

/// The latest of `ts`, if there is any.
pub open spec fn latest(ts: Seq<Timestamp>) -> Option<Timestamp>
    decreases ts.len(),
{
    if ts.len() == 0 {
        None
    } else {
        later_of(latest(ts.drop_last()), Some(ts.last()))
    }
}

/// The modification time that a rewritten local file gets: the later of
/// its previous one and the latest among the pulled values.
pub fn new_file_modified(local: Option<Timestamp>, pulled: &[Timestamp]) -> (r: Option<Timestamp>)
    ensures
        r == later_of(local, latest(pulled@)),
{
    let mut best: Option<Timestamp> = None;
    let mut i: usize = 0;
    while i < pulled.len()
        invariant
            i <= pulled.len(),
            best == latest(pulled@.take(i as int)),
        decreases pulled.len() - i,
    {
        assert(pulled@.take(i + 1).drop_last() =~= pulled@.take(i as int));
        let t = pulled[i];
        best = match best {
            Some(b) => if b.unix_nanos >= t.unix_nanos {
                Some(b)
            } else {
                Some(t)
            },
            None => Some(t),
        };
        i += 1;
    }
    assert(pulled@.take(i as int) =~= pulled@);
    match (local, best) {
        (Some(x), Some(y)) => if x.unix_nanos >= y.unix_nanos {
            Some(x)
        } else {
            Some(y)
        },
        (Some(x), None) => Some(x),
        (None, y) => y,
    }
}

/// `s` with each `from` replaced by `to`.
pub open spec fn swap_char(s: Seq<char>, from: char, to: char) -> Seq<char> {
    s.map_values(|c: char| if c == from { to } else { c })
}

fn replace_char(s: &str, from: char, to: char) -> (r: String)
    ensures
        r@ == swap_char(s@, from, to),
{
    let cs = chars_of(s);
    let mut out: Vec<char> = Vec::new();
    let mut i: usize = 0;
    while i < cs.len()
        invariant
            i <= cs.len(),
            cs@ == s@,
            out@ == swap_char(cs@.take(i as int), from, to),
        decreases cs.len() - i,
    {
        out.push(if cs[i] == from { to } else { cs[i] });
        i += 1;
        assert(out@ =~= swap_char(cs@.take(i as int), from, to));
    }
    assert(cs@.take(i as int) =~= cs@);
    string_of(out.as_slice())
}

/// The name under which a variable is stored remotely: secret names use `-`
/// where variable names use `_`.
pub fn secret_name(var: &str) -> (r: String)
    ensures
        r@ == swap_char(var@, '_', '-'),
{
    replace_char(var, '_', '-')
}

/// The variable that a remote secret name stands for.
pub fn var_name(secret: &str) -> (r: String)
    ensures
        r@ == swap_char(secret@, '-', '_'),
{
    replace_char(secret, '-', '_')
}

/// The line that reports what will be done with one unit.
pub open spec fn report_text(c: Choice, name: Seq<char>) -> Seq<char> {
    match c {
        Choice::Push(_) => "<- PUSH: "@ + name,
        Choice::Pull(_) => "-> PULL: "@ + name,
        Choice::Skip(why) => "   SKIP: "@ + name + " ("@ + why.text() + ")"@,
    }
}

/// Reports what will be done with one unit, as shown before any change is
/// made.
pub fn report_line(c: Choice, name: &str) -> (r: String)
    ensures
        r@ == report_text(c, name@),
{
    let mut out: Vec<char> = Vec::new();
    match c {
        Choice::Push(_) => {
            append(&mut out, "<- PUSH: ");
            append(&mut out, name);
        },
        Choice::Pull(_) => {
            append(&mut out, "-> PULL: ");
            append(&mut out, name);
        },
        Choice::Skip(why) => {
            append(&mut out, "   SKIP: ");
            append(&mut out, name);
            append(&mut out, " (");
            append(&mut out, why.as_str());
            append(&mut out, ")");
        },
    }
    string_of(out.as_slice())
}

fn append(out: &mut Vec<char>, s: &str)
    ensures
        final(out)@ == old(out)@ + s@,
{
    let cs = chars_of(s);
    let mut i: usize = 0;
    while i < cs.len()
        invariant
            i <= cs.len(),
            cs@ == s@,
            out@ == old(out)@ + cs@.take(i as int),
        decreases cs.len() - i,
    {
        out.push(cs[i]);
        i += 1;
        assert(out@ =~= old(out)@ + cs@.take(i as int));
    }
    assert(cs@.take(i as int) =~= cs@);
}

/// The instant that an RFC 3339 text denotes, in nanoseconds since the Unix
/// epoch, where the text is one.
pub uninterp spec fn rfc3339_nanos(s: Seq<char>) -> Option<i128>;

/// Relies on `time::OffsetDateTime::parse` with the RFC 3339 format, and
/// `unix_timestamp_nanos` on its result: the outcome depends on the text
/// alone.
#[verifier::external_body]
fn parse_rfc3339(s: &str) -> (r: Option<Timestamp>)
    ensures
        r == match rfc3339_nanos(s@) {
            Some(n) => Some(Timestamp { unix_nanos: n }),
            None => None,
        },
{
    match time::OffsetDateTime::parse(s, &time::format_description::well_known::Rfc3339) {
        Ok(t) => Some(Timestamp { unix_nanos: t.unix_timestamp_nanos() }),
        Err(_) => None,
    }
}

/// Why a remote modification time could not be had.
#[derive(Clone, Copy, PartialEq, Eq, Structural, Debug)]
pub enum TimeError {
    /// The recorded time is not an RFC 3339 timestamp.
    Unparseable,
    /// No time is recorded, nor one given by the store.
    Missing,
}

/// When a remote blob was last modified: the time recorded in its metadata
/// where there is one, else the time the store gives.
pub fn blob_modified(recorded: Option<&str>, store_modified: Option<Timestamp>) -> (r: Result<Timestamp, TimeError>)
    ensures
        match recorded {
            Some(s) => match rfc3339_nanos(s@) {
                Some(n) => r == Ok::<Timestamp, TimeError>(Timestamp { unix_nanos: n }),
                None => r == Err::<Timestamp, TimeError>(TimeError::Unparseable),
            },
            None => match store_modified {
                Some(t) => r == Ok::<Timestamp, TimeError>(t),
                None => r == Err::<Timestamp, TimeError>(TimeError::Missing),
            },
        },
{
    match recorded {
        Some(s) => match parse_rfc3339(s) {
            Some(t) => Ok(t),
            None => Err(TimeError::Unparseable),
        },
        None => match store_modified {
            Some(t) => Ok(t),
            None => Err(TimeError::Missing),
        },
    }
}

} // verus!
