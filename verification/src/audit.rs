//! The decisions of an audited database: every change to a relvar is made
//! inside a transaction together with one log entry per affected tuple in
//! the `_AUDIT_LOG` relvar.
//!
//! The database itself is driven from outside. A change is a run of steps:
//! `start` gives the first action, and `step` takes the reply to the last
//! action and gives the next, until `Finish`. A change that began its own
//! transaction commits it once every log entry is written, and rolls it back
//! when the change or a log entry fails; a change made inside a transaction
//! that was already open leaves the transaction alone. Changes to the log
//! itself are applied without being logged.
use vstd::prelude::*;
use crate::graph::{views, Key};
use crate::pivot::DatabaseError;
use crate::relation::{copy_heading, fits_heading, row_fits, sorted_names, Attribute, Relation, Row, ValueView};

verus! {

/// The kind of a change.
#[derive(Clone, Copy, Debug, PartialEq, Eq, Structural)]
pub enum ChangeKind {
    Insert,
    Delete,
    Update,
}

/// What the driver reports after carrying out an action.
#[derive(Clone, Copy, Debug, PartialEq, Eq, Structural)]
pub enum Reply {
    /// The action succeeded.
    Done,
    /// The action succeeded, counting this many tuples.
    Count(usize),
    /// The action failed.
    Failed,
}

/// What the driver does next.
#[derive(Clone, Copy, Debug, PartialEq, Eq, Structural)]
pub enum AuditAction {
    /// Apply the change to the log relvar itself, without logging it.
    Passthrough,
    /// Begin a transaction.
    Begin,
    /// Read the target relvar and count the tuples the change affects.
    FindAffected,
    /// Apply the change to the target relvar.
    Apply,
    /// Write the log entry of affected tuple `i` (the inserted tuple for an
    /// insert).
    WriteLog(usize),
    /// Commit the transaction; a failed commit fails the change.
    Commit,
    /// Commit the transaction, whatever comes of it.
    CommitQuietly,
    /// Roll the transaction back, whatever comes of it.
    Rollback,
    /// Stop: the change succeeded with `count`, or failed with the last
    /// failure the driver met.
    Finish { ok: bool, count: usize },
}

/// Where a change stands.
#[derive(Clone, Copy, Debug, PartialEq, Eq, Structural)]
pub enum Stage {
    PassingThrough,
    Beginning,
    Finding,
    Applying,
    Logging(usize),
    Committing,
    CommittingQuietly,
    RollingBack,
    Finished,
}

/// The state of a change.
#[derive(Clone, Copy, Debug, PartialEq, Eq, Structural)]
pub struct AuditRun {
    pub kind: ChangeKind,
    /// The change began the transaction it runs in.
    pub started: bool,
    /// The number of log entries to write.
    pub affected: usize,
    /// What applying the change reported.
    pub count: usize,
    pub stage: Stage,
}

/// Stop, failed.
pub open spec fn failed() -> AuditAction {
    AuditAction::Finish { ok: false, count: 0 }
}

/// After a failure: roll back the transaction the change began, else stop.
pub open spec fn on_failure(r: AuditRun) -> (AuditRun, AuditAction) {
    if r.started {
        (AuditRun { stage: Stage::RollingBack, ..r }, AuditAction::Rollback)
    } else {
        (AuditRun { stage: Stage::Finished, ..r }, failed())
    }
}

/// After the last log entry: commit the transaction the change began, else
/// stop with the count.
pub open spec fn on_logged(r: AuditRun) -> (AuditRun, AuditAction) {
    if r.started {
        (AuditRun { stage: Stage::Committing, ..r }, AuditAction::Commit)
    } else {
        (AuditRun { stage: Stage::Finished, ..r }, AuditAction::Finish { ok: true, count: r.count })
    }
}

/// The first action of a change: changes to the log pass through; others
/// begin a transaction unless one is open, then (for deletes and updates)
/// find the affected tuples, or (for inserts) apply the change.
pub open spec fn start_spec(kind: ChangeKind, to_log: bool, in_transaction: bool) -> (AuditRun, AuditAction) {
    let r = AuditRun { kind, started: !to_log && !in_transaction, affected: 0, count: 0, stage: Stage::Finished };
    if to_log {
        (AuditRun { stage: Stage::PassingThrough, ..r }, AuditAction::Passthrough)
    } else if !in_transaction {
        (AuditRun { stage: Stage::Beginning, ..r }, AuditAction::Begin)
    } else {
        first_work(r)
    }
}

/// The first piece of work inside the transaction.
pub open spec fn first_work(r: AuditRun) -> (AuditRun, AuditAction) {
    if r.kind == ChangeKind::Insert {
        (AuditRun { stage: Stage::Applying, affected: 1, ..r }, AuditAction::Apply)
    } else {
        (AuditRun { stage: Stage::Finding, ..r }, AuditAction::FindAffected)
    }
}

/// The count a reply gives, or 0.
pub open spec fn count_of(reply: Reply) -> usize {
    match reply {
        Reply::Count(n) => n,
        _ => 0,
    }
}

/// The next state and action, given the reply to the last action.
pub open spec fn step_spec(r: AuditRun, reply: Reply) -> (AuditRun, AuditAction) {
    match r.stage {
        Stage::PassingThrough => (
            AuditRun { stage: Stage::Finished, ..r },
            if reply == Reply::Failed {
                failed()
            } else {
                AuditAction::Finish { ok: true, count: count_of(reply) }
            },
        ),
        Stage::Beginning => if reply == Reply::Failed {
            (AuditRun { stage: Stage::Finished, ..r }, failed())
        } else {
            first_work(r)
        },
        Stage::Finding => if reply == Reply::Failed {
            on_failure(r)
        } else if count_of(reply) == 0 {
            if r.started {
                (AuditRun { stage: Stage::CommittingQuietly, ..r }, AuditAction::CommitQuietly)
            } else {
                (AuditRun { stage: Stage::Finished, ..r }, AuditAction::Finish { ok: true, count: 0 })
            }
        } else {
            (AuditRun { stage: Stage::Applying, affected: count_of(reply), ..r }, AuditAction::Apply)
        },
        Stage::Applying => if reply == Reply::Failed {
            on_failure(r)
        } else {
            (AuditRun { stage: Stage::Logging(0), count: count_of(reply), ..r }, AuditAction::WriteLog(0))
        },
        Stage::Logging(i) => if reply == Reply::Failed {
            on_failure(r)
        } else if i + 1 < r.affected {
            (AuditRun { stage: Stage::Logging((i + 1) as usize), ..r }, AuditAction::WriteLog((i + 1) as usize))
        } else {
            on_logged(r)
        },
        Stage::Committing => (
            AuditRun { stage: Stage::Finished, ..r },
            if reply == Reply::Failed {
                failed()
            } else {
                AuditAction::Finish { ok: true, count: r.count }
            },
        ),
        Stage::CommittingQuietly => (AuditRun { stage: Stage::Finished, ..r }, AuditAction::Finish { ok: true, count: 0 }),
        Stage::RollingBack => (AuditRun { stage: Stage::Finished, ..r }, failed()),
        Stage::Finished => (r, failed()),
    }
}

/// A state the runs can reach: the log entries being written are among the
/// affected tuples, and there is at least one to write.
pub open spec fn sound(r: AuditRun) -> bool {
    match r.stage {
        Stage::Logging(i) => i < r.affected,
        Stage::Applying => r.affected >= 1,
        Stage::Committing | Stage::CommittingQuietly | Stage::RollingBack => r.started,
        _ => true,
    }
}

/// The first action of a change to the relvar `to_log` says whether it is
/// the log, `in_transaction` whether a transaction is open.
pub fn start(kind: ChangeKind, to_log: bool, in_transaction: bool) -> (r: (AuditRun, AuditAction))
    ensures
        r == start_spec(kind, to_log, in_transaction),
        sound(r.0),
{
    let run = AuditRun { kind, started: !to_log && !in_transaction, affected: 0, count: 0, stage: Stage::Finished };
    if to_log {
        (AuditRun { stage: Stage::PassingThrough, ..run }, AuditAction::Passthrough)
    } else if !in_transaction {
        (AuditRun { stage: Stage::Beginning, ..run }, AuditAction::Begin)
    } else {
        work(run)
    }
}

/// The first piece of work inside the transaction.
fn work(r: AuditRun) -> (n: (AuditRun, AuditAction))
    ensures
        n == first_work(r),
{
    match r.kind {
        ChangeKind::Insert => (AuditRun { stage: Stage::Applying, affected: 1, ..r }, AuditAction::Apply),
        _ => (AuditRun { stage: Stage::Finding, ..r }, AuditAction::FindAffected),
    }
}

/// After a failure.
fn failure(r: AuditRun) -> (n: (AuditRun, AuditAction))
    ensures
        n == on_failure(r),
{
    if r.started {
        (AuditRun { stage: Stage::RollingBack, ..r }, AuditAction::Rollback)
    } else {
        (AuditRun { stage: Stage::Finished, ..r }, AuditAction::Finish { ok: false, count: 0 })
    }
}

/// The next state and action of a change, given the reply to the last
/// action.
pub fn step(r: AuditRun, reply: Reply) -> (n: (AuditRun, AuditAction))
    requires
        sound(r),
    ensures
        n == step_spec(r, reply),
        sound(n.0),
{
    let fail = AuditAction::Finish { ok: false, count: 0 };
    let count: usize = match reply {
        Reply::Count(c) => c,
        _ => 0,
    };
    let is_failed = match reply {
        Reply::Failed => true,
        _ => false,
    };
    match r.stage {
        Stage::PassingThrough => (
            AuditRun { stage: Stage::Finished, ..r },
            if is_failed { fail } else { AuditAction::Finish { ok: true, count } },
        ),
        Stage::Beginning => {
            if is_failed {
                (AuditRun { stage: Stage::Finished, ..r }, fail)
            } else {
                work(r)
            }
        },
        Stage::Finding => {
            if is_failed {
                failure(r)
            } else if count == 0 {
                if r.started {
                    (AuditRun { stage: Stage::CommittingQuietly, ..r }, AuditAction::CommitQuietly)
                } else {
                    (AuditRun { stage: Stage::Finished, ..r }, AuditAction::Finish { ok: true, count: 0 })
                }
            } else {
                (AuditRun { stage: Stage::Applying, affected: count, ..r }, AuditAction::Apply)
            }
        },
        Stage::Applying => {
            if is_failed {
                failure(r)
            } else {
                (AuditRun { stage: Stage::Logging(0), count, ..r }, AuditAction::WriteLog(0))
            }
        },
        Stage::Logging(i) => {
            if is_failed {
                failure(r)
            } else if i + 1 < r.affected {
                (AuditRun { stage: Stage::Logging(i + 1), ..r }, AuditAction::WriteLog(i + 1))
            } else if r.started {
                (AuditRun { stage: Stage::Committing, ..r }, AuditAction::Commit)
            } else {
                (AuditRun { stage: Stage::Finished, ..r }, AuditAction::Finish { ok: true, count: r.count })
            }
        },
        Stage::Committing => (
            AuditRun { stage: Stage::Finished, ..r },
            if is_failed { fail } else { AuditAction::Finish { ok: true, count: r.count } },
        ),
        Stage::CommittingQuietly => (AuditRun { stage: Stage::Finished, ..r }, AuditAction::Finish { ok: true, count: 0 }),
        Stage::RollingBack => (AuditRun { stage: Stage::Finished, ..r }, fail),
        Stage::Finished => (r, fail),
    }
}

/// A change that began its own transaction and fails while finding,
/// applying or logging rolls the transaction back, then finishes failed.
pub proof fn law_failure_rolls_back(r: AuditRun, reply: Reply)
    requires
        sound(r),
        r.started,
        r.stage == Stage::Finding || r.stage == Stage::Applying || r.stage is Logging,
    ensures
        step_spec(r, Reply::Failed).1 == AuditAction::Rollback,
        step_spec(step_spec(r, Reply::Failed).0, reply).1 == failed(),
{
}

/// A commit comes only after the last log entry of a change that began its
/// own transaction was written.
pub proof fn law_commit_after_last_log(r: AuditRun, reply: Reply)
    requires
        sound(r),
        step_spec(r, reply).1 == AuditAction::Commit,
    ensures
        r.started,
        reply != Reply::Failed,
        r.stage matches Stage::Logging(i) && i + 1 == r.affected,
{
}

/// A change made inside a transaction that was already open never begins,
/// commits or rolls back a transaction.
pub proof fn law_open_transaction_untouched(kind: ChangeKind, to_log: bool, r: AuditRun, reply: Reply)
    requires
        sound(r),
        !r.started,
    ensures
        start_spec(kind, to_log, true).1 != AuditAction::Begin,
        !start_spec(kind, to_log, true).0.started,
        !step_spec(r, reply).0.started,
        step_spec(r, reply).1 != AuditAction::Begin,
        step_spec(r, reply).1 != AuditAction::Commit,
        step_spec(r, reply).1 != AuditAction::CommitQuietly,
        step_spec(r, reply).1 != AuditAction::Rollback,
{
}

/// A change to the log itself is applied as it is and finishes with the
/// outcome of applying it.
pub proof fn law_log_passes_through(kind: ChangeKind, in_transaction: bool, reply: Reply)
    ensures
        start_spec(kind, true, in_transaction).1 == AuditAction::Passthrough,
        step_spec(start_spec(kind, true, in_transaction).0, reply).1 == (if reply == Reply::Failed {
            failed()
        } else {
            AuditAction::Finish { ok: true, count: count_of(reply) }
        }),
{
}

/// Log entries are written one after another, each affected tuple once:
/// after entry `i` comes entry `i + 1` while there are more.
pub proof fn law_logs_in_order(r: AuditRun, i: usize)
    requires
        sound(r),
        r.stage == Stage::Logging(i),
        i + 1 < r.affected,
    ensures
        step_spec(r, Reply::Done).1 == AuditAction::WriteLog((i + 1) as usize),
        step_spec(r, Reply::Done).0.affected == r.affected,
{
}

/// The actions of a change from state `r` on, driven by the replies in
/// order, until it finishes or the replies run out.
pub open spec fn run_from(r: AuditRun, replies: Seq<Reply>) -> Seq<AuditAction>
    decreases replies.len(),
{
    if replies.len() == 0 || r.stage == Stage::Finished {
        Seq::empty()
    } else {
        let n = step_spec(r, replies[0]);
        seq![n.1] + run_from(n.0, replies.drop_first())
    }
}

/// The action stops the change successfully.
pub open spec fn is_success(a: AuditAction) -> bool {
    a matches AuditAction::Finish { ok, .. } && ok
}

/// The actions include a successful stop.
pub open spec fn succeeds(t: Seq<AuditAction>) -> bool {
    exists|k: int| 0 <= k < t.len() && is_success(#[trigger] t[k])
}

/// A successful stop in `seq![a] + t` is `a` or one in `t`.
proof fn lemma_succeeds_cons(a: AuditAction, t: Seq<AuditAction>)
    ensures
        succeeds(seq![a] + t) ==> is_success(a) || succeeds(t),
        t.len() == 0 ==> (succeeds(seq![a] + t) <==> is_success(a)),
{
    if succeeds(seq![a] + t) && !is_success(a) {
        let k = choose|k: int| 0 <= k < (seq![a] + t).len() && is_success(#[trigger] (seq![a] + t)[k]);
        assert((seq![a] + t)[k] == t[k - 1]);
    }
    if t.len() == 0 && is_success(a) {
        assert((seq![a] + t)[0] == a);
    }
}

/// After a failure, a change never succeeds.
proof fn lemma_no_success_after_failure(r: AuditRun, replies: Seq<Reply>)
    requires
        r.stage == Stage::RollingBack || r.stage == Stage::Finished,
    ensures
        !succeeds(run_from(r, replies)),
{
    if replies.len() > 0 && r.stage == Stage::RollingBack {
        let n = step_spec(r, replies[0]);
        assert(run_from(n.0, replies.drop_first()) == Seq::<AuditAction>::empty());
        lemma_succeeds_cons(n.1, run_from(n.0, replies.drop_first()));
    }
}

/// From applying or logging on, a run that succeeds writes every log entry
/// that is still due and, in a transaction it began, commits.
proof fn lemma_logging_complete(r: AuditRun, replies: Seq<Reply>)
    requires
        sound(r),
        r.stage == Stage::Applying || r.stage is Logging,
    ensures
        succeeds(run_from(r, replies)) ==> forall|j: usize|
            (if r.stage == Stage::Applying { 0 } else { r.stage->Logging_0 + 1 }) <= j < r.affected
            ==> #[trigger] run_from(r, replies).contains(AuditAction::WriteLog(j)),
        succeeds(run_from(r, replies)) && r.started ==> run_from(r, replies).contains(AuditAction::Commit),
    decreases replies.len(),
{
    if replies.len() > 0 {
        let reply = replies[0];
        let n = step_spec(r, reply);
        let rest = run_from(n.0, replies.drop_first());
        let t = run_from(r, replies);
        assert(t == seq![n.1] + rest);
        lemma_succeeds_cons(n.1, rest);
        if reply == Reply::Failed {
            lemma_no_success_after_failure(n.0, replies.drop_first());
        } else if r.stage == Stage::Applying {
            lemma_logging_complete(n.0, replies.drop_first());
            if succeeds(t) {
                assert(t[0] == AuditAction::WriteLog(0));
                assert forall|j: usize| 0 <= j < r.affected implies #[trigger] t.contains(AuditAction::WriteLog(j)) by {
                    if j == 0 {
                        assert(t[0] == AuditAction::WriteLog(0));
                    } else {
                        assert(rest.contains(AuditAction::WriteLog(j)));
                        let k = choose|k: int| 0 <= k < rest.len() && rest[k] == AuditAction::WriteLog(j);
                        assert(t[k + 1] == AuditAction::WriteLog(j));
                    }
                }
                if r.started {
                    assert(rest.contains(AuditAction::Commit));
                    let k = choose|k: int| 0 <= k < rest.len() && rest[k] == AuditAction::Commit;
                    assert(t[k + 1] == AuditAction::Commit);
                }
            }
        } else {
            let i = r.stage->Logging_0;
            if i + 1 < r.affected {
                lemma_logging_complete(n.0, replies.drop_first());
                if succeeds(t) {
                    assert forall|j: usize| i + 1 <= j < r.affected implies #[trigger] t.contains(AuditAction::WriteLog(j)) by {
                        if j == i + 1 {
                            assert(t[0] == AuditAction::WriteLog(j));
                        } else {
                            assert(rest.contains(AuditAction::WriteLog(j)));
                            let k = choose|k: int| 0 <= k < rest.len() && rest[k] == AuditAction::WriteLog(j);
                            assert(t[k + 1] == AuditAction::WriteLog(j));
                        }
                    }
                    if r.started {
                        assert(rest.contains(AuditAction::Commit));
                        let k = choose|k: int| 0 <= k < rest.len() && rest[k] == AuditAction::Commit;
                        assert(t[k + 1] == AuditAction::Commit);
                    }
                }
            } else if r.started {
                assert(t[0] == AuditAction::Commit);
            }
        }
    }
}

/// A change that succeeds after applying writes a log entry for each
/// affected tuple, and commits the transaction it began.
pub proof fn law_success_logs_every_tuple(r: AuditRun, replies: Seq<Reply>)
    requires
        sound(r),
        r.stage == Stage::Applying,
        succeeds(run_from(r, replies)),
    ensures
        forall|j: usize| j < r.affected ==> #[trigger] run_from(r, replies).contains(AuditAction::WriteLog(j)),
        r.started ==> run_from(r, replies).contains(AuditAction::Commit),
{
    lemma_logging_complete(r, replies);
}

proof fn lemma_contains_cons(a: AuditAction, t: Seq<AuditAction>, x: AuditAction)
    ensures
        (seq![a] + t).contains(x) <==> (a == x || t.contains(x)),
{
    let u = seq![a] + t;
    if u.contains(x) && a != x {
        let k = choose|k: int| 0 <= k < u.len() && u[k] == x;
        assert(t[k - 1] == x);
    }
    if a == x {
        assert(u[0] == x);
    }
    if t.contains(x) {
        let k = choose|k: int| 0 <= k < t.len() && t[k] == x;
        assert(u[k + 1] == x);
    }
}

/// A change that began its own transaction and fails before it commits
/// rolls the transaction back: from finding, applying or logging on, a run
/// whose actions include a failed stop and no commit includes a rollback.
pub proof fn law_run_failure_rolls_back(r: AuditRun, replies: Seq<Reply>)
    requires
        sound(r),
        r.started,
        r.stage == Stage::Finding || r.stage == Stage::Applying || r.stage is Logging,
    ensures
        run_from(r, replies).contains(failed()) && !run_from(r, replies).contains(AuditAction::Commit)
            ==> run_from(r, replies).contains(AuditAction::Rollback),
    decreases replies.len(),
{
    if replies.len() > 0 {
        let n = step_spec(r, replies[0]);
        let rest = run_from(n.0, replies.drop_first());
        assert(run_from(r, replies) == seq![n.1] + rest);
        lemma_contains_cons(n.1, rest, failed());
        lemma_contains_cons(n.1, rest, AuditAction::Commit);
        lemma_contains_cons(n.1, rest, AuditAction::Rollback);
        if replies[0] != Reply::Failed {
            if n.0.stage == Stage::CommittingQuietly {
                let rr = replies.drop_first();
                if rr.len() > 0 {
                    let m = step_spec(n.0, rr[0]);
                    assert(run_from(m.0, rr.drop_first()) == Seq::<AuditAction>::empty());
                    assert(rest == seq![m.1] + Seq::<AuditAction>::empty());
                    lemma_contains_cons(m.1, Seq::<AuditAction>::empty(), failed());
                }
            } else if n.0.stage == Stage::Applying || n.0.stage is Logging || n.0.stage == Stage::Finding {
                law_run_failure_rolls_back(n.0, replies.drop_first());
            }
        }
    }
}

/// Every successful stop among the actions reports `c`.
pub open spec fn reports(t: Seq<AuditAction>, c: usize) -> bool {
    forall|k: int| 0 <= k < t.len() && is_success(#[trigger] t[k]) ==> t[k]->count == c
}

proof fn lemma_reports_cons(a: AuditAction, t: Seq<AuditAction>, c: usize)
    requires
        is_success(a) ==> a->count == c,
        reports(t, c),
    ensures
        reports(seq![a] + t, c),
{
    let u = seq![a] + t;
    assert forall|k: int| 0 <= k < u.len() && is_success(#[trigger] u[k]) implies u[k]->count == c by {
        if k > 0 {
            assert(u[k] == t[k - 1]);
        }
    }
}

/// From logging or committing on, a successful stop reports the count that
/// applying the change gave.
proof fn lemma_reports_applied(r: AuditRun, replies: Seq<Reply>)
    requires
        sound(r),
        r.stage is Logging || r.stage == Stage::Committing || r.stage == Stage::RollingBack
            || r.stage == Stage::Finished,
    ensures
        reports(run_from(r, replies), r.count),
    decreases replies.len(),
{
    if replies.len() > 0 && r.stage != Stage::Finished {
        let n = step_spec(r, replies[0]);
        let rest = run_from(n.0, replies.drop_first());
        assert(run_from(r, replies) == seq![n.1] + rest);
        assert(n.0.count == r.count);
        lemma_reports_applied(n.0, replies.drop_first());
        lemma_reports_cons(n.1, rest, r.count);
    }
}

/// A successful change reports the number of tuples that applying it
/// changed: from the apply step on, with the apply step replying `c`
/// changed tuples, every successful stop carries `c`, whether or not the
/// change began its own transaction. A delete or update that finds nothing
/// to change reports 0.
pub proof fn law_success_reports_applied_count(r: AuditRun, replies: Seq<Reply>, c: usize)
    requires
        sound(r),
        replies.len() > 0,
    ensures
        r.stage == Stage::Applying && replies[0] == Reply::Count(c) ==> reports(run_from(r, replies), c),
        r.stage == Stage::Finding && replies[0] == Reply::Count(0) ==> reports(run_from(r, replies), 0),
{
    let n = step_spec(r, replies[0]);
    let rest = run_from(n.0, replies.drop_first());
    if r.stage == Stage::Applying && replies[0] == Reply::Count(c) {
        assert(run_from(r, replies) == seq![n.1] + rest);
        assert(n.0.count == c);
        lemma_reports_applied(n.0, replies.drop_first());
        lemma_reports_cons(n.1, rest, c);
    }
    if r.stage == Stage::Finding && replies[0] == Reply::Count(0) {
        assert(run_from(r, replies) == seq![n.1] + rest);
        let rr = replies.drop_first();
        if rr.len() > 0 && n.0.stage == Stage::CommittingQuietly {
            let m = step_spec(n.0, rr[0]);
            assert(run_from(m.0, rr.drop_first()) == Seq::<AuditAction>::empty());
            assert(rest == seq![m.1] + Seq::<AuditAction>::empty());
            lemma_reports_cons(m.1, Seq::<AuditAction>::empty(), 0);
        }
        lemma_reports_cons(n.1, rest, 0);
    }
}

/// The rows whose mark is `want`, in order.
pub open spec fn picked<T>(rows: Seq<T>, marks: Seq<bool>, want: bool) -> Seq<T>
    decreases rows.len(),
{
    if rows.len() == 0 {
        Seq::empty()
    } else {
        let rest = picked(rows.drop_last(), marks, want);
        if marks[rows.len() - 1] == want {
            rest.push(rows.last())
        } else {
            rest
        }
    }
}

/// The two headings have the same attributes, in the same order.
pub open spec fn same_heading(a: Seq<Attribute>, b: Seq<Attribute>) -> bool {
    views(a) == views(b)
}

proof fn lemma_same_heading(a: Seq<Attribute>, b: Seq<Attribute>)
    requires
        a.len() == b.len(),
        forall|i: int| 0 <= i < a.len() ==> (#[trigger] a[i]).name@ == b[i].name@ && a[i].ty == b[i].ty,
    ensures
        same_heading(a, b),
        sorted_names(a) == sorted_names(b),
        forall|r: Row| fits_heading(a, r) == fits_heading(b, r),
{
    assert(views(a) =~= views(b)) by {
        assert forall|i: int| 0 <= i < a.len() implies views(a)[i] == views(b)[i] by {
            assert(a[i]@ == (a[i].name@, a[i].ty));
            assert(b[i]@ == (b[i].name@, b[i].ty));
        }
    }
    assert(sorted_names(a) == sorted_names(b)) by {
        if sorted_names(a) {
            assert forall|i: int, j: int| 0 <= i < j < b.len() implies crate::text::lex_less((#[trigger] b[i]).name@, (#[trigger] b[j]).name@) by {
                assert(crate::text::lex_less(a[i].name@, a[j].name@));
            }
        }
        if sorted_names(b) {
            assert forall|i: int, j: int| 0 <= i < j < a.len() implies crate::text::lex_less((#[trigger] a[i]).name@, (#[trigger] a[j]).name@) by {
                assert(crate::text::lex_less(b[i].name@, b[j].name@));
            }
        }
    }
    assert forall|r: Row| fits_heading(a, r) == fits_heading(b, r) by {
        if fits_heading(a, r) {
            assert forall|i: int| 0 <= i < b.len() implies crate::relation::type_of(#[trigger] r@[i]) == b[i].ty by {
                assert(crate::relation::type_of(r@[i]) == a[i].ty);
            }
        }
        if fits_heading(b, r) {
            assert forall|i: int| 0 <= i < a.len() implies crate::relation::type_of(#[trigger] r@[i]) == a[i].ty by {
                assert(crate::relation::type_of(r@[i]) == b[i].ty);
            }
        }
    }
}

proof fn lemma_same_heading_fits(a: Seq<Attribute>, b: Seq<Attribute>)
    requires
        same_heading(a, b),
    ensures
        forall|r: Row| fits_heading(a, r) == fits_heading(b, r),
{
    assert(a.len() == views(a).len());
    assert forall|i: int| 0 <= i < a.len() implies a[i].ty == b[i].ty by {
        assert(views(a)[i] == views(b)[i]);
    }
    assert forall|r: Row| fits_heading(a, r) == fits_heading(b, r) by {
        if fits_heading(a, r) {
            assert forall|i: int| 0 <= i < b.len() implies crate::relation::type_of(#[trigger] r@[i]) == b[i].ty by {
                assert(crate::relation::type_of(r@[i]) == a[i].ty);
            }
        }
        if fits_heading(b, r) {
            assert forall|i: int| 0 <= i < a.len() implies crate::relation::type_of(#[trigger] r@[i]) == a[i].ty by {
                assert(crate::relation::type_of(r@[i]) == b[i].ty);
            }
        }
    }
}

/// Asks the predicate of a delete or update about each tuple of the
/// relation, in order.
pub fn mark_tuples<P: Fn(&Row) -> bool>(r: &Relation, predicate: P) -> (marks: Vec<bool>)
    requires
        forall|t: &Row| #[trigger] predicate.requires((t,)),
    ensures
        marks@.len() == r.tuples@.len(),
        forall|k: int| 0 <= k < r.tuples@.len() ==> predicate.ensures((&r.tuples@[k],), #[trigger] marks@[k]),
{
    let mut marks: Vec<bool> = Vec::new();
    let mut k: usize = 0;
    while k < r.tuples.len()
        invariant
            k <= r.tuples@.len(),
            marks@.len() == k,
            forall|t: &Row| #[trigger] predicate.requires((t,)),
            forall|j: int| 0 <= j < k ==> predicate.ensures((&r.tuples@[j],), #[trigger] marks@[j]),
        decreases r.tuples@.len() - k,
    {
        let m = predicate(&r.tuples[k]);
        marks.push(m);
        k = k + 1;
    }
    marks
}

/// Removes the marked tuples: the relation that is left, and the removed
/// tuples (the before images of a delete), in the relation's order.
pub fn delete_marked(r: &Relation, marks: &Vec<bool>) -> (out: (Relation, Vec<Row>))
    requires
        r.wf(),
        marks@.len() == r.tuples@.len(),
    ensures
        out.0.wf(),
        same_heading(out.0.heading@, r.heading@),
        out.0.tuple_set() == picked(views(r.tuples@), marks@, false).to_set(),
        views(out.1@) == picked(views(r.tuples@), marks@, true),
{
    let heading = copy_heading(&r.heading);
    proof {
        lemma_same_heading(heading@, r.heading@);
    }
    let mut rest = Relation::new(heading);
    let mut gone: Vec<Row> = Vec::new();
    let ghost all = views(r.tuples@);
    let mut k: usize = 0;
    while k < r.tuples.len()
        invariant
            r.wf(),
            k <= r.tuples@.len(),
            marks@.len() == r.tuples@.len(),
            all == views(r.tuples@),
            rest.wf(),
            same_heading(rest.heading@, r.heading@),
            forall|t: Row| fits_heading(rest.heading@, t) == fits_heading(r.heading@, t),
            rest.tuple_set() == picked(all.take(k as int), marks@, false).to_set(),
            views(gone@) == picked(all.take(k as int), marks@, true),
        decreases r.tuples@.len() - k,
    {
        proof {
            assert(all.take(k + 1).drop_last() =~= all.take(k as int));
            assert(all.take(k + 1).last() == all[k as int]);
            assert(all[k as int] == r.tuples@[k as int]@);
        }
        let row = r.tuples[k].duplicate();
        if marks[k] {
            let ghost before = views(gone@);
            gone.push(row);
            assert(views(gone@) =~= before.push(row@));
            assert(picked(all.take(k + 1), marks@, true) == before.push(row@));
        } else {
            assert(fits_heading(r.heading@, r.tuples@[k as int]));
            assert(fits_heading(r.heading@, row)) by {
                assert(row@ == r.tuples@[k as int]@);
            }
            rest.insert(row);
            proof {
                let p0 = picked(all.take(k as int), marks@, false);
                assert(picked(all.take(k + 1), marks@, false) == p0.push(row@));
                assert(p0.push(row@).to_set() =~= p0.to_set().insert(row@)) by {
                    assert forall|x: Seq<ValueView>| p0.push(row@).contains(x) <==> p0.to_set().insert(row@).contains(x) by {
                        if p0.push(row@).contains(x) {
                            let j = choose|j: int| 0 <= j < p0.push(row@).len() && p0.push(row@)[j] == x;
                            if j < p0.len() {
                                assert(p0.contains(x));
                            }
                        }
                        if p0.contains(x) {
                            let j = choose|j: int| 0 <= j < p0.len() && p0[j] == x;
                            assert(p0.push(row@)[j] == x);
                        }
                        assert(p0.push(row@)[p0.len() as int] == row@);
                    }
                }
            }
        }
        k = k + 1;
    }
    assert(all.take(r.tuples@.len() as int) =~= all);
    (rest, gone)
}

/// The message of an update whose new tuple does not fit the relvar.
pub open spec fn misfit_message() -> Seq<char> {
    "Updated tuple does not fit the heading of the relvar"@
}

/// What an update comes to, given the tuples it picked (`marks`), their
/// before images and the after images the updater gave for them: an error
/// when an after image does not fit the heading; else the relation without
/// the picked tuples and with the after images, and one log pair per picked
/// tuple.
pub open spec fn update_outcome(
    r: Relation,
    marks: Seq<bool>,
    befores: Seq<Row>,
    afters: Seq<Row>,
    res: Result<(Relation, Vec<(Row, Row)>), DatabaseError>,
) -> bool {
    match res {
        Err(e) => {
            &&& e matches DatabaseError::AlgebraError(m) && m@ == misfit_message()
            &&& exists|i: int| 0 <= i < afters.len() && !fits_heading(r.heading@, #[trigger] afters[i])
        },
        Ok((rel, log)) => {
            &&& forall|i: int| 0 <= i < afters.len() ==> fits_heading(r.heading@, #[trigger] afters[i])
            &&& rel.wf()
            &&& same_heading(rel.heading@, r.heading@)
            &&& rel.tuple_set() == picked(views(r.tuples@), marks, false).to_set() + views(afters).to_set()
            &&& log@.len() == befores.len()
            &&& forall|i: int| 0 <= i < befores.len() ==> (#[trigger] log@[i]).0@ == befores[i]@ && log@[i].1@ == afters[i]@
        },
    }
}

/// Adds the after images of an update to what is left of the relation, and
/// pairs each before image with its after image for the log. Fails, adding
/// nothing, when an after image does not fit the heading.
pub fn apply_update(rest: Relation, befores: &Vec<Row>, afters: &Vec<Row>) -> (res: Result<(Relation, Vec<(Row, Row)>), DatabaseError>)
    requires
        rest.wf(),
        befores@.len() == afters@.len(),
    ensures
        res is Err <==> exists|i: int| 0 <= i < afters@.len() && !fits_heading(rest.heading@, #[trigger] afters@[i]),
        res matches Err(e) ==> e matches DatabaseError::AlgebraError(m) && m@ == misfit_message(),
        res matches Ok((rel, log)) ==> {
            &&& rel.wf()
            &&& rel.heading == rest.heading
            &&& rel.tuple_set() == rest.tuple_set() + views(afters@).to_set()
            &&& log@.len() == befores@.len()
            &&& forall|i: int| 0 <= i < befores@.len() ==> (#[trigger] log@[i]).0@ == befores@[i]@ && log@[i].1@ == afters@[i]@
        },
{
    let mut i: usize = 0;
    while i < afters.len()
        invariant
            i <= afters@.len(),
            forall|j: int| 0 <= j < i ==> fits_heading(rest.heading@, #[trigger] afters@[j]),
        decreases afters@.len() - i,
    {
        if !row_fits(&rest.heading, &afters[i]) {
            return Err(DatabaseError::AlgebraError("Updated tuple does not fit the heading of the relvar".to_string()));
        }
        i = i + 1;
    }
    let mut rel = rest;
    let ghost base = rel.tuple_set();
    let mut log: Vec<(Row, Row)> = Vec::new();
    let mut k: usize = 0;
    while k < afters.len()
        invariant
            k <= afters@.len(),
            befores@.len() == afters@.len(),
            forall|j: int| 0 <= j < afters@.len() ==> fits_heading(rest.heading@, #[trigger] afters@[j]),
            rel.wf(),
            rel.heading == rest.heading,
            rel.tuple_set() == base + views(afters@.take(k as int)).to_set(),
            log@.len() == k,
            forall|j: int| 0 <= j < k ==> (#[trigger] log@[j]).0@ == befores@[j]@ && log@[j].1@ == afters@[j]@,
        decreases afters@.len() - k,
    {
        let row = afters[k].duplicate();
        let ghost prev = rel.tuple_set();
        rel.insert(row);
        proof {
            assert(afters@.take(k + 1) =~= afters@.take(k as int).push(afters@[k as int]));
            let vs = views(afters@.take(k as int));
            assert(views(afters@.take(k + 1)) =~= vs.push(row@));
            assert(vs.push(row@).to_set() =~= vs.to_set().insert(row@)) by {
                assert forall|x: Seq<ValueView>| vs.push(row@).contains(x) <==> vs.to_set().insert(row@).contains(x) by {
                    if vs.push(row@).contains(x) {
                        let j = choose|j: int| 0 <= j < vs.push(row@).len() && vs.push(row@)[j] == x;
                        if j < vs.len() {
                            assert(vs.contains(x));
                        }
                    }
                    if vs.contains(x) {
                        let j = choose|j: int| 0 <= j < vs.len() && vs[j] == x;
                        assert(vs.push(row@)[j] == x);
                    }
                    assert(vs.push(row@)[vs.len() as int] == row@);
                }
            }
            assert(rel.tuple_set() =~= base + views(afters@.take(k + 1)).to_set());
        }
        log.push((befores[k].duplicate(), afters[k].duplicate()));
        k = k + 1;
    }
    assert(afters@.take(afters@.len() as int) =~= afters@);
    Ok((rel, log))
}

/// Deletes the tuples a predicate picks: the relation that is left, and the
/// before image of each deleted tuple, in the relation's order.
pub fn delete_tuples<P: Fn(&Row) -> bool>(r: &Relation, predicate: P) -> (out: (Relation, Vec<Row>))
    requires
        r.wf(),
        forall|t: &Row| #[trigger] predicate.requires((t,)),
    ensures
        exists|marks: Seq<bool>| {
            &&& marks.len() == r.tuples@.len()
            &&& forall|k: int| 0 <= k < r.tuples@.len() ==> predicate.ensures((&r.tuples@[k],), #[trigger] marks[k])
            &&& out.0.wf()
            &&& same_heading(out.0.heading@, r.heading@)
            &&& out.0.tuple_set() == picked(views(r.tuples@), marks, false).to_set()
            &&& views(out.1@) == picked(views(r.tuples@), marks, true)
        },
{
    let marks = mark_tuples(r, predicate);
    delete_marked(r, &marks)
}

/// Updates the tuples a predicate picks with an updater: the new relation
/// and, per updated tuple in the relation's order, its before and after
/// images; or an error when an after image does not fit the heading.
pub fn update_tuples<P: Fn(&Row) -> bool, U: Fn(&Row) -> Row>(r: &Relation, predicate: P, updater: U) -> (res: Result<(Relation, Vec<(Row, Row)>), DatabaseError>)
    requires
        r.wf(),
        forall|t: &Row| #[trigger] predicate.requires((t,)),
        forall|t: &Row| #[trigger] updater.requires((t,)),
    ensures
        exists|marks: Seq<bool>, befores: Seq<Row>, afters: Seq<Row>| {
            &&& marks.len() == r.tuples@.len()
            &&& forall|k: int| 0 <= k < r.tuples@.len() ==> predicate.ensures((&r.tuples@[k],), #[trigger] marks[k])
            &&& views(befores) == picked(views(r.tuples@), marks, true)
            &&& afters.len() == befores.len()
            &&& forall|i: int| 0 <= i < befores.len() ==> updater.ensures((&befores[i],), #[trigger] afters[i])
            &&& update_outcome(*r, marks, befores, afters, res)
        },
{
    let marks = mark_tuples(r, predicate);
    let (rest, befores) = delete_marked(r, &marks);
    let mut afters: Vec<Row> = Vec::new();
    let mut i: usize = 0;
    while i < befores.len()
        invariant
            i <= befores@.len(),
            afters@.len() == i,
            forall|t: &Row| #[trigger] updater.requires((t,)),
            forall|j: int| 0 <= j < i ==> updater.ensures((&befores@[j],), #[trigger] afters@[j]),
        decreases befores@.len() - i,
    {
        let a = updater(&befores[i]);
        afters.push(a);
        i = i + 1;
    }
    proof {
        lemma_same_heading_fits(rest.heading@, r.heading@);
    }
    let res = apply_update(rest, &befores, &afters);
    proof {
        if res is Err {
            let i = choose|i: int| 0 <= i < afters@.len() && !fits_heading(rest.heading@, #[trigger] afters@[i]);
            assert(!fits_heading(r.heading@, afters@[i]));
        }
        assert(update_outcome(*r, marks@, befores@, afters@, res));
    }
    res
}


proof fn lemma_picked_members<T>(rows: Seq<T>, marks: Seq<bool>, want: bool, x: T)
    ensures
        picked(rows, marks, want).contains(x) <==> exists|i: int| 0 <= i < rows.len() && rows[i] == x && marks[i] == want,
    decreases rows.len(),
{
    if rows.len() > 0 {
        let n = rows.len() - 1;
        let init = rows.drop_last();
        lemma_picked_members(init, marks, want, x);
        let rest = picked(init, marks, want);
        if picked(rows, marks, want).contains(x) {
            if marks[n] == want && x == rows.last() {
                assert(rows[n] == x);
            } else {
                let j = choose|j: int| 0 <= j < picked(rows, marks, want).len() && picked(rows, marks, want)[j] == x;
                if marks[n] == want {
                    assert(rest.push(rows.last())[j] == x);
                    assert(j < rest.len());
                    assert(rest[j] == x);
                }
                assert(rest.contains(x));
                let i = choose|i: int| 0 <= i < init.len() && init[i] == x && marks[i] == want;
                assert(rows[i] == x);
            }
        }
        if exists|i: int| 0 <= i < rows.len() && rows[i] == x && marks[i] == want {
            let i = choose|i: int| 0 <= i < rows.len() && rows[i] == x && marks[i] == want;
            if i == n {
                assert(picked(rows, marks, want) == rest.push(rows.last()));
                assert(rest.push(rows.last())[rest.len() as int] == x);
            } else {
                assert(init[i] == x);
                assert(rest.contains(x));
                let j = choose|j: int| 0 <= j < rest.len() && rest[j] == x;
                if marks[n] == want {
                    assert(rest.push(rows.last())[j] == x);
                }
            }
        }
    }
}

/// A delete splits the relation: each tuple either stays or is removed
/// (and logged), never both.
pub proof fn law_delete_partitions(r: Relation, marks: Seq<bool>)
    requires
        r.wf(),
        marks.len() == r.tuples@.len(),
    ensures
        picked(views(r.tuples@), marks, false).to_set() + picked(views(r.tuples@), marks, true).to_set() == r.tuple_set(),
        picked(views(r.tuples@), marks, false).to_set().disjoint(picked(views(r.tuples@), marks, true).to_set()),
{
    let rows = views(r.tuples@);
    let kept = picked(rows, marks, false);
    let gone = picked(rows, marks, true);
    assert forall|x: Seq<ValueView>| (kept.to_set() + gone.to_set()).contains(x) <==> r.tuple_set().contains(x) by {
        lemma_picked_members(rows, marks, false, x);
        lemma_picked_members(rows, marks, true, x);
        if rows.contains(x) {
            let i = choose|i: int| 0 <= i < rows.len() && rows[i] == x;
            if marks[i] {
                assert(gone.contains(x));
            } else {
                assert(kept.contains(x));
            }
        }
    }
    assert(kept.to_set() + gone.to_set() =~= r.tuple_set());
    assert forall|x: Seq<ValueView>| !(kept.to_set().contains(x) && gone.to_set().contains(x)) by {
        lemma_picked_members(rows, marks, false, x);
        lemma_picked_members(rows, marks, true, x);
        if kept.contains(x) && gone.contains(x) {
            let i = choose|i: int| 0 <= i < rows.len() && rows[i] == x && marks[i] == false;
            let j = choose|j: int| 0 <= j < rows.len() && rows[j] == x && marks[j] == true;
            assert(i != j);
        }
    }
}

} // verus!
