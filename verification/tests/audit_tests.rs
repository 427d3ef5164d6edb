use relvar::audit::{apply_update, delete_tuples, mark_tuples, start, step, update_tuples, AuditAction, ChangeKind, Reply};
use relvar::pivot::DatabaseError;
use relvar::relation::{Attribute, Relation, Row, ScalarType, ScalarValue};

fn drive(kind: ChangeKind, to_log: bool, in_tx: bool, replies: &[Reply]) -> Vec<AuditAction> {
    let (mut run, mut action) = start(kind, to_log, in_tx);
    let mut out = vec![action];
    for r in replies {
        if let AuditAction::Finish { .. } = action {
            break;
        }
        let (next, a) = step(run, *r);
        run = next;
        action = a;
        out.push(a);
    }
    out
}

#[test]
fn test_insert_is_audited_in_own_transaction() {
    let t = drive(ChangeKind::Insert, false, false, &[Reply::Done, Reply::Done, Reply::Done, Reply::Done]);
    assert_eq!(
        t,
        vec![
            AuditAction::Begin,
            AuditAction::Apply,
            AuditAction::WriteLog(0),
            AuditAction::Commit,
            AuditAction::Finish { ok: true, count: 0 },
        ]
    );
}

#[test]
fn test_delete_logs_each_affected_tuple() {
    let t = drive(
        ChangeKind::Delete,
        false,
        false,
        &[Reply::Done, Reply::Count(2), Reply::Count(2), Reply::Done, Reply::Done, Reply::Done],
    );
    assert_eq!(
        t,
        vec![
            AuditAction::Begin,
            AuditAction::FindAffected,
            AuditAction::Apply,
            AuditAction::WriteLog(0),
            AuditAction::WriteLog(1),
            AuditAction::Commit,
            AuditAction::Finish { ok: true, count: 2 },
        ]
    );
}

#[test]
fn test_update_nothing_affected_commits_quietly() {
    let t = drive(ChangeKind::Update, false, false, &[Reply::Done, Reply::Count(0), Reply::Failed]);
    assert_eq!(
        t,
        vec![
            AuditAction::Begin,
            AuditAction::FindAffected,
            AuditAction::CommitQuietly,
            AuditAction::Finish { ok: true, count: 0 },
        ]
    );
}

#[test]
fn test_transaction_rollback_on_failed_log() {
    let t = drive(ChangeKind::Insert, false, false, &[Reply::Done, Reply::Done, Reply::Failed, Reply::Done]);
    assert_eq!(
        t,
        vec![
            AuditAction::Begin,
            AuditAction::Apply,
            AuditAction::WriteLog(0),
            AuditAction::Rollback,
            AuditAction::Finish { ok: false, count: 0 },
        ]
    );
}

#[test]
fn test_inside_open_transaction_no_commit() {
    let t = drive(ChangeKind::Insert, false, true, &[Reply::Done, Reply::Done]);
    assert_eq!(t, vec![AuditAction::Apply, AuditAction::WriteLog(0), AuditAction::Finish { ok: true, count: 0 }]);
    let t = drive(ChangeKind::Insert, false, true, &[Reply::Failed]);
    assert_eq!(t, vec![AuditAction::Apply, AuditAction::Finish { ok: false, count: 0 }]);
}

#[test]
fn test_log_relvar_passes_through() {
    let t = drive(ChangeKind::Delete, true, false, &[Reply::Count(3)]);
    assert_eq!(t, vec![AuditAction::Passthrough, AuditAction::Finish { ok: true, count: 3 }]);
}

#[test]
fn test_begin_failure_stops() {
    let t = drive(ChangeKind::Update, false, false, &[Reply::Failed]);
    assert_eq!(t, vec![AuditAction::Begin, AuditAction::Finish { ok: false, count: 0 }]);
}

fn people() -> Relation {
    let heading = vec![
        Attribute { name: "id".to_string(), ty: ScalarType::Int },
        Attribute { name: "name".to_string(), ty: ScalarType::String },
    ];
    let mut r = Relation::new(heading);
    r.insert(person(1, "Alice"));
    r.insert(person(2, "Bob"));
    r.insert(person(3, "Carol"));
    r
}

fn person(id: i64, name: &str) -> Row {
    Row { values: vec![ScalarValue::Int(id), ScalarValue::String(name.to_string())] }
}

fn id_of(t: &Row) -> i64 {
    match &t.values[0] {
        ScalarValue::Int(n) => *n,
        _ => -1,
    }
}

#[test]
fn test_mark_tuples_asks_each_tuple() {
    let r = people();
    assert_eq!(mark_tuples(&r, |t: &Row| id_of(t) >= 2), vec![false, true, true]);
}

#[test]
fn test_delete_tuples_gives_before_images() {
    let r = people();
    let (rest, gone) = delete_tuples(&r, |t: &Row| id_of(t) == 1);
    assert_eq!(gone, vec![person(1, "Alice")]);
    assert_eq!(rest.tuples, vec![person(2, "Bob"), person(3, "Carol")]);
    assert_eq!(rest.heading, r.heading);
}

#[test]
fn test_delete_tuples_nothing_picked() {
    let r = people();
    let (rest, gone) = delete_tuples(&r, |_t: &Row| false);
    assert!(gone.is_empty());
    assert_eq!(rest.tuples, r.tuples);
}

#[test]
fn test_update_tuples_pairs_images() {
    let r = people();
    let (rel, log) = update_tuples(&r, |t: &Row| id_of(t) == 1, |_t: &Row| person(1, "Bob")).unwrap();
    assert_eq!(log, vec![(person(1, "Alice"), person(1, "Bob"))]);
    assert_eq!(rel.tuples, vec![person(2, "Bob"), person(3, "Carol"), person(1, "Bob")]);
}

#[test]
fn test_update_tuples_merges_equal_tuples() {
    let r = people();
    let (rel, log) = update_tuples(&r, |t: &Row| id_of(t) == 3, |_t: &Row| person(2, "Bob")).unwrap();
    assert_eq!(log.len(), 1);
    assert_eq!(rel.cardinality(), 2);
}

#[test]
fn test_update_tuples_misfit_is_refused() {
    let r = people();
    let res = update_tuples(&r, |t: &Row| id_of(t) == 2, |_t: &Row| Row { values: vec![ScalarValue::Int(2)] });
    match res {
        Err(DatabaseError::AlgebraError(m)) => assert_eq!(m, "Updated tuple does not fit the heading of the relvar"),
        _ => panic!("expected the update to be refused"),
    }
}

#[test]
fn test_apply_update_adds_after_images() {
    let mut rest = Relation::new(people().heading.clone());
    rest.insert(person(5, "Eve"));
    let (rel, log) = apply_update(rest, &vec![person(4, "Dan")], &vec![person(4, "Dora")]).unwrap();
    assert_eq!(rel.tuples, vec![person(5, "Eve"), person(4, "Dora")]);
    assert_eq!(log, vec![(person(4, "Dan"), person(4, "Dora"))]);
}

#[test]
fn test_delete_partitions_the_relation() {
    let r = people();
    let (rest, gone) = delete_tuples(&r, |t: &Row| id_of(t) % 2 == 1);
    let mut all: Vec<Row> = rest.tuples.clone();
    all.extend(gone.iter().cloned());
    assert_eq!(all.len(), r.tuples.len());
    for t in &r.tuples {
        assert!(rest.tuples.contains(t) != gone.contains(t));
    }
}
