use mattrax::checkin::CheckinPlan;
use mattrax::cli::Command;
use mattrax::devices::Enrollment;
use mattrax::ledger::{CreatePolicyDeployStatus, Outcome};
use mattrax::model::{
    Assignable, Assignment, Db, DbError, Deploy, DeployVariant, Membership, QueuedDeviceActionsResult, Scope,
};

fn enroll(db: &mut Db, mdm_id: &str, serial: &str) -> u64 {
    db.create_device(Enrollment {
        id: format!("id-{mdm_id}"),
        mdm_id: mdm_id.to_string(),
        name: "laptop".to_string(),
        enrollment_type: "user".to_string(),
        os: "Windows".to_string(),
        serial_number: serial.to_string(),
        tenant_pk: 1,
        owner_pk: None,
        enrolled_by_pk: None,
    })
    .unwrap();
    db.get_device(&mdm_id.to_string())[0].pk
}

fn deploy(db: &mut Db, pk: u64, policy_pk: u64, data: &str) {
    db.insert_deploy(Deploy { pk, policy_pk, data: data.to_string() }).unwrap();
}

fn assign_device(db: &mut Db, policy_pk: u64, device_pk: u64) {
    db.assignments.push(Assignment { policy_pk, target: Assignable::Device(device_pk) });
}

fn assign_group(db: &mut Db, policy_pk: u64, group_pk: u64) {
    db.assignments.push(Assignment { policy_pk, target: Assignable::Group(group_pk) });
}

fn summary(plan: &CheckinPlan) -> Vec<(u64, Scope, u64, String, Option<String>)> {
    plan.policies
        .iter()
        .map(|p| (p.policy_pk, p.scope, p.deploy_pk, p.data.clone(), p.conflicts.clone()))
        .collect()
}

fn states(plan: &CheckinPlan) -> Vec<DeployVariant> {
    plan.policies.iter().map(|p| p.variant).collect()
}

#[test]
fn direct_assignment_gets_latest_payload() {
    let mut db = Db::new();
    let x = enroll(&mut db, "X", "S-X");
    deploy(&mut db, 1, 10, "{\"k\":0}");
    deploy(&mut db, 2, 10, "{\"k\":1}");
    assign_device(&mut db, 10, x);

    let first = db.checkin(x, 100).unwrap();
    assert_eq!(summary(&first), vec![(10, Scope::Direct, 2, "{\"k\":1}".to_string(), None)]);
    assert_eq!(first.policies[0].variant, DeployVariant::Pending);
    assert_eq!(db.statuses.len(), 1);
    assert_eq!(db.statuses[0].deploy_pk, 2);
    assert_eq!(db.statuses[0].device_pk, x);
    assert_eq!(db.statuses[0].variant, DeployVariant::Pending);
    assert_eq!(db.statuses[0].conflicts, None);
    assert_eq!(db.statuses[0].done_at, None);

    let second = db.checkin(x, 200).unwrap();
    assert_eq!(summary(&second), summary(&first));
    assert_eq!(db.statuses.len(), 1);
}

#[test]
fn group_assignment_resolves_with_group_scope() {
    let mut db = Db::new();
    let y = enroll(&mut db, "Y", "S-Y");
    db.memberships.push(Membership { group_pk: 7, device_pk: y });
    deploy(&mut db, 5, 20, "{}");
    assign_group(&mut db, 20, 7);

    let plan = db.checkin(y, 1).unwrap();
    assert_eq!(plan.policies.len(), 1);
    assert_eq!(plan.policies[0].policy_pk, 20);
    assert_eq!(plan.policies[0].scope, Scope::Group);
}

#[test]
fn conflict_on_latest_deploy_is_reported() {
    let mut db = Db::new();
    let z = enroll(&mut db, "Z", "S-Z");
    deploy(&mut db, 3, 30, "{\"c\":true}");
    assign_device(&mut db, 30, z);
    db.checkin(z, 1).unwrap();
    db.record_outcome(z, 3, Outcome::Conflict("{\"bad\":1}".to_string()), 2).unwrap();
    let rows_before = db.statuses.len();

    let plan = db.checkin(z, 3).unwrap();
    assert_eq!(plan.policies[0].deploy_pk, 3);
    assert_eq!(plan.policies[0].conflicts, Some("{\"bad\":1}".to_string()));
    assert_eq!(plan.policies[0].variant, DeployVariant::Conflict);
    assert_eq!(db.statuses.len(), rows_before);
}

#[test]
fn checkin_twice_gives_same_plan_and_no_new_rows() {
    let mut db = Db::new();
    let d = enroll(&mut db, "D", "S-D");
    db.memberships.push(Membership { group_pk: 1, device_pk: d });
    deploy(&mut db, 4, 40, "a");
    deploy(&mut db, 6, 41, "b");
    deploy(&mut db, 9, 40, "c");
    assign_device(&mut db, 40, d);
    assign_group(&mut db, 41, 1);
    let first = db.checkin(d, 10).unwrap();
    let rows = db.statuses.len();
    assert_eq!(rows, 2);
    let second = db.checkin(d, 11).unwrap();
    assert_eq!(summary(&first), summary(&second));
    assert_eq!(states(&first), states(&second));
    assert_eq!(db.statuses.len(), rows);
    assert_eq!(first.policies[0].deploy_pk, 9);
    assert_eq!(first.policies[1].scope, Scope::Group);
}

#[test]
fn applied_deploy_is_up_to_date() {
    let mut db = Db::new();
    let d = enroll(&mut db, "D", "S-D");
    deploy(&mut db, 1, 90, "x");
    assign_device(&mut db, 90, d);
    db.checkin(d, 1).unwrap();
    db.record_outcome(d, 1, Outcome::Applied, 2).unwrap();
    let plan = db.checkin(d, 3).unwrap();
    assert_eq!(states(&plan), vec![DeployVariant::Applied]);
    assert_eq!(plan.policies[0].conflicts, None);
    assert_eq!(db.statuses.len(), 1);
}

#[test]
fn direct_outranks_group_in_either_order() {
    let mut db = Db::new();
    let d = enroll(&mut db, "D", "S-D");
    db.memberships.push(Membership { group_pk: 2, device_pk: d });
    assign_group(&mut db, 50, 2);
    assign_device(&mut db, 50, d);
    assign_device(&mut db, 51, d);
    assign_group(&mut db, 51, 2);
    let r = db.resolve_applicable_policies(d);
    assert_eq!(r, vec![(50, Scope::Direct), (51, Scope::Direct)]);
}

#[test]
fn unassigned_device_resolves_nothing() {
    let mut db = Db::new();
    let d = enroll(&mut db, "D", "S-D");
    let other = enroll(&mut db, "E", "S-E");
    assign_device(&mut db, 60, other);
    db.memberships.push(Membership { group_pk: 3, device_pk: other });
    assign_group(&mut db, 61, 3);
    assert!(db.resolve_applicable_policies(d).is_empty());
    deploy(&mut db, 1, 60, "x");
    let plan = db.checkin(d, 5).unwrap();
    assert!(plan.policies.is_empty());
    assert!(db.statuses.is_empty());
}

#[test]
fn latest_deploy_is_maximum_whatever_the_insertion_order() {
    let mut db = Db::new();
    deploy(&mut db, 12, 70, "twelve");
    deploy(&mut db, 30, 70, "thirty");
    deploy(&mut db, 31, 71, "other policy");
    deploy(&mut db, 4, 70, "four");
    let latest = db.latest_deploy(70).unwrap();
    assert_eq!(latest.pk, 30);
    assert_eq!(latest.data, "thirty");
    assert!(db.latest_deploy(72).is_none());
    assert_eq!(db.deploy(4).unwrap().data, "four");
    assert_eq!(db.deploy(5).unwrap_err(), DbError::NotFound);
}

#[test]
fn duplicate_deploy_identifier_is_refused() {
    let mut db = Db::new();
    deploy(&mut db, 1, 1, "a");
    let r = db.insert_deploy(Deploy { pk: 1, policy_pk: 2, data: "b".to_string() });
    assert_eq!(r, Err(DbError::WriteConflict));
    assert_eq!(db.deploys.len(), 1);
}

#[test]
fn conflict_stays_visible_while_newer_deploy_is_pending() {
    let mut db = Db::new();
    let d = enroll(&mut db, "D", "S-D");
    deploy(&mut db, 1, 80, "v1");
    assign_device(&mut db, 80, d);
    db.checkin(d, 1).unwrap();
    db.record_outcome(d, 1, Outcome::Conflict("oops".to_string()), 2).unwrap();
    assert_eq!(db.checkin(d, 3).unwrap().policies[0].conflicts, Some("oops".to_string()));
    assert_eq!(db.checkin(d, 4).unwrap().policies[0].conflicts, Some("oops".to_string()));
    deploy(&mut db, 2, 80, "v2");
    let plan = db.checkin(d, 5).unwrap();
    assert_eq!(plan.policies[0].deploy_pk, 2);
    assert_eq!(plan.policies[0].data, "v2");
    assert_eq!(plan.policies[0].conflicts, Some("oops".to_string()));
    assert_eq!(plan.policies[0].variant, DeployVariant::Conflict);
    assert_eq!(db.status_for(d, 2).unwrap().variant, DeployVariant::Pending);
    let again = db.checkin(d, 6).unwrap();
    assert_eq!(summary(&again), summary(&plan));
    assert_eq!(again.policies[0].variant, DeployVariant::Conflict);
    let data = db.get_policy_data_for_checkin(d);
    assert_eq!(data[0].latest_deploy.pk, 2);
    assert_eq!(data[0].last_deploy.as_ref().unwrap().pk, 2);
    db.record_outcome(d, 2, Outcome::Applied, 7).unwrap();
    let fixed = db.checkin(d, 8).unwrap();
    assert_eq!(fixed.policies[0].conflicts, None);
    assert_eq!(fixed.policies[0].variant, DeployVariant::Applied);
}

#[test]
fn older_applied_report_does_not_mark_new_deploy_up_to_date() {
    let mut db = Db::new();
    let d = enroll(&mut db, "D", "S-D");
    deploy(&mut db, 1, 81, "v1");
    assign_device(&mut db, 81, d);
    db.checkin(d, 1).unwrap();
    db.record_outcome(d, 1, Outcome::Applied, 2).unwrap();
    deploy(&mut db, 2, 81, "v2");
    let plan = db.checkin(d, 3).unwrap();
    assert_eq!(plan.policies[0].deploy_pk, 2);
    assert_eq!(plan.policies[0].variant, DeployVariant::Pending);
    assert_eq!(plan.policies[0].conflicts, None);
}

#[test]
fn pending_insert_skips_existing_rows() {
    let mut db = Db::new();
    db.create_policy_deploy_status(vec![CreatePolicyDeployStatus { device_pk: 1, deploy_pk: 9 }]);
    db.record_outcome(1, 9, Outcome::Applied, 77).unwrap();
    db.create_policy_deploy_status(vec![
        CreatePolicyDeployStatus { device_pk: 1, deploy_pk: 9 },
        CreatePolicyDeployStatus { device_pk: 2, deploy_pk: 9 },
        CreatePolicyDeployStatus { device_pk: 2, deploy_pk: 9 },
    ]);
    assert_eq!(db.statuses.len(), 2);
    let row = db.status_for(1, 9).unwrap();
    assert_eq!(row.variant, DeployVariant::Applied);
    assert_eq!(row.done_at, Some(77));
    assert_eq!(db.status_for(2, 9).unwrap().variant, DeployVariant::Pending);
}

#[test]
fn outcome_on_terminal_row_is_a_no_op() {
    let mut db = Db::new();
    db.create_policy_deploy_status(vec![CreatePolicyDeployStatus { device_pk: 1, deploy_pk: 2 }]);
    db.record_outcome(1, 2, Outcome::Applied, 10).unwrap();
    db.record_outcome(1, 2, Outcome::Conflict("late".to_string()), 20).unwrap();
    let row = db.status_for(1, 2).unwrap();
    assert_eq!(row.variant, DeployVariant::Applied);
    assert_eq!(row.conflicts, None);
    assert_eq!(row.done_at, Some(10));
}

#[test]
fn outcome_without_row_is_not_found() {
    let mut db = Db::new();
    assert_eq!(db.record_outcome(1, 2, Outcome::Applied, 10), Err(DbError::NotFound));
    assert!(db.status_for(1, 2).is_none());
}

#[test]
fn checkin_of_unknown_device_is_not_found() {
    let mut db = Db::new();
    deploy(&mut db, 1, 1, "a");
    assign_device(&mut db, 1, 42);
    assert!(matches!(db.checkin(42, 1), Err(DbError::NotFound)));
    assert!(db.statuses.is_empty());
    assert_eq!(db.update_device_lastseen(42, 1), Err(DbError::NotFound));
}

#[test]
fn checkin_sets_last_seen() {
    let mut db = Db::new();
    let d = enroll(&mut db, "D", "S-D");
    assert_eq!(db.devices[0].last_synced, None);
    db.checkin(d, 1234).unwrap();
    assert_eq!(db.devices[0].last_synced, Some(1234));
}

#[test]
fn queued_actions_come_oldest_first() {
    let mut db = Db::new();
    let act = |name: &str, device_pk: u64, created_at: i64| QueuedDeviceActionsResult {
        action: name.to_string(),
        device_pk,
        created_by: 1,
        created_at,
    };
    db.actions.push(act("wipe", 1, 30));
    db.actions.push(act("lock", 1, 10));
    db.actions.push(act("other", 2, 5));
    db.actions.push(act("sync", 1, 30));
    db.actions.push(act("restart", 1, 20));
    let q: Vec<String> = db.queued_device_actions(1).into_iter().map(|a| a.action).collect();
    assert_eq!(q, vec!["lock", "restart", "wipe", "sync"]);
    assert!(db.queued_device_actions(3).is_empty());
}

#[test]
fn checkin_returns_queued_actions() {
    let mut db = Db::new();
    let d = enroll(&mut db, "D", "S-D");
    db.actions.push(QueuedDeviceActionsResult { action: "b".to_string(), device_pk: d, created_by: 1, created_at: 2 });
    db.actions.push(QueuedDeviceActionsResult { action: "a".to_string(), device_pk: d, created_by: 1, created_at: 1 });
    let plan = db.checkin(d, 1).unwrap();
    let names: Vec<String> = plan.actions.iter().map(|a| a.action.clone()).collect();
    assert_eq!(names, vec!["a", "b"]);
}

#[test]
fn pending_statuses_of_a_device() {
    let mut db = Db::new();
    db.create_policy_deploy_status(vec![
        CreatePolicyDeployStatus { device_pk: 1, deploy_pk: 1 },
        CreatePolicyDeployStatus { device_pk: 1, deploy_pk: 2 },
        CreatePolicyDeployStatus { device_pk: 2, deploy_pk: 1 },
    ]);
    db.record_outcome(1, 1, Outcome::Applied, 5).unwrap();
    let p: Vec<u64> = db.get_pending_deploy_statuses(1).iter().map(|s| s.deploy_pk).collect();
    assert_eq!(p, vec![2]);
}

#[test]
fn device_upsert_overwrites_and_lookups_find_it() {
    let mut db = Db::new();
    let d = enroll(&mut db, "M1", "SER1");
    let e = enroll(&mut db, "M2", "SER2");
    assert_eq!(d, 1);
    assert_eq!(e, 2);
    db.update_device_lastseen(d, 99).unwrap();
    db.create_device(Enrollment {
        id: "new-id".to_string(),
        mdm_id: "M1".to_string(),
        name: "renamed".to_string(),
        enrollment_type: "device".to_string(),
        os: "Windows".to_string(),
        serial_number: "SER9".to_string(),
        tenant_pk: 1,
        owner_pk: Some(4),
        enrolled_by_pk: None,
    })
    .unwrap();
    assert_eq!(db.devices.len(), 2);
    assert_eq!(db.devices[0].pk, 1);
    assert_eq!(db.devices[0].name, "renamed");
    assert_eq!(db.devices[0].last_synced, Some(99));
    let found = db.get_device_by_serial(&"SER9".to_string());
    assert_eq!(found.len(), 1);
    assert_eq!(found[0].id, "new-id");
    assert!(db.get_device_by_serial(&"SER1".to_string()).is_empty());
    assert!(db.get_device(&"M3".to_string()).is_empty());
}

#[test]
fn scope_ranking_prefers_direct() {
    assert!(Scope::Direct.rank() < Scope::Group.rank());
    assert_eq!(Scope::Group.stronger(Scope::Direct), Scope::Direct);
    assert_eq!(Scope::Direct.stronger(Scope::Group), Scope::Direct);
    assert_eq!(Scope::Group.stronger(Scope::Group), Scope::Group);
    assert_eq!(Scope::Direct.as_str(), "direct");
}

#[test]
fn listen_port_defaults() {
    let local = "localhost".to_string();
    let remote = "mdm.example.com".to_string();
    assert_eq!(Command { port: Some(8080) }.listen_port(&remote, false), 8080);
    assert_eq!(Command { port: None }.listen_port(&local, true), 9000);
    assert_eq!(Command { port: None }.listen_port(&local, false), 443);
    assert_eq!(Command { port: None }.listen_port(&remote, true), 443);
    assert!(mattrax::cli::serves_plain_http(&local));
    assert!(!mattrax::cli::serves_plain_http(&remote));
}

#[test]
fn one_device_per_tenant_and_management_id() {
    let mut db = Db::new();
    let enrollment = |tenant_pk: u64, name: &str| Enrollment {
        id: format!("id-{tenant_pk}"),
        mdm_id: "SAME".to_string(),
        name: name.to_string(),
        enrollment_type: "user".to_string(),
        os: "Windows".to_string(),
        serial_number: format!("S{tenant_pk}"),
        tenant_pk,
        owner_pk: None,
        enrolled_by_pk: None,
    };
    db.create_device(enrollment(1, "a")).unwrap();
    db.create_device(enrollment(2, "b")).unwrap();
    db.create_device(enrollment(1, "c")).unwrap();
    let found = db.get_device(&"SAME".to_string());
    assert_eq!(found.len(), 2);
    assert_ne!(found[0].tenant_pk, found[1].tenant_pk);
    assert_ne!(found[0].pk, found[1].pk);
    assert_eq!(db.devices[0].name, "c");
    assert_eq!(Scope::Group.as_str(), "group");
}

#[test]
fn policy_data_after_checkin_needs_nothing_more() {
    let mut db = Db::new();
    let d = enroll(&mut db, "D", "S-D");
    db.memberships.push(Membership { group_pk: 4, device_pk: d });
    deploy(&mut db, 1, 100, "a1");
    deploy(&mut db, 2, 101, "b1");
    deploy(&mut db, 3, 100, "a2");
    assign_device(&mut db, 100, d);
    assign_group(&mut db, 101, 4);
    let before = db.get_policy_data_for_checkin(d);
    assert!(before.iter().all(|r| r.last_deploy.is_none()));
    db.checkin(d, 1).unwrap();
    let after = db.get_policy_data_for_checkin(d);
    assert_eq!(after.len(), before.len());
    for (a, b) in after.iter().zip(before.iter()) {
        assert_eq!(a.policy_pk, b.policy_pk);
        assert_eq!(a.scope, b.scope);
        assert_eq!(a.latest_deploy.pk, b.latest_deploy.pk);
        assert_eq!(a.last_deploy.as_ref().unwrap().pk, a.latest_deploy.pk);
    }
    assert_eq!(after[0].latest_deploy.data, "a2");
}
