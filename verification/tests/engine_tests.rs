use users_groups::codec::encode_group_file;
use users_groups::codec::encode_passwd_file;
use users_groups::engine::GroupSpec;
use users_groups::engine::Specification;
use users_groups::engine::UserSpec;
use users_groups::engine::UsersGroups;
use users_groups::engine::Warning;
use users_groups::records::GroupEntry;
use users_groups::records::PasswdEntry;
use users_groups::records::ShadowEntry;
use users_groups::EngineError;

fn empty_state() -> UsersGroups {
    UsersGroups {
        passwd: vec![],
        shadow: vec![],
        group: vec![],
        uid_map: vec![],
        gid_map: vec![],
        declarative_users: vec![],
        declarative_groups: vec![],
    }
}

fn passwd(name: &str, uid: u32, gid: u32) -> PasswdEntry {
    PasswdEntry {
        name: name.to_string(),
        passwd: "x".to_string(),
        uid,
        gid,
        gecos: String::new(),
        dir: format!("/home/{name}"),
        shell: "/bin/sh".to_string(),
    }
}

fn group(name: &str, gid: u32, members: &[&str]) -> GroupEntry {
    GroupEntry {
        name: name.to_string(),
        passwd: "x".to_string(),
        gid,
        members: members.iter().map(|m| m.to_string()).collect(),
    }
}

fn group_spec(name: &str, gid: Option<u32>, members: &[&str]) -> GroupSpec {
    GroupSpec {
        name: name.to_string(),
        gid,
        members: members.iter().map(|m| m.to_string()).collect(),
        password: None,
    }
}

fn user_spec(name: &str, uid: Option<u32>, group: &str) -> UserSpec {
    UserSpec {
        name: name.to_string(),
        uid,
        group: group.to_string(),
        description: String::new(),
        home: format!("/home/{name}"),
        shell: "/bin/sh".to_string(),
        create_home: true,
        is_system: false,
        hashed_password: None,
        password: None,
        password_file: None,
        initial_hashed_password: None,
        initial_password: None,
    }
}

fn spec_of(users: Vec<UserSpec>, groups: Vec<GroupSpec>, mutable_users: bool) -> Specification {
    Specification { users, groups, mutable_users }
}

#[test]
fn scenario_wheel_created_with_explicit_gid() {
    let mut st = empty_state();
    st.passwd = vec![passwd("alice", 1000, 100)];
    let spec = spec_of(vec![], vec![group_spec("wheel", Some(10), &["alice"])], false);
    let warns = st.update_groups(&spec).expect("pass succeeds");
    assert_eq!(encode_group_file(&st.group), "wheel:x:10:alice");
    assert_eq!(st.declarative_groups, vec!["wheel".to_string()]);
    assert_eq!(st.gid_map.len(), 1);
    assert_eq!(st.gid_map[0].name, "wheel");
    assert_eq!(st.gid_map[0].id, 10);
    assert_eq!(warns, vec![]);
}

#[test]
fn scenario_gid_change_is_ignored_with_warning() {
    let mut st = empty_state();
    st.passwd = vec![passwd("alice", 1000, 100)];
    let spec1 = spec_of(vec![], vec![group_spec("wheel", Some(10), &["alice"])], false);
    st.update_groups(&spec1).expect("first pass succeeds");
    let spec2 = spec_of(vec![], vec![group_spec("wheel", Some(20), &["alice"])], false);
    let warns = st.update_groups(&spec2).expect("second pass succeeds");
    assert_eq!(encode_group_file(&st.group), "wheel:x:10:alice");
    assert_eq!(
        warns,
        vec![Warning::GidChangeIgnored {
            name: "wheel".to_string(),
            existing: 10,
            requested: 20,
        }]
    );
}

#[test]
fn scenario_undeclared_mutable_group_is_retained() {
    let mut st = empty_state();
    st.group = vec![group("temp", 600, &["carol"]), group("users", 100, &[])];
    st.passwd = vec![passwd("carol", 1002, 100)];
    let spec = spec_of(vec![], vec![group_spec("users", None, &[])], true);
    let warns = st.update_groups(&spec).expect("pass succeeds");
    assert_eq!(
        encode_group_file(&st.group),
        "users:x:100:\ntemp:x:600:carol"
    );
    assert_eq!(warns, vec![]);
}

#[test]
fn undeclared_group_is_removed_without_mutable_mode() {
    let mut st = empty_state();
    st.group = vec![group("temp", 600, &[])];
    let spec = spec_of(vec![], vec![], false);
    let warns = st.update_groups(&spec).expect("pass succeeds");
    assert_eq!(st.group, vec![]);
    assert_eq!(warns, vec![Warning::RemovedGroup { name: "temp".to_string() }]);
}

#[test]
fn declarative_group_is_removed_even_in_mutable_mode() {
    let mut st = empty_state();
    st.group = vec![group("ours", 500, &[])];
    st.declarative_groups = vec!["ours".to_string()];
    let spec = spec_of(vec![], vec![], true);
    let warns = st.update_groups(&spec).expect("pass succeeds");
    assert_eq!(st.group, vec![]);
    assert_eq!(warns, vec![Warning::RemovedGroup { name: "ours".to_string() }]);
}

#[test]
fn fresh_group_without_gid_gets_allocated_id() {
    let mut st = empty_state();
    st.group = vec![group("used", 400, &[])];
    let spec = spec_of(
        vec![],
        vec![group_spec("used", None, &[]), group_spec("fresh", None, &[])],
        false,
    );
    st.update_groups(&spec).expect("pass succeeds");
    assert_eq!(st.group[0].gid, 400);
    assert_eq!(st.group[1].gid, 401);
}

#[test]
fn group_allocation_is_deterministic() {
    let spec = spec_of(vec![], vec![group_spec("a", None, &[]), group_spec("b", None, &[])], false);
    let mut st1 = empty_state();
    let mut st2 = empty_state();
    st1.update_groups(&spec).expect("pass succeeds");
    st2.update_groups(&spec).expect("pass succeeds");
    assert_eq!(st1.group, st2.group);
    assert_eq!(st1.group[0].gid, 400);
    assert_eq!(st1.group[1].gid, 401);
}

#[test]
fn groups_idempotent_second_run_is_byte_identical() {
    let mut st = empty_state();
    st.passwd = vec![passwd("alice", 1000, 100)];
    st.group = vec![group("legacy", 999, &["alice", "dave"])];
    st.passwd.push(passwd("dave", 1003, 100));
    let spec = spec_of(
        vec![],
        vec![
            group_spec("legacy", None, &["alice"]),
            group_spec("fresh", Some(42), &[]),
        ],
        true,
    );
    st.update_groups(&spec).expect("first pass succeeds");
    let first = encode_group_file(&st.group);
    let first_decl = st.declarative_groups.clone();
    let first_map: Vec<(String, u32)> =
        st.gid_map.iter().map(|e| (e.name.clone(), e.id)).collect();
    st.update_groups(&spec).expect("second pass succeeds");
    assert_eq!(encode_group_file(&st.group), first);
    assert_eq!(st.declarative_groups, first_decl);
    let second_map: Vec<(String, u32)> =
        st.gid_map.iter().map(|e| (e.name.clone(), e.id)).collect();
    assert_eq!(second_map, first_map);
}

#[test]
fn externally_added_members_are_merged_for_unowned_group() {
    let mut st = empty_state();
    st.group = vec![group("users", 100, &["alice", "eve"])];
    st.passwd = vec![passwd("alice", 1000, 100), passwd("eve", 1004, 100)];
    let spec = spec_of(vec![], vec![group_spec("users", None, &["alice"])], true);
    let warns = st.update_groups(&spec).expect("pass succeeds");
    assert_eq!(st.group[0].members, vec!["alice".to_string(), "eve".to_string()]);
    assert!(warns.contains(&Warning::MembersMerged { name: "users".to_string() }));
}

#[test]
fn declarative_group_members_are_clobbered() {
    let mut st = empty_state();
    st.group = vec![group("ours", 500, &["alice", "eve"])];
    st.passwd = vec![passwd("alice", 1000, 100), passwd("eve", 1004, 100)];
    st.declarative_groups = vec!["ours".to_string()];
    let spec = spec_of(vec![], vec![group_spec("ours", None, &["alice"])], true);
    st.update_groups(&spec).expect("pass succeeds");
    assert_eq!(st.group[0].members, vec!["alice".to_string()]);
}

#[test]
fn duplicate_group_names_fail_the_pass() {
    let mut st = empty_state();
    let spec = spec_of(
        vec![],
        vec![group_spec("dup", Some(1), &[]), group_spec("dup", Some(2), &[])],
        false,
    );
    assert_eq!(st.update_groups(&spec), Err(EngineError::DuplicateIdentifier));
    assert_eq!(st.group, vec![]);
}

#[test]
fn duplicate_explicit_gids_fail_the_pass() {
    let mut st = empty_state();
    let spec = spec_of(
        vec![],
        vec![group_spec("a", Some(7), &[]), group_spec("b", Some(7), &[])],
        false,
    );
    assert_eq!(st.update_groups(&spec), Err(EngineError::DuplicateIdentifier));
}

#[test]
fn explicit_gid_of_existing_entity_fails_the_pass() {
    // An explicit gid that an existing group already holds is a
    // collision, even though the specification itself has no duplicate.
    let mut st = empty_state();
    st.group = vec![group("oldg", 10, &[])];
    let spec = spec_of(
        vec![],
        vec![group_spec("oldg", None, &[]), group_spec("newg", Some(10), &[])],
        true,
    );
    assert_eq!(st.update_groups(&spec), Err(EngineError::DuplicateIdentifier));
    assert_eq!(st.group, vec![group("oldg", 10, &[])]);
}

#[test]
fn explicit_gid_colliding_with_an_allocation_fails_the_pass() {
    let mut st = empty_state();
    let spec = spec_of(
        vec![],
        vec![group_spec("a", None, &[]), group_spec("b", Some(400), &[])],
        false,
    );
    assert_eq!(st.update_groups(&spec), Err(EngineError::DuplicateIdentifier));
}

#[test]
fn explicit_uid_of_existing_entity_fails_the_pass() {
    let mut st = empty_state();
    st.group = vec![group("users", 100, &[])];
    st.passwd = vec![passwd("manual", 1234, 100)];
    let spec = spec_of(vec![user_spec("alice", Some(1234), "users")], vec![], true);
    assert_eq!(st.update_users(&spec), Err(EngineError::DuplicateIdentifier));
    assert_eq!(st.passwd, vec![passwd("manual", 1234, 100)]);
}

#[test]
fn unresolved_member_fails_the_pass() {
    let mut st = empty_state();
    let spec = spec_of(vec![], vec![group_spec("g", Some(7), &["ghost"])], false);
    assert_eq!(st.update_groups(&spec), Err(EngineError::MalformedSpecification));
}

#[test]
fn member_resolves_against_declared_users() {
    let mut st = empty_state();
    let spec = spec_of(
        vec![user_spec("alice", None, "g")],
        vec![group_spec("g", Some(7), &["alice"])],
        false,
    );
    st.update_groups(&spec).expect("member declared in the same spec resolves");
}

#[test]
fn exhausted_group_range_fails_the_pass() {
    let mut st = empty_state();
    for gid in 400..=999 {
        st.group.push(group(&format!("g{gid}"), gid, &[]));
    }
    let spec = spec_of(vec![], vec![group_spec("fresh", None, &[])], true);
    assert_eq!(st.update_groups(&spec), Err(EngineError::ExhaustedRange));
}

#[test]
fn new_user_gets_uid_shadow_and_declarative_entry() {
    let mut st = empty_state();
    st.group = vec![group("users", 100, &[])];
    let spec = spec_of(vec![user_spec("alice", None, "users")], vec![], false);
    let warns = st.update_users(&spec).expect("pass succeeds");
    assert_eq!(
        encode_passwd_file(&st.passwd),
        "alice:x:1000:100::/home/alice:/bin/sh"
    );
    assert_eq!(st.shadow.len(), 1);
    assert_eq!(st.shadow[0].name, "alice");
    assert_eq!(st.shadow[0].passwd, "!");
    assert_eq!(st.shadow[0].last_change, None);
    assert_eq!(st.declarative_users, vec!["alice".to_string()]);
    assert_eq!(st.uid_map[0].name, "alice");
    assert_eq!(st.uid_map[0].id, 1000);
    assert_eq!(warns, vec![]);
}

#[test]
fn system_user_allocates_from_system_range() {
    let mut st = empty_state();
    st.group = vec![group("daemons", 150, &[])];
    let mut u = user_spec("svc", None, "daemons");
    u.is_system = true;
    let spec = spec_of(vec![u], vec![], false);
    st.update_users(&spec).expect("pass succeeds");
    assert_eq!(st.passwd[0].uid, 400);
}

#[test]
fn existing_uid_wins_over_explicit_uid_with_warning() {
    let mut st = empty_state();
    st.group = vec![group("users", 100, &[])];
    st.passwd = vec![passwd("alice", 1000, 100)];
    let spec = spec_of(vec![user_spec("alice", Some(2000), "users")], vec![], false);
    let warns = st.update_users(&spec).expect("pass succeeds");
    assert_eq!(st.passwd[0].uid, 1000);
    assert_eq!(
        warns,
        vec![Warning::UidChangeIgnored {
            name: "alice".to_string(),
            existing: 1000,
            requested: 2000,
        }]
    );
}

#[test]
fn password_precedence_hashed_beats_everything() {
    let mut st = empty_state();
    st.group = vec![group("users", 100, &[])];
    let mut u = user_spec("alice", None, "users");
    u.hashed_password = Some("$6$hash".to_string());
    u.password = Some("$6$plain".to_string());
    u.initial_hashed_password = Some("$6$init".to_string());
    let spec = spec_of(vec![u], vec![], false);
    st.update_users(&spec).expect("pass succeeds");
    assert_eq!(st.shadow[0].passwd, "$6$hash");
}

#[test]
fn initial_password_applies_only_to_new_accounts() {
    let mut st = empty_state();
    st.group = vec![group("users", 100, &[])];
    let mut u = user_spec("alice", None, "users");
    u.initial_hashed_password = Some("$6$init".to_string());
    let spec = spec_of(vec![u.clone()], vec![], false);
    st.update_users(&spec).expect("first pass succeeds");
    assert_eq!(st.shadow[0].passwd, "$6$init");
    // An administrator changes the stored hash between runs.
    st.shadow[0].passwd = "$6$changed".to_string();
    let spec2 = spec_of(vec![u], vec![], false);
    st.update_users(&spec2).expect("second pass succeeds");
    assert_eq!(st.shadow[0].passwd, "$6$changed");
}

#[test]
fn existing_shadow_aging_fields_are_preserved() {
    let mut st = empty_state();
    st.group = vec![group("users", 100, &[])];
    st.passwd = vec![passwd("alice", 1000, 100)];
    st.shadow = vec![ShadowEntry {
        name: "alice".to_string(),
        passwd: "$6$old".to_string(),
        last_change: Some(19000),
        min: Some(1),
        max: Some(90),
        warning: Some(7),
        inactivity: None,
        expires: None,
        flag: None,
    }];
    let spec = spec_of(vec![user_spec("alice", None, "users")], vec![], false);
    st.update_users(&spec).expect("pass succeeds");
    assert_eq!(st.shadow[0].passwd, "$6$old");
    assert_eq!(st.shadow[0].last_change, Some(19000));
    assert_eq!(st.shadow[0].max, Some(90));
}

#[test]
fn undeclared_mutable_user_is_preserved_with_shadow() {
    let mut st = empty_state();
    st.group = vec![group("users", 100, &[])];
    st.passwd = vec![passwd("manual", 1234, 100)];
    st.shadow = vec![ShadowEntry {
        name: "manual".to_string(),
        passwd: "$6$m".to_string(),
        last_change: None,
        min: None,
        max: None,
        warning: None,
        inactivity: None,
        expires: None,
        flag: None,
    }];
    let spec = spec_of(vec![], vec![], true);
    let warns = st.update_users(&spec).expect("pass succeeds");
    assert_eq!(st.passwd, vec![passwd("manual", 1234, 100)]);
    assert_eq!(st.shadow.len(), 1);
    assert_eq!(st.shadow[0].name, "manual");
    assert_eq!(warns, vec![]);
}

#[test]
fn undeclared_user_is_removed_without_mutable_mode() {
    let mut st = empty_state();
    st.passwd = vec![passwd("manual", 1234, 100)];
    let spec = spec_of(vec![], vec![], false);
    let warns = st.update_users(&spec).expect("pass succeeds");
    assert_eq!(st.passwd, vec![]);
    assert_eq!(warns, vec![Warning::RemovedUser { name: "manual".to_string() }]);
}

#[test]
fn unresolved_primary_group_fails_the_pass() {
    let mut st = empty_state();
    let spec = spec_of(vec![user_spec("alice", None, "nogroup")], vec![], false);
    assert_eq!(st.update_users(&spec), Err(EngineError::MalformedSpecification));
    assert_eq!(st.passwd, vec![]);
}

#[test]
fn duplicate_user_names_fail_the_pass() {
    let mut st = empty_state();
    st.group = vec![group("users", 100, &[])];
    let spec = spec_of(
        vec![user_spec("dup", None, "users"), user_spec("dup", None, "users")],
        vec![],
        false,
    );
    assert_eq!(st.update_users(&spec), Err(EngineError::DuplicateIdentifier));
}

#[test]
fn users_idempotent_second_run_is_byte_identical() {
    let mut st = empty_state();
    st.group = vec![group("users", 100, &[])];
    st.passwd = vec![passwd("manual", 1234, 100)];
    let spec = spec_of(
        vec![user_spec("alice", None, "users"), user_spec("bob", Some(1500), "users")],
        vec![],
        true,
    );
    st.update_users(&spec).expect("first pass succeeds");
    let first_passwd = encode_passwd_file(&st.passwd);
    let first_decl = st.declarative_users.clone();
    st.update_users(&spec).expect("second pass succeeds");
    assert_eq!(encode_passwd_file(&st.passwd), first_passwd);
    assert_eq!(st.declarative_users, first_decl);
}

#[test]
fn identifier_stability_without_explicit_id() {
    let mut st = empty_state();
    st.group = vec![group("users", 100, &[])];
    let spec = spec_of(vec![user_spec("alice", None, "users")], vec![], true);
    st.update_users(&spec).expect("first pass succeeds");
    let uid1 = st.passwd[0].uid;
    st.update_users(&spec).expect("second pass succeeds");
    assert_eq!(st.passwd[0].uid, uid1);
}
