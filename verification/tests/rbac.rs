//! Roles and permissions.

use cendb::security::rbac::{glob_match, Permission, RbacError, RbacManager, Role};

#[test]
fn default_roles_exist() {
    let mgr = RbacManager::new();
    let names = mgr.role_names();
    assert!(names.contains(&"admin".to_string()));
    assert!(names.contains(&"read_only".to_string()));
    assert!(names.contains(&"analyst".to_string()));
}

#[test]
fn admin_has_all_permissions() {
    let mut mgr = RbacManager::new();
    mgr.assign_role_to_user(1, "admin").unwrap();
    mgr.check(1, "any_table", Permission::Read).unwrap();
    mgr.check(1, "any_table", Permission::Write).unwrap();
    mgr.check(1, "any_table", Permission::Drop).unwrap();
    mgr.check(1, "any_table", Permission::Admin).unwrap();
}

#[test]
fn read_only_cannot_write() {
    let mut mgr = RbacManager::new();
    mgr.assign_role_to_user(1, "read_only").unwrap();
    mgr.check(1, "any_table", Permission::Read).unwrap();
    let result = mgr.check(1, "any_table", Permission::Write);
    assert!(matches!(result, Err(RbacError::PermissionDenied)));
}

#[test]
fn analyst_can_write_analytics_only() {
    let mut mgr = RbacManager::new();
    mgr.assign_role_to_user(1, "analyst").unwrap();
    mgr.check(1, "users", Permission::Read).unwrap();
    mgr.check(1, "analytics.events", Permission::Write).unwrap();
    mgr.check(1, "analytics.events", Permission::Create).unwrap();
    let result = mgr.check(1, "users", Permission::Write);
    assert!(matches!(result, Err(RbacError::PermissionDenied)));
}

#[test]
fn no_roles_denies_all() {
    let mgr = RbacManager::new();
    let result = mgr.check(1, "any_table", Permission::Read);
    assert!(matches!(result, Err(RbacError::PermissionDenied)));
}

#[test]
fn revoke_role_removes_permissions() {
    let mut mgr = RbacManager::new();
    mgr.assign_role_to_user(1, "admin").unwrap();
    mgr.check(1, "table", Permission::Read).unwrap();
    mgr.revoke_role_from_user(1, "admin").unwrap();
    let result = mgr.check(1, "table", Permission::Read);
    assert!(matches!(result, Err(RbacError::PermissionDenied)));
}

#[test]
fn custom_role() {
    let mut mgr = RbacManager::new();
    let role = Role {
        name: "writer".to_string(),
        grants: vec![
            ("docs.*".to_string(), Permission::Write),
            ("docs.*".to_string(), Permission::Read),
        ],
    };
    mgr.create_role(role).unwrap();
    mgr.assign_role_to_user(1, "writer").unwrap();
    mgr.check(1, "docs.x", Permission::Write).unwrap();
    mgr.check(1, "docs.x", Permission::Read).unwrap();
    let result = mgr.check(1, "docs.x", Permission::Drop);
    assert!(matches!(result, Err(RbacError::PermissionDenied)));
}

#[test]
fn duplicate_role_rejected() {
    let mut mgr = RbacManager::new();
    let role = Role { name: "admin".to_string(), grants: vec![] };
    let result = mgr.create_role(role);
    assert!(matches!(result, Err(RbacError::RoleAlreadyExists)));
}

#[test]
fn glob_matching() {
    assert!(glob_match("*", "anything"));
    assert!(glob_match("*", ""));
    assert!(glob_match("users.*", "users.table1"));
    assert!(glob_match("users.*", "users."));
    assert!(!glob_match("users.*", "other.table1"));
    assert!(glob_match("exact", "exact"));
    assert!(!glob_match("exact", "other"));
    assert!(glob_match("a?c", "abc"));
    assert!(!glob_match("a?c", "ac"));
}

#[test]
fn unknown_roles_are_refused() {
    let mut mgr = RbacManager::new();
    assert!(matches!(mgr.assign_role_to_user(1, "nobody"), Err(RbacError::RoleNotFound)));
    assert!(mgr.revoke_role_from_user(1, "admin").is_err());
    assert_eq!(mgr.user_roles(1).len(), 0);
}

#[test]
fn roles_of_other_users_stay() {
    let mut mgr = RbacManager::new();
    mgr.assign_role_to_user(1, "admin").unwrap();
    mgr.assign_role_to_user(2, "read_only").unwrap();
    mgr.revoke_role_from_user(1, "admin").unwrap();
    assert_eq!(mgr.user_roles(2), vec!["read_only".to_string()]);
    mgr.check(2, "t", Permission::Read).unwrap();
}
