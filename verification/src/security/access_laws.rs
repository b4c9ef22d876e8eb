//! Who may do what on which resource.

use vstd::prelude::*;

use crate::security::rbac::{grants, matches_glob, Permission, RbacView, RoleView};

verus! {

/// Whether a grant of a role gives a permission on a resource.
pub open spec fn gives(
    role: RoleView,
    j: int,
    resource: Seq<char>,
    permission: Permission,
) -> bool {
    &&& 0 <= j < role.grants.len()
    &&& role.grants[j].1 == permission
    &&& matches_glob(role.grants[j].0, resource)
}

/// A user has a right where a grant of a role that the user holds gives that
/// permission on the resource, and nowhere else: no permission stands for
/// another.
pub proof fn law_rights_are_granted(
    m: RbacView,
    user: u64,
    resource: Seq<char>,
    permission: Permission,
)
    ensures
        m.allowed(user, resource, permission) <==> exists|i: int, j: int|
            0 <= i < m.held(user).len() && m.roles.dom().contains(#[trigger] m.held(user)[i])
                && #[trigger] gives(m.roles[m.held(user)[i]], j, resource, permission),
{
    if m.allowed(user, resource, permission) {
        let i = choose|i: int|
            0 <= i < m.held(user).len() && m.roles.dom().contains(#[trigger] m.held(user)[i])
                && grants(m.roles[m.held(user)[i]], resource, permission);
        let role = m.roles[m.held(user)[i]];
        let j = choose|j: int|
            0 <= j < role.grants.len() && (#[trigger] role.grants[j]).1 == permission
                && matches_glob(role.grants[j].0, resource);
        assert(gives(m.roles[m.held(user)[i]], j, resource, permission));
    }
    if exists|i: int, j: int|
        0 <= i < m.held(user).len() && m.roles.dom().contains(#[trigger] m.held(user)[i])
            && #[trigger] gives(m.roles[m.held(user)[i]], j, resource, permission) {
        let (i, j) = choose|i: int, j: int|
            0 <= i < m.held(user).len() && m.roles.dom().contains(#[trigger] m.held(user)[i])
                && #[trigger] gives(m.roles[m.held(user)[i]], j, resource, permission);
        assert(m.roles[m.held(user)[i]].grants[j].1 == permission);
        assert(grants(m.roles[m.held(user)[i]], resource, permission));
    }
}

/// A role that is assigned adds the rights that it grants, and no others.
pub proof fn law_assigned_role_adds(
    m: RbacView,
    user: u64,
    role: Seq<char>,
    resource: Seq<char>,
    permission: Permission,
)
    ensures
        m.with_assigned(user, role).allowed(user, resource, permission) <==> m.allowed(
            user,
            resource,
            permission,
        ) || (m.roles.dom().contains(role) && grants(m.roles[role], resource, permission)),
{
    let n = m.with_assigned(user, role);
    let before = m.held(user);
    let after = n.held(user);
    if m.allowed(user, resource, permission) {
        let i = choose|i: int|
            0 <= i < before.len() && m.roles.dom().contains(#[trigger] m.held(user)[i]) && grants(
                m.roles[m.held(user)[i]],
                resource,
                permission,
            );
        assert(after[i] == before[i]);
    }
    if m.roles.dom().contains(role) && grants(m.roles[role], resource, permission) {
        let i = if before.contains(role) {
            before.index_of(role)
        } else {
            before.len() as int
        };
        assert(after[i] == role);
    }
    if n.allowed(user, resource, permission) {
        let i = choose|i: int|
            0 <= i < after.len() && n.roles.dom().contains(#[trigger] n.held(user)[i]) && grants(
                n.roles[n.held(user)[i]],
                resource,
                permission,
            );
        if i < before.len() {
            assert(before[i] == after[i]);
        } else {
            assert(after[i] == role);
        }
    }
}

} // verus!
