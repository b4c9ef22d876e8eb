//! Role-based access control.
//!
//! A user holds roles. A role grants permissions on the resources that match a
//! pattern. A user may do what one of the user's roles grants.

use vstd::prelude::*;

use crate::idmap::IdMap;
use crate::strmap::StrMap;
use crate::text::{chars_of, same_text, texts};

verus! {

/// What may be done with a resource.
#[derive(Copy, Clone, Debug, Eq, PartialEq, Hash, Structural)]
pub enum Permission {
    Read,
    Write,
    Create,
    Drop,
    Admin,
}

impl Permission {
    /// The name of a permission.
    pub open spec fn name(self) -> Seq<char> {
        match self {
            Permission::Read => "read"@,
            Permission::Write => "write"@,
            Permission::Create => "create"@,
            Permission::Drop => "drop"@,
            Permission::Admin => "admin"@,
        }
    }

    /// The name of the permission.
    pub fn as_str(&self) -> (r: &'static str)
        ensures
            r@ == self.name(),
    {
        match self {
            Permission::Read => "read",
            Permission::Write => "write",
            Permission::Create => "create",
            Permission::Drop => "drop",
            Permission::Admin => "admin",
        }
    }
}

/// A name and what it grants: patterns of resources, with a permission each.
#[derive(Clone, Debug)]
pub struct Role {
    pub name: String,
    pub grants: Vec<(String, Permission)>,
}

/// The mathematical value of a [`Role`].
#[verifier::ext_equal]
pub struct RoleView {
    pub name: Seq<char>,
    pub grants: Seq<(Seq<char>, Permission)>,
}

/// The mathematical value of a list of grants.
pub open spec fn grant_views(g: Seq<(String, Permission)>) -> Seq<(Seq<char>, Permission)> {
    g.map_values(|x: (String, Permission)| (x.0@, x.1))
}

impl View for Role {
    type V = RoleView;

    open spec fn view(&self) -> RoleView {
        RoleView { name: self.name@, grants: grant_views(self.grants@) }
    }
}

/// Why a request was refused.
#[derive(Debug, Clone, Copy, PartialEq, Eq, Structural)]
pub enum RbacError {
    RoleNotFound,
    RoleAlreadyExists,
    UserNotFound,
    PermissionDenied,
}

impl RbacError {
    /// What an error says.
    pub open spec fn text(self) -> Seq<char> {
        match self {
            RbacError::RoleNotFound => "role not found"@,
            RbacError::RoleAlreadyExists => "role already exists"@,
            RbacError::UserNotFound => "user not found"@,
            RbacError::PermissionDenied => "permission denied"@,
        }
    }

    /// What the error says.
    pub fn message(&self) -> (r: &'static str)
        ensures
            r@ == self.text(),
    {
        match self {
            RbacError::RoleNotFound => "role not found",
            RbacError::RoleAlreadyExists => "role already exists",
            RbacError::UserNotFound => "user not found",
            RbacError::PermissionDenied => "permission denied",
        }
    }
}

/// Whether a pattern matches a text: `*` stands for any characters, `?` for
/// one, and every other character for itself.
pub open spec fn matches_glob(p: Seq<char>, t: Seq<char>) -> bool
    decreases p.len(),
{
    if p.len() == 0 {
        t.len() == 0
    } else if p[0] == '*' {
        exists|k: int| 0 <= k <= t.len() && matches_glob(p.drop_first(), #[trigger] t.skip(k))
    } else {
        t.len() > 0 && (p[0] == '?' || p[0] == t[0]) && matches_glob(
            p.drop_first(),
            t.drop_first(),
        )
    }
}

/// Whether a pattern matches a text: `*` stands for any characters, `?` for
/// one, and every other character for itself.
pub fn glob_match(pattern: &str, text: &str) -> (r: bool)
    ensures
        r == matches_glob(pattern@, text@),
{
    let p: Vec<char> = chars_of(pattern);
    let t: Vec<char> = chars_of(text);
    assert(p@.skip(0) =~= p@);
    assert(t@.skip(0) =~= t@);
    glob_match_helper(p.as_slice(), 0, t.as_slice(), 0)
}

fn glob_match_helper(p: &[char], pi: usize, t: &[char], ti: usize) -> (r: bool)
    requires
        pi <= p@.len(),
        ti <= t@.len(),
    ensures
        r == matches_glob(p@.skip(pi as int), t@.skip(ti as int)),
    decreases p@.len() - pi,
{
    let ghost ps = p@.skip(pi as int);
    let ghost ts = t@.skip(ti as int);
    if pi == p.len() {
        return ti == t.len();
    }
    assert(ps[0] == p@[pi as int]);
    assert(ps.drop_first() =~= p@.skip(pi + 1));
    let n: usize = p.len();
    if p[pi] == '*' {
        let mut k: usize = ti;
        loop
            invariant
                ti <= k <= t@.len(),
                pi < p@.len(),
                p@.len() == n,
                ps == p@.skip(pi as int),
                ts == t@.skip(ti as int),
                ps.len() > 0,
                ps[0] == '*',
                ps.drop_first() == p@.skip(pi + 1),
                forall|j: int|
                    0 <= j < k - ti ==> !matches_glob(ps.drop_first(), #[trigger] ts.skip(j)),
            decreases t@.len() - k,
        {
            assert(ts.skip(k - ti) =~= t@.skip(k as int));
            if glob_match_helper(p, pi + 1, t, k) {
                return true;
            }
            if k == t.len() {
                return false;
            }
            k = k + 1;
        }
    }
    if ti < t.len() && (p[pi] == '?' || p[pi] == t[ti]) {
        assert(ts.drop_first() =~= t@.skip(ti + 1));
        glob_match_helper(p, pi + 1, t, ti + 1)
    } else {
        false
    }
}

/// The roles and who holds them.
#[verifier::ext_equal]
pub struct RbacView {
    /// The roles by name.
    pub roles: Map<Seq<char>, RoleView>,
    /// The names of the roles in the order in which they were made.
    pub names: Seq<Seq<char>>,
    /// The roles of each user who ever held one.
    pub users: Map<u64, Seq<Seq<char>>>,
}

/// Whether a role grants a permission on a resource.
pub open spec fn grants(role: RoleView, resource: Seq<char>, permission: Permission) -> bool {
    exists|j: int|
        0 <= j < role.grants.len() && (#[trigger] role.grants[j]).1 == permission && matches_glob(
            role.grants[j].0,
            resource,
        )
}

/// Tells a name from all others.
pub open spec fn other_than(name: Seq<char>) -> spec_fn(Seq<char>) -> bool {
    |r: Seq<char>| r != name
}

impl RbacView {
    /// The roles of a user.
    pub open spec fn held(self, user: u64) -> Seq<Seq<char>> {
        if self.users.dom().contains(user) {
            self.users[user]
        } else {
            seq![]
        }
    }

    /// Whether one of the user's roles grants the permission on the resource.
    pub open spec fn allowed(self, user: u64, resource: Seq<char>, permission: Permission) -> bool {
        exists|i: int|
            0 <= i < self.held(user).len() && self.roles.dom().contains(
                #[trigger] self.held(user)[i],
            ) && grants(self.roles[self.held(user)[i]], resource, permission)
    }

    /// Users hold roles that there are, each at most once; a role stands under
    /// its own name, and each name is listed once.
    pub open spec fn wf(self) -> bool {
        &&& forall|u: u64, i: int|
            0 <= i < self.held(u).len() ==> self.roles.dom().contains(#[trigger] self.held(u)[i])
        &&& forall|u: u64| (#[trigger] self.held(u)).no_duplicates()
        &&& forall|n: Seq<char>| #[trigger]
            self.roles.dom().contains(n) ==> self.roles[n].name == n
        &&& forall|n: Seq<char>| self.names.contains(n) <==> #[trigger] self.roles.dom().contains(n)
        &&& self.names.no_duplicates()
    }

    /// With one more role.
    pub open spec fn with_role(self, role: RoleView) -> RbacView {
        RbacView {
            roles: self.roles.insert(role.name, role),
            names: self.names.push(role.name),
            ..self
        }
    }

    /// With a role for a user; one that the user holds is not added again.
    pub open spec fn with_assigned(self, user: u64, role: Seq<char>) -> RbacView {
        RbacView {
            users: self.users.insert(
                user,
                if self.held(user).contains(role) {
                    self.held(user)
                } else {
                    self.held(user).push(role)
                },
            ),
            ..self
        }
    }

    /// Without a role for a user.
    pub open spec fn with_revoked(self, user: u64, role: Seq<char>) -> RbacView {
        RbacView {
            users: self.users.insert(user, self.held(user).filter(other_than(role))),
            ..self
        }
    }
}

/// The role `admin`: all permissions on all resources.
pub open spec fn admin_role() -> RoleView {
    RoleView {
        name: "admin"@,
        grants: seq![
            ("*"@, Permission::Read),
            ("*"@, Permission::Write),
            ("*"@, Permission::Create),
            ("*"@, Permission::Drop),
            ("*"@, Permission::Admin),
        ],
    }
}

/// The role `read_only`: reading all resources.
pub open spec fn read_only_role() -> RoleView {
    RoleView { name: "read_only"@, grants: seq![("*"@, Permission::Read)] }
}

/// The role `analyst`: reading all resources, writing and creating those of
/// `analytics`.
pub open spec fn analyst_role() -> RoleView {
    RoleView {
        name: "analyst"@,
        grants: seq![
            ("*"@, Permission::Read),
            ("analytics.*"@, Permission::Write),
            ("analytics.*"@, Permission::Create),
        ],
    }
}

/// A manager with the three default roles and no users.
pub open spec fn default_roles() -> RbacView {
    RbacView {
        roles: Map::<Seq<char>, RoleView>::empty().insert("admin"@, admin_role()).insert(
            "read_only"@,
            read_only_role(),
        ).insert("analyst"@, analyst_role()),
        names: seq!["admin"@, "read_only"@, "analyst"@],
        users: Map::empty(),
    }
}

/// Roles by name, as values.
pub open spec fn role_map(m: Map<Seq<char>, Role>) -> Map<Seq<char>, RoleView> {
    Map::new(|k: Seq<char>| m.dom().contains(k), |k: Seq<char>| m[k]@)
}

/// Lists of role names by user, as values.
pub open spec fn user_map(m: Map<u64, Vec<String>>) -> Map<u64, Seq<Seq<char>>> {
    Map::new(|k: u64| m.dom().contains(k), |k: u64| texts(m[k]@))
}

/// Roles and the users who hold them.
pub struct RbacManager {
    roles: StrMap<Role>,
    user_roles: IdMap<Vec<String>>,
}

impl View for RbacManager {
    type V = RbacView;

    closed spec fn view(&self) -> RbacView {
        RbacView {
            roles: role_map(self.roles@),
            names: self.roles.key_seq(),
            users: user_map(self.user_roles@),
        }
    }
}

proof fn lemma_literals()
    ensures
        "admin"@ != "read_only"@,
        "admin"@ != "analyst"@,
        "read_only"@ != "analyst"@,
{
    reveal_strlit("admin");
    reveal_strlit("read_only");
    reveal_strlit("analyst");
    assert("admin"@.len() == 5);
    assert("read_only"@.len() == 9);
    assert("analyst"@.len() == 7);
}

fn grant(pattern: &str, permission: Permission) -> (r: (String, Permission))
    ensures
        r.0@ == pattern@,
        r.1 == permission,
{
    (pattern.to_owned(), permission)
}

impl RbacManager {
    /// The maps are well formed, and so is what they stand for.
    pub closed spec fn wf(&self) -> bool {
        self.roles.wf() && self.user_roles.wf() && self@.wf()
    }

    /// What the invariant says of the manager's value.
    pub proof fn lemma_wf(&self)
        requires
            self.wf(),
        ensures
            self@.wf(),
    {
    }

    /// A manager with the three default roles and no users.
    pub fn new() -> (res: Self)
        ensures
            res.wf(),
            res@ == default_roles(),
    {
        let mut mgr = RbacManager { roles: StrMap::new(), user_roles: IdMap::new() };
        mgr.create_default_roles();
        mgr
    }

    fn create_default_roles(&mut self)
        requires
            old(self).roles.wf(),
            old(self).user_roles.wf(),
            old(self).roles.key_seq().len() == 0,
            old(self).user_roles@ == Map::<u64, Vec<String>>::empty(),
        ensures
            final(self).wf(),
            final(self)@ == default_roles(),
    {
        let mut all: Vec<(String, Permission)> = Vec::new();
        all.push(grant("*", Permission::Read));
        all.push(grant("*", Permission::Write));
        all.push(grant("*", Permission::Create));
        all.push(grant("*", Permission::Drop));
        all.push(grant("*", Permission::Admin));
        let admin: Role = Role { name: "admin".to_owned(), grants: all };
        assert(admin@ =~= admin_role());
        let mut read: Vec<(String, Permission)> = Vec::new();
        read.push(grant("*", Permission::Read));
        let read_only: Role = Role { name: "read_only".to_owned(), grants: read };
        assert(read_only@ =~= read_only_role());
        let mut some: Vec<(String, Permission)> = Vec::new();
        some.push(grant("*", Permission::Read));
        some.push(grant("analytics.*", Permission::Write));
        some.push(grant("analytics.*", Permission::Create));
        let analyst: Role = Role { name: "analyst".to_owned(), grants: some };
        assert(analyst@ =~= analyst_role());
        proof {
            lemma_literals();
            assert(self.roles@ =~= Map::<Seq<char>, Role>::empty());
            assert(self.roles.key_seq() =~= Seq::<Seq<char>>::empty());
        }
        self.roles.insert("admin".to_owned(), admin);
        self.roles.insert("read_only".to_owned(), read_only);
        self.roles.insert("analyst".to_owned(), analyst);
        proof {
            assert(self@.names =~= default_roles().names);
            assert(self@.roles =~= default_roles().roles);
            assert(self@.users =~= default_roles().users);
            assert forall|n: Seq<char>| self@.names.contains(n) <==> #[trigger]
            self@.roles.dom().contains(n) by {
                assert(self@.names[0] == "admin"@);
                assert(self@.names[1] == "read_only"@);
                assert(self@.names[2] == "analyst"@);
            }
        }
    }

    /// Adds a role. Fails where a role of the name is there.
    pub fn create_role(&mut self, role: Role) -> (r: Result<(), RbacError>)
        requires
            old(self).wf(),
        ensures
            final(self).wf(),
            match r {
                Ok(()) => !old(self)@.roles.dom().contains(role@.name) && final(self)@ == old(
                    self,
                )@.with_role(role@),
                Err(e) => e == RbacError::RoleAlreadyExists && old(self)@.roles.dom().contains(
                    role@.name,
                ) && *final(self) == *old(self),
            },
    {
        if self.roles.contains_key(role.name.as_str()) {
            return Err(RbacError::RoleAlreadyExists);
        }
        let name: String = role.name.as_str().to_owned();
        let ghost before = *self;
        self.roles.insert(name, role);
        proof {
            let want = before@.with_role(role@);
            assert(self@.roles =~= want.roles);
            assert(self@.users =~= want.users);
            assert(self@ =~= want);
            assert forall|u: u64, i: int| 0 <= i < self@.held(u).len() implies self@.roles.dom().contains(
                #[trigger] self@.held(u)[i],
            ) by {
                assert(self@.held(u) == before@.held(u));
                assert(before@.roles.dom().contains(before@.held(u)[i]));
            }
            assert forall|u: u64| (#[trigger] self@.held(u)).no_duplicates() by {
                assert(self@.held(u) == before@.held(u));
            }
            assert forall|n: Seq<char>| self@.names.contains(n) <==> #[trigger]
            self@.roles.dom().contains(n) by {
                let names = before@.names;
                if names.contains(n) {
                    let j = names.index_of(n);
                    assert(self@.names[j] == n);
                }
                assert(self@.names[names.len() as int] == role@.name);
                if self@.names.contains(n) && n != role@.name {
                    let j = self@.names.index_of(n);
                    assert(names[j] == n);
                }
                assert(before@.names.contains(n) <==> before@.roles.dom().contains(n));
            }
            assert(self@.names.no_duplicates()) by {
                assert(!before@.names.contains(role@.name)) by {
                    assert(!before@.roles.dom().contains(role@.name));
                }
            }
        }
        Ok(())
    }

    /// Gives a user a role. Fails where there is no such role.
    pub fn assign_role_to_user(&mut self, user_id: u64, role_name: &str) -> (r: Result<
        (),
        RbacError,
    >)
        requires
            old(self).wf(),
        ensures
            final(self).wf(),
            match r {
                Ok(()) => old(self)@.roles.dom().contains(role_name@) && final(self)@ == old(
                    self,
                )@.with_assigned(user_id, role_name@),
                Err(e) => e == RbacError::RoleNotFound && !old(self)@.roles.dom().contains(
                    role_name@,
                ) && *final(self) == *old(self),
            },
    {
        if !self.roles.contains_key(role_name) {
            return Err(RbacError::RoleNotFound);
        }
        let ghost before = *self;
        let mut list: Vec<String> = self.user_roles(user_id);
        let held: bool = holds(&list, role_name);
        if !held {
            list.push(role_name.to_owned());
        }
        let ghost now = texts(list@);
        assert(now =~= before@.with_assigned(user_id, role_name@).users[user_id]);
        self.user_roles.insert(user_id, list);
        proof {
            self.lemma_users(before, user_id, now);
            assert(self@ =~= before@.with_assigned(user_id, role_name@));
        }
        Ok(())
    }

    /// Replacing the roles of one user by roles that there are, each once,
    /// keeps the invariant.
    proof fn lemma_users(&self, before: Self, user: u64, now: Seq<Seq<char>>)
        requires
            before.wf(),
            self.roles == before.roles,
            self.user_roles.wf(),
            exists|list: Vec<String>|
                texts(list@) == now && self.user_roles@ == #[trigger] before.user_roles@.insert(
                    user,
                    list,
                ),
            now.no_duplicates(),
            forall|i: int| 0 <= i < now.len() ==> before@.roles.dom().contains(#[trigger] now[i]),
        ensures
            self.wf(),
            self@.users == before@.users.insert(user, now),
            self@.roles == before@.roles,
            self@.names == before@.names,
    {
        assert(self@.users =~= before@.users.insert(user, now));
        assert forall|u: u64, i: int| 0 <= i < self@.held(u).len() implies self@.roles.dom().contains(
            #[trigger] self@.held(u)[i],
        ) by {
            if u != user {
                assert(self@.held(u) == before@.held(u));
                assert(before@.roles.dom().contains(before@.held(u)[i]));
            } else {
                assert(before@.roles.dom().contains(now[i]));
            }
        }
        assert forall|u: u64| (#[trigger] self@.held(u)).no_duplicates() by {
            if u != user {
                assert(self@.held(u) == before@.held(u));
            }
        }
        assert forall|n: Seq<char>| self@.names.contains(n) <==> #[trigger]
        self@.roles.dom().contains(n) by {
            assert(before@.names.contains(n) <==> before@.roles.dom().contains(n));
        }
        assert forall|n: Seq<char>| #[trigger] self@.roles.dom().contains(n) implies
            self@.roles[n].name == n by {
            assert(before@.roles.dom().contains(n));
        }
    }

    /// Takes a role from a user. Fails where the user never held a role.
    pub fn revoke_role_from_user(&mut self, user_id: u64, role_name: &str) -> (r: Result<
        (),
        RbacError,
    >)
        requires
            old(self).wf(),
        ensures
            final(self).wf(),
            match r {
                Ok(()) => old(self)@.users.dom().contains(user_id) && final(self)@ == old(
                    self,
                )@.with_revoked(user_id, role_name@),
                Err(e) => e == RbacError::UserNotFound && !old(self)@.users.dom().contains(user_id)
                    && *final(self) == *old(self),
            },
    {
        match self.user_roles.find(user_id) {
            None => Err(RbacError::UserNotFound),
            Some(_) => {
                let ghost before = *self;
                let list: Vec<String> = self.user_roles(user_id);
                let ghost held = texts(list@);
                let ghost keep = other_than(role_name@);
                let mut rest: Vec<String> = Vec::new();
                let mut i: usize = 0;
                assert(texts(rest@) =~= held.take(0).filter(keep)) by {
                    reveal(Seq::filter);
                }
                while i < list.len()
                    invariant
                        i <= list@.len(),
                        held == texts(list@),
                        keep == other_than(role_name@),
                        texts(rest@) == held.take(i as int).filter(keep),
                    decreases list@.len() - i,
                {
                    let ghost was = texts(rest@);
                    proof {
                        reveal(Seq::filter);
                        assert(held.take(i + 1).drop_last() =~= held.take(i as int));
                        assert(held.take(i + 1).last() == held[i as int]);
                    }
                    if !same_text(list[i].as_str(), role_name) {
                        rest.push(list[i].as_str().to_owned());
                        assert(texts(rest@) =~= was.push(held[i as int]));
                    }
                    i = i + 1;
                }
                assert(held.take(i as int) =~= held);
                let ghost now = texts(rest@);
                proof {
                    lemma_filter(held, role_name@);
                }
                self.user_roles.insert(user_id, rest);
                proof {
                    assert forall|k: int| 0 <= k < now.len() implies before@.roles.dom().contains(
                        #[trigger] now[k],
                    ) by {
                        assert(now.contains(now[k]));
                        assert(held.contains(now[k]));
                        let j = held.index_of(now[k]);
                        assert(before@.held(user_id)[j] == now[k]);
                    }
                    self.lemma_users(before, user_id, now);
                    assert(self@ =~= before@.with_revoked(user_id, role_name@));
                }
                Ok(())
            },
        }
    }

    /// Checks that a user has a permission on a resource.
    pub fn check(&self, user_id: u64, resource: &str, permission: Permission) -> (r: Result<
        (),
        RbacError,
    >)
        requires
            self.wf(),
        ensures
            r == (if self@.allowed(user_id, resource@, permission) {
                Ok(())
            } else {
                Err(RbacError::PermissionDenied)
            }),
    {
        match self.user_roles.get(user_id) {
            None => Err(RbacError::PermissionDenied),
            Some(names) => {
                assert(self@.held(user_id) == texts(names@));
                let mut i: usize = 0;
                while i < names.len()
                    invariant
                        i <= names@.len(),
                        self.wf(),
                        self@.held(user_id) == texts(names@),
                        forall|k: int|
                            0 <= k < i ==> !(self@.roles.dom().contains(
                                #[trigger] self@.held(user_id)[k],
                            ) && grants(
                                self@.roles[self@.held(user_id)[k]],
                                resource@,
                                permission,
                            )),
                    decreases names@.len() - i,
                {
                    assert(self@.held(user_id)[i as int] == names@[i as int]@);
                    match self.roles.get(names[i].as_str()) {
                        Some(role) => {
                            if role.gives(resource, permission) {
                                return Ok(());
                            }
                        },
                        None => {},
                    }
                    i = i + 1;
                }
                Err(RbacError::PermissionDenied)
            },
        }
    }

    /// The names of a user's roles.
    pub fn user_roles(&self, user_id: u64) -> (r: Vec<String>)
        requires
            self.wf(),
        ensures
            texts(r@) == self@.held(user_id),
    {
        let mut out: Vec<String> = Vec::new();
        match self.user_roles.get(user_id) {
            Some(list) => {
                let mut i: usize = 0;
                while i < list.len()
                    invariant
                        i <= list@.len(),
                        out@.len() == i,
                        forall|k: int| 0 <= k < i ==> (#[trigger] out@[k])@ == list@[k]@,
                    decreases list@.len() - i,
                {
                    out.push(list[i].as_str().to_owned());
                    i = i + 1;
                }
                assert(texts(out@) =~= texts(list@));
            },
            None => {
                assert(texts(out@) =~= seq![]);
            },
        }
        out
    }

    /// The names of all roles, in the order in which they were made.
    pub fn role_names(&self) -> (r: Vec<String>)
        ensures
            texts(r@) == self@.names,
    {
        let mut out: Vec<String> = Vec::new();
        let mut i: usize = 0;
        while i < self.roles.len()
            invariant
                i <= self.roles.key_seq().len(),
                out@.len() == i,
                forall|k: int| 0 <= k < i ==> (#[trigger] out@[k])@ == self.roles.key_seq()[k],
            decreases self.roles.key_seq().len() - i,
        {
            out.push(self.roles.key_at(i).as_str().to_owned());
            i = i + 1;
        }
        assert(texts(out@) =~= self@.names);
        out
    }
}

impl Default for RbacManager {
    fn default() -> (res: Self)
        ensures
            res.wf(),
            res@ == default_roles(),
    {
        RbacManager::new()
    }
}

impl Role {
    fn gives(&self, resource: &str, permission: Permission) -> (r: bool)
        ensures
            r == grants(self@, resource@, permission),
    {
        let mut j: usize = 0;
        while j < self.grants.len()
            invariant
                j <= self.grants@.len(),
                forall|k: int|
                    0 <= k < j ==> !((#[trigger] self@.grants[k]).1 == permission && matches_glob(
                        self@.grants[k].0,
                        resource@,
                    )),
            decreases self.grants@.len() - j,
        {
            assert(self@.grants[j as int] == (
                self.grants@[j as int].0@,
                self.grants@[j as int].1,
            ));
            if self.grants[j].1 == permission && glob_match(self.grants[j].0.as_str(), resource) {
                return true;
            }
            j = j + 1;
        }
        false
    }
}

fn holds(list: &Vec<String>, name: &str) -> (r: bool)
    ensures
        r == texts(list@).contains(name@),
{
    let mut i: usize = 0;
    while i < list.len()
        invariant
            i <= list@.len(),
            forall|k: int| 0 <= k < i ==> (#[trigger] list@[k])@ != name@,
        decreases list@.len() - i,
    {
        if same_text(list[i].as_str(), name) {
            assert(texts(list@)[i as int] == name@);
            return true;
        }
        i = i + 1;
    }
    false
}

/// Taking a name out of a list without repetitions leaves one without
/// repetitions that holds the other names.
proof fn lemma_filter(s: Seq<Seq<char>>, name: Seq<char>)
    ensures
        s.no_duplicates() ==> s.filter(other_than(name)).no_duplicates(),
        forall|x: Seq<char>| #[trigger]
            s.filter(other_than(name)).contains(x) <==> s.contains(x) && x != name,
    decreases s.len(),
{
    reveal(Seq::filter);
    let keep = other_than(name);
    if s.len() > 0 {
        let front = s.drop_last();
        lemma_filter(front, name);
        let f = front.filter(keep);
        let all = s.filter(keep);
        assert forall|x: Seq<char>| s.contains(x) <==> front.contains(x) || x == s.last() by {
            if s.contains(x) && x != s.last() {
                let j = s.index_of(x);
                assert(front[j] == x);
            }
            if front.contains(x) {
                let j = front.index_of(x);
                assert(s[j] == x);
            }
            assert(s[s.len() - 1] == s.last());
        }
        assert forall|x: Seq<char>| #[trigger] all.contains(x) <==> s.contains(x) && x != name by {
            if s.last() != name {
                assert(all == f.push(s.last()));
                if f.contains(x) {
                    let j = f.index_of(x);
                    assert(all[j] == x);
                }
                if all.contains(x) && x != s.last() {
                    let j = all.index_of(x);
                    assert(f[j] == x);
                }
                assert(all[f.len() as int] == s.last());
            } else {
                assert(all == f);
            }
            assert(f.contains(x) <==> front.contains(x) && x != name);
        }
        if s.no_duplicates() && s.last() != name {
            assert(!front.contains(s.last())) by {
                if front.contains(s.last()) {
                    let j = front.index_of(s.last());
                    assert(s[j] == s[s.len() - 1]);
                }
            }
            assert(!f.contains(s.last()));
            assert(all == f.push(s.last()));
        }
    }
}

/// A pattern of ordinary characters matches itself alone.
pub proof fn law_glob_exact(p: Seq<char>, t: Seq<char>)
    requires
        forall|i: int| 0 <= i < p.len() ==> #[trigger] p[i] != '*' && p[i] != '?',
    ensures
        matches_glob(p, t) <==> p == t,
    decreases p.len(),
{
    if p.len() == 0 {
        assert(t.len() == 0 ==> t =~= p);
    } else if t.len() > 0 {
        assert forall|i: int| 0 <= i < p.drop_first().len() implies #[trigger] p.drop_first()[i]
            != '*' && p.drop_first()[i] != '?' by {
            assert(p.drop_first()[i] == p[i + 1]);
        }
        law_glob_exact(p.drop_first(), t.drop_first());
        if p[0] == t[0] && p.drop_first() == t.drop_first() {
            assert(p =~= seq![p[0]] + p.drop_first());
            assert(t =~= seq![t[0]] + t.drop_first());
        }
    }
}

/// A pattern of ordinary characters and a final `*` matches the texts that
/// begin with those characters. The pattern `*` matches all texts.
pub proof fn law_glob_prefix(p: Seq<char>, t: Seq<char>)
    requires
        forall|i: int| 0 <= i < p.len() ==> #[trigger] p[i] != '*' && p[i] != '?',
    ensures
        matches_glob(p.push('*'), t) <==> p.len() <= t.len() && t.take(p.len() as int) == p,
    decreases p.len(),
{
    let g = p.push('*');
    if p.len() == 0 {
        assert(g.drop_first() =~= Seq::<char>::empty());
        assert(t.skip(t.len() as int).len() == 0);
        assert(matches_glob(g.drop_first(), t.skip(t.len() as int)));
        assert(t.take(0) =~= p);
    } else if t.len() > 0 {
        let q = p.drop_first();
        assert(g.drop_first() =~= q.push('*'));
        assert forall|i: int| 0 <= i < q.len() implies #[trigger] q[i] != '*' && q[i] != '?' by {
            assert(q[i] == p[i + 1]);
        }
        law_glob_prefix(q, t.drop_first());
        if p.len() <= t.len() {
            let n = p.len() as int;
            assert(t.drop_first().take(n - 1) =~= t.take(n).drop_first());
            if t.take(n) == p {
                assert(p[0] == t.take(n)[0]);
            }
            if p[0] == t[0] && t.drop_first().take(n - 1) == q {
                assert(t.take(n) =~= p) by {
                    assert forall|i: int| 0 <= i < n implies t.take(n)[i] == p[i] by {
                        if i > 0 {
                            assert(t.take(n).drop_first()[i - 1] == q[i - 1]);
                        }
                    }
                }
            }
        }
    }
}

/// Who was given a role may do what the role grants.
pub proof fn law_assigned_role_grants(
    m: RbacView,
    user: u64,
    role: Seq<char>,
    resource: Seq<char>,
    permission: Permission,
)
    requires
        m.roles.dom().contains(role),
        grants(m.roles[role], resource, permission),
    ensures
        m.with_assigned(user, role).allowed(user, resource, permission),
{
    let now = m.with_assigned(user, role);
    if m.held(user).contains(role) {
        let i = m.held(user).index_of(role);
        assert(now.held(user)[i] == role);
    } else {
        assert(now.held(user)[m.held(user).len() as int] == role);
    }
}

/// What a user may do after a role was revoked, another role of the user
/// grants.
pub proof fn law_revoked_role_is_gone(
    m: RbacView,
    user: u64,
    role: Seq<char>,
    resource: Seq<char>,
    permission: Permission,
)
    ensures
        m.with_revoked(user, role).allowed(user, resource, permission) <==> exists|i: int|
            0 <= i < m.held(user).len() && #[trigger] m.held(user)[i] != role
                && m.roles.dom().contains(m.held(user)[i]) && grants(
                m.roles[m.held(user)[i]],
                resource,
                permission,
            ),
{
    let now = m.with_revoked(user, role);
    let before = m.held(user);
    lemma_filter(before, role);
    if now.allowed(user, resource, permission) {
        let i = choose|i: int|
            0 <= i < now.held(user).len() && m.roles.dom().contains(#[trigger] now.held(user)[i])
                && grants(m.roles[now.held(user)[i]], resource, permission);
        assert(now.held(user).contains(now.held(user)[i]));
        let j = before.index_of(now.held(user)[i]);
        assert(before[j] == now.held(user)[i]);
    }
    if exists|i: int|
        0 <= i < before.len() && #[trigger] before[i] != role && m.roles.dom().contains(before[i])
            && grants(m.roles[before[i]], resource, permission) {
        let i = choose|i: int|
            0 <= i < before.len() && #[trigger] before[i] != role && m.roles.dom().contains(
                before[i],
            ) && grants(m.roles[before[i]], resource, permission);
        assert(before.contains(before[i]));
        assert(now.held(user).contains(before[i]));
        let j = now.held(user).index_of(before[i]);
        assert(now.held(user)[j] == before[i]);
    }
}

/// A change to one user's roles leaves what other users may do.
pub proof fn law_other_users_unchanged(
    m: RbacView,
    user: u64,
    role: Seq<char>,
    other: u64,
    resource: Seq<char>,
    permission: Permission,
)
    requires
        other != user,
    ensures
        m.with_assigned(user, role).allowed(other, resource, permission) <==> m.allowed(
            other,
            resource,
            permission,
        ),
        m.with_revoked(user, role).allowed(other, resource, permission) <==> m.allowed(
            other,
            resource,
            permission,
        ),
{
    assert(m.with_assigned(user, role).held(other) == m.held(other));
    assert(m.with_revoked(user, role).held(other) == m.held(other));
}

/// A user without roles may do nothing.
pub proof fn law_no_roles_no_rights(
    m: RbacView,
    user: u64,
    resource: Seq<char>,
    permission: Permission,
)
    requires
        m.held(user).len() == 0,
    ensures
        !m.allowed(user, resource, permission),
{
}

/// What the default roles grant: `admin` everything, `read_only` reading,
/// `analyst` reading, and writing and creating what begins with `analytics.`.
pub proof fn law_default_roles(resource: Seq<char>, permission: Permission)
    ensures
        grants(admin_role(), resource, permission),
        grants(read_only_role(), resource, permission) <==> permission == Permission::Read,
        grants(analyst_role(), resource, permission) <==> permission == Permission::Read || (
        permission == Permission::Write || permission == Permission::Create) && resource.len() >= 10
            && resource.take(10) == "analytics."@,
{
    reveal_strlit("*");
    reveal_strlit("analytics.*");
    reveal_strlit("analytics.");
    let none = Seq::<char>::empty();
    law_glob_prefix(none, resource);
    assert("*"@ =~= none.push('*'));
    assert(resource.take(0) =~= none);
    law_glob_prefix("analytics."@, resource);
    assert("analytics.*"@ =~= "analytics."@.push('*'));
    let a = admin_role().grants;
    assert(a[0].1 == Permission::Read);
    assert(a[1].1 == Permission::Write);
    assert(a[2].1 == Permission::Create);
    assert(a[3].1 == Permission::Drop);
    assert(a[4].1 == Permission::Admin);
    assert(read_only_role().grants[0].1 == Permission::Read);
    let n = analyst_role().grants;
    assert(n[0].1 == Permission::Read);
    assert(n[1].1 == Permission::Write);
    assert(n[2].1 == Permission::Create);
}

} // verus!
