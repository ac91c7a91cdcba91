//! Authentication and access control: user accounts, roles with their
//! permissions, and the session of the logged-in user.

use vstd::prelude::*;
use crate::collections::StrMap;
use crate::util::{now_rfc3339, owned, str_eq};

verus! {

/// A user role.
#[derive(Debug, Clone)]
pub enum Role {
    Admin,
    DBA,
    User,
    Guest,
    Custom(String),
}

/// The content of a `Role`.
pub enum RoleModel {
    Admin,
    DBA,
    User,
    Guest,
    Custom(Seq<char>),
}

impl View for Role {
    type V = RoleModel;

    open spec fn view(&self) -> RoleModel {
        match self {
            Role::Admin => RoleModel::Admin,
            Role::DBA => RoleModel::DBA,
            Role::User => RoleModel::User,
            Role::Guest => RoleModel::Guest,
            Role::Custom(s) => RoleModel::Custom(s@),
        }
    }
}

impl Role {
    /// Whether two roles are the same.
    pub fn same_as(&self, other: &Role) -> (b: bool)
        ensures
            b == (self@ == other@),
    {
        match (self, other) {
            (Role::Admin, Role::Admin) => true,
            (Role::DBA, Role::DBA) => true,
            (Role::User, Role::User) => true,
            (Role::Guest, Role::Guest) => true,
            (Role::Custom(a), Role::Custom(b)) => str_eq(a.as_str(), b.as_str()),
            _ => false,
        }
    }

    /// A copy of the role.
    pub fn duplicate(&self) -> (r: Role)
        ensures
            r@ == self@,
    {
        match self {
            Role::Admin => Role::Admin,
            Role::DBA => Role::DBA,
            Role::User => Role::User,
            Role::Guest => Role::Guest,
            Role::Custom(s) => Role::Custom(s.clone()),
        }
    }
}

/// A permission for a database operation.
#[derive(Debug, Clone, Copy, PartialEq, Eq, Structural, Hash)]
pub enum Permission {
    Select,
    Insert,
    Update,
    Delete,
    Create,
    Drop,
    Alter,
    Admin,
}

/// A user account. The password is kept as `hash_` followed by the password.
#[derive(Debug)]
pub struct User {
    pub username: String,
    pub password_hash: String,
    pub roles: Vec<Role>,
    pub is_active: bool,
    pub created_at: String,
}

/// A role with its permissions, overall and per table.
#[derive(Debug)]
pub struct RoleDefinition {
    pub role: Role,
    pub permissions: Vec<Permission>,
    pub table_permissions: StrMap<Vec<Permission>>,
}

/// The errors of authentication and access checks.
#[derive(Debug, Clone)]
pub enum AuthError {
    /// A user with this name already exists.
    UserExists(String),
    /// No user has this name.
    UserNotFound(String),
    /// The user is inactive.
    UserInactive(String),
    /// The password does not match.
    InvalidPassword,
    /// No user is logged in.
    NoUserLoggedIn,
    /// The logged-in user has no account.
    CurrentUserMissing,
    /// The role has no definition.
    RoleNotFound,
}

/// The stored form of a password.
pub open spec fn password_hash_of(password: Seq<char>) -> Seq<char> {
    "hash_"@ + password
}

/// The permissions that the default roles are defined with: every permission
/// for `Admin`; select, insert, update and delete for `User`; select for
/// `Guest`. No other role is defined.
pub open spec fn default_grant(r: RoleModel, p: Permission) -> bool {
    match r {
        RoleModel::Admin => true,
        RoleModel::User => p == Permission::Select || p == Permission::Insert || p == Permission::Update
            || p == Permission::Delete,
        RoleModel::Guest => p == Permission::Select,
        _ => false,
    }
}

/// The roles that are defined at the start.
pub open spec fn default_role(r: RoleModel) -> bool {
    r == RoleModel::Admin || r == RoleModel::User || r == RoleModel::Guest
}

/// Whether `p` occurs in `v`.
fn contains_permission(v: &Vec<Permission>, p: Permission) -> (b: bool)
    ensures
        b == v@.contains(p),
{
    let mut i: usize = 0;
    while i < v.len()
        invariant
            i <= v@.len(),
            forall|j: int| 0 <= j < i ==> v@[j] != p,
        decreases v@.len() - i,
    {
        if v[i] == p {
            return true;
        }
        i += 1;
    }
    false
}

/// Adds `p` to the set `v`.
fn add_permission(v: &mut Vec<Permission>, p: Permission)
    ensures
        forall|q: Permission| #[trigger] final(v)@.contains(q) <==> old(v)@.contains(q) || q == p,
{
    if !contains_permission(v, p) {
        v.push(p);
        proof {
            assert forall|q: Permission| #[trigger] v@.contains(q) <==> old(v)@.contains(q) || q == p by {
                if old(v)@.contains(q) {
                    let j = choose|j: int| 0 <= j < old(v)@.len() && #[trigger] old(v)@[j] == q;
                    assert(v@[j] == q);
                }
                if q == p {
                    assert(v@[old(v)@.len() as int] == q);
                }
            }
        }
    }
}

/// Removes `p` from the set `v`.
fn remove_permission(v: &mut Vec<Permission>, p: Permission)
    ensures
        forall|q: Permission| #[trigger] final(v)@.contains(q) <==> old(v)@.contains(q) && q != p,
{
    let mut kept: Vec<Permission> = Vec::new();
    let mut i: usize = 0;
    while i < v.len()
        invariant
            i <= v@.len(),
            v@ == old(v)@,
            forall|k: int| 0 <= k < kept@.len() ==> #[trigger] kept@[k] != p && old(v)@.contains(kept@[k]),
            forall|j: int| 0 <= j < i && #[trigger] v@[j] != p ==> kept@.contains(v@[j]),
        decreases v@.len() - i,
    {
        let ghost before = kept@;
        if v[i] != p {
            kept.push(v[i]);
            proof {
                assert(old(v)@[i as int] == v@[i as int]);
                assert(kept@[before.len() as int] == v@[i as int]);
                assert forall|j: int| 0 <= j < i + 1 && #[trigger] v@[j] != p implies kept@.contains(v@[j]) by {
                    if j < i {
                        let k = choose|k: int| 0 <= k < before.len() && #[trigger] before[k] == v@[j];
                        assert(kept@[k] == v@[j]);
                    }
                }
            }
        }
        i += 1;
    }
    proof {
        assert forall|q: Permission| #[trigger] kept@.contains(q) <==> old(v)@.contains(q) && q != p by {
            if kept@.contains(q) {
                let k = choose|k: int| 0 <= k < kept@.len() && #[trigger] kept@[k] == q;
                assert(kept@[k] != p);
            }
            if old(v)@.contains(q) && q != p {
                let j = choose|j: int| 0 <= j < old(v)@.len() && #[trigger] old(v)@[j] == q;
                assert(v@[j] != p);
            }
        }
    }
    *v = kept;
}

/// Keeps user accounts and role definitions, and who is logged in.
#[derive(Debug)]
pub struct AuthManager {
    users: StrMap<User>,
    roles: Vec<RoleDefinition>,
    current_user: Option<String>,
}

impl AuthManager {
    /// The accounts by user name.
    pub closed spec fn accounts(&self) -> Map<Seq<char>, User> {
        self.users@
    }

    /// The role definitions.
    pub closed spec fn definitions(&self) -> Seq<RoleDefinition> {
        self.roles@
    }

    /// The name of the logged-in user, if any.
    pub closed spec fn session(&self) -> Option<Seq<char>> {
        match self.current_user {
            Some(s) => Some(s@),
            None => None,
        }
    }

    /// No role is defined twice.
    pub open spec fn wf(&self) -> bool {
        forall|i: int, j: int|
            0 <= i < j < self.definitions().len() ==> (#[trigger] self.definitions()[i]).role@
                != (#[trigger] self.definitions()[j]).role@
    }

    /// Whether role `r` is defined.
    pub open spec fn defines(&self, r: RoleModel) -> bool {
        exists|i: int| 0 <= i < self.definitions().len() && (#[trigger] self.definitions()[i]).role@ == r
    }

    /// Whether role `r` is defined with permission `p`.
    pub open spec fn grants(&self, r: RoleModel, p: Permission) -> bool {
        exists|i: int|
            0 <= i < self.definitions().len() && (#[trigger] self.definitions()[i]).role@ == r
                && self.definitions()[i].permissions@.contains(p)
    }

    /// Whether user `name` exists and one of its roles grants `p`.
    pub open spec fn user_may(&self, name: Seq<char>, p: Permission) -> bool {
        self.accounts().contains_key(name) && exists|j: int|
            0 <= j < self.accounts()[name].roles@.len() && self.grants(
                (#[trigger] self.accounts()[name].roles@[j])@,
                p,
            )
    }

    /// A manager with no user, no session, and the default roles.
    pub fn new() -> (m: Self)
        ensures
            m.wf(),
            m.accounts() == Map::<Seq<char>, User>::empty(),
            m.session() is None,
            forall|r: RoleModel| #[trigger] m.defines(r) == default_role(r),
            forall|r: RoleModel, p: Permission| #[trigger] m.grants(r, p) == default_grant(r, p),
            forall|i: int|
                0 <= i < m.definitions().len() ==> (#[trigger] m.definitions()[i]).table_permissions@ == Map::<
                    Seq<char>,
                    Vec<Permission>,
                >::empty(),
    {
        let mut manager = AuthManager { users: StrMap::new(), roles: Vec::new(), current_user: None };
        manager.init_default_roles();
        manager
    }

    fn init_default_roles(&mut self)
        requires
            old(self).definitions().len() == 0,
        ensures
            final(self).wf(),
            final(self).accounts() == old(self).accounts(),
            final(self).session() == old(self).session(),
            forall|r: RoleModel| #[trigger] final(self).defines(r) == default_role(r),
            forall|r: RoleModel, p: Permission| #[trigger] final(self).grants(r, p) == default_grant(r, p),
            forall|i: int|
                0 <= i < final(self).definitions().len() ==> (#[trigger] final(self).definitions()[i]).table_permissions@
                    == Map::<Seq<char>, Vec<Permission>>::empty(),
    {
        let mut admin_perms: Vec<Permission> = Vec::new();
        admin_perms.push(Permission::Select);
        admin_perms.push(Permission::Insert);
        admin_perms.push(Permission::Update);
        admin_perms.push(Permission::Delete);
        admin_perms.push(Permission::Create);
        admin_perms.push(Permission::Drop);
        admin_perms.push(Permission::Alter);
        admin_perms.push(Permission::Admin);
        self.roles.push(
            RoleDefinition { role: Role::Admin, permissions: admin_perms, table_permissions: StrMap::new() },
        );

        let mut user_perms: Vec<Permission> = Vec::new();
        user_perms.push(Permission::Select);
        user_perms.push(Permission::Insert);
        user_perms.push(Permission::Update);
        user_perms.push(Permission::Delete);
        self.roles.push(
            RoleDefinition { role: Role::User, permissions: user_perms, table_permissions: StrMap::new() },
        );

        let mut guest_perms: Vec<Permission> = Vec::new();
        guest_perms.push(Permission::Select);
        self.roles.push(
            RoleDefinition { role: Role::Guest, permissions: guest_perms, table_permissions: StrMap::new() },
        );
        proof {
            let d = self.definitions();
            assert(d.len() == 3);
            assert forall|r: RoleModel| #[trigger] self.defines(r) == default_role(r) by {
                if default_role(r) {
                    if r == RoleModel::Admin {
                        assert(d[0].role@ == r);
                    } else if r == RoleModel::User {
                        assert(d[1].role@ == r);
                    } else {
                        assert(d[2].role@ == r);
                    }
                }
            }
            assert forall|r: RoleModel, p: Permission| #[trigger] self.grants(r, p) == default_grant(r, p) by {
                let a = d[0].permissions@;
                let u = d[1].permissions@;
                let g = d[2].permissions@;
                if default_grant(r, p) {
                    if r == RoleModel::Admin {
                        assert(a[0] == Permission::Select && a[1] == Permission::Insert && a[2] == Permission::Update
                            && a[3] == Permission::Delete && a[4] == Permission::Create && a[5] == Permission::Drop
                            && a[6] == Permission::Alter && a[7] == Permission::Admin);
                        assert(d[0].role@ == r && a.contains(p));
                    } else if r == RoleModel::User {
                        assert(u[0] == Permission::Select && u[1] == Permission::Insert && u[2] == Permission::Update
                            && u[3] == Permission::Delete);
                        assert(d[1].role@ == r && u.contains(p));
                    } else {
                        assert(g[0] == Permission::Select);
                        assert(d[2].role@ == r && g.contains(p));
                    }
                }
                if self.grants(r, p) {
                    let i = choose|i: int|
                        0 <= i < d.len() && (#[trigger] d[i]).role@ == r && d[i].permissions@.contains(p);
                    if i == 1 {
                        let k = choose|k: int| 0 <= k < u.len() && #[trigger] u[k] == p;
                        assert(k < 4);
                    } else if i == 2 {
                        let k = choose|k: int| 0 <= k < g.len() && #[trigger] g[k] == p;
                        assert(k < 1);
                    }
                }
            }
        }
    }

    /// Creates an active user with one role; an error when the name is taken.
    pub fn create_user(&mut self, username: String, password: String, role: Role) -> (r: Result<(), AuthError>)
        requires
            old(self).wf(),
        ensures
            final(self).wf(),
            r is Err <==> old(self).accounts().contains_key(username@),
            r is Err ==> *final(self) == *old(self) && (r matches Err(AuthError::UserExists(n)) && n@ == username@),
            r is Ok ==> {
                &&& final(self).accounts().contains_key(username@)
                &&& final(self).accounts().remove(username@) == old(self).accounts()
                &&& final(self).accounts()[username@].username@ == username@
                &&& final(self).accounts()[username@].password_hash@ == password_hash_of(password@)
                &&& final(self).accounts()[username@].roles@.len() == 1
                &&& final(self).accounts()[username@].roles@[0]@ == role@
                &&& final(self).accounts()[username@].is_active
                &&& final(self).definitions() == old(self).definitions()
                &&& final(self).session() == old(self).session()
            },
    {
        if self.users.contains_key(username.as_str()) {
            return Err(AuthError::UserExists(username));
        }
        let mut password_hash = owned("hash_");
        password_hash.append(password.as_str());
        proof {
            reveal_strlit("hash_");
            assert(password_hash@ =~= password_hash_of(password@));
        }
        let mut roles: Vec<Role> = Vec::new();
        roles.push(role);
        let key = username.clone();
        let user = User { username, password_hash, roles, is_active: true, created_at: now_rfc3339() };
        self.users.insert(key, user);
        proof {
            assert(self.accounts().remove(username@) =~= old(self).accounts());
        }
        Ok(())
    }

    /// Logs a user in when the name exists, the account is active and the
    /// password matches.
    pub fn authenticate(&mut self, username: &str, password: &str) -> (r: Result<(), AuthError>)
        ensures
            final(self).accounts() == old(self).accounts(),
            final(self).definitions() == old(self).definitions(),
            !old(self).accounts().contains_key(username@) ==> (r matches Err(AuthError::UserNotFound(n)) && n@
                == username@),
            old(self).accounts().contains_key(username@) && !old(self).accounts()[username@].is_active ==> (r matches Err(
                AuthError::UserInactive(n),
            ) && n@ == username@),
            old(self).accounts().contains_key(username@) && old(self).accounts()[username@].is_active
                && old(self).accounts()[username@].password_hash@ != password_hash_of(password@) ==> r matches Err(
                AuthError::InvalidPassword,
            ),
            r is Ok <==> old(self).accounts().contains_key(username@) && old(self).accounts()[username@].is_active
                && old(self).accounts()[username@].password_hash@ == password_hash_of(password@),
            r is Ok ==> final(self).session() == Some(username@),
            r is Err ==> final(self).session() == old(self).session(),
    {
        let user = match self.users.get(username) {
            Some(u) => u,
            None => {
                return Err(AuthError::UserNotFound(owned(username)));
            },
        };
        if !user.is_active {
            return Err(AuthError::UserInactive(owned(username)));
        }
        let mut password_hash = owned("hash_");
        password_hash.append(password);
        proof {
            reveal_strlit("hash_");
            assert(password_hash@ =~= password_hash_of(password@));
        }
        if !str_eq(user.password_hash.as_str(), password_hash.as_str()) {
            return Err(AuthError::InvalidPassword);
        }
        self.current_user = Some(owned(username));
        Ok(())
    }

    /// The position of a role's definition.
    fn role_index(&self, role: &Role) -> (r: Option<usize>)
        ensures
            match r {
                Some(i) => i < self.definitions().len() && self.definitions()[i as int].role@ == role@,
                None => forall|i: int|
                    0 <= i < self.definitions().len() ==> (#[trigger] self.definitions()[i]).role@ != role@,
            },
    {
        let mut i: usize = 0;
        while i < self.roles.len()
            invariant
                i <= self.roles@.len(),
                forall|j: int| 0 <= j < i ==> (#[trigger] self.roles@[j]).role@ != role@,
            decreases self.roles@.len() - i,
        {
            if self.roles[i].role.same_as(role) {
                return Some(i);
            }
            i += 1;
        }
        None
    }

    /// Whether a role's definition has a permission.
    fn role_has(&self, role: &Role, permission: Permission) -> (b: bool)
        requires
            self.wf(),
        ensures
            b == self.grants(role@, permission),
    {
        match self.role_index(role) {
            Some(i) => {
                let b = contains_permission(&self.roles[i].permissions, permission);
                proof {
                    if self.grants(role@, permission) {
                        let k = choose|k: int|
                            0 <= k < self.definitions().len() && (#[trigger] self.definitions()[k]).role@ == role@
                                && self.definitions()[k].permissions@.contains(permission);
                        if k < i {
                            assert(self.definitions()[k].role@ != self.definitions()[i as int].role@);
                        } else if k > i {
                            assert(self.definitions()[i as int].role@ != self.definitions()[k].role@);
                        }
                    }
                }
                b
            },
            None => false,
        }
    }

    /// Whether one of a user's roles grants a permission.
    fn user_has(&self, user: &User, permission: Permission) -> (b: bool)
        requires
            self.wf(),
        ensures
            b == exists|j: int| 0 <= j < user.roles@.len() && self.grants((#[trigger] user.roles@[j])@, permission),
    {
        let mut i: usize = 0;
        while i < user.roles.len()
            invariant
                self.wf(),
                i <= user.roles@.len(),
                forall|j: int| 0 <= j < i ==> !self.grants((#[trigger] user.roles@[j])@, permission),
            decreases user.roles@.len() - i,
        {
            if self.role_has(&user.roles[i], permission) {
                return true;
            }
            i += 1;
        }
        false
    }

    /// Whether the logged-in user holds a permission through one of its roles.
    pub fn has_permission(&self, permission: Permission) -> (r: Result<bool, AuthError>)
        requires
            self.wf(),
        ensures
            self.session() is None ==> r matches Err(AuthError::NoUserLoggedIn),
            self.session() is Some && !self.accounts().contains_key(self.session()->0) ==> r matches Err(
                AuthError::CurrentUserMissing,
            ),
            self.session() is Some && self.accounts().contains_key(self.session()->0) ==> r == Ok::<
                bool,
                AuthError,
            >(self.user_may(self.session()->0, permission)),
    {
        let username = match &self.current_user {
            Some(u) => u,
            None => {
                return Err(AuthError::NoUserLoggedIn);
            },
        };
        let user = match self.users.get(username.as_str()) {
            Some(u) => u,
            None => {
                return Err(AuthError::CurrentUserMissing);
            },
        };
        Ok(self.user_has(user, permission))
    }

    /// Whether the logged-in user may perform an operation on a table: a
    /// table-level grant is looked up, and the answer falls back to the
    /// user's overall permission.
    pub fn has_table_permission(&self, table: &str, permission: Permission) -> (r: Result<bool, AuthError>)
        requires
            self.wf(),
        ensures
            self.session() is None ==> r matches Err(AuthError::NoUserLoggedIn),
            self.session() is Some && !self.accounts().contains_key(self.session()->0) ==> r matches Err(
                AuthError::CurrentUserMissing,
            ),
            self.session() is Some && self.accounts().contains_key(self.session()->0) ==> r == Ok::<
                bool,
                AuthError,
            >(self.user_may(self.session()->0, permission)),
    {
        let username = match &self.current_user {
            Some(u) => u,
            None => {
                return Err(AuthError::NoUserLoggedIn);
            },
        };
        let user = match self.users.get(username.as_str()) {
            Some(u) => u,
            None => {
                return Err(AuthError::CurrentUserMissing);
            },
        };
        if !self.user_has(user, permission) {
            return Ok(false);
        }
        proof {
            let j = choose|j: int| 0 <= j < user.roles@.len() && self.grants((#[trigger] user.roles@[j])@, permission);
            assert(self.accounts()[username@].roles@[j] == user.roles@[j]);
        }
        let mut i: usize = 0;
        while i < user.roles.len()
            invariant
                i <= user.roles@.len(),
                self.session() == Some(username@),
                self.accounts().contains_key(username@),
                self.user_may(username@, permission),
            decreases user.roles@.len() - i,
        {
            match self.role_index(&user.roles[i]) {
                Some(k) => match self.roles[k].table_permissions.get(table) {
                    Some(perms) => {
                        if contains_permission(perms, permission) {
                            return Ok(true);
                        }
                    },
                    None => {},
                },
                None => {},
            }
            i += 1;
        }
        Ok(true)
    }

    /// Adds a permission to a defined role.
    pub fn grant_permission_to_role(&mut self, role: Role, permission: Permission) -> (r: Result<(), AuthError>)
        requires
            old(self).wf(),
        ensures
            final(self).wf(),
            r is Ok <==> old(self).defines(role@),
            r is Err ==> (r matches Err(AuthError::RoleNotFound)) && *final(self) == *old(self),
            final(self).accounts() == old(self).accounts(),
            final(self).session() == old(self).session(),
            forall|q: RoleModel| #[trigger] final(self).defines(q) == old(self).defines(q),
            r is Ok ==> forall|q: RoleModel, p: Permission|
                #[trigger] final(self).grants(q, p) == (old(self).grants(q, p) || (q == role@ && p == permission)),
    {
        match self.role_index(&role) {
            None => Err(AuthError::RoleNotFound),
            Some(i) => {
                let ghost old_defs = self.roles@;
                let mut def = self.roles.remove(i);
                add_permission(&mut def.permissions, permission);
                self.roles.insert(i, def);
                proof {
                    let d = self.roles@;
                    assert(d.len() == old_defs.len());
                    assert forall|k: int| 0 <= k < d.len() && k != i implies #[trigger] d[k] == old_defs[k] by {}
                    assert(d[i as int].role@ == role@);
                    self.lemma_update_grants(old_defs, i as int, role@, permission, true);
                }
                Ok(())
            },
        }
    }

    /// Removes a permission from a defined role.
    pub fn revoke_permission_from_role(&mut self, role: Role, permission: Permission) -> (r: Result<(), AuthError>)
        requires
            old(self).wf(),
        ensures
            final(self).wf(),
            r is Ok <==> old(self).defines(role@),
            r is Err ==> (r matches Err(AuthError::RoleNotFound)) && *final(self) == *old(self),
            final(self).accounts() == old(self).accounts(),
            final(self).session() == old(self).session(),
            forall|q: RoleModel| #[trigger] final(self).defines(q) == old(self).defines(q),
            r is Ok ==> forall|q: RoleModel, p: Permission|
                #[trigger] final(self).grants(q, p) == (old(self).grants(q, p) && !(q == role@ && p == permission)),
    {
        match self.role_index(&role) {
            None => Err(AuthError::RoleNotFound),
            Some(i) => {
                let ghost old_defs = self.roles@;
                let mut def = self.roles.remove(i);
                remove_permission(&mut def.permissions, permission);
                self.roles.insert(i, def);
                proof {
                    let d = self.roles@;
                    assert(d.len() == old_defs.len());
                    assert forall|k: int| 0 <= k < d.len() && k != i implies #[trigger] d[k] == old_defs[k] by {}
                    assert(d[i as int].role@ == role@);
                    self.lemma_update_grants(old_defs, i as int, role@, permission, false);
                }
                Ok(())
            },
        }
    }

    /// Granting a permission to a role lets every user holding the role use
    /// it: when `after`'s grants are `before`'s plus the permission for the
    /// role, with the same accounts, a user with the role may use it.
    pub proof fn lemma_grant_reaches_users(
        before: &AuthManager,
        after: &AuthManager,
        role: RoleModel,
        permission: Permission,
        name: Seq<char>,
    )
        requires
            after.accounts() == before.accounts(),
            forall|q: RoleModel, p: Permission| #[trigger] after.grants(q, p) == (before.grants(q, p) || (q == role && p == permission)),
            before.accounts().contains_key(name),
            exists|j: int| 0 <= j < before.accounts()[name].roles@.len() && (#[trigger] before.accounts()[name].roles@[j])@ == role,
        ensures
            after.user_may(name, permission),
    {
        let j = choose|j: int| 0 <= j < before.accounts()[name].roles@.len() && (#[trigger] before.accounts()[name].roles@[j])@ == role;
        assert(after.grants(after.accounts()[name].roles@[j]@, permission));
    }

    /// Revoking a permission from a role takes it from a user whose roles
    /// are all that role: when `after`'s grants are `before`'s without the
    /// permission for the role, the user may no longer use it.
    pub proof fn lemma_revoke_reaches_users(
        before: &AuthManager,
        after: &AuthManager,
        role: RoleModel,
        permission: Permission,
        name: Seq<char>,
    )
        requires
            after.accounts() == before.accounts(),
            forall|q: RoleModel, p: Permission| #[trigger] after.grants(q, p) == (before.grants(q, p) && !(q == role && p == permission)),
            forall|j: int| 0 <= j < before.accounts()[name].roles@.len() ==> (#[trigger] before.accounts()[name].roles@[j])@ == role,
        ensures
            !after.user_may(name, permission),
    {
        if after.user_may(name, permission) {
            let j = choose|j: int|
                0 <= j < after.accounts()[name].roles@.len() && after.grants((#[trigger] after.accounts()[name].roles@[j])@, permission);
            assert(before.accounts()[name].roles@[j]@ == role);
        }
    }

    /// How `grants` and `defines` change when the definition at `i`, of role
    /// `role`, gains (`added`) or loses `permission`.
    proof fn lemma_update_grants(
        &self,
        old_defs: Seq<RoleDefinition>,
        i: int,
        role: RoleModel,
        permission: Permission,
        added: bool,
    )
        requires
            0 <= i < old_defs.len(),
            self.definitions().len() == old_defs.len(),
            forall|a: int, b: int|
                0 <= a < b < old_defs.len() ==> (#[trigger] old_defs[a]).role@ != (#[trigger] old_defs[b]).role@,
            forall|k: int| 0 <= k < old_defs.len() && k != i ==> #[trigger] self.definitions()[k] == old_defs[k],
            old_defs[i].role@ == role,
            self.definitions()[i].role@ == role,
            added ==> forall|q: Permission|
                #[trigger] self.definitions()[i].permissions@.contains(q) <==> old_defs[i].permissions@.contains(q)
                    || q == permission,
            !added ==> forall|q: Permission|
                #[trigger] self.definitions()[i].permissions@.contains(q) <==> old_defs[i].permissions@.contains(q)
                    && q != permission,
        ensures
            self.wf(),
            forall|q: RoleModel|
                #[trigger] self.defines(q) == exists|k: int| 0 <= k < old_defs.len() && (#[trigger] old_defs[k]).role@ == q,
            added ==> forall|q: RoleModel, p: Permission|
                #[trigger] self.grants(q, p) == ((exists|k: int|
                    0 <= k < old_defs.len() && (#[trigger] old_defs[k]).role@ == q && old_defs[k].permissions@.contains(p))
                    || (q == role && p == permission)),
            !added ==> forall|q: RoleModel, p: Permission|
                #[trigger] self.grants(q, p) == ((exists|k: int|
                    0 <= k < old_defs.len() && (#[trigger] old_defs[k]).role@ == q && old_defs[k].permissions@.contains(p))
                    && !(q == role && p == permission)),
    {
        let d = self.definitions();
        assert forall|a: int, b: int| 0 <= a < b < d.len() implies (#[trigger] d[a]).role@ != (#[trigger] d[b]).role@ by {
            assert(old_defs[a].role@ != old_defs[b].role@);
        }
        assert forall|q: RoleModel|
            #[trigger] self.defines(q) == exists|k: int| 0 <= k < old_defs.len() && (#[trigger] old_defs[k]).role@ == q by {
            if self.defines(q) {
                let k = choose|k: int| 0 <= k < d.len() && (#[trigger] d[k]).role@ == q;
                assert(old_defs[k].role@ == q);
            }
            if exists|k: int| 0 <= k < old_defs.len() && (#[trigger] old_defs[k]).role@ == q {
                let k = choose|k: int| 0 <= k < old_defs.len() && (#[trigger] old_defs[k]).role@ == q;
                assert(d[k].role@ == q);
            }
        }
        assert forall|q: RoleModel, p: Permission| #[trigger] self.grants(q, p) == (if added {
            (exists|k: int|
                0 <= k < old_defs.len() && (#[trigger] old_defs[k]).role@ == q && old_defs[k].permissions@.contains(p))
                || (q == role && p == permission)
        } else {
            (exists|k: int|
                0 <= k < old_defs.len() && (#[trigger] old_defs[k]).role@ == q && old_defs[k].permissions@.contains(p))
                && !(q == role && p == permission)
        }) by {
            let old_g = exists|k: int|
                0 <= k < old_defs.len() && (#[trigger] old_defs[k]).role@ == q && old_defs[k].permissions@.contains(p);
            if self.grants(q, p) {
                let k = choose|k: int| 0 <= k < d.len() && (#[trigger] d[k]).role@ == q && d[k].permissions@.contains(p);
                if k != i {
                    assert(old_defs[k].role@ == q && old_defs[k].permissions@.contains(p));
                    if q == role {
                        if k < i {
                            assert(old_defs[k].role@ != old_defs[i].role@);
                        } else {
                            assert(old_defs[i].role@ != old_defs[k].role@);
                        }
                    }
                } else if old_defs[i].permissions@.contains(p) {
                    assert(old_defs[i].role@ == q);
                }
            }
            if old_g {
                let k = choose|k: int|
                    0 <= k < old_defs.len() && (#[trigger] old_defs[k]).role@ == q && old_defs[k].permissions@.contains(p);
                if k != i {
                    assert(d[k].role@ == q && d[k].permissions@.contains(p));
                    if q == role {
                        if k < i {
                            assert(old_defs[k].role@ != old_defs[i].role@);
                        } else {
                            assert(old_defs[i].role@ != old_defs[k].role@);
                        }
                    }
                } else if added || !(q == role && p == permission) {
                    assert(d[i].role@ == q && d[i].permissions@.contains(p));
                }
            }
            if added && q == role && p == permission {
                assert(d[i].role@ == q && d[i].permissions@.contains(p));
            }
        }
    }

    /// The name of the logged-in user.
    pub fn current_user(&self) -> (r: Option<&str>)
        ensures
            match r {
                Some(s) => self.session() == Some(s@),
                None => self.session() is None,
            },
    {
        match &self.current_user {
            Some(s) => Some(s.as_str()),
            None => None,
        }
    }

    /// Ends the session.
    pub fn logout(&mut self)
        ensures
            final(self).session() is None,
            final(self).accounts() == old(self).accounts(),
            final(self).definitions() == old(self).definitions(),
    {
        self.current_user = None;
    }

    /// Whether a user account exists.
    pub fn has_user(&self, username: &str) -> (b: bool)
        ensures
            b == self.accounts().contains_key(username@),
    {
        self.users.contains_key(username)
    }
}

} // verus!
