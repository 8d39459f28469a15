//! The persisted auth records: users, roles and key-range permissions.
//!
//! Names and keys are byte strings; a user's roles are kept strictly
//! ascending in byte order, and a role's permissions strictly ascending by
//! `(key, range_end)`.

use vstd::prelude::*;

use crate::bytes::lex_lt;

verus! {

/// Permission kind: read, write, or both.
#[derive(Clone, Copy, PartialEq, Eq, Structural, Debug)]
pub enum Type {
    /// May read the range.
    Read,
    /// May write the range.
    Write,
    /// May read and write the range.
    Readwrite,
}

/// A permission over the half-open key range `[key, range_end)`. An empty
/// `range_end` denotes the single key `key`; `key = []` with
/// `range_end = [0]` denotes all keys.
#[derive(Debug)]
pub struct Permission {
    /// Permission kind.
    pub perm_type: Type,
    /// Range start.
    pub key: Vec<u8>,
    /// Exclusive range end.
    pub range_end: Vec<u8>,
}

/// Mathematical model of a [`Permission`].
pub ghost struct PermissionV {
    /// Permission kind.
    pub perm_type: Type,
    /// Range start.
    pub key: Seq<u8>,
    /// Exclusive range end.
    pub range_end: Seq<u8>,
}

impl View for Permission {
    type V = PermissionV;

    open spec fn view(&self) -> PermissionV {
        PermissionV { perm_type: self.perm_type, key: self.key@, range_end: self.range_end@ }
    }
}

/// Extra options attached to a user.
#[derive(Clone, Copy, PartialEq, Eq, Structural, Debug)]
pub struct UserAddOptions {
    /// The user authenticates without a password.
    pub no_password: bool,
}

/// A stored user record.
#[derive(Debug)]
pub struct User {
    /// User name bytes.
    pub name: Vec<u8>,
    /// Password hash in PHC string form, as bytes.
    pub password: Vec<u8>,
    /// Optional user options.
    pub options: Option<UserAddOptions>,
    /// Role names held, strictly ascending in byte order.
    pub roles: Vec<Vec<u8>>,
}

/// Mathematical model of a [`User`].
pub ghost struct UserV {
    /// User name bytes.
    pub name: Seq<u8>,
    /// Password hash bytes.
    pub password: Seq<u8>,
    /// Optional user options.
    pub options: Option<UserAddOptions>,
    /// Role names held.
    pub roles: Seq<Seq<u8>>,
}

impl View for User {
    type V = UserV;

    open spec fn view(&self) -> UserV {
        UserV {
            name: self.name@,
            password: self.password@,
            options: self.options,
            roles: self.roles@.map_values(|r: Vec<u8>| r@),
        }
    }
}

/// A stored role record.
#[derive(Debug)]
pub struct Role {
    /// Role name bytes.
    pub name: Vec<u8>,
    /// Granted permissions, strictly ascending by `(key, range_end)`.
    pub key_permission: Vec<Permission>,
}

/// Mathematical model of a [`Role`].
pub ghost struct RoleV {
    /// Role name bytes.
    pub name: Seq<u8>,
    /// Granted permissions.
    pub key_permission: Seq<PermissionV>,
}

impl View for Role {
    type V = RoleV;

    open spec fn view(&self) -> RoleV {
        RoleV {
            name: self.name@,
            key_permission: self.key_permission@.map_values(|p: Permission| p@),
        }
    }
}

impl UserV {
    /// Whether the user authenticates with a password.
    pub open spec fn need_password(self) -> bool {
        match self.options {
            Some(o) => !o.no_password,
            None => true,
        }
    }

    /// The role list is strictly ascending in byte order.
    pub open spec fn roles_sorted(self) -> bool {
        forall|i: int, j: int|
            0 <= i < j < self.roles.len() ==> lex_lt(self.roles[i], self.roles[j])
    }
}

/// Strict order on permissions: by `key`, then by `range_end`.
pub open spec fn perm_lt(a: PermissionV, b: PermissionV) -> bool {
    lex_lt(a.key, b.key) || (a.key == b.key && lex_lt(a.range_end, b.range_end))
}

impl RoleV {
    /// The permission list is strictly ascending by `(key, range_end)`.
    pub open spec fn perms_sorted(self) -> bool {
        forall|i: int, j: int|
            0 <= i < j < self.key_permission.len() ==> perm_lt(
                self.key_permission[i],
                self.key_permission[j],
            )
    }
}

/// Deep copy of a permission.
pub fn clone_permission(p: &Permission) -> (r: Permission)
    ensures
        r@ == p@,
{
    Permission {
        perm_type: p.perm_type,
        key: clone_bytes(&p.key),
        range_end: clone_bytes(&p.range_end),
    }
}

/// Deep copy of a byte string.
pub fn clone_bytes(b: &Vec<u8>) -> (r: Vec<u8>)
    ensures
        r@ == b@,
{
    let mut r: Vec<u8> = Vec::new();
    let mut i: usize = 0;
    while i < b.len()
        invariant
            0 <= i <= b@.len(),
            r@ == b@.subrange(0, i as int),
        decreases b@.len() - i,
    {
        let c = b[i];
        r.push(c);
        proof {
            assert(r@ =~= b@.subrange(0, i + 1));
        }
        i = i + 1;
    }
    proof {
        assert(r@ =~= b@);
    }
    r
}

/// Deep copy of a list of byte strings.
pub fn clone_byte_list(l: &Vec<Vec<u8>>) -> (r: Vec<Vec<u8>>)
    ensures
        r@.map_values(|b: Vec<u8>| b@) == l@.map_values(|b: Vec<u8>| b@),
{
    let mut r: Vec<Vec<u8>> = Vec::new();
    let mut i: usize = 0;
    while i < l.len()
        invariant
            0 <= i <= l@.len(),
            r@.len() == i,
            forall|k: int| 0 <= k < i ==> r@[k]@ == l@[k]@,
        decreases l@.len() - i,
    {
        let c = clone_bytes(&l[i]);
        r.push(c);
        i = i + 1;
    }
    proof {
        assert(r@.map_values(|b: Vec<u8>| b@) =~= l@.map_values(|b: Vec<u8>| b@));
    }
    r
}

/// Deep copy of a user record.
pub fn clone_user(u: &User) -> (r: User)
    ensures
        r@ == u@,
{
    User {
        name: clone_bytes(&u.name),
        password: clone_bytes(&u.password),
        options: u.options,
        roles: clone_byte_list(&u.roles),
    }
}

/// Deep copy of a permission list.
pub fn clone_permissions(l: &Vec<Permission>) -> (r: Vec<Permission>)
    ensures
        r@.map_values(|p: Permission| p@) == l@.map_values(|p: Permission| p@),
{
    let mut r: Vec<Permission> = Vec::new();
    let mut i: usize = 0;
    while i < l.len()
        invariant
            0 <= i <= l@.len(),
            r@.len() == i,
            forall|k: int| 0 <= k < i ==> r@[k]@ == l@[k]@,
        decreases l@.len() - i,
    {
        let c = clone_permission(&l[i]);
        r.push(c);
        i = i + 1;
    }
    proof {
        assert(r@.map_values(|p: Permission| p@) =~= l@.map_values(|p: Permission| p@));
    }
    r
}

/// Deep copy of a role record.
pub fn clone_role(r: &Role) -> (out: Role)
    ensures
        out@ == r@,
{
    Role { name: clone_bytes(&r.name), key_permission: clone_permissions(&r.key_permission) }
}

/// A typed auth request, the tagged union the consensus layer proposes.
#[derive(Debug)]
pub enum RequestWrapper {
    /// Turn auth on.
    AuthEnableRequest,
    /// Turn auth off.
    AuthDisableRequest,
    /// Read the enabled flag and revision.
    AuthStatusRequest,
    /// Issue a token for a user whose password was already checked.
    AuthenticateRequest {
        /// User name.
        name: Vec<u8>,
    },
    /// Create a user.
    AuthUserAddRequest {
        /// User name.
        name: Vec<u8>,
        /// Password hash in PHC form.
        hashed_password: Vec<u8>,
        /// Optional user options.
        options: Option<UserAddOptions>,
    },
    /// Read a user's roles.
    AuthUserGetRequest {
        /// User name.
        name: Vec<u8>,
    },
    /// List all user names.
    AuthUserListRequest,
    /// Delete a user.
    AuthUserDeleteRequest {
        /// User name.
        name: Vec<u8>,
    },
    /// Replace a user's password hash.
    AuthUserChangePasswordRequest {
        /// User name.
        name: Vec<u8>,
        /// New password hash in PHC form.
        hashed_password: Vec<u8>,
    },
    /// Grant a role to a user.
    AuthUserGrantRoleRequest {
        /// User name.
        user: Vec<u8>,
        /// Role name.
        role: Vec<u8>,
    },
    /// Revoke a role from a user.
    AuthUserRevokeRoleRequest {
        /// User name.
        name: Vec<u8>,
        /// Role name.
        role: Vec<u8>,
    },
    /// Create a role.
    AuthRoleAddRequest {
        /// Role name.
        name: Vec<u8>,
    },
    /// Read a role's permissions.
    AuthRoleGetRequest {
        /// Role name.
        role: Vec<u8>,
    },
    /// List all role names.
    AuthRoleListRequest,
    /// Delete a role, revoking it from every user.
    AuthRoleDeleteRequest {
        /// Role name.
        role: Vec<u8>,
    },
    /// Grant a permission to a role.
    AuthRoleGrantPermissionRequest {
        /// Role name.
        name: Vec<u8>,
        /// The permission; must be present.
        perm: Option<Permission>,
    },
    /// Revoke an exact permission from a role.
    AuthRoleRevokePermissionRequest {
        /// Role name.
        role: Vec<u8>,
        /// Range start of the permission to revoke.
        key: Vec<u8>,
        /// Range end of the permission to revoke.
        range_end: Vec<u8>,
    },
}

/// A typed auth response.
#[derive(Debug)]
pub enum ResponseWrapper {
    /// Auth turned on.
    AuthEnableResponse,
    /// Auth turned off.
    AuthDisableResponse,
    /// The enabled flag and the auth revision.
    AuthStatusResponse {
        /// Current auth revision.
        auth_revision: i64,
        /// Whether auth is enabled.
        enabled: bool,
    },
    /// A bearer token.
    AuthenticateResponse {
        /// The signed token.
        token: String,
    },
    /// User created.
    AuthUserAddResponse,
    /// A user's roles, in ascending byte order.
    AuthUserGetResponse {
        /// Role names held.
        roles: Vec<Vec<u8>>,
    },
    /// All user names, in key order.
    AuthUserListResponse {
        /// User names.
        users: Vec<Vec<u8>>,
    },
    /// User deleted.
    AuthUserDeleteResponse,
    /// Password changed.
    AuthUserChangePasswordResponse,
    /// Role granted.
    AuthUserGrantRoleResponse,
    /// Role revoked.
    AuthUserRevokeRoleResponse,
    /// Role created.
    AuthRoleAddResponse,
    /// A role's permissions.
    AuthRoleGetResponse {
        /// Granted permissions.
        perm: Vec<Permission>,
    },
    /// All role names, in key order.
    AuthRoleListResponse {
        /// Role names.
        roles: Vec<Vec<u8>>,
    },
    /// Role deleted.
    AuthRoleDeleteResponse,
    /// Permission granted.
    AuthRoleGrantPermissionResponse,
    /// Permission revoked.
    AuthRoleRevokePermissionResponse,
}

/// Validation failures surfaced to clients. Each variant carries the
/// message the client sees through [`ExecuteError::message`].
#[derive(Clone, Copy, PartialEq, Eq, Structural, Debug)]
pub enum ExecuteError {
    /// Auth is not enabled.
    AuthNotEnabled,
    /// The named user does not exist.
    UserNotFound,
    /// A user of that name already exists.
    UserAlreadyExists,
    /// The named role does not exist.
    RoleNotFound,
    /// A role of that name already exists.
    RoleAlreadyExists,
    /// A password was given for a user that has none.
    NoPasswordUser,
    /// The password did not match the stored hash.
    PasswordWrong,
    /// The stored password hash cannot be parsed.
    InvalidPasswordHash,
    /// A password is required but was not provided.
    PasswordRequired,
    /// The root user cannot be deleted while auth is enabled.
    RootUserUndeletable,
    /// The root role cannot be revoked from the root user while enabled.
    RootRoleUnrevocable,
    /// The root role cannot be deleted while auth is enabled.
    RootRoleUndeletable,
    /// The root user does not hold the root role.
    RootUserHasNoRootRole,
    /// The user already holds the role.
    UserAlreadyHasRole,
    /// The user does not hold the role.
    UserDoesNotHaveRole,
    /// No permission was given in the grant request.
    PermissionNotGiven,
    /// The exact permission is not granted to the role.
    PermissionNotGranted,
    /// No cached permissions exist for the user.
    UserPermissionsNotFound,
    /// No token manager was configured.
    TokenManagerNotInitialized,
    /// The token could not be signed.
    AssignTokenError,
    /// The token failed verification.
    InvalidToken,
}

impl ExecuteError {
    /// The message a client sees for this failure.
    pub fn message(&self) -> (r: &'static str) {
        match self {
            ExecuteError::AuthNotEnabled => "auth is not enabled",
            ExecuteError::UserNotFound => "user not found",
            ExecuteError::UserAlreadyExists => "user already exists",
            ExecuteError::RoleNotFound => "role not found",
            ExecuteError::RoleAlreadyExists => "role already exists",
            ExecuteError::NoPasswordUser => "password was given for no password user",
            ExecuteError::PasswordWrong => "verify password error",
            ExecuteError::InvalidPasswordHash => "failed to parse password hash",
            ExecuteError::PasswordRequired => "password is required but not provided",
            ExecuteError::RootUserUndeletable => "root user cannot be deleted",
            ExecuteError::RootRoleUnrevocable => "root user cannot revoke root role",
            ExecuteError::RootRoleUndeletable => "root role cannot be deleted",
            ExecuteError::RootUserHasNoRootRole => "root user does not have root role",
            ExecuteError::UserAlreadyHasRole => "user already has role",
            ExecuteError::UserDoesNotHaveRole => "role is not granted to the user",
            ExecuteError::PermissionNotGiven => "permission is not specified",
            ExecuteError::PermissionNotGranted => "permission not granted to the role",
            ExecuteError::UserPermissionsNotFound => "user permissions not found",
            ExecuteError::TokenManagerNotInitialized => "token manager is not initialized",
            ExecuteError::AssignTokenError => "assign token error",
            ExecuteError::InvalidToken => "verify token error",
        }
    }
}

/// The speculative-pool entry: a proposed request and whether its execute
/// phase failed.
pub struct RequestCtx {
    /// The proposed request.
    pub req: RequestWrapper,
    /// Whether execute returned an error.
    pub err: bool,
}

} // verus!
