//! End-to-end tests of the auth state machine through execute and sync.

use auth_store::backend::AuthStoreBackend;
use auth_store::rpc::{
    ExecuteError, Permission, RequestWrapper, ResponseWrapper, Type, UserAddOptions,
};

use pbkdf2::password_hash::{PasswordHasher, SaltString};

fn hash(pw: &str) -> Vec<u8> {
    let salt = SaltString::from_b64("c2FsdHNhbHQ").unwrap();
    let params = pbkdf2::Params { rounds: 8, output_length: 32 };
    pbkdf2::Pbkdf2
        .hash_password_customized(pw.as_bytes(), None, None, params, &salt)
        .unwrap()
        .to_string()
        .into_bytes()
}

fn store() -> AuthStoreBackend {
    AuthStoreBackend::new(Some(b"test-secret".to_vec()))
}

fn run(
    s: &mut AuthStoreBackend,
    id: u64,
    req: RequestWrapper,
) -> (Result<ResponseWrapper, ExecuteError>, Result<i64, ExecuteError>) {
    let exec = s.handle_auth_req(id, req);
    let sync = s.sync_request(id);
    (exec, sync)
}

fn add_user(s: &mut AuthStoreBackend, id: u64, name: &str, pw: &str) {
    let (exec, sync) = run(
        s,
        id,
        RequestWrapper::AuthUserAddRequest {
            name: name.as_bytes().to_vec(),
            hashed_password: hash(pw),
            options: None,
        },
    );
    assert!(exec.is_ok());
    assert!(sync.is_ok());
}

fn add_role(s: &mut AuthStoreBackend, id: u64, name: &str) {
    let (exec, sync) = run(
        s,
        id,
        RequestWrapper::AuthRoleAddRequest { name: name.as_bytes().to_vec() },
    );
    assert!(exec.is_ok());
    assert!(sync.is_ok());
}

fn grant_role(s: &mut AuthStoreBackend, id: u64, user: &str, role: &str) {
    let (exec, sync) = run(
        s,
        id,
        RequestWrapper::AuthUserGrantRoleRequest {
            user: user.as_bytes().to_vec(),
            role: role.as_bytes().to_vec(),
        },
    );
    assert!(exec.is_ok());
    assert!(sync.is_ok());
}

fn grant_perm(s: &mut AuthStoreBackend, id: u64, role: &str, t: Type, key: &str, end: &str) {
    let (exec, sync) = run(
        s,
        id,
        RequestWrapper::AuthRoleGrantPermissionRequest {
            name: role.as_bytes().to_vec(),
            perm: Some(Permission {
                perm_type: t,
                key: key.as_bytes().to_vec(),
                range_end: end.as_bytes().to_vec(),
            }),
        },
    );
    assert!(exec.is_ok());
    assert!(sync.is_ok());
}

#[test]
fn enable_lifecycle() {
    let mut s = store();
    add_user(&mut s, 1, "root", "pw");
    add_role(&mut s, 2, "root");
    grant_role(&mut s, 3, "root", "root");
    let (exec, sync) = run(&mut s, 4, RequestWrapper::AuthEnableRequest);
    assert!(exec.is_ok());
    assert!(sync.is_ok());
    let (status, _) = run(&mut s, 5, RequestWrapper::AuthStatusRequest);
    match status.unwrap() {
        ResponseWrapper::AuthStatusResponse { auth_revision, enabled } => {
            assert!(enabled);
            assert_eq!(auth_revision, 4);
        }
        _ => panic!("wrong response"),
    }
    assert_eq!(s.check_password(&b"root".to_vec(), &b"pw".to_vec()).unwrap(), 4);
    let (auth, _) = run(
        &mut s,
        6,
        RequestWrapper::AuthenticateRequest { name: b"root".to_vec() },
    );
    let token = match auth.unwrap() {
        ResponseWrapper::AuthenticateResponse { token } => token,
        _ => panic!("wrong response"),
    };
    let claims = s.verify_token(&token).unwrap();
    assert_eq!(claims.username, b"root".to_vec());
    assert_eq!(claims.revision, 4);
}

#[test]
fn enable_is_idempotent() {
    let mut s = store();
    add_user(&mut s, 1, "root", "pw");
    add_role(&mut s, 2, "root");
    grant_role(&mut s, 3, "root", "root");
    let (_, first) = run(&mut s, 4, RequestWrapper::AuthEnableRequest);
    let (exec, second) = run(&mut s, 5, RequestWrapper::AuthEnableRequest);
    assert!(exec.is_ok());
    assert_eq!(first.unwrap(), second.unwrap());
    assert!(s.is_enabled());
}

#[test]
fn disable_is_idempotent() {
    let mut s = store();
    let (_, first) = run(&mut s, 1, RequestWrapper::AuthDisableRequest);
    let (_, second) = run(&mut s, 2, RequestWrapper::AuthDisableRequest);
    assert_eq!(first.unwrap(), second.unwrap());
    assert!(!s.is_enabled());
}

#[test]
fn role_cascade_delete() {
    let mut s = store();
    add_user(&mut s, 1, "alice", "a");
    add_user(&mut s, 2, "bob", "b");
    add_role(&mut s, 3, "dev");
    grant_role(&mut s, 4, "alice", "dev");
    grant_role(&mut s, 5, "bob", "dev");
    let rev_before = s.revision();
    let (exec, sync) = run(
        &mut s,
        6,
        RequestWrapper::AuthRoleDeleteRequest { role: b"dev".to_vec() },
    );
    assert!(exec.is_ok());
    assert!(sync.is_ok());
    let main = s.revision();
    assert_eq!(main, rev_before + 1);
    let alice_rev = s.user_mod_revision(&b"alice".to_vec()).unwrap();
    let bob_rev = s.user_mod_revision(&b"bob".to_vec()).unwrap();
    assert_eq!((alice_rev.main, alice_rev.sub), (main, 1));
    assert_eq!((bob_rev.main, bob_rev.sub), (main, 2));
    let alice = s.get_user(&b"alice".to_vec()).unwrap();
    assert!(alice.roles.is_empty());
    let perms = s.get_user_permissions_from_cache(&b"alice".to_vec()).unwrap();
    assert!(perms.read.is_empty() && perms.write.is_empty());
    assert!(s.cached_role_users(&b"dev".to_vec()).is_empty());
    let (g, _) = run(
        &mut s,
        7,
        RequestWrapper::AuthRoleGetRequest { role: b"dev".to_vec() },
    );
    assert_eq!(g.unwrap_err(), ExecuteError::RoleNotFound);
}

#[test]
fn permission_fan_out() {
    let mut s = store();
    add_user(&mut s, 1, "alice", "a");
    add_role(&mut s, 2, "dev");
    grant_role(&mut s, 3, "alice", "dev");
    grant_perm(&mut s, 4, "dev", Type::Readwrite, "a", "z");
    let perms = s.get_user_permissions_from_cache(&b"alice".to_vec()).unwrap();
    assert_eq!(perms.read.len(), 1);
    assert_eq!(perms.write.len(), 1);
    assert_eq!(perms.read[0].start, b"a".to_vec());
    assert_eq!(perms.read[0].end, b"z".to_vec());
    assert_eq!(perms.write[0].start, b"a".to_vec());
    assert_eq!(perms.write[0].end, b"z".to_vec());
}

#[test]
fn duplicate_grant_rejected() {
    let mut s = store();
    add_user(&mut s, 1, "alice", "a");
    add_role(&mut s, 2, "dev");
    grant_role(&mut s, 3, "alice", "dev");
    let rev = s.revision();
    let (exec, sync) = run(
        &mut s,
        4,
        RequestWrapper::AuthUserGrantRoleRequest {
            user: b"alice".to_vec(),
            role: b"dev".to_vec(),
        },
    );
    assert!(exec.is_ok());
    assert_eq!(sync.unwrap_err(), ExecuteError::UserAlreadyHasRole);
    assert_eq!(s.revision(), rev);
}

#[test]
fn revoke_then_recompute() {
    let mut s = store();
    add_user(&mut s, 1, "alice", "a");
    add_role(&mut s, 2, "dev");
    add_role(&mut s, 3, "ops");
    grant_role(&mut s, 4, "alice", "dev");
    grant_role(&mut s, 5, "alice", "ops");
    grant_perm(&mut s, 6, "dev", Type::Read, "d", "e");
    grant_perm(&mut s, 7, "ops", Type::Write, "o", "p");
    let (exec, sync) = run(
        &mut s,
        8,
        RequestWrapper::AuthUserRevokeRoleRequest {
            name: b"alice".to_vec(),
            role: b"dev".to_vec(),
        },
    );
    assert!(exec.is_ok());
    assert!(sync.is_ok());
    let perms = s.get_user_permissions_from_cache(&b"alice".to_vec()).unwrap();
    assert!(perms.read.is_empty());
    assert_eq!(perms.write.len(), 1);
    assert_eq!(perms.write[0].start, b"o".to_vec());
    assert_eq!(perms.write[0].end, b"p".to_vec());
}

#[test]
fn disabled_authenticate_rejected() {
    let mut s = store();
    let (exec, sync) = run(
        &mut s,
        1,
        RequestWrapper::AuthenticateRequest { name: b"root".to_vec() },
    );
    let e = exec.unwrap_err();
    assert_eq!(e, ExecuteError::AuthNotEnabled);
    assert_eq!(e.message(), "auth is not enabled");
    assert!(sync.is_ok());
}

#[test]
fn root_user_protected_while_enabled() {
    let mut s = store();
    add_user(&mut s, 1, "root", "pw");
    add_role(&mut s, 2, "root");
    grant_role(&mut s, 3, "root", "root");
    let (_, _) = run(&mut s, 4, RequestWrapper::AuthEnableRequest);
    let (exec, _) = run(
        &mut s,
        5,
        RequestWrapper::AuthUserDeleteRequest { name: b"root".to_vec() },
    );
    assert_eq!(exec.unwrap_err(), ExecuteError::RootUserUndeletable);
    let (exec2, _) = run(
        &mut s,
        6,
        RequestWrapper::AuthUserRevokeRoleRequest {
            name: b"root".to_vec(),
            role: b"root".to_vec(),
        },
    );
    assert_eq!(exec2.unwrap_err(), ExecuteError::RootRoleUnrevocable);
    let (exec3, _) = run(
        &mut s,
        7,
        RequestWrapper::AuthRoleDeleteRequest { role: b"root".to_vec() },
    );
    assert_eq!(exec3.unwrap_err(), ExecuteError::RootRoleUndeletable);
}

#[test]
fn root_role_get_is_synthesized() {
    let mut s = store();
    add_role(&mut s, 1, "root");
    grant_perm(&mut s, 2, "root", Type::Read, "a", "b");
    let (g, _) = run(
        &mut s,
        3,
        RequestWrapper::AuthRoleGetRequest { role: b"root".to_vec() },
    );
    match g.unwrap() {
        ResponseWrapper::AuthRoleGetResponse { perm } => {
            assert_eq!(perm.len(), 1);
            assert_eq!(perm[0].perm_type, Type::Readwrite);
            assert!(perm[0].key.is_empty());
            assert_eq!(perm[0].range_end, vec![0u8]);
        }
        _ => panic!("wrong response"),
    }
}

#[test]
fn grant_overwrites_same_range() {
    let mut s = store();
    add_role(&mut s, 1, "dev");
    grant_perm(&mut s, 2, "dev", Type::Read, "a", "z");
    grant_perm(&mut s, 3, "dev", Type::Write, "a", "z");
    let (g, _) = run(
        &mut s,
        4,
        RequestWrapper::AuthRoleGetRequest { role: b"dev".to_vec() },
    );
    match g.unwrap() {
        ResponseWrapper::AuthRoleGetResponse { perm } => {
            assert_eq!(perm.len(), 1);
            assert_eq!(perm[0].perm_type, Type::Write);
            assert_eq!(perm[0].key, b"a".to_vec());
            assert_eq!(perm[0].range_end, b"z".to_vec());
        }
        _ => panic!("wrong response"),
    }
}

#[test]
fn check_password_no_password_user() {
    let mut s = store();
    add_user(&mut s, 1, "root", "pw");
    add_role(&mut s, 2, "root");
    grant_role(&mut s, 3, "root", "root");
    let (_, _) = run(&mut s, 4, RequestWrapper::AuthEnableRequest);
    let (exec, sync) = run(
        &mut s,
        5,
        RequestWrapper::AuthUserAddRequest {
            name: b"nopw".to_vec(),
            hashed_password: Vec::new(),
            options: Some(UserAddOptions { no_password: true }),
        },
    );
    assert!(exec.is_ok());
    assert!(sync.is_ok());
    assert_eq!(
        s.check_password(&b"nopw".to_vec(), &b"x".to_vec()).unwrap_err(),
        ExecuteError::NoPasswordUser,
    );
}

#[test]
fn check_password_wrong_password() {
    let mut s = store();
    add_user(&mut s, 1, "root", "pw");
    add_role(&mut s, 2, "root");
    grant_role(&mut s, 3, "root", "root");
    let (_, _) = run(&mut s, 4, RequestWrapper::AuthEnableRequest);
    assert_eq!(
        s.check_password(&b"root".to_vec(), &b"wrong".to_vec()).unwrap_err(),
        ExecuteError::PasswordWrong,
    );
    assert_eq!(
        s.check_password(&b"ghost".to_vec(), &b"pw".to_vec()).unwrap_err(),
        ExecuteError::UserNotFound,
    );
}

#[test]
fn check_password_bad_stored_hash() {
    let mut s = store();
    let (exec, sync) = run(
        &mut s,
        1,
        RequestWrapper::AuthUserAddRequest {
            name: b"root".to_vec(),
            hashed_password: b"not-a-phc-hash".to_vec(),
            options: None,
        },
    );
    assert!(exec.is_ok() && sync.is_ok());
    add_role(&mut s, 2, "root");
    grant_role(&mut s, 3, "root", "root");
    let (_, _) = run(&mut s, 4, RequestWrapper::AuthEnableRequest);
    assert_eq!(
        s.check_password(&b"root".to_vec(), &b"pw".to_vec()).unwrap_err(),
        ExecuteError::InvalidPasswordHash,
    );
}

#[test]
fn validation_errors() {
    let mut s = store();
    let (e1, _) = run(
        &mut s,
        1,
        RequestWrapper::AuthUserGetRequest { name: b"none".to_vec() },
    );
    assert_eq!(e1.unwrap_err(), ExecuteError::UserNotFound);
    add_user(&mut s, 2, "alice", "a");
    let (e2, _) = run(
        &mut s,
        3,
        RequestWrapper::AuthUserAddRequest {
            name: b"alice".to_vec(),
            hashed_password: hash("a"),
            options: None,
        },
    );
    assert_eq!(e2.unwrap_err(), ExecuteError::UserAlreadyExists);
    let (e3, _) = run(
        &mut s,
        4,
        RequestWrapper::AuthRoleGetRequest { role: b"none".to_vec() },
    );
    assert_eq!(e3.unwrap_err(), ExecuteError::RoleNotFound);
    add_role(&mut s, 5, "dev");
    let (e4, _) = run(
        &mut s,
        6,
        RequestWrapper::AuthRoleAddRequest { name: b"dev".to_vec() },
    );
    assert_eq!(e4.unwrap_err(), ExecuteError::RoleAlreadyExists);
    let (e5, _) = run(
        &mut s,
        7,
        RequestWrapper::AuthUserRevokeRoleRequest {
            name: b"alice".to_vec(),
            role: b"dev".to_vec(),
        },
    );
    assert_eq!(e5.unwrap_err(), ExecuteError::UserDoesNotHaveRole);
    let (e6, _) = run(
        &mut s,
        8,
        RequestWrapper::AuthRoleGrantPermissionRequest { name: b"dev".to_vec(), perm: None },
    );
    assert_eq!(e6.unwrap_err(), ExecuteError::PermissionNotGiven);
    let (e7, _) = run(
        &mut s,
        9,
        RequestWrapper::AuthRoleRevokePermissionRequest {
            role: b"dev".to_vec(),
            key: b"a".to_vec(),
            range_end: b"z".to_vec(),
        },
    );
    assert_eq!(e7.unwrap_err(), ExecuteError::PermissionNotGranted);
    let (e8, _) = run(
        &mut s,
        10,
        RequestWrapper::AuthUserChangePasswordRequest {
            name: b"alice".to_vec(),
            hashed_password: Vec::new(),
        },
    );
    assert_eq!(e8.unwrap_err(), ExecuteError::PasswordRequired);
    let (e9, _) = run(&mut s, 11, RequestWrapper::AuthEnableRequest);
    assert_eq!(e9.unwrap_err(), ExecuteError::UserNotFound);
    assert_eq!(
        s.get_user_permissions_from_cache(&b"ghost".to_vec()).unwrap_err(),
        ExecuteError::UserPermissionsNotFound,
    );
    assert_eq!(
        s.verify_token(&"garbage".to_string()).unwrap_err(),
        ExecuteError::InvalidToken,
    );
}

#[test]
fn enable_requires_root_role() {
    let mut s = store();
    add_user(&mut s, 1, "root", "pw");
    let (exec, _) = run(&mut s, 2, RequestWrapper::AuthEnableRequest);
    assert_eq!(exec.unwrap_err(), ExecuteError::RootUserHasNoRootRole);
}

#[test]
fn no_token_manager() {
    let s = AuthStoreBackend::new(None);
    assert_eq!(
        s.assign(&b"root".to_vec()).unwrap_err(),
        ExecuteError::TokenManagerNotInitialized,
    );
}

#[test]
fn user_list_is_sorted() {
    let mut s = store();
    add_user(&mut s, 1, "bob", "b");
    add_user(&mut s, 2, "alice", "a");
    let (l, _) = run(&mut s, 3, RequestWrapper::AuthUserListRequest);
    match l.unwrap() {
        ResponseWrapper::AuthUserListResponse { users } => {
            assert_eq!(users, vec![b"alice".to_vec(), b"bob".to_vec()]);
        }
        _ => panic!("wrong response"),
    }
    let (rl, _) = run(&mut s, 4, RequestWrapper::AuthRoleListRequest);
    match rl.unwrap() {
        ResponseWrapper::AuthRoleListResponse { roles } => {
            assert!(roles.is_empty());
        }
        _ => panic!("wrong response"),
    }
}

#[test]
fn change_password_takes_effect() {
    let mut s = store();
    add_user(&mut s, 1, "root", "pw");
    add_role(&mut s, 2, "root");
    grant_role(&mut s, 3, "root", "root");
    let (_, _) = run(&mut s, 4, RequestWrapper::AuthEnableRequest);
    let (exec, sync) = run(
        &mut s,
        5,
        RequestWrapper::AuthUserChangePasswordRequest {
            name: b"root".to_vec(),
            hashed_password: hash("new"),
        },
    );
    assert!(exec.is_ok() && sync.is_ok());
    assert!(s.check_password(&b"root".to_vec(), &b"new".to_vec()).is_ok());
    assert_eq!(
        s.check_password(&b"root".to_vec(), &b"pw".to_vec()).unwrap_err(),
        ExecuteError::PasswordWrong,
    );
}
