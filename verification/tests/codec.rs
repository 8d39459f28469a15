//! Tests of the wire encoding of user and role records.

use auth_store::bytes::{bytes_cmp, bytes_concat, get_prefix, Cmp};
use auth_store::codec::{decode_role, decode_user, encode_role, encode_user};
use auth_store::rpc::{Permission, Role, Type, User, UserAddOptions};

#[test]
fn user_exact_bytes() {
    let u = User {
        name: b"a".to_vec(),
        password: b"b".to_vec(),
        options: None,
        roles: vec![b"r".to_vec()],
    };
    let enc = encode_user(&u);
    assert_eq!(enc, vec![0x0a, 1, b'a', 0x12, 1, b'b', 0x1a, 1, b'r']);
}

#[test]
fn user_round_trip() {
    let u = User {
        name: b"alice".to_vec(),
        password: b"$pbkdf2-sha256$i=1$c2FsdA$hash".to_vec(),
        options: Some(UserAddOptions { no_password: true }),
        roles: vec![b"dev".to_vec(), b"ops".to_vec()],
    };
    let enc = encode_user(&u);
    let d = decode_user(&enc).unwrap();
    assert_eq!(d.name, u.name);
    assert_eq!(d.password, u.password);
    assert_eq!(d.options, u.options);
    assert_eq!(d.roles, u.roles);
}

#[test]
fn empty_user_round_trip() {
    let u = User { name: Vec::new(), password: Vec::new(), options: None, roles: Vec::new() };
    let enc = encode_user(&u);
    assert!(enc.is_empty());
    let d = decode_user(&enc).unwrap();
    assert!(d.name.is_empty() && d.password.is_empty() && d.roles.is_empty());
    assert!(d.options.is_none());
    let u2 = User {
        name: Vec::new(),
        password: Vec::new(),
        options: Some(UserAddOptions { no_password: false }),
        roles: Vec::new(),
    };
    let d2 = decode_user(&encode_user(&u2)).unwrap();
    assert_eq!(d2.options, Some(UserAddOptions { no_password: false }));
}

#[test]
fn role_round_trip() {
    let r = Role {
        name: b"dev".to_vec(),
        key_permission: vec![
            Permission { perm_type: Type::Read, key: b"a".to_vec(), range_end: b"b".to_vec() },
            Permission { perm_type: Type::Readwrite, key: b"c".to_vec(), range_end: Vec::new() },
            Permission { perm_type: Type::Write, key: Vec::new(), range_end: vec![0u8] },
        ],
    };
    let enc = encode_role(&r);
    let d = decode_role(&enc).unwrap();
    assert_eq!(d.name, r.name);
    assert_eq!(d.key_permission.len(), 3);
    assert_eq!(d.key_permission[0].perm_type, Type::Read);
    assert_eq!(d.key_permission[0].key, b"a".to_vec());
    assert_eq!(d.key_permission[1].perm_type, Type::Readwrite);
    assert_eq!(d.key_permission[1].range_end, Vec::<u8>::new());
    assert_eq!(d.key_permission[2].perm_type, Type::Write);
    assert_eq!(d.key_permission[2].range_end, vec![0u8]);
}

#[test]
fn long_value_round_trip() {
    let u = User {
        name: vec![7u8; 300],
        password: vec![9u8; 200],
        options: None,
        roles: Vec::new(),
    };
    let enc = encode_user(&u);
    let d = decode_user(&enc).unwrap();
    assert_eq!(d.name, u.name);
    assert_eq!(d.password, u.password);
}

#[test]
fn decode_rejects_garbage() {
    assert!(decode_user(&vec![0x0a, 5, 1]).is_none());
    assert!(decode_role(&vec![0xff, 0xff]).is_none());
}

#[test]
fn prefix_successor() {
    assert_eq!(get_prefix(&b"user/".to_vec()), b"user0".to_vec());
    assert_eq!(get_prefix(&b"role/".to_vec()), b"role0".to_vec());
    assert_eq!(get_prefix(&vec![0xff, 0xff]), vec![0u8]);
    assert_eq!(get_prefix(&vec![0x61, 0xff]), vec![0x62]);
}

#[test]
fn byte_order() {
    assert!(matches!(bytes_cmp(&b"a".to_vec(), &b"b".to_vec()), Cmp::Lt));
    assert!(matches!(bytes_cmp(&b"a".to_vec(), &b"a".to_vec()), Cmp::Eq));
    assert!(matches!(bytes_cmp(&b"ab".to_vec(), &b"a".to_vec()), Cmp::Gt));
    assert!(matches!(bytes_cmp(&b"".to_vec(), &b"a".to_vec()), Cmp::Lt));
    assert_eq!(bytes_concat(&b"user/".to_vec(), &b"bob".to_vec()), b"user/bob".to_vec());
}
