//! The auth state machine: speculative execute, revision-stamped sync,
//! and the permission cache maintained through every mutation.

use vstd::prelude::*;
use vstd::multiset::Multiset;

use crate::bytes::{bytes_concat, bytes_eq, lex_lt, lemma_lex_transitive, lemma_lex_trichotomy};
use crate::codec::{enc_role, enc_user, encode_role, encode_user};
use crate::db::{db_value_at, Db};
use crate::index::{live_rev, Index};
use crate::perms::{
    alist_lookup, cache_wf, find_role, find_user, read_ranges, user_read_seq, user_write_seq,
    write_ranges, PermissionCache, UserPermissions, UserPermissionsV,
};
use crate::revision::{Revision, RevisionNumber};
use crate::rpc::{
    clone_bytes, clone_role, clone_user, perm_lt, ExecuteError, Permission, PermissionV,
    RequestCtx, RequestWrapper, ResponseWrapper, Role, RoleV, Type, User, UserV,
};
use crate::token::{jwt_token, pbkdf2_matches, phc_parses, JwtTokenManager, TokenClaims};

verus! {

/// Key prefix of user records: `user/`.
pub open spec fn user_prefix() -> Seq<u8> {
    seq![117u8, 115u8, 101u8, 114u8, 47u8]
}

/// Key prefix of role records: `role/`.
pub open spec fn role_prefix() -> Seq<u8> {
    seq![114u8, 111u8, 108u8, 101u8, 47u8]
}

/// Key of the enabled flag: `auth_enable`.
pub open spec fn auth_enable_key() -> Seq<u8> {
    seq![97u8, 117u8, 116u8, 104u8, 95u8, 101u8, 110u8, 97u8, 98u8, 108u8, 101u8]
}

/// The root user and root role name: `root`.
pub open spec fn root_spec() -> Seq<u8> {
    seq![114u8, 111u8, 111u8, 116u8]
}

/// The logical key a user record is stored under.
pub open spec fn user_key(n: Seq<u8>) -> Seq<u8> {
    user_prefix() + n
}

/// The logical key a role record is stored under.
pub open spec fn role_key(n: Seq<u8>) -> Seq<u8> {
    role_prefix() + n
}

/// Build the `root` name.
pub fn root_bytes() -> (r: Vec<u8>)
    ensures
        r@ == root_spec(),
{
    let mut r: Vec<u8> = Vec::new();
    r.push(114);
    r.push(111);
    r.push(111);
    r.push(116);
    proof {
        assert(r@ =~= root_spec());
    }
    r
}

/// Build the storage key of a user record.
fn user_key_vec(name: &Vec<u8>) -> (r: Vec<u8>)
    ensures
        r@ == user_key(name@),
{
    let mut p: Vec<u8> = Vec::new();
    p.push(117);
    p.push(115);
    p.push(101);
    p.push(114);
    p.push(47);
    proof {
        assert(p@ =~= user_prefix());
    }
    bytes_concat(&p, name)
}

/// Build the storage key of a role record.
fn role_key_vec(name: &Vec<u8>) -> (r: Vec<u8>)
    ensures
        r@ == role_key(name@),
{
    let mut p: Vec<u8> = Vec::new();
    p.push(114);
    p.push(111);
    p.push(108);
    p.push(101);
    p.push(47);
    proof {
        assert(p@ =~= role_prefix());
    }
    bytes_concat(&p, name)
}

/// Build the storage key of the enabled flag.
fn auth_enable_key_vec() -> (r: Vec<u8>)
    ensures
        r@ == auth_enable_key(),
{
    let mut p: Vec<u8> = Vec::new();
    p.push(97);
    p.push(117);
    p.push(116);
    p.push(104);
    p.push(95);
    p.push(101);
    p.push(110);
    p.push(97);
    p.push(98);
    p.push(108);
    p.push(101);
    proof {
        assert(p@ =~= auth_enable_key());
    }
    p
}

/// Users sorted and inserted-or-replaced by name.
pub open spec fn upsert_user(us: Seq<UserV>, u: UserV) -> Seq<UserV>
    decreases us.len(),
{
    if us.len() == 0 {
        seq![u]
    } else if lex_lt(u.name, us[0].name) {
        seq![u] + us
    } else if us[0].name == u.name {
        seq![u] + us.skip(1)
    } else {
        seq![us[0]] + upsert_user(us.skip(1), u)
    }
}

/// Users with the record named `n` removed.
pub open spec fn remove_user_seq(us: Seq<UserV>, n: Seq<u8>) -> Seq<UserV>
    decreases us.len(),
{
    if us.len() == 0 {
        us
    } else if us[0].name == n {
        us.skip(1)
    } else {
        seq![us[0]] + remove_user_seq(us.skip(1), n)
    }
}

/// Roles sorted and inserted-or-replaced by name.
pub open spec fn upsert_role(rs: Seq<RoleV>, r: RoleV) -> Seq<RoleV>
    decreases rs.len(),
{
    if rs.len() == 0 {
        seq![r]
    } else if lex_lt(r.name, rs[0].name) {
        seq![r] + rs
    } else if rs[0].name == r.name {
        seq![r] + rs.skip(1)
    } else {
        seq![rs[0]] + upsert_role(rs.skip(1), r)
    }
}

/// Roles with the record named `n` removed.
pub open spec fn remove_role_seq(rs: Seq<RoleV>, n: Seq<u8>) -> Seq<RoleV>
    decreases rs.len(),
{
    if rs.len() == 0 {
        rs
    } else if rs[0].name == n {
        rs.skip(1)
    } else {
        seq![rs[0]] + remove_role_seq(rs.skip(1), n)
    }
}

/// User names are strictly ascending.
pub open spec fn users_sorted(us: Seq<UserV>) -> bool {
    forall|i: int, j: int| 0 <= i < j < us.len() ==> lex_lt(us[i].name, us[j].name)
}

/// Role names are strictly ascending.
pub open spec fn roles_sorted(rs: Seq<RoleV>) -> bool {
    forall|i: int, j: int| 0 <= i < j < rs.len() ==> lex_lt(rs[i].name, rs[j].name)
}

/// Splicing an upsert at its scan position realizes `upsert_user`, and the
/// result is sorted again; lookups change only at the written name.
pub proof fn lemma_upsert_user_at(us: Seq<UserV>, u: UserV, p: int)
    requires
        users_sorted(us),
        0 <= p <= us.len(),
        forall|j: int| 0 <= j < p ==> lex_lt((#[trigger] us[j]).name, u.name),
        p < us.len() ==> !lex_lt(us[p as int].name, u.name),
    ensures
        upsert_user(us, u) == (if p < us.len() && us[p].name == u.name {
            us.update(p, u)
        } else {
            us.insert(p, u)
        }),
        users_sorted(upsert_user(us, u)),
        find_user(upsert_user(us, u), u.name) == Some(u),
        forall|k: Seq<u8>| k != u.name ==> find_user(upsert_user(us, u), k) == find_user(us, k),
        find_user(us, u.name) == (if p < us.len() && us[p].name == u.name {
            Some(us[p])
        } else {
            None::<UserV>
        }),
    decreases us.len(),
{
    let s2 = upsert_user(us, u);
    if p == 0 {
        if us.len() == 0 {
            assert(s2 =~= us.insert(0, u));
            assert forall|k: Seq<u8>| k != u.name implies find_user(s2, k) == find_user(us, k) by {
                assert(s2.skip(1) =~= us);
            }
        } else if us[0].name == u.name {
            assert(s2 =~= us.update(0, u));
            assert(s2.skip(1) =~= us.skip(1));
            assert forall|k: Seq<u8>| k != u.name implies find_user(s2, k) == find_user(us, k) by {
                assert(find_user(s2, k) == find_user(s2.skip(1), k));
                assert(find_user(us, k) == find_user(us.skip(1), k));
            }
            assert(users_sorted(s2)) by {
                assert forall|i: int, j: int| 0 <= i < j < s2.len() implies lex_lt(
                    s2[i].name,
                    s2[j].name,
                ) by {
                    assert(s2[j] == us[j]);
                    if i > 0 {
                        assert(s2[i] == us[i]);
                    } else {
                        assert(s2[0].name == us[0].name);
                    }
                }
            }
        } else {
            lemma_lex_trichotomy(u.name, us[0].name);
            assert(lex_lt(u.name, us[0].name));
            assert(s2 =~= us.insert(0, u));
            assert(s2 =~= seq![u] + us);
            assert(s2.skip(1) =~= us);
            assert forall|k: Seq<u8>| k != u.name implies find_user(s2, k) == find_user(us, k) by {
                assert(find_user(s2, k) == find_user(s2.skip(1), k));
            }
            assert(users_sorted(s2)) by {
                assert forall|i: int, j: int| 0 <= i < j < s2.len() implies lex_lt(
                    s2[i].name,
                    s2[j].name,
                ) by {
                    assert(s2[j] == us[j - 1]);
                    if i == 0 {
                        if j > 1 {
                            assert(lex_lt(us[0].name, us[j - 1].name));
                            lemma_lex_transitive(u.name, us[0].name, us[j - 1].name);
                        }
                    } else {
                        assert(s2[i] == us[i - 1]);
                    }
                }
            }
            assert(find_user(us, u.name) is None) by {
                lemma_find_user_absent(us, u.name);
            }
        }
    } else {
        lemma_lex_trichotomy(u.name, us[0].name);
        assert(lex_lt(us[0].name, u.name));
        assert(users_sorted(us.skip(1))) by {
            assert forall|i: int, j: int|
                0 <= i < j < us.skip(1).len() implies lex_lt(
                us.skip(1)[i].name,
                us.skip(1)[j].name,
            ) by {
                assert(us.skip(1)[i] == us[i + 1]);
                assert(us.skip(1)[j] == us[j + 1]);
            }
        }
        assert forall|j: int| 0 <= j < p - 1 implies lex_lt(
            (#[trigger] us.skip(1)[j]).name,
            u.name,
        ) by {
            assert(us.skip(1)[j] == us[j + 1]);
        }
        if p - 1 < us.skip(1).len() {
            assert(us.skip(1)[p - 1] == us[p]);
        }
        lemma_upsert_user_at(us.skip(1), u, p - 1);
        let t = upsert_user(us.skip(1), u);
        assert(s2 =~= seq![us[0]] + t);
        assert(s2.skip(1) =~= t);
        assert(s2[0] == us[0]);
        assert(find_user(us, u.name) == find_user(us.skip(1), u.name));
        if p < us.len() && us[p].name == u.name {
            assert(us.skip(1)[p - 1] == us[p]);
            assert(seq![us[0]] + us.skip(1).update(p - 1, u) =~= us.update(p, u));
        } else {
            assert(seq![us[0]] + us.skip(1).insert(p - 1, u) =~= us.insert(p, u));
        }
        assert(users_sorted(s2)) by {
            assert forall|i: int, j: int| 0 <= i < j < s2.len() implies lex_lt(
                s2[i].name,
                s2[j].name,
            ) by {
                assert(s2[j] == t[j - 1]);
                if i == 0 {
                    lemma_upsert_user_names(us.skip(1), u, j - 1);
                    if t[j - 1].name == u.name {
                    } else {
                        let m = choose|m: int|
                            0 <= m < us.skip(1).len() && us.skip(1)[m].name == t[j - 1].name;
                        assert(us.skip(1)[m] == us[m + 1]);
                        assert(lex_lt(us[0].name, us[m + 1].name));
                    }
                } else {
                    assert(s2[i] == t[i - 1]);
                    assert(lex_lt(t[i - 1].name, t[j - 1].name));
                }
            }
        }
        assert forall|k: Seq<u8>| k != u.name implies find_user(s2, k) == find_user(us, k) by {
            if us[0].name != k {
                assert(find_user(s2, k) == find_user(t, k));
                assert(find_user(us, k) == find_user(us.skip(1), k));
            }
        }
    }
}

/// Every name in an upserted user list is the written name or an old one.
pub proof fn lemma_upsert_user_names(us: Seq<UserV>, u: UserV, i: int)
    requires
        0 <= i < upsert_user(us, u).len(),
    ensures
        upsert_user(us, u)[i].name == u.name || exists|m: int|
            0 <= m < us.len() && us[m].name == upsert_user(us, u)[i].name,
    decreases us.len(),
{
    let s2 = upsert_user(us, u);
    if us.len() == 0 {
    } else if lex_lt(u.name, us[0].name) {
        if i > 0 {
            assert(s2[i] == us[i - 1]);
        }
    } else if us[0].name == u.name {
        if i > 0 {
            assert(s2[i] == us.skip(1)[i - 1]);
            assert(us.skip(1)[i - 1] == us[i]);
        }
    } else {
        if i > 0 {
            let t = upsert_user(us.skip(1), u);
            assert(s2[i] == t[i - 1]);
            lemma_upsert_user_names(us.skip(1), u, i - 1);
            if t[i - 1].name != u.name {
                let m = choose|m: int|
                    0 <= m < us.skip(1).len() && us.skip(1)[m].name == t[i - 1].name;
                assert(us.skip(1)[m] == us[m + 1]);
            }
        }
    }
}

/// In a sorted user list, a name below the first entry's is absent.
pub proof fn lemma_find_user_absent(us: Seq<UserV>, n: Seq<u8>)
    requires
        users_sorted(us),
        us.len() > 0,
        lex_lt(n, us[0].name),
    ensures
        find_user(us, n) is None,
    decreases us.len(),
{
    lemma_lex_trichotomy(n, us[0].name);
    if us.len() > 1 {
        assert(users_sorted(us.skip(1))) by {
            assert forall|i: int, j: int|
                0 <= i < j < us.skip(1).len() implies lex_lt(
                us.skip(1)[i].name,
                us.skip(1)[j].name,
            ) by {
                assert(us.skip(1)[i] == us[i + 1]);
                assert(us.skip(1)[j] == us[j + 1]);
            }
        }
        assert(us.skip(1)[0] == us[1]);
        assert(lex_lt(us[0].name, us[1].name));
        lemma_lex_transitive(n, us[0].name, us.skip(1)[0].name);
        lemma_find_user_absent(us.skip(1), n);
        assert(find_user(us, n) == find_user(us.skip(1), n));
    } else {
        assert(us.skip(1).len() == 0);
        assert(find_user(us, n) == find_user(us.skip(1), n));
        assert(find_user(us.skip(1), n) is None);
    }
}

/// Removal at the scan position realizes `remove_user_seq`; names stay
/// sorted and other lookups keep their value.
pub proof fn lemma_remove_user_at(us: Seq<UserV>, n: Seq<u8>, p: int)
    requires
        users_sorted(us),
        0 <= p <= us.len(),
        forall|j: int| 0 <= j < p ==> lex_lt((#[trigger] us[j]).name, n),
        p < us.len() ==> !lex_lt(us[p as int].name, n),
    ensures
        remove_user_seq(us, n) == (if p < us.len() && us[p].name == n {
            us.remove(p)
        } else {
            us
        }),
        users_sorted(remove_user_seq(us, n)),
        find_user(remove_user_seq(us, n), n) is None,
        forall|k: Seq<u8>| k != n ==> find_user(remove_user_seq(us, n), k) == find_user(us, k),
        find_user(us, n) == (if p < us.len() && us[p].name == n {
            Some(us[p])
        } else {
            None::<UserV>
        }),
    decreases us.len(),
{
    let s2 = remove_user_seq(us, n);
    if p == 0 {
        if us.len() == 0 {
            assert(s2 =~= us);
        } else if us[0].name == n {
            assert(s2 =~= us.remove(0));
            assert(s2 =~= us.skip(1));
            assert(users_sorted(s2)) by {
                assert forall|i: int, j: int| 0 <= i < j < s2.len() implies lex_lt(
                    s2[i].name,
                    s2[j].name,
                ) by {
                    assert(s2[i] == us[i + 1]);
                    assert(s2[j] == us[j + 1]);
                }
            }
            assert(find_user(s2, n) is None) by {
                if s2.len() > 0 {
                    assert(s2[0] == us[1]);
                    assert(lex_lt(us[0].name, us[1].name));
                    assert(lex_lt(n, s2[0].name));
                    lemma_find_user_absent(s2, n);
                }
            }
            assert forall|k: Seq<u8>| k != n implies find_user(s2, k) == find_user(us, k) by {
                assert(find_user(us, k) == find_user(us.skip(1), k));
            }
        } else {
            lemma_lex_trichotomy(n, us[0].name);
            assert(lex_lt(n, us[0].name));
            lemma_find_user_absent(us, n);
            assert(s2 =~= us) by {
                lemma_remove_absent_user(us, n);
            }
        }
    } else {
        lemma_lex_trichotomy(n, us[0].name);
        assert(lex_lt(us[0].name, n));
        assert(users_sorted(us.skip(1))) by {
            assert forall|i: int, j: int|
                0 <= i < j < us.skip(1).len() implies lex_lt(
                us.skip(1)[i].name,
                us.skip(1)[j].name,
            ) by {
                assert(us.skip(1)[i] == us[i + 1]);
                assert(us.skip(1)[j] == us[j + 1]);
            }
        }
        assert forall|j: int| 0 <= j < p - 1 implies lex_lt(
            (#[trigger] us.skip(1)[j]).name,
            n,
        ) by {
            assert(us.skip(1)[j] == us[j + 1]);
        }
        if p - 1 < us.skip(1).len() {
            assert(us.skip(1)[p - 1] == us[p]);
        }
        lemma_remove_user_at(us.skip(1), n, p - 1);
        let t = remove_user_seq(us.skip(1), n);
        assert(s2 =~= seq![us[0]] + t);
        assert(s2.skip(1) =~= t);
        assert(s2[0] == us[0]);
        assert(find_user(us, n) == find_user(us.skip(1), n));
        if p < us.len() && us[p].name == n {
            assert(us.skip(1)[p - 1] == us[p]);
            assert(seq![us[0]] + us.skip(1).remove(p - 1) =~= us.remove(p));
        } else {
            assert(seq![us[0]] + us.skip(1) =~= us);
        }
        assert(users_sorted(s2)) by {
            assert(s2 == (if p < us.len() && us[p].name == n {
                us.remove(p)
            } else {
                us
            }));
            if p < us.len() && us[p].name == n {
                assert forall|i: int, j: int| 0 <= i < j < s2.len() implies lex_lt(
                    s2[i].name,
                    s2[j].name,
                ) by {
                    let i0: int = if i < p {
                        i
                    } else {
                        i + 1
                    };
                    let j0: int = if j < p {
                        j
                    } else {
                        j + 1
                    };
                    assert(s2[i] == us[i0]);
                    assert(s2[j] == us[j0]);
                }
            }
        }
        assert forall|k: Seq<u8>| k != n implies find_user(s2, k) == find_user(us, k) by {
            if us[0].name != k {
                assert(find_user(s2, k) == find_user(t, k));
                assert(find_user(us, k) == find_user(us.skip(1), k));
            }
        }
    }
}

/// Removing an absent user changes nothing.
pub proof fn lemma_remove_absent_user(us: Seq<UserV>, n: Seq<u8>)
    requires
        find_user(us, n) is None,
    ensures
        remove_user_seq(us, n) == us,
    decreases us.len(),
{
    if us.len() > 0 {
        assert(find_user(us, n) == find_user(us.skip(1), n));
        lemma_remove_absent_user(us.skip(1), n);
        assert(seq![us[0]] + us.skip(1) =~= us);
    }
}

/// Splicing an upsert at its scan position realizes `upsert_role`; the
/// counterpart of [`lemma_upsert_user_at`] for roles.
pub proof fn lemma_upsert_role_at(rs: Seq<RoleV>, r: RoleV, p: int)
    requires
        roles_sorted(rs),
        0 <= p <= rs.len(),
        forall|j: int| 0 <= j < p ==> lex_lt((#[trigger] rs[j]).name, r.name),
        p < rs.len() ==> !lex_lt(rs[p as int].name, r.name),
    ensures
        upsert_role(rs, r) == (if p < rs.len() && rs[p].name == r.name {
            rs.update(p, r)
        } else {
            rs.insert(p, r)
        }),
        roles_sorted(upsert_role(rs, r)),
        find_role(upsert_role(rs, r), r.name) == Some(r),
        forall|k: Seq<u8>| k != r.name ==> find_role(upsert_role(rs, r), k) == find_role(rs, k),
        find_role(rs, r.name) == (if p < rs.len() && rs[p].name == r.name {
            Some(rs[p])
        } else {
            None::<RoleV>
        }),
    decreases rs.len(),
{
    let s2 = upsert_role(rs, r);
    if p == 0 {
        if rs.len() == 0 {
            assert(s2 =~= rs.insert(0, r));
            assert forall|k: Seq<u8>| k != r.name implies find_role(s2, k) == find_role(rs, k) by {
                assert(s2.skip(1) =~= rs);
            }
        } else if rs[0].name == r.name {
            assert(s2 =~= rs.update(0, r));
            assert(s2.skip(1) =~= rs.skip(1));
            assert forall|k: Seq<u8>| k != r.name implies find_role(s2, k) == find_role(rs, k) by {
                assert(find_role(s2, k) == find_role(s2.skip(1), k));
                assert(find_role(rs, k) == find_role(rs.skip(1), k));
            }
            assert(roles_sorted(s2)) by {
                assert forall|i: int, j: int| 0 <= i < j < s2.len() implies lex_lt(
                    s2[i].name,
                    s2[j].name,
                ) by {
                    assert(s2[j] == rs[j]);
                    if i > 0 {
                        assert(s2[i] == rs[i]);
                    } else {
                        assert(s2[0].name == rs[0].name);
                    }
                }
            }
        } else {
            lemma_lex_trichotomy(r.name, rs[0].name);
            assert(lex_lt(r.name, rs[0].name));
            assert(s2 =~= rs.insert(0, r));
            assert(s2 =~= seq![r] + rs);
            assert(s2.skip(1) =~= rs);
            assert forall|k: Seq<u8>| k != r.name implies find_role(s2, k) == find_role(rs, k) by {
                assert(find_role(s2, k) == find_role(s2.skip(1), k));
            }
            assert(roles_sorted(s2)) by {
                assert forall|i: int, j: int| 0 <= i < j < s2.len() implies lex_lt(
                    s2[i].name,
                    s2[j].name,
                ) by {
                    assert(s2[j] == rs[j - 1]);
                    if i == 0 {
                        if j > 1 {
                            assert(lex_lt(rs[0].name, rs[j - 1].name));
                            lemma_lex_transitive(r.name, rs[0].name, rs[j - 1].name);
                        }
                    } else {
                        assert(s2[i] == rs[i - 1]);
                    }
                }
            }
            assert(find_role(rs, r.name) is None) by {
                lemma_find_role_absent(rs, r.name);
            }
        }
    } else {
        lemma_lex_trichotomy(r.name, rs[0].name);
        assert(lex_lt(rs[0].name, r.name));
        assert(roles_sorted(rs.skip(1))) by {
            assert forall|i: int, j: int|
                0 <= i < j < rs.skip(1).len() implies lex_lt(
                rs.skip(1)[i].name,
                rs.skip(1)[j].name,
            ) by {
                assert(rs.skip(1)[i] == rs[i + 1]);
                assert(rs.skip(1)[j] == rs[j + 1]);
            }
        }
        assert forall|j: int| 0 <= j < p - 1 implies lex_lt(
            (#[trigger] rs.skip(1)[j]).name,
            r.name,
        ) by {
            assert(rs.skip(1)[j] == rs[j + 1]);
        }
        if p - 1 < rs.skip(1).len() {
            assert(rs.skip(1)[p - 1] == rs[p]);
        }
        lemma_upsert_role_at(rs.skip(1), r, p - 1);
        let t = upsert_role(rs.skip(1), r);
        assert(s2 =~= seq![rs[0]] + t);
        assert(s2.skip(1) =~= t);
        assert(s2[0] == rs[0]);
        assert(find_role(rs, r.name) == find_role(rs.skip(1), r.name));
        if p < rs.len() && rs[p].name == r.name {
            assert(rs.skip(1)[p - 1] == rs[p]);
            assert(seq![rs[0]] + rs.skip(1).update(p - 1, r) =~= rs.update(p, r));
        } else {
            assert(seq![rs[0]] + rs.skip(1).insert(p - 1, r) =~= rs.insert(p, r));
        }
        assert(roles_sorted(s2)) by {
            assert forall|i: int, j: int| 0 <= i < j < s2.len() implies lex_lt(
                s2[i].name,
                s2[j].name,
            ) by {
                assert(s2[j] == t[j - 1]);
                if i == 0 {
                    lemma_upsert_role_names(rs.skip(1), r, j - 1);
                    if t[j - 1].name == r.name {
                    } else {
                        let m = choose|m: int|
                            0 <= m < rs.skip(1).len() && rs.skip(1)[m].name == t[j - 1].name;
                        assert(rs.skip(1)[m] == rs[m + 1]);
                        assert(lex_lt(rs[0].name, rs[m + 1].name));
                    }
                } else {
                    assert(s2[i] == t[i - 1]);
                    assert(lex_lt(t[i - 1].name, t[j - 1].name));
                }
            }
        }
        assert forall|k: Seq<u8>| k != r.name implies find_role(s2, k) == find_role(rs, k) by {
            if rs[0].name != k {
                assert(find_role(s2, k) == find_role(t, k));
                assert(find_role(rs, k) == find_role(rs.skip(1), k));
            }
        }
    }
}

/// Every name in an upserted role list is the written name or an old one.
pub proof fn lemma_upsert_role_names(rs: Seq<RoleV>, r: RoleV, i: int)
    requires
        0 <= i < upsert_role(rs, r).len(),
    ensures
        upsert_role(rs, r)[i].name == r.name || exists|m: int|
            0 <= m < rs.len() && rs[m].name == upsert_role(rs, r)[i].name,
    decreases rs.len(),
{
    let s2 = upsert_role(rs, r);
    if rs.len() == 0 {
    } else if lex_lt(r.name, rs[0].name) {
        if i > 0 {
            assert(s2[i] == rs[i - 1]);
        }
    } else if rs[0].name == r.name {
        if i > 0 {
            assert(s2[i] == rs.skip(1)[i - 1]);
            assert(rs.skip(1)[i - 1] == rs[i]);
        }
    } else {
        if i > 0 {
            let t = upsert_role(rs.skip(1), r);
            assert(s2[i] == t[i - 1]);
            lemma_upsert_role_names(rs.skip(1), r, i - 1);
            if t[i - 1].name != r.name {
                let m = choose|m: int|
                    0 <= m < rs.skip(1).len() && rs.skip(1)[m].name == t[i - 1].name;
                assert(rs.skip(1)[m] == rs[m + 1]);
            }
        }
    }
}

/// In a sorted role list, a name below the first entry's is absent.
pub proof fn lemma_find_role_absent(rs: Seq<RoleV>, n: Seq<u8>)
    requires
        roles_sorted(rs),
        rs.len() > 0,
        lex_lt(n, rs[0].name),
    ensures
        find_role(rs, n) is None,
    decreases rs.len(),
{
    lemma_lex_trichotomy(n, rs[0].name);
    if rs.len() > 1 {
        assert(roles_sorted(rs.skip(1))) by {
            assert forall|i: int, j: int|
                0 <= i < j < rs.skip(1).len() implies lex_lt(
                rs.skip(1)[i].name,
                rs.skip(1)[j].name,
            ) by {
                assert(rs.skip(1)[i] == rs[i + 1]);
                assert(rs.skip(1)[j] == rs[j + 1]);
            }
        }
        assert(rs.skip(1)[0] == rs[1]);
        assert(lex_lt(rs[0].name, rs[1].name));
        lemma_lex_transitive(n, rs[0].name, rs.skip(1)[0].name);
        lemma_find_role_absent(rs.skip(1), n);
        assert(find_role(rs, n) == find_role(rs.skip(1), n));
    } else {
        assert(rs.skip(1).len() == 0);
        assert(find_role(rs, n) == find_role(rs.skip(1), n));
        assert(find_role(rs.skip(1), n) is None);
    }
}

/// Removal at the scan position realizes `remove_role_seq`; the
/// counterpart of [`lemma_remove_user_at`] for roles.
pub proof fn lemma_remove_role_at(rs: Seq<RoleV>, n: Seq<u8>, p: int)
    requires
        roles_sorted(rs),
        0 <= p <= rs.len(),
        forall|j: int| 0 <= j < p ==> lex_lt((#[trigger] rs[j]).name, n),
        p < rs.len() ==> !lex_lt(rs[p as int].name, n),
    ensures
        remove_role_seq(rs, n) == (if p < rs.len() && rs[p].name == n {
            rs.remove(p)
        } else {
            rs
        }),
        roles_sorted(remove_role_seq(rs, n)),
        find_role(remove_role_seq(rs, n), n) is None,
        forall|k: Seq<u8>| k != n ==> find_role(remove_role_seq(rs, n), k) == find_role(rs, k),
        find_role(rs, n) == (if p < rs.len() && rs[p].name == n {
            Some(rs[p])
        } else {
            None::<RoleV>
        }),
    decreases rs.len(),
{
    let s2 = remove_role_seq(rs, n);
    if p == 0 {
        if rs.len() == 0 {
            assert(s2 =~= rs);
        } else if rs[0].name == n {
            assert(s2 =~= rs.remove(0));
            assert(s2 =~= rs.skip(1));
            assert(roles_sorted(s2)) by {
                assert forall|i: int, j: int| 0 <= i < j < s2.len() implies lex_lt(
                    s2[i].name,
                    s2[j].name,
                ) by {
                    assert(s2[i] == rs[i + 1]);
                    assert(s2[j] == rs[j + 1]);
                }
            }
            assert(find_role(s2, n) is None) by {
                if s2.len() > 0 {
                    assert(s2[0] == rs[1]);
                    assert(lex_lt(rs[0].name, rs[1].name));
                    assert(lex_lt(n, s2[0].name));
                    lemma_find_role_absent(s2, n);
                }
            }
            assert forall|k: Seq<u8>| k != n implies find_role(s2, k) == find_role(rs, k) by {
                assert(find_role(rs, k) == find_role(rs.skip(1), k));
            }
        } else {
            lemma_lex_trichotomy(n, rs[0].name);
            assert(lex_lt(n, rs[0].name));
            lemma_find_role_absent(rs, n);
            assert(s2 =~= rs) by {
                lemma_remove_absent_role(rs, n);
            }
        }
    } else {
        lemma_lex_trichotomy(n, rs[0].name);
        assert(lex_lt(rs[0].name, n));
        assert(roles_sorted(rs.skip(1))) by {
            assert forall|i: int, j: int|
                0 <= i < j < rs.skip(1).len() implies lex_lt(
                rs.skip(1)[i].name,
                rs.skip(1)[j].name,
            ) by {
                assert(rs.skip(1)[i] == rs[i + 1]);
                assert(rs.skip(1)[j] == rs[j + 1]);
            }
        }
        assert forall|j: int| 0 <= j < p - 1 implies lex_lt(
            (#[trigger] rs.skip(1)[j]).name,
            n,
        ) by {
            assert(rs.skip(1)[j] == rs[j + 1]);
        }
        if p - 1 < rs.skip(1).len() {
            assert(rs.skip(1)[p - 1] == rs[p]);
        }
        lemma_remove_role_at(rs.skip(1), n, p - 1);
        let t = remove_role_seq(rs.skip(1), n);
        assert(s2 =~= seq![rs[0]] + t);
        assert(s2.skip(1) =~= t);
        assert(s2[0] == rs[0]);
        assert(find_role(rs, n) == find_role(rs.skip(1), n));
        if p < rs.len() && rs[p].name == n {
            assert(rs.skip(1)[p - 1] == rs[p]);
            assert(seq![rs[0]] + rs.skip(1).remove(p - 1) =~= rs.remove(p));
        } else {
            assert(seq![rs[0]] + rs.skip(1) =~= rs);
        }
        assert(roles_sorted(s2)) by {
            if p < rs.len() && rs[p].name == n {
                assert forall|i: int, j: int| 0 <= i < j < s2.len() implies lex_lt(
                    s2[i].name,
                    s2[j].name,
                ) by {
                    let i0: int = if i < p {
                        i
                    } else {
                        i + 1
                    };
                    let j0: int = if j < p {
                        j
                    } else {
                        j + 1
                    };
                    assert(s2[i] == rs[i0]);
                    assert(s2[j] == rs[j0]);
                }
            }
        }
        assert forall|k: Seq<u8>| k != n implies find_role(s2, k) == find_role(rs, k) by {
            if rs[0].name != k {
                assert(find_role(s2, k) == find_role(t, k));
                assert(find_role(rs, k) == find_role(rs.skip(1), k));
            }
        }
    }
}

/// Removing an absent role changes nothing.
pub proof fn lemma_remove_absent_role(rs: Seq<RoleV>, n: Seq<u8>)
    requires
        find_role(rs, n) is None,
    ensures
        remove_role_seq(rs, n) == rs,
    decreases rs.len(),
{
    if rs.len() > 0 {
        assert(find_role(rs, n) == find_role(rs.skip(1), n));
        lemma_remove_absent_role(rs.skip(1), n);
        assert(seq![rs[0]] + rs.skip(1) =~= rs);
    }
}

/// The authoritative auth store: decoded records, revision bookkeeping
/// through the index and encoded store, the speculative pool and the
/// permission cache.
pub struct AuthStoreBackend {
    /// User records, strictly sorted by name.
    users: Vec<User>,
    /// Role records, strictly sorted by name.
    roles: Vec<Role>,
    /// MVCC key index of every persisted write.
    index: Index,
    /// Encoded records and tombstones by revision.
    db: Db,
    /// Monotonic revision counter.
    revision: RevisionNumber,
    /// Speculative execution pool: proposal id to request context.
    sp_exec_pool: Vec<(u64, RequestCtx)>,
    /// Whether auth is enabled.
    enabled: bool,
    /// Effective permissions per user and users per role.
    permission_cache: PermissionCache,
    /// The token signer, when a key was configured.
    token_manager: Option<JwtTokenManager>,
}

impl AuthStoreBackend {
    /// The stored users.
    pub closed spec fn users_v(self) -> Seq<UserV> {
        self.users@.map_values(|u: User| u@)
    }

    /// The stored roles.
    pub closed spec fn roles_v(self) -> Seq<RoleV> {
        self.roles@.map_values(|r: Role| r@)
    }

    /// The enabled flag.
    pub closed spec fn enabled_v(self) -> bool {
        self.enabled
    }

    /// The current revision.
    pub closed spec fn rev_v(self) -> i64 {
        self.revision.rev()
    }

    /// The speculative pool.
    pub closed spec fn pool_v(self) -> Seq<(u64, RequestCtx)> {
        self.sp_exec_pool@
    }

    /// The permission cache.
    pub closed spec fn cache_v(self) -> crate::perms::CacheV {
        self.permission_cache@
    }

    /// The MVCC index.
    pub closed spec fn index_v(self) -> Seq<crate::index::IndexEntryV> {
        self.index@
    }

    /// The encoded store.
    pub closed spec fn db_v(self) -> Seq<crate::db::DbEntryV> {
        self.db@
    }

    /// Whether a token manager is configured.
    pub closed spec fn has_token_manager(self) -> bool {
        self.token_manager is Some
    }

    /// The token secret, when configured.
    pub closed spec fn token_secret(self) -> Seq<u8> {
        self.token_manager.unwrap().secret_view()
    }

    /// Well-formed store: records sorted and unique by name, every user's
    /// roles strictly ascending, every role's permissions strictly
    /// ascending by `(key, range_end)`, the index sorted, and the cache
    /// maps keyed uniquely.
    pub open spec fn wf(self) -> bool {
        &&& users_sorted(self.users_v())
        &&& roles_sorted(self.roles_v())
        &&& forall|i: int| 0 <= i < self.users_v().len() ==> (#[trigger] self.users_v()[i]).roles_sorted()
        &&& forall|i: int| 0 <= i < self.roles_v().len() ==> (#[trigger] self.roles_v()[i]).perms_sorted()
        &&& crate::index::index_wf(self.index_v())
        &&& cache_wf(self.cache_v())
        &&& self.rev_v() >= 0
    }

    /// A fresh, disabled store with no users or roles.
    pub fn new(token_secret: Option<Vec<u8>>) -> (r: AuthStoreBackend)
        ensures
            r.wf(),
            r.users_v() =~= Seq::<UserV>::empty(),
            r.roles_v() =~= Seq::<RoleV>::empty(),
            !r.enabled_v(),
            r.rev_v() == 0,
            r.pool_v() =~= Seq::<(u64, RequestCtx)>::empty(),
            r.index_v() =~= Seq::<crate::index::IndexEntryV>::empty(),
            r.db_v() =~= Seq::<crate::db::DbEntryV>::empty(),
            r.cache_v().up =~= Seq::<(Seq<u8>, UserPermissionsV)>::empty(),
            r.cache_v().rtu =~= Seq::<(Seq<u8>, Seq<Seq<u8>>)>::empty(),
            r.has_token_manager() <==> token_secret is Some,
    {
        let token_manager = match token_secret {
            Some(s) => Some(JwtTokenManager::new(s)),
            None => None,
        };
        let r = AuthStoreBackend {
            users: Vec::new(),
            roles: Vec::new(),
            index: Index::new(),
            db: Db::new(),
            revision: RevisionNumber::new(),
            sp_exec_pool: Vec::new(),
            enabled: false,
            permission_cache: PermissionCache::new(),
            token_manager,
        };
        proof {
            assert(r.users_v() =~= Seq::<UserV>::empty());
            assert(r.roles_v() =~= Seq::<RoleV>::empty());
            assert(r.pool_v() =~= Seq::<(u64, RequestCtx)>::empty());
            assert(r.index_v() =~= Seq::<crate::index::IndexEntryV>::empty());
            assert(r.db_v() =~= Seq::<crate::db::DbEntryV>::empty());
        }
        r
    }

    /// Current auth revision.
    pub fn revision(&self) -> (r: i64)
        ensures
            r == self.rev_v(),
    {
        self.revision.get()
    }

    /// Whether auth is enabled.
    pub fn is_enabled(&self) -> (r: bool)
        ensures
            r == self.enabled_v(),
    {
        self.enabled
    }

    /// Scan position of `name` among the users.
    fn scan_users(&self, name: &Vec<u8>) -> (p: usize)
        ensures
            0 <= p <= self.users_v().len(),
            forall|j: int| 0 <= j < p ==> lex_lt((#[trigger] self.users_v()[j]).name, name@),
            p < self.users_v().len() ==> !lex_lt(self.users_v()[p as int].name, name@),
    {
        let mut p: usize = 0;
        while p < self.users.len()
            invariant
                0 <= p <= self.users_v().len(),
                self.users_v().len() == self.users@.len(),
                forall|j: int| 0 <= j < p ==> lex_lt((#[trigger] self.users_v()[j]).name, name@),
            decreases self.users@.len() - p,
        {
            proof {
                assert(self.users_v()[p as int].name == self.users@[p as int].name@);
            }
            match crate::bytes::bytes_cmp(&self.users[p].name, name) {
                crate::bytes::Cmp::Lt => {
                    p = p + 1;
                },
                _ => {
                    return p;
                },
            }
        }
        p
    }

    /// Scan position of `name` among the roles.
    fn scan_roles(&self, name: &Vec<u8>) -> (p: usize)
        ensures
            0 <= p <= self.roles_v().len(),
            forall|j: int| 0 <= j < p ==> lex_lt((#[trigger] self.roles_v()[j]).name, name@),
            p < self.roles_v().len() ==> !lex_lt(self.roles_v()[p as int].name, name@),
    {
        let mut p: usize = 0;
        while p < self.roles.len()
            invariant
                0 <= p <= self.roles_v().len(),
                self.roles_v().len() == self.roles@.len(),
                forall|j: int| 0 <= j < p ==> lex_lt((#[trigger] self.roles_v()[j]).name, name@),
            decreases self.roles@.len() - p,
        {
            proof {
                assert(self.roles_v()[p as int].name == self.roles@[p as int].name@);
            }
            match crate::bytes::bytes_cmp(&self.roles[p].name, name) {
                crate::bytes::Cmp::Lt => {
                    p = p + 1;
                },
                _ => {
                    return p;
                },
            }
        }
        p
    }

    /// Copy out the user named `username`.
    pub fn get_user(&self, username: &Vec<u8>) -> (r: Result<User, ExecuteError>)
        requires
            self.wf(),
        ensures
            match r {
                Ok(u) => find_user(self.users_v(), username@) == Some(u@),
                Err(e) => e == ExecuteError::UserNotFound && find_user(
                    self.users_v(),
                    username@,
                ) is None,
            },
    {
        let p = self.scan_users(username);
        proof {
            lemma_remove_user_at(self.users_v(), username@, p as int);
        }
        if p < self.users.len() && bytes_eq(&self.users[p].name, username) {
            proof {
                assert(self.users_v()[p as int].name == self.users@[p as int].name@);
            }
            Ok(clone_user(&self.users[p]))
        } else {
            proof {
                if p < self.users_v().len() {
                    assert(self.users_v()[p as int].name == self.users@[p as int].name@);
                }
            }
            Err(ExecuteError::UserNotFound)
        }
    }

    /// Copy out the role named `rolename`.
    pub fn get_role(&self, rolename: &Vec<u8>) -> (r: Result<Role, ExecuteError>)
        requires
            self.wf(),
        ensures
            match r {
                Ok(ro) => find_role(self.roles_v(), rolename@) == Some(ro@),
                Err(e) => e == ExecuteError::RoleNotFound && find_role(
                    self.roles_v(),
                    rolename@,
                ) is None,
            },
    {
        let p = self.scan_roles(rolename);
        proof {
            lemma_remove_role_at(self.roles_v(), rolename@, p as int);
        }
        if p < self.roles.len() && bytes_eq(&self.roles[p].name, rolename) {
            proof {
                assert(self.roles_v()[p as int].name == self.roles@[p as int].name@);
            }
            Ok(clone_role(&self.roles[p]))
        } else {
            proof {
                if p < self.roles_v().len() {
                    assert(self.roles_v()[p as int].name == self.roles@[p as int].name@);
                }
            }
            Err(ExecuteError::RoleNotFound)
        }
    }

    /// Copy out all users, in key (name) order.
    pub fn get_all_users(&self) -> (r: Vec<User>)
        ensures
            r@.map_values(|u: User| u@) == self.users_v(),
    {
        let mut r: Vec<User> = Vec::new();
        let mut i: usize = 0;
        while i < self.users.len()
            invariant
                0 <= i <= self.users@.len(),
                r@.len() == i,
                forall|k: int| 0 <= k < i ==> (#[trigger] r@[k])@ == self.users@[k]@,
            decreases self.users@.len() - i,
        {
            let u = clone_user(&self.users[i]);
            r.push(u);
            i = i + 1;
        }
        proof {
            assert(r@.map_values(|u: User| u@) =~= self.users_v());
        }
        r
    }

    /// Copy out all roles, in key (name) order.
    pub fn get_all_roles(&self) -> (r: Vec<Role>)
        ensures
            r@.map_values(|x: Role| x@) == self.roles_v(),
    {
        let mut r: Vec<Role> = Vec::new();
        let mut i: usize = 0;
        while i < self.roles.len()
            invariant
                0 <= i <= self.roles@.len(),
                r@.len() == i,
                forall|k: int| 0 <= k < i ==> (#[trigger] r@[k])@ == self.roles@[k]@,
            decreases self.roles@.len() - i,
        {
            let x = clone_role(&self.roles[i]);
            r.push(x);
            i = i + 1;
        }
        proof {
            assert(r@.map_values(|x: Role| x@) =~= self.roles_v());
        }
        r
    }

    /// Persist a user record: upsert it in the decoded state and stamp its
    /// encoding at `(main, sub)` through the index and the store.
    fn put_user(&mut self, user: User, main: i64, sub: i64)
        requires
            old(self).wf(),
            user@.roles_sorted(),
        ensures
            final(self).wf(),
            final(self).users_v() == upsert_user(old(self).users_v(), user@),
            find_user(final(self).users_v(), user@.name) == Some(user@),
            forall|k: Seq<u8>|
                k != user@.name ==> find_user(final(self).users_v(), k) == find_user(
                    old(self).users_v(),
                    k,
                ),
            final(self).roles_v() == old(self).roles_v(),
            final(self).enabled_v() == old(self).enabled_v(),
            final(self).rev_v() == old(self).rev_v(),
            final(self).pool_v() == old(self).pool_v(),
            final(self).cache_v() == old(self).cache_v(),
            final(self).has_token_manager() == old(self).has_token_manager(),
            final(self).token_secret() == old(self).token_secret(),
            live_rev(final(self).index_v(), user_key(user@.name)) == Some(
                Revision { main, sub },
            ),
            forall|k: Seq<u8>|
                k != user_key(user@.name) ==> live_rev(final(self).index_v(), k) == live_rev(
                    old(self).index_v(),
                    k,
                ),
            db_value_at(final(self).db_v(), Revision { main, sub }) == Some(enc_user(user@)),
    {
        let ghost uv = user@;
        let key = user_key_vec(&user.name);
        let value = encode_user(&user);
        let _nr = self.index.insert_or_update(&key, main, sub);
        proof {
            crate::index::lemma_insert(old(self).index_v(), user_key(uv.name), main, sub);
        }
        self.db.insert(Revision::new(main, sub), value);
        let p = self.scan_users(&user.name);
        proof {
            lemma_upsert_user_at(self.users_v(), uv, p as int);
        }
        if p < self.users.len() && bytes_eq(&self.users[p].name, &user.name) {
            proof {
                assert(self.users_v()[p as int].name == self.users@[p as int].name@);
            }
            let _old = self.users.remove(p);
            self.users.insert(p, user);
            proof {
                assert(self.users_v() =~= old(self).users_v().update(p as int, uv));
            }
        } else {
            proof {
                if p < self.users_v().len() {
                    assert(self.users_v()[p as int].name == self.users@[p as int].name@);
                }
            }
            self.users.insert(p, user);
            proof {
                assert(self.users_v() =~= old(self).users_v().insert(p as int, uv));
            }
        }
        proof {
            assert(final(self).roles_v() =~= old(self).roles_v());
            assert forall|i: int|
                0 <= i < self.users_v().len() implies (#[trigger] self.users_v()[i]).roles_sorted()
            by {
                lemma_upsert_user_names(old(self).users_v(), uv, i);
            }
        }
    }

    /// Remove a user record, stamping a tombstone at `(main, sub)` when
    /// the key was live.
    fn delete_user_rec(&mut self, username: &Vec<u8>, main: i64, sub: i64)
        requires
            old(self).wf(),
        ensures
            final(self).wf(),
            final(self).users_v() == remove_user_seq(old(self).users_v(), username@),
            find_user(final(self).users_v(), username@) is None,
            forall|k: Seq<u8>|
                k != username@ ==> find_user(final(self).users_v(), k) == find_user(
                    old(self).users_v(),
                    k,
                ),
            final(self).roles_v() == old(self).roles_v(),
            final(self).enabled_v() == old(self).enabled_v(),
            final(self).rev_v() == old(self).rev_v(),
            final(self).pool_v() == old(self).pool_v(),
            final(self).cache_v() == old(self).cache_v(),
            final(self).has_token_manager() == old(self).has_token_manager(),
            final(self).token_secret() == old(self).token_secret(),
            live_rev(final(self).index_v(), user_key(username@)) is None,
    {
        let key = user_key_vec(username);
        proof {
            crate::index::lemma_delete(old(self).index_v(), user_key(username@));
        }
        match self.index.delete_one(&key, main, sub) {
            Some(rev) => {
                self.db.mark_deletion(rev);
            },
            None => {},
        }
        let p = self.scan_users(username);
        proof {
            lemma_remove_user_at(self.users_v(), username@, p as int);
        }
        if p < self.users.len() && bytes_eq(&self.users[p].name, username) {
            proof {
                assert(self.users_v()[p as int].name == self.users@[p as int].name@);
            }
            let _old = self.users.remove(p);
            proof {
                assert(self.users_v() =~= old(self).users_v().remove(p as int));
            }
        } else {
            proof {
                if p < self.users_v().len() {
                    assert(self.users_v()[p as int].name == self.users@[p as int].name@);
                }
                assert(self.users_v() =~= old(self).users_v());
            }
        }
        proof {
            assert(final(self).roles_v() =~= old(self).roles_v());
            let s2 = remove_user_seq(old(self).users_v(), username@);
            assert forall|i: int|
                0 <= i < s2.len() implies (#[trigger] s2[i]).roles_sorted() by {
                lemma_remove_user_mem(old(self).users_v(), username@, i);
            }
        }
    }

    /// Persist a role record, the counterpart of [`Self::put_user`].
    fn put_role(&mut self, role: Role, main: i64, sub: i64)
        requires
            old(self).wf(),
            role@.perms_sorted(),
        ensures
            final(self).wf(),
            final(self).roles_v() == upsert_role(old(self).roles_v(), role@),
            find_role(final(self).roles_v(), role@.name) == Some(role@),
            forall|k: Seq<u8>|
                k != role@.name ==> find_role(final(self).roles_v(), k) == find_role(
                    old(self).roles_v(),
                    k,
                ),
            final(self).users_v() == old(self).users_v(),
            final(self).enabled_v() == old(self).enabled_v(),
            final(self).rev_v() == old(self).rev_v(),
            final(self).pool_v() == old(self).pool_v(),
            final(self).cache_v() == old(self).cache_v(),
            final(self).has_token_manager() == old(self).has_token_manager(),
            final(self).token_secret() == old(self).token_secret(),
            live_rev(final(self).index_v(), role_key(role@.name)) == Some(
                Revision { main, sub },
            ),
            db_value_at(final(self).db_v(), Revision { main, sub }) == Some(enc_role(role@)),
    {
        let ghost rv = role@;
        let key = role_key_vec(&role.name);
        let value = encode_role(&role);
        let _nr = self.index.insert_or_update(&key, main, sub);
        proof {
            crate::index::lemma_insert(old(self).index_v(), role_key(rv.name), main, sub);
        }
        self.db.insert(Revision::new(main, sub), value);
        let p = self.scan_roles(&role.name);
        proof {
            lemma_upsert_role_at(self.roles_v(), rv, p as int);
        }
        if p < self.roles.len() && bytes_eq(&self.roles[p].name, &role.name) {
            proof {
                assert(self.roles_v()[p as int].name == self.roles@[p as int].name@);
            }
            let _old = self.roles.remove(p);
            self.roles.insert(p, role);
            proof {
                assert(self.roles_v() =~= old(self).roles_v().update(p as int, rv));
            }
        } else {
            proof {
                if p < self.roles_v().len() {
                    assert(self.roles_v()[p as int].name == self.roles@[p as int].name@);
                }
            }
            self.roles.insert(p, role);
            proof {
                assert(self.roles_v() =~= old(self).roles_v().insert(p as int, rv));
            }
        }
        proof {
            assert(final(self).users_v() =~= old(self).users_v());
            assert forall|i: int|
                0 <= i < self.roles_v().len() implies (#[trigger] self.roles_v()[i]).perms_sorted()
            by {
                lemma_upsert_role_names(old(self).roles_v(), rv, i);
            }
        }
    }

    /// Remove a role record, the counterpart of [`Self::delete_user_rec`].
    fn delete_role_rec(&mut self, rolename: &Vec<u8>, main: i64, sub: i64)
        requires
            old(self).wf(),
        ensures
            final(self).wf(),
            final(self).roles_v() == remove_role_seq(old(self).roles_v(), rolename@),
            find_role(final(self).roles_v(), rolename@) is None,
            forall|k: Seq<u8>|
                k != rolename@ ==> find_role(final(self).roles_v(), k) == find_role(
                    old(self).roles_v(),
                    k,
                ),
            final(self).users_v() == old(self).users_v(),
            final(self).enabled_v() == old(self).enabled_v(),
            final(self).rev_v() == old(self).rev_v(),
            final(self).pool_v() == old(self).pool_v(),
            final(self).cache_v() == old(self).cache_v(),
            final(self).has_token_manager() == old(self).has_token_manager(),
            final(self).token_secret() == old(self).token_secret(),
            live_rev(final(self).index_v(), role_key(rolename@)) is None,
    {
        let key = role_key_vec(rolename);
        proof {
            crate::index::lemma_delete(old(self).index_v(), role_key(rolename@));
        }
        match self.index.delete_one(&key, main, sub) {
            Some(rev) => {
                self.db.mark_deletion(rev);
            },
            None => {},
        }
        let p = self.scan_roles(rolename);
        proof {
            lemma_remove_role_at(self.roles_v(), rolename@, p as int);
        }
        if p < self.roles.len() && bytes_eq(&self.roles[p].name, rolename) {
            proof {
                assert(self.roles_v()[p as int].name == self.roles@[p as int].name@);
            }
            let _old = self.roles.remove(p);
            proof {
                assert(self.roles_v() =~= old(self).roles_v().remove(p as int));
            }
        } else {
            proof {
                if p < self.roles_v().len() {
                    assert(self.roles_v()[p as int].name == self.roles@[p as int].name@);
                }
                assert(self.roles_v() =~= old(self).roles_v());
            }
        }
        proof {
            assert(final(self).users_v() =~= old(self).users_v());
            let s2 = remove_role_seq(old(self).roles_v(), rolename@);
            assert forall|i: int|
                0 <= i < s2.len() implies (#[trigger] s2[i]).perms_sorted() by {
                lemma_remove_role_mem(old(self).roles_v(), rolename@, i);
            }
        }
    }

    /// Persist the enabled flag byte at `(main, 0)`.
    fn put_enable_flag(&mut self, value: bool, main: i64)
        requires
            old(self).wf(),
        ensures
            final(self).wf(),
            final(self).users_v() == old(self).users_v(),
            final(self).roles_v() == old(self).roles_v(),
            final(self).enabled_v() == old(self).enabled_v(),
            final(self).rev_v() == old(self).rev_v(),
            final(self).pool_v() == old(self).pool_v(),
            final(self).cache_v() == old(self).cache_v(),
            final(self).has_token_manager() == old(self).has_token_manager(),
            final(self).token_secret() == old(self).token_secret(),
            live_rev(final(self).index_v(), auth_enable_key()) == Some(
                Revision { main, sub: 0 },
            ),
            db_value_at(final(self).db_v(), Revision { main, sub: 0 }) == Some(
                seq![if value {
                    1u8
                } else {
                    0u8
                }],
            ),
    {
        let key = auth_enable_key_vec();
        let mut flag: Vec<u8> = Vec::new();
        if value {
            flag.push(1);
        } else {
            flag.push(0);
        }
        proof {
            assert(flag@ =~= seq![if value {
                1u8
            } else {
                0u8
            }]);
        }
        let _nr = self.index.insert_or_update(&key, main, 0);
        proof {
            crate::index::lemma_insert(old(self).index_v(), auth_enable_key(), main, 0);
        }
        self.db.insert(Revision::new(main, 0), flag);
        proof {
            assert(final(self).users_v() =~= old(self).users_v());
            assert(final(self).roles_v() =~= old(self).roles_v());
        }
    }
}

/// The role holds a permission with exactly this key and range end.
pub open spec fn has_perm(ps: Seq<PermissionV>, k: Seq<u8>, re: Seq<u8>) -> bool {
    exists|i: int| 0 <= i < ps.len() && ps[i].key == k && ps[i].range_end == re
}

/// The validation outcome of the execute phase: the error a request draws
/// from the given state, or none when it is accepted. For `Authenticate`
/// the token signer can still fail after validation passes.
pub open spec fn spec_execute_err(
    users: Seq<UserV>,
    roles: Seq<RoleV>,
    enabled: bool,
    has_tm: bool,
    req: RequestWrapper,
) -> Option<ExecuteError> {
    match req {
        RequestWrapper::AuthEnableRequest => if enabled {
            None
        } else {
            match find_user(users, root_spec()) {
                None => Some(ExecuteError::UserNotFound),
                Some(u) => if u.roles.contains(root_spec()) {
                    None
                } else {
                    Some(ExecuteError::RootUserHasNoRootRole)
                },
            }
        },
        RequestWrapper::AuthDisableRequest => None,
        RequestWrapper::AuthStatusRequest => None,
        RequestWrapper::AuthenticateRequest { .. } => if !enabled {
            Some(ExecuteError::AuthNotEnabled)
        } else if !has_tm {
            Some(ExecuteError::TokenManagerNotInitialized)
        } else {
            None
        },
        RequestWrapper::AuthUserAddRequest { name, .. } => if find_user(users, name@) is Some {
            Some(ExecuteError::UserAlreadyExists)
        } else {
            None
        },
        RequestWrapper::AuthUserGetRequest { name } => if find_user(users, name@) is None {
            Some(ExecuteError::UserNotFound)
        } else {
            None
        },
        RequestWrapper::AuthUserListRequest => None,
        RequestWrapper::AuthUserDeleteRequest { name } => if enabled && name@ == root_spec() {
            Some(ExecuteError::RootUserUndeletable)
        } else if find_user(users, name@) is None {
            Some(ExecuteError::UserNotFound)
        } else {
            None
        },
        RequestWrapper::AuthUserChangePasswordRequest { name, hashed_password } => match find_user(
            users,
            name@,
        ) {
            None => Some(ExecuteError::UserNotFound),
            Some(u) => if u.need_password() && hashed_password@.len() == 0 {
                Some(ExecuteError::PasswordRequired)
            } else {
                None
            },
        },
        RequestWrapper::AuthUserGrantRoleRequest { user, role } => if find_user(
            users,
            user@,
        ) is None {
            Some(ExecuteError::UserNotFound)
        } else if role@ != root_spec() && find_role(roles, role@) is None {
            Some(ExecuteError::RoleNotFound)
        } else {
            None
        },
        RequestWrapper::AuthUserRevokeRoleRequest { name, role } => if enabled && name@
            == root_spec() && role@ == root_spec() {
            Some(ExecuteError::RootRoleUnrevocable)
        } else {
            match find_user(users, name@) {
                None => Some(ExecuteError::UserNotFound),
                Some(u) => if !u.roles.contains(role@) {
                    Some(ExecuteError::UserDoesNotHaveRole)
                } else {
                    None
                },
            }
        },
        RequestWrapper::AuthRoleAddRequest { name } => if find_role(roles, name@) is Some {
            Some(ExecuteError::RoleAlreadyExists)
        } else {
            None
        },
        RequestWrapper::AuthRoleGetRequest { role } => if find_role(roles, role@) is None {
            Some(ExecuteError::RoleNotFound)
        } else {
            None
        },
        RequestWrapper::AuthRoleListRequest => None,
        RequestWrapper::AuthRoleDeleteRequest { role } => if enabled && role@ == root_spec() {
            Some(ExecuteError::RootRoleUndeletable)
        } else if find_role(roles, role@) is None {
            Some(ExecuteError::RoleNotFound)
        } else {
            None
        },
        RequestWrapper::AuthRoleGrantPermissionRequest { name, perm } => if find_role(
            roles,
            name@,
        ) is None {
            Some(ExecuteError::RoleNotFound)
        } else if perm is None {
            Some(ExecuteError::PermissionNotGiven)
        } else {
            None
        },
        RequestWrapper::AuthRoleRevokePermissionRequest { role, key, range_end } => match find_role(
            roles,
            role@,
        ) {
            None => Some(ExecuteError::RoleNotFound),
            Some(r) => if has_perm(r.key_permission, key@, range_end@) {
                None
            } else {
                Some(ExecuteError::PermissionNotGranted)
            },
        },
    }
}

/// Find `t` in a strictly ascending list of names, or give its insertion
/// point.
pub fn search_name_list(l: &Vec<Vec<u8>>, t: &Vec<u8>) -> (r: Result<usize, usize>)
    requires
        forall|i: int, j: int|
            0 <= i < j < l@.len() ==> lex_lt((#[trigger] l@[i])@, (#[trigger] l@[j])@),
    ensures
        match r {
            Ok(i) => i < l@.len() && l@[i as int]@ == t@,
            Err(i) => i <= l@.len() && !l@.map_values(|x: Vec<u8>| x@).contains(t@) && (forall|
                j: int,
            |
                0 <= j < i ==> lex_lt((#[trigger] l@[j])@, t@)) && (i < l@.len() ==> lex_lt(
                t@,
                l@[i as int]@,
            )),
        },
{
    let mut p: usize = 0;
    while p < l.len()
        invariant
            0 <= p <= l@.len(),
            forall|i: int, j: int|
                0 <= i < j < l@.len() ==> lex_lt((#[trigger] l@[i])@, (#[trigger] l@[j])@),
            forall|j: int| 0 <= j < p ==> lex_lt((#[trigger] l@[j])@, t@),
        decreases l@.len() - p,
    {
        match crate::bytes::bytes_cmp(&l[p], t) {
            crate::bytes::Cmp::Lt => {
                p = p + 1;
            },
            crate::bytes::Cmp::Eq => {
                return Ok(p);
            },
            crate::bytes::Cmp::Gt => {
                proof {
                    lemma_name_list_absent(l@.map_values(|x: Vec<u8>| x@), t@, p as int);
                }
                return Err(p);
            },
        }
    }
    proof {
        lemma_name_list_absent(l@.map_values(|x: Vec<u8>| x@), t@, p as int);
    }
    Err(p)
}

/// In a name list whose first `p` names come before `t` and whose `p`-th
/// comes after, `t` is absent.
proof fn lemma_name_list_absent(l: Seq<Seq<u8>>, t: Seq<u8>, p: int)
    requires
        0 <= p <= l.len(),
        forall|i: int, j: int| 0 <= i < j < l.len() ==> lex_lt(#[trigger] l[i], #[trigger] l[j]),
        forall|j: int| 0 <= j < p ==> lex_lt(#[trigger] l[j], t),
        p < l.len() ==> lex_lt(t, l[p]),
    ensures
        !l.contains(t),
{
    assert forall|j: int| 0 <= j < l.len() implies #[trigger] l[j] != t by {
        if j < p {
            lemma_lex_trichotomy(l[j], t);
        } else {
            lemma_lex_trichotomy(t, l[j]);
            if j > p {
                assert(lex_lt(l[p], l[j]));
                lemma_lex_transitive(t, l[p], l[j]);
            }
        }
    }
    if l.contains(t) {
        let j = choose|j: int| 0 <= j < l.len() && l[j] == t;
        assert(l[j] != t);
    }
}

/// Find the permission with exactly `(key, range_end)` in a list strictly
/// ascending by that pair, or give its insertion point.
pub fn search_perms(l: &Vec<Permission>, key: &Vec<u8>, range_end: &Vec<u8>) -> (r: Result<
    usize,
    usize,
>)
    requires
        forall|i: int, j: int|
            0 <= i < j < l@.len() ==> perm_lt((#[trigger] l@[i])@, (#[trigger] l@[j])@),
    ensures
        match r {
            Ok(i) => i < l@.len() && l@[i as int]@.key == key@ && l@[i as int]@.range_end
                == range_end@,
            Err(i) => i <= l@.len() && !has_perm(
                l@.map_values(|x: Permission| x@),
                key@,
                range_end@,
            ) && (forall|j: int|
                0 <= j < i ==> perm_lt(
                    (#[trigger] l@[j])@,
                    PermissionV { perm_type: Type::Read, key: key@, range_end: range_end@ },
                )) && (i < l@.len() ==> perm_lt(
                PermissionV { perm_type: Type::Read, key: key@, range_end: range_end@ },
                l@[i as int]@,
            )),
        },
{
    let ghost target = PermissionV { perm_type: Type::Read, key: key@, range_end: range_end@ };
    let mut p: usize = 0;
    while p < l.len()
        invariant
            0 <= p <= l@.len(),
            target == (PermissionV { perm_type: Type::Read, key: key@, range_end: range_end@ }),
            forall|i: int, j: int|
                0 <= i < j < l@.len() ==> perm_lt((#[trigger] l@[i])@, (#[trigger] l@[j])@),
            forall|j: int| 0 <= j < p ==> perm_lt((#[trigger] l@[j])@, target),
        decreases l@.len() - p,
    {
        let e = &l[p];
        let cmp_key = crate::bytes::bytes_cmp(&e.key, key);
        match cmp_key {
            crate::bytes::Cmp::Lt => {
                p = p + 1;
            },
            crate::bytes::Cmp::Eq => {
                match crate::bytes::bytes_cmp(&e.range_end, range_end) {
                    crate::bytes::Cmp::Lt => {
                        p = p + 1;
                    },
                    crate::bytes::Cmp::Eq => {
                        return Ok(p);
                    },
                    crate::bytes::Cmp::Gt => {
                        proof {
                            lemma_perm_list_absent(
                                l@.map_values(|x: Permission| x@),
                                target,
                                p as int,
                            );
                        }
                        return Err(p);
                    },
                }
            },
            crate::bytes::Cmp::Gt => {
                proof {
                    lemma_perm_list_absent(l@.map_values(|x: Permission| x@), target, p as int);
                }
                return Err(p);
            },
        }
    }
    proof {
        lemma_perm_list_absent(l@.map_values(|x: Permission| x@), target, p as int);
    }
    Err(p)
}

/// The pair order on permissions is transitive.
proof fn lemma_perm_lt_transitive(a: PermissionV, b: PermissionV, c: PermissionV)
    requires
        perm_lt(a, b),
        perm_lt(b, c),
    ensures
        perm_lt(a, c),
{
    if lex_lt(a.key, b.key) && lex_lt(b.key, c.key) {
        lemma_lex_transitive(a.key, b.key, c.key);
    } else if a.key == b.key && b.key == c.key {
        lemma_lex_transitive(a.range_end, b.range_end, c.range_end);
    }
}

/// In a permission list whose first `p` entries come before the target
/// pair and whose `p`-th comes after, the exact pair is absent.
proof fn lemma_perm_list_absent(l: Seq<PermissionV>, target: PermissionV, p: int)
    requires
        0 <= p <= l.len(),
        forall|i: int, j: int| 0 <= i < j < l.len() ==> perm_lt(#[trigger] l[i], #[trigger] l[j]),
        forall|j: int| 0 <= j < p ==> perm_lt(#[trigger] l[j], target),
        p < l.len() ==> perm_lt(target, l[p]),
    ensures
        !has_perm(l, target.key, target.range_end),
{
    assert forall|j: int|
        0 <= j < l.len() implies !((#[trigger] l[j]).key == target.key && l[j].range_end
        == target.range_end) by {
        if j < p {
            lemma_lex_trichotomy(l[j].key, target.key);
            lemma_lex_trichotomy(l[j].range_end, target.range_end);
        } else {
            if j > p {
                assert(perm_lt(l[p], l[j]));
                lemma_perm_lt_transitive(target, l[p], l[j]);
            }
            lemma_lex_trichotomy(target.key, l[j].key);
            lemma_lex_trichotomy(target.range_end, l[j].range_end);
        }
    }
}

impl AuthStoreBackend {
    /// Check a password for login: auth must be on, the user must exist
    /// and take a password, the stored hash must parse and the password
    /// must match it; on success the current revision comes back.
    pub fn check_password(&self, username: &Vec<u8>, password: &Vec<u8>) -> (r: Result<
        i64,
        ExecuteError,
    >)
        requires
            self.wf(),
        ensures
            match r {
                Ok(rev) => {
                    &&& rev == self.rev_v()
                    &&& self.enabled_v()
                    &&& find_user(self.users_v(), username@) matches Some(u)
                        && u.need_password() && phc_parses(u.password) && pbkdf2_matches(
                        password@,
                        u.password,
                    )
                },
                Err(e) => {
                    if !self.enabled_v() {
                        e == ExecuteError::AuthNotEnabled
                    } else {
                        match find_user(self.users_v(), username@) {
                            None => e == ExecuteError::UserNotFound,
                            Some(u) => if !u.need_password() {
                                e == ExecuteError::NoPasswordUser
                            } else if !phc_parses(u.password) {
                                e == ExecuteError::InvalidPasswordHash
                            } else {
                                e == ExecuteError::PasswordWrong && !pbkdf2_matches(
                                    password@,
                                    u.password,
                                )
                            },
                        }
                    }
                },
            },
    {
        if !self.is_enabled() {
            return Err(ExecuteError::AuthNotEnabled);
        }
        let user = match self.get_user(username) {
            Ok(u) => u,
            Err(e) => {
                return Err(e);
            },
        };
        let need_password = match user.options {
            Some(o) => !o.no_password,
            None => true,
        };
        if !need_password {
            return Err(ExecuteError::NoPasswordUser);
        }
        match crate::token::pbkdf2_verify(password, &user.password) {
            None => Err(ExecuteError::InvalidPasswordHash),
            Some(true) => Ok(self.revision.get()),
            Some(false) => Err(ExecuteError::PasswordWrong),
        }
    }

    /// Issue a token for `username` bound to the current revision.
    pub fn assign(&self, username: &Vec<u8>) -> (r: Result<String, ExecuteError>)
        ensures
            match r {
                Ok(t) => self.has_token_manager() && exists|e: int|
                    t@ == jwt_token(self.token_secret(), username@, self.rev_v() as int, e),
                Err(e) => e == ExecuteError::TokenManagerNotInitialized && !self.has_token_manager()
                    || e == ExecuteError::AssignTokenError && self.has_token_manager(),
            },
    {
        match &self.token_manager {
            Some(tm) => {
                proof {
                    assert(tm.secret_view() == self.token_secret());
                }
                match tm.assign(username, self.revision.get()) {
                    Some(t) => {
                        proof {
                            let e = choose|e: int|
                                t@ == jwt_token(
                                    tm.secret_view(),
                                    username@,
                                    self.rev_v() as int,
                                    e,
                                );
                            assert(t@ == jwt_token(
                                self.token_secret(),
                                username@,
                                self.rev_v() as int,
                                e,
                            ));
                        }
                        Ok(t)
                    },
                    None => Err(ExecuteError::AssignTokenError),
                }
            },
            None => Err(ExecuteError::TokenManagerNotInitialized),
        }
    }

    /// Verify a token; the claims come back when the signature checks out
    /// and the token has not expired.
    pub fn verify_token(&self, token: &String) -> (r: Result<TokenClaims, ExecuteError>)
        ensures
            r is Ok ==> self.has_token_manager(),
            !self.has_token_manager() ==> r == Err::<TokenClaims, _>(
                ExecuteError::TokenManagerNotInitialized,
            ),
    {
        match &self.token_manager {
            Some(tm) => match tm.verify(token) {
                Some(c) => Ok(c),
                None => Err(ExecuteError::InvalidToken),
            },
            None => Err(ExecuteError::TokenManagerNotInitialized),
        }
    }

    /// Copy out the cached effective permissions of `username`.
    pub fn get_user_permissions_from_cache(&self, username: &Vec<u8>) -> (r: Result<
        UserPermissions,
        ExecuteError,
    >)
        ensures
            match r {
                Ok(p) => alist_lookup(self.cache_v().up, username@) == Some(p@),
                Err(e) => e == ExecuteError::UserPermissionsNotFound && alist_lookup(
                    self.cache_v().up,
                    username@,
                ) is None,
            },
    {
        match self.permission_cache.read(username) {
            Some(p) => Ok(p),
            None => Err(ExecuteError::UserPermissionsNotFound),
        }
    }

    /// Copy out the users the cache lists for `role`.
    pub fn cached_role_users(&self, role: &Vec<u8>) -> (r: Vec<Vec<u8>>)
        ensures
            r@.map_values(|n: Vec<u8>| n@) == crate::perms::rtu_users_of(self.cache_v(), role@),
    {
        self.permission_cache.rtu_get(role)
    }

    /// The effective permissions of `user`, recomputed from the stored
    /// roles: the expansion of every role it holds, missing roles skipped.
    pub fn get_user_permissions(&self, user: &User) -> (r: UserPermissions)
        requires
            self.wf(),
        ensures
            r@.read == user_read_seq(user@.roles, self.roles_v()),
            r@.write == user_write_seq(user@.roles, self.roles_v()),
    {
        let mut perms = UserPermissions::new();
        let ghost rs = user@.roles;
        let mut i: usize = 0;
        proof {
            assert(rs.take(0) =~= Seq::<Seq<u8>>::empty());
            assert(perms@.read =~= user_read_seq(rs.take(0), self.roles_v()));
            assert(perms@.write =~= user_write_seq(rs.take(0), self.roles_v()));
        }
        while i < user.roles.len()
            invariant
                0 <= i <= user.roles@.len(),
                rs == user@.roles,
                rs.len() == user.roles@.len(),
                self.wf(),
                perms@.read == user_read_seq(rs.take(i as int), self.roles_v()),
                perms@.write == user_write_seq(rs.take(i as int), self.roles_v()),
            decreases user.roles@.len() - i,
        {
            proof {
                assert(rs[i as int] == user.roles@[i as int]@);
                assert(rs.take(i + 1) =~= rs.take(i as int).push(rs[i as int]));
                lemma_user_seq_push(rs.take(i as int), rs[i as int], self.roles_v());
            }
            match self.get_role(&user.roles[i]) {
                Ok(role) => {
                    crate::perms::push_expanded(&mut perms, &role.key_permission);
                    proof {
                        assert(role@.key_permission == find_role(
                            self.roles_v(),
                            rs[i as int],
                        ).unwrap().key_permission);
                    }
                },
                Err(_) => {
                    proof {
                        assert(perms@.read =~= user_read_seq(rs.take(i + 1), self.roles_v()));
                        assert(perms@.write =~= user_write_seq(rs.take(i + 1), self.roles_v()));
                    }
                },
            }
            i = i + 1;
        }
        proof {
            assert(rs.take(rs.len() as int) =~= rs);
        }
        perms
    }

    /// Record an execute outcome in the speculative pool, replacing any
    /// entry with the same proposal id.
    fn pool_insert(&mut self, id: u64, ctx: RequestCtx)
        requires
            crate::perms::alist_unique(old(self).pool_v()),
        ensures
            crate::perms::alist_unique(final(self).pool_v()),
            alist_lookup(final(self).pool_v(), id) == Some(ctx),
            forall|k: u64|
                k != id ==> alist_lookup(final(self).pool_v(), k) == alist_lookup(
                    old(self).pool_v(),
                    k,
                ),
            final(self).users_v() == old(self).users_v(),
            final(self).roles_v() == old(self).roles_v(),
            final(self).enabled_v() == old(self).enabled_v(),
            final(self).rev_v() == old(self).rev_v(),
            final(self).cache_v() == old(self).cache_v(),
            final(self).index_v() == old(self).index_v(),
            final(self).db_v() == old(self).db_v(),
            final(self).has_token_manager() == old(self).has_token_manager(),
            final(self).token_secret() == old(self).token_secret(),
    {
        let mut p: usize = 0;
        let n = self.sp_exec_pool.len();
        while p < n
            invariant
                0 <= p <= n,
                n == self.pool_v().len(),
                self == old(self),
                crate::perms::alist_unique(self.pool_v()),
                forall|j: int| 0 <= j < p ==> (#[trigger] self.pool_v()[j]).0 != id,
            decreases n - p,
        {
            if self.sp_exec_pool[p].0 == id {
                proof {
                    crate::perms::lemma_alist_remove(self.pool_v(), id, p as int);
                }
                let _old = self.sp_exec_pool.remove(p);
                let ghost mid = self.pool_v();
                proof {
                    crate::perms::lemma_alist_none_inv(mid, id);
                    crate::perms::lemma_alist_push(mid, id, ctx);
                    assert(mid =~= old(self).pool_v().remove(p as int));
                }
                self.sp_exec_pool.push((id, ctx));
                proof {
                    assert(self.pool_v() =~= mid.push((id, ctx)));
                }
                return;
            }
            p = p + 1;
        }
        proof {
            crate::perms::lemma_alist_push(self.pool_v(), id, ctx);
        }
        self.sp_exec_pool.push((id, ctx));
        proof {
            assert(self.pool_v() =~= old(self).pool_v().push((id, ctx)));
        }
    }

    /// The execute phase: validate `wrapper` against the current state,
    /// record the outcome in the speculative pool under `id`, and return
    /// the response. Nothing but the pool changes; the response and error
    /// are exactly what [`spec_execute_err`] and the per-request payloads
    /// below say.
    pub fn handle_auth_req(&mut self, id: u64, wrapper: RequestWrapper) -> (r: Result<
        ResponseWrapper,
        ExecuteError,
    >)
        requires
            old(self).wf(),
            crate::perms::alist_unique(old(self).pool_v()),
        ensures
            final(self).wf(),
            crate::perms::alist_unique(final(self).pool_v()),
            final(self).users_v() == old(self).users_v(),
            final(self).roles_v() == old(self).roles_v(),
            final(self).enabled_v() == old(self).enabled_v(),
            final(self).rev_v() == old(self).rev_v(),
            final(self).cache_v() == old(self).cache_v(),
            final(self).index_v() == old(self).index_v(),
            final(self).db_v() == old(self).db_v(),
            final(self).has_token_manager() == old(self).has_token_manager(),
            final(self).token_secret() == old(self).token_secret(),
            alist_lookup(final(self).pool_v(), id) matches Some(ctx) && ctx.req == wrapper
                && ctx.err == r is Err,
            forall|k: u64|
                k != id ==> alist_lookup(final(self).pool_v(), k) == alist_lookup(
                    old(self).pool_v(),
                    k,
                ),
            match spec_execute_err(
                old(self).users_v(),
                old(self).roles_v(),
                old(self).enabled_v(),
                old(self).has_token_manager(),
                wrapper,
            ) {
                Some(e) => r == Err::<ResponseWrapper, ExecuteError>(e),
                None => r is Ok || (wrapper is AuthenticateRequest && r
                    == Err::<ResponseWrapper, ExecuteError>(ExecuteError::AssignTokenError)),
            },
            r matches Ok(resp) ==> match wrapper {
                RequestWrapper::AuthStatusRequest => resp matches
                    ResponseWrapper::AuthStatusResponse { auth_revision, enabled }
                    && auth_revision == old(self).rev_v() && enabled == old(self).enabled_v(),
                RequestWrapper::AuthenticateRequest { name } => resp matches
                    ResponseWrapper::AuthenticateResponse { token } && exists|e: int|
                    token@ == jwt_token(
                        old(self).token_secret(),
                        name@,
                        old(self).rev_v() as int,
                        e,
                    ),
                RequestWrapper::AuthUserGetRequest { name } => resp matches
                    ResponseWrapper::AuthUserGetResponse { roles } && roles@.map_values(
                    |x: Vec<u8>| x@,
                ) == find_user(old(self).users_v(), name@).unwrap().roles,
                RequestWrapper::AuthUserListRequest => resp matches
                    ResponseWrapper::AuthUserListResponse { users } && users@.map_values(
                    |x: Vec<u8>| x@,
                ) == old(self).users_v().map_values(|u: UserV| u.name),
                RequestWrapper::AuthRoleGetRequest { role } => resp matches
                    ResponseWrapper::AuthRoleGetResponse { perm } && (if role@ == root_spec() {
                    perm@.map_values(|x: Permission| x@) == seq![
                        PermissionV {
                            perm_type: Type::Readwrite,
                            key: Seq::empty(),
                            range_end: seq![0u8],
                        },
                    ]
                } else {
                    perm@.map_values(|x: Permission| x@) == find_role(
                        old(self).roles_v(),
                        role@,
                    ).unwrap().key_permission
                }),
                RequestWrapper::AuthRoleListRequest => resp matches
                    ResponseWrapper::AuthRoleListResponse { roles } && roles@.map_values(
                    |x: Vec<u8>| x@,
                ) == old(self).roles_v().map_values(|x: RoleV| x.name),
                RequestWrapper::AuthEnableRequest => resp == ResponseWrapper::AuthEnableResponse,
                RequestWrapper::AuthDisableRequest => resp
                    == ResponseWrapper::AuthDisableResponse,
                RequestWrapper::AuthUserAddRequest { .. } => resp
                    == ResponseWrapper::AuthUserAddResponse,
                RequestWrapper::AuthUserDeleteRequest { .. } => resp
                    == ResponseWrapper::AuthUserDeleteResponse,
                RequestWrapper::AuthUserChangePasswordRequest { .. } => resp
                    == ResponseWrapper::AuthUserChangePasswordResponse,
                RequestWrapper::AuthUserGrantRoleRequest { .. } => resp
                    == ResponseWrapper::AuthUserGrantRoleResponse,
                RequestWrapper::AuthUserRevokeRoleRequest { .. } => resp
                    == ResponseWrapper::AuthUserRevokeRoleResponse,
                RequestWrapper::AuthRoleAddRequest { .. } => resp
                    == ResponseWrapper::AuthRoleAddResponse,
                RequestWrapper::AuthRoleDeleteRequest { .. } => resp
                    == ResponseWrapper::AuthRoleDeleteResponse,
                RequestWrapper::AuthRoleGrantPermissionRequest { .. } => resp
                    == ResponseWrapper::AuthRoleGrantPermissionResponse,
                RequestWrapper::AuthRoleRevokePermissionRequest { .. } => resp
                    == ResponseWrapper::AuthRoleRevokePermissionResponse,
            },
    {
        let res: Result<ResponseWrapper, ExecuteError> = match &wrapper {
            RequestWrapper::AuthEnableRequest => self.handle_auth_enable_request(),
            RequestWrapper::AuthDisableRequest => Ok(ResponseWrapper::AuthDisableResponse),
            RequestWrapper::AuthStatusRequest => Ok(
                ResponseWrapper::AuthStatusResponse {
                    auth_revision: self.revision.get(),
                    enabled: self.enabled,
                },
            ),
            RequestWrapper::AuthenticateRequest { name } => self.handle_authenticate_request(
                name,
            ),
            RequestWrapper::AuthUserAddRequest { name, .. } => self.handle_user_add_request(name),
            RequestWrapper::AuthUserGetRequest { name } => self.handle_user_get_request(name),
            RequestWrapper::AuthUserListRequest => self.handle_user_list_request(),
            RequestWrapper::AuthUserDeleteRequest { name } => self.handle_user_delete_request(
                name,
            ),
            RequestWrapper::AuthUserChangePasswordRequest { name, hashed_password } => self
                .handle_user_change_password_request(name, hashed_password),
            RequestWrapper::AuthUserGrantRoleRequest { user, role } => self
                .handle_user_grant_role_request(user, role),
            RequestWrapper::AuthUserRevokeRoleRequest { name, role } => self
                .handle_user_revoke_role_request(name, role),
            RequestWrapper::AuthRoleAddRequest { name } => self.handle_role_add_request(name),
            RequestWrapper::AuthRoleGetRequest { role } => self.handle_role_get_request(role),
            RequestWrapper::AuthRoleListRequest => self.handle_role_list_request(),
            RequestWrapper::AuthRoleDeleteRequest { role } => self.handle_role_delete_request(
                role,
            ),
            RequestWrapper::AuthRoleGrantPermissionRequest { name, perm } => self
                .handle_role_grant_permission_request(name, perm),
            RequestWrapper::AuthRoleRevokePermissionRequest { role, key, range_end } => self
                .handle_role_revoke_permission_request(role, key, range_end),
        };
        let err = res.is_err();
        self.pool_insert(id, RequestCtx { req: wrapper, err });
        res
    }

    /// Enable validation: the root user must exist and hold the root role.
    fn handle_auth_enable_request(&self) -> (r: Result<ResponseWrapper, ExecuteError>)
        requires
            self.wf(),
        ensures
            match spec_execute_err(
                self.users_v(),
                self.roles_v(),
                self.enabled_v(),
                self.has_token_manager(),
                RequestWrapper::AuthEnableRequest,
            ) {
                Some(e) => r == Err::<ResponseWrapper, ExecuteError>(e),
                None => r == Ok::<ResponseWrapper, ExecuteError>(
                    ResponseWrapper::AuthEnableResponse,
                ),
            },
    {
        if self.is_enabled() {
            return Ok(ResponseWrapper::AuthEnableResponse);
        }
        let root = root_bytes();
        let user = match self.get_user(&root) {
            Ok(u) => u,
            Err(e) => {
                return Err(e);
            },
        };
        proof {
            assert(user@.roles_sorted()) by {
                assert(find_user(self.users_v(), root_spec()) == Some(user@));
                lemma_find_user_mem(self.users_v(), root_spec());
                let m = choose|m: int|
                    0 <= m < self.users_v().len() && self.users_v()[m] == user@;
                assert(self.users_v()[m].roles_sorted());
            }
            assert forall|i: int, j: int|
                0 <= i < j < user.roles@.len() implies lex_lt(
                (#[trigger] user.roles@[i])@,
                (#[trigger] user.roles@[j])@,
            ) by {
                assert(user@.roles[i] == user.roles@[i]@);
                assert(user@.roles[j] == user.roles@[j]@);
            }
        }
        match search_name_list(&user.roles, &root) {
            Ok(i) => {
                proof {
                    assert(user@.roles[i as int] == root_spec());
                    assert(user@.roles.contains(root_spec()));
                }
                Ok(ResponseWrapper::AuthEnableResponse)
            },
            Err(_) => {
                proof {
                    assert(!user@.roles.contains(root_spec()));
                }
                Err(ExecuteError::RootUserHasNoRootRole)
            },
        }
    }

    /// Authenticate validation: auth must be on; then a token is issued.
    fn handle_authenticate_request(&self, name: &Vec<u8>) -> (r: Result<
        ResponseWrapper,
        ExecuteError,
    >)
        ensures
            !self.enabled_v() ==> r == Err::<ResponseWrapper, ExecuteError>(
                ExecuteError::AuthNotEnabled,
            ),
            self.enabled_v() && !self.has_token_manager() ==> r == Err::<
                ResponseWrapper,
                ExecuteError,
            >(ExecuteError::TokenManagerNotInitialized),
            self.enabled_v() && self.has_token_manager() ==> (match r {
                Ok(resp) => resp matches ResponseWrapper::AuthenticateResponse { token } && exists|
                    e: int,
                |
                    token@ == jwt_token(self.token_secret(), name@, self.rev_v() as int, e),
                Err(e) => e == ExecuteError::AssignTokenError,
            }),
    {
        if !self.is_enabled() {
            return Err(ExecuteError::AuthNotEnabled);
        }
        match self.assign(name) {
            Ok(token) => Ok(ResponseWrapper::AuthenticateResponse { token }),
            Err(e) => Err(e),
        }
    }

    /// User-add validation: the user must not exist yet.
    fn handle_user_add_request(&self, name: &Vec<u8>) -> (r: Result<
        ResponseWrapper,
        ExecuteError,
    >)
        requires
            self.wf(),
        ensures
            r == if find_user(self.users_v(), name@) is Some {
                Err::<ResponseWrapper, ExecuteError>(ExecuteError::UserAlreadyExists)
            } else {
                Ok::<ResponseWrapper, ExecuteError>(ResponseWrapper::AuthUserAddResponse)
            },
    {
        match self.get_user(name) {
            Ok(_) => Err(ExecuteError::UserAlreadyExists),
            Err(_) => Ok(ResponseWrapper::AuthUserAddResponse),
        }
    }

    /// User-get validation: the user must exist; its roles come back.
    fn handle_user_get_request(&self, name: &Vec<u8>) -> (r: Result<
        ResponseWrapper,
        ExecuteError,
    >)
        requires
            self.wf(),
        ensures
            match find_user(self.users_v(), name@) {
                None => r == Err::<ResponseWrapper, ExecuteError>(ExecuteError::UserNotFound),
                Some(u) => r matches Ok(resp) && resp matches
                    ResponseWrapper::AuthUserGetResponse { roles } && roles@.map_values(
                    |x: Vec<u8>| x@,
                ) == u.roles,
            },
    {
        match self.get_user(name) {
            Ok(u) => Ok(ResponseWrapper::AuthUserGetResponse { roles: u.roles }),
            Err(e) => Err(e),
        }
    }

    /// List all user names, in key order.
    fn handle_user_list_request(&self) -> (r: Result<ResponseWrapper, ExecuteError>)
        requires
            self.wf(),
        ensures
            r matches Ok(resp) && resp matches ResponseWrapper::AuthUserListResponse { users }
                && users@.map_values(|x: Vec<u8>| x@) == self.users_v().map_values(
                |u: UserV| u.name,
            ),
    {
        let mut users: Vec<Vec<u8>> = Vec::new();
        let mut i: usize = 0;
        while i < self.users.len()
            invariant
                0 <= i <= self.users@.len(),
                users@.len() == i,
                forall|k: int| 0 <= k < i ==> (#[trigger] users@[k])@ == self.users@[k].name@,
            decreases self.users@.len() - i,
        {
            let n = clone_bytes(&self.users[i].name);
            users.push(n);
            i = i + 1;
        }
        proof {
            assert(users@.map_values(|x: Vec<u8>| x@) =~= self.users_v().map_values(
                |u: UserV| u.name,
            ));
        }
        Ok(ResponseWrapper::AuthUserListResponse { users })
    }

    /// User-delete validation: root is protected while enabled; the user
    /// must exist.
    fn handle_user_delete_request(&self, name: &Vec<u8>) -> (r: Result<
        ResponseWrapper,
        ExecuteError,
    >)
        requires
            self.wf(),
        ensures
            r == if self.enabled_v() && name@ == root_spec() {
                Err::<ResponseWrapper, ExecuteError>(ExecuteError::RootUserUndeletable)
            } else if find_user(self.users_v(), name@) is None {
                Err::<ResponseWrapper, ExecuteError>(ExecuteError::UserNotFound)
            } else {
                Ok::<ResponseWrapper, ExecuteError>(ResponseWrapper::AuthUserDeleteResponse)
            },
    {
        let root = root_bytes();
        if self.is_enabled() && bytes_eq(name, &root) {
            return Err(ExecuteError::RootUserUndeletable);
        }
        match self.get_user(name) {
            Ok(_) => Ok(ResponseWrapper::AuthUserDeleteResponse),
            Err(e) => Err(e),
        }
    }

    /// Change-password validation: the user must exist, and a user that
    /// takes a password must be given a non-empty hash.
    fn handle_user_change_password_request(&self, name: &Vec<u8>, hashed_password: &Vec<u8>) -> (r:
        Result<ResponseWrapper, ExecuteError>)
        requires
            self.wf(),
        ensures
            match find_user(self.users_v(), name@) {
                None => r == Err::<ResponseWrapper, ExecuteError>(ExecuteError::UserNotFound),
                Some(u) => r == if u.need_password() && hashed_password@.len() == 0 {
                    Err::<ResponseWrapper, ExecuteError>(ExecuteError::PasswordRequired)
                } else {
                    Ok::<ResponseWrapper, ExecuteError>(
                        ResponseWrapper::AuthUserChangePasswordResponse,
                    )
                },
            },
    {
        let user = match self.get_user(name) {
            Ok(u) => u,
            Err(e) => {
                return Err(e);
            },
        };
        let need_password = match user.options {
            Some(o) => !o.no_password,
            None => true,
        };
        if need_password && hashed_password.len() == 0 {
            return Err(ExecuteError::PasswordRequired);
        }
        Ok(ResponseWrapper::AuthUserChangePasswordResponse)
    }

    /// Grant-role validation: the user must exist, and the role too unless
    /// it is the root role.
    fn handle_user_grant_role_request(&self, user: &Vec<u8>, role: &Vec<u8>) -> (r: Result<
        ResponseWrapper,
        ExecuteError,
    >)
        requires
            self.wf(),
        ensures
            r == if find_user(self.users_v(), user@) is None {
                Err::<ResponseWrapper, ExecuteError>(ExecuteError::UserNotFound)
            } else if role@ != root_spec() && find_role(self.roles_v(), role@) is None {
                Err::<ResponseWrapper, ExecuteError>(ExecuteError::RoleNotFound)
            } else {
                Ok::<ResponseWrapper, ExecuteError>(ResponseWrapper::AuthUserGrantRoleResponse)
            },
    {
        if let Err(e) = self.get_user(user) {
            return Err(e);
        }
        let root = root_bytes();
        if !bytes_eq(role, &root) {
            if let Err(e) = self.get_role(role) {
                return Err(e);
            }
        }
        Ok(ResponseWrapper::AuthUserGrantRoleResponse)
    }

    /// Revoke-role validation: the root role is protected on the root user
    /// while enabled; the user must exist and hold the role.
    fn handle_user_revoke_role_request(&self, name: &Vec<u8>, role: &Vec<u8>) -> (r: Result<
        ResponseWrapper,
        ExecuteError,
    >)
        requires
            self.wf(),
        ensures
            r == (if self.enabled_v() && name@ == root_spec() && role@ == root_spec() {
                Err::<ResponseWrapper, ExecuteError>(ExecuteError::RootRoleUnrevocable)
            } else {
                match find_user(self.users_v(), name@) {
                    None => Err::<ResponseWrapper, ExecuteError>(ExecuteError::UserNotFound),
                    Some(u) => if !u.roles.contains(role@) {
                        Err::<ResponseWrapper, ExecuteError>(ExecuteError::UserDoesNotHaveRole)
                    } else {
                        Ok::<ResponseWrapper, ExecuteError>(
                            ResponseWrapper::AuthUserRevokeRoleResponse,
                        )
                    },
                }
            }),
    {
        let root = root_bytes();
        if self.is_enabled() && bytes_eq(name, &root) && bytes_eq(role, &root) {
            return Err(ExecuteError::RootRoleUnrevocable);
        }
        let user = match self.get_user(name) {
            Ok(u) => u,
            Err(e) => {
                return Err(e);
            },
        };
        proof {
            assert(user@.roles_sorted()) by {
                lemma_find_user_mem(self.users_v(), name@);
                let m = choose|m: int|
                    0 <= m < self.users_v().len() && self.users_v()[m] == user@;
                assert(self.users_v()[m].roles_sorted());
            }
            assert forall|i: int, j: int|
                0 <= i < j < user.roles@.len() implies lex_lt(
                (#[trigger] user.roles@[i])@,
                (#[trigger] user.roles@[j])@,
            ) by {
                assert(user@.roles[i] == user.roles@[i]@);
                assert(user@.roles[j] == user.roles@[j]@);
            }
        }
        match search_name_list(&user.roles, role) {
            Ok(i) => {
                proof {
                    assert(user@.roles[i as int] == role@);
                    assert(user@.roles.contains(role@));
                }
                Ok(ResponseWrapper::AuthUserRevokeRoleResponse)
            },
            Err(_) => {
                proof {
                    assert(!user@.roles.contains(role@));
                }
                Err(ExecuteError::UserDoesNotHaveRole)
            },
        }
    }

    /// Role-add validation: the role must not exist yet.
    fn handle_role_add_request(&self, name: &Vec<u8>) -> (r: Result<
        ResponseWrapper,
        ExecuteError,
    >)
        requires
            self.wf(),
        ensures
            r == if find_role(self.roles_v(), name@) is Some {
                Err::<ResponseWrapper, ExecuteError>(ExecuteError::RoleAlreadyExists)
            } else {
                Ok::<ResponseWrapper, ExecuteError>(ResponseWrapper::AuthRoleAddResponse)
            },
    {
        match self.get_role(name) {
            Ok(_) => Err(ExecuteError::RoleAlreadyExists),
            Err(_) => Ok(ResponseWrapper::AuthRoleAddResponse),
        }
    }

    /// Role-get validation: the role must exist; the root role reads as a
    /// synthesized read-write grant over all keys.
    fn handle_role_get_request(&self, role: &Vec<u8>) -> (r: Result<
        ResponseWrapper,
        ExecuteError,
    >)
        requires
            self.wf(),
        ensures
            match find_role(self.roles_v(), role@) {
                None => r == Err::<ResponseWrapper, ExecuteError>(ExecuteError::RoleNotFound),
                Some(ro) => r matches Ok(resp) && resp matches
                    ResponseWrapper::AuthRoleGetResponse { perm } && (if role@ == root_spec() {
                    perm@.map_values(|x: Permission| x@) == seq![
                        PermissionV {
                            perm_type: Type::Readwrite,
                            key: Seq::empty(),
                            range_end: seq![0u8],
                        },
                    ]
                } else {
                    perm@.map_values(|x: Permission| x@) == ro.key_permission
                }),
            },
    {
        let ro = match self.get_role(role) {
            Ok(x) => x,
            Err(e) => {
                return Err(e);
            },
        };
        let root = root_bytes();
        if bytes_eq(&ro.name, &root) {
            proof {
                assert(ro@.name == role@) by {
                    lemma_find_role_name(self.roles_v(), role@);
                }
            }
            let mut range_end: Vec<u8> = Vec::new();
            range_end.push(0);
            let perm = Permission { perm_type: Type::Readwrite, key: Vec::new(), range_end };
            let mut perms: Vec<Permission> = Vec::new();
            proof {
                assert(perm@.key =~= Seq::<u8>::empty());
                assert(perm@.range_end =~= seq![0u8]);
            }
            perms.push(perm);
            proof {
                assert(perms@.map_values(|x: Permission| x@) =~= seq![
                    PermissionV {
                        perm_type: Type::Readwrite,
                        key: Seq::empty(),
                        range_end: seq![0u8],
                    },
                ]);
            }
            Ok(ResponseWrapper::AuthRoleGetResponse { perm: perms })
        } else {
            proof {
                assert(ro@.name == role@) by {
                    lemma_find_role_name(self.roles_v(), role@);
                }
            }
            Ok(ResponseWrapper::AuthRoleGetResponse { perm: ro.key_permission })
        }
    }

    /// List all role names, in key order.
    fn handle_role_list_request(&self) -> (r: Result<ResponseWrapper, ExecuteError>)
        requires
            self.wf(),
        ensures
            r matches Ok(resp) && resp matches ResponseWrapper::AuthRoleListResponse { roles }
                && roles@.map_values(|x: Vec<u8>| x@) == self.roles_v().map_values(
                |x: RoleV| x.name,
            ),
    {
        let mut roles: Vec<Vec<u8>> = Vec::new();
        let mut i: usize = 0;
        while i < self.roles.len()
            invariant
                0 <= i <= self.roles@.len(),
                roles@.len() == i,
                forall|k: int| 0 <= k < i ==> (#[trigger] roles@[k])@ == self.roles@[k].name@,
            decreases self.roles@.len() - i,
        {
            let n = clone_bytes(&self.roles[i].name);
            roles.push(n);
            i = i + 1;
        }
        proof {
            assert(roles@.map_values(|x: Vec<u8>| x@) =~= self.roles_v().map_values(
                |x: RoleV| x.name,
            ));
        }
        Ok(ResponseWrapper::AuthRoleListResponse { roles })
    }

    /// Role-delete validation: the root role is protected while enabled;
    /// the role must exist.
    fn handle_role_delete_request(&self, role: &Vec<u8>) -> (r: Result<
        ResponseWrapper,
        ExecuteError,
    >)
        requires
            self.wf(),
        ensures
            r == if self.enabled_v() && role@ == root_spec() {
                Err::<ResponseWrapper, ExecuteError>(ExecuteError::RootRoleUndeletable)
            } else if find_role(self.roles_v(), role@) is None {
                Err::<ResponseWrapper, ExecuteError>(ExecuteError::RoleNotFound)
            } else {
                Ok::<ResponseWrapper, ExecuteError>(ResponseWrapper::AuthRoleDeleteResponse)
            },
    {
        let root = root_bytes();
        if self.is_enabled() && bytes_eq(role, &root) {
            return Err(ExecuteError::RootRoleUndeletable);
        }
        match self.get_role(role) {
            Ok(_) => Ok(ResponseWrapper::AuthRoleDeleteResponse),
            Err(e) => Err(e),
        }
    }

    /// Grant-permission validation: the role must exist and the permission
    /// must be given.
    fn handle_role_grant_permission_request(&self, name: &Vec<u8>, perm: &Option<Permission>) -> (r:
        Result<ResponseWrapper, ExecuteError>)
        requires
            self.wf(),
        ensures
            r == if find_role(self.roles_v(), name@) is None {
                Err::<ResponseWrapper, ExecuteError>(ExecuteError::RoleNotFound)
            } else if perm is None {
                Err::<ResponseWrapper, ExecuteError>(ExecuteError::PermissionNotGiven)
            } else {
                Ok::<ResponseWrapper, ExecuteError>(
                    ResponseWrapper::AuthRoleGrantPermissionResponse,
                )
            },
    {
        if let Err(e) = self.get_role(name) {
            return Err(e);
        }
        if perm.is_none() {
            return Err(ExecuteError::PermissionNotGiven);
        }
        Ok(ResponseWrapper::AuthRoleGrantPermissionResponse)
    }

    /// Revoke-permission validation: the role must exist and hold the
    /// exact `(key, range_end)` permission.
    fn handle_role_revoke_permission_request(
        &self,
        role: &Vec<u8>,
        key: &Vec<u8>,
        range_end: &Vec<u8>,
    ) -> (r: Result<ResponseWrapper, ExecuteError>)
        requires
            self.wf(),
        ensures
            match find_role(self.roles_v(), role@) {
                None => r == Err::<ResponseWrapper, ExecuteError>(ExecuteError::RoleNotFound),
                Some(ro) => r == if has_perm(ro.key_permission, key@, range_end@) {
                    Ok::<ResponseWrapper, ExecuteError>(
                        ResponseWrapper::AuthRoleRevokePermissionResponse,
                    )
                } else {
                    Err::<ResponseWrapper, ExecuteError>(ExecuteError::PermissionNotGranted)
                },
            },
    {
        let ro = match self.get_role(role) {
            Ok(x) => x,
            Err(e) => {
                return Err(e);
            },
        };
        proof {
            assert(ro@.perms_sorted()) by {
                lemma_find_role_mem(self.roles_v(), role@);
                let m = choose|m: int|
                    0 <= m < self.roles_v().len() && self.roles_v()[m] == ro@;
                assert(self.roles_v()[m].perms_sorted());
            }
            assert forall|i: int, j: int|
                0 <= i < j < ro.key_permission@.len() implies perm_lt(
                (#[trigger] ro.key_permission@[i])@,
                (#[trigger] ro.key_permission@[j])@,
            ) by {
                assert(ro@.key_permission[i] == ro.key_permission@[i]@);
                assert(ro@.key_permission[j] == ro.key_permission@[j]@);
            }
        }
        match search_perms(&ro.key_permission, key, range_end) {
            Ok(i) => {
                proof {
                    assert(ro@.key_permission[i as int].key == key@);
                    assert(has_perm(ro@.key_permission, key@, range_end@));
                }
                Ok(ResponseWrapper::AuthRoleRevokePermissionResponse)
            },
            Err(_) => Err(ExecuteError::PermissionNotGranted),
        }
    }
}

/// The contribution of the first `j` roles of `u` to role `rn`'s user
/// list: one occurrence of `u`'s name when `rn` is among them.
pub open spec fn role_part(u: UserV, j: int, rn: Seq<u8>) -> Multiset<Seq<u8>> {
    if u.roles.take(j).contains(rn) {
        Multiset::empty().insert(u.name)
    } else {
        Multiset::empty()
    }
}

/// How many of the first `k` users hold `role`.
pub open spec fn holders_before(us: Seq<UserV>, role: Seq<u8>, k: int) -> int
    decreases k,
{
    if k <= 0 {
        0
    } else {
        holders_before(us, role, k - 1) + (if us[k - 1].roles.contains(role) {
            1int
        } else {
            0int
        })
    }
}

/// Extending a user list extends each role's holders by the new user's
/// contribution.
pub proof fn lemma_holders_push(us: Seq<UserV>, u: UserV)
    ensures
        forall|rn: Seq<u8>|
            crate::perms::holders_ms(us.push(u), rn) == crate::perms::holders_ms(us, rn).add(
                #[trigger] crate::perms::holders_ms(seq![u], rn),
            ),
        forall|rn: Seq<u8>|
            #[trigger] crate::perms::holders_ms(seq![u], rn) == (if u.roles.contains(rn) {
                Multiset::empty().insert(u.name)
            } else {
                Multiset::<Seq<u8>>::empty()
            }),
    decreases us.len(),
{
    broadcast use vstd::multiset::group_multiset_axioms;

    assert forall|rn: Seq<u8>|
        #[trigger] crate::perms::holders_ms(seq![u], rn) == (if u.roles.contains(rn) {
            Multiset::empty().insert(u.name)
        } else {
            Multiset::<Seq<u8>>::empty()
        }) by {
        assert(seq![u].skip(1).len() == 0);
        assert(crate::perms::holders_ms(seq![u].skip(1), rn) =~= Multiset::<Seq<u8>>::empty());
        if u.roles.contains(rn) {
            assert(crate::perms::holders_ms(seq![u], rn) =~= Multiset::empty().insert(u.name));
        } else {
            assert(crate::perms::holders_ms(seq![u], rn) =~= Multiset::<Seq<u8>>::empty());
        }
    }
    if us.len() == 0 {
        assert forall|rn: Seq<u8>|
            crate::perms::holders_ms(us.push(u), rn) == crate::perms::holders_ms(us, rn).add(
                #[trigger] crate::perms::holders_ms(seq![u], rn),
            ) by {
            assert(us.push(u) =~= seq![u]);
            assert(crate::perms::holders_ms(us, rn) =~= Multiset::<Seq<u8>>::empty());
            assert(crate::perms::holders_ms(us, rn).add(crate::perms::holders_ms(seq![u], rn))
                =~= crate::perms::holders_ms(seq![u], rn));
        }
    } else {
        lemma_holders_push(us.skip(1), u);
        assert forall|rn: Seq<u8>|
            crate::perms::holders_ms(us.push(u), rn) == crate::perms::holders_ms(us, rn).add(
                #[trigger] crate::perms::holders_ms(seq![u], rn),
            ) by {
            assert(us.push(u)[0] == us[0]);
            assert(us.push(u).skip(1) =~= us.skip(1).push(u));
            let c0 = if us[0].roles.contains(rn) {
                Multiset::empty().insert(us[0].name)
            } else {
                Multiset::<Seq<u8>>::empty()
            };
            assert(crate::perms::holders_ms(us.push(u), rn) == c0.add(
                crate::perms::holders_ms(us.skip(1).push(u), rn),
            ));
            assert(crate::perms::holders_ms(us.skip(1).push(u), rn)
                == crate::perms::holders_ms(us.skip(1), rn).add(
                crate::perms::holders_ms(seq![u], rn),
            ));
            assert(c0.add(
                crate::perms::holders_ms(us.skip(1), rn).add(
                    crate::perms::holders_ms(seq![u], rn),
                ),
            ) =~= c0.add(crate::perms::holders_ms(us.skip(1), rn)).add(
                crate::perms::holders_ms(seq![u], rn),
            ));
        }
    }
}

impl AuthStoreBackend {
    /// Remove and return the speculative-pool entry of `id`.
    fn pool_remove(&mut self, id: u64) -> (r: Option<RequestCtx>)
        requires
            crate::perms::alist_unique(old(self).pool_v()),
        ensures
            crate::perms::alist_unique(final(self).pool_v()),
            r == alist_lookup(old(self).pool_v(), id),
            alist_lookup(final(self).pool_v(), id) is None,
            forall|k: u64|
                k != id ==> alist_lookup(final(self).pool_v(), k) == alist_lookup(
                    old(self).pool_v(),
                    k,
                ),
            final(self).users_v() == old(self).users_v(),
            final(self).roles_v() == old(self).roles_v(),
            final(self).enabled_v() == old(self).enabled_v(),
            final(self).rev_v() == old(self).rev_v(),
            final(self).cache_v() == old(self).cache_v(),
            final(self).index_v() == old(self).index_v(),
            final(self).db_v() == old(self).db_v(),
            final(self).has_token_manager() == old(self).has_token_manager(),
            final(self).token_secret() == old(self).token_secret(),
    {
        let mut p: usize = 0;
        let n = self.sp_exec_pool.len();
        while p < n
            invariant
                0 <= p <= n,
                n == self.pool_v().len(),
                self == old(self),
                crate::perms::alist_unique(self.pool_v()),
                forall|j: int| 0 <= j < p ==> (#[trigger] self.pool_v()[j]).0 != id,
            decreases n - p,
        {
            if self.sp_exec_pool[p].0 == id {
                proof {
                    crate::perms::lemma_alist_at(self.pool_v(), id, p as int);
                    crate::perms::lemma_alist_remove(self.pool_v(), id, p as int);
                }
                let e = self.sp_exec_pool.remove(p);
                proof {
                    assert(self.pool_v() =~= old(self).pool_v().remove(p as int));
                }
                return Some(e.1);
            }
            p = p + 1;
        }
        proof {
            crate::perms::lemma_alist_none(self.pool_v(), id);
        }
        None
    }

    /// Apply `AuthEnableRequest`: already enabled is a no-op; otherwise the
    /// enable byte is written at the next revision, the flag set, and the
    /// permission cache rebuilt from the stored users and roles.
    pub fn sync_auth_enable_request(&mut self)
        requires
            old(self).wf(),
            old(self).rev_v() < i64::MAX,
        ensures
            final(self).wf(),
            final(self).users_v() == old(self).users_v(),
            final(self).roles_v() == old(self).roles_v(),
            final(self).enabled_v(),
            final(self).pool_v() == old(self).pool_v(),
            final(self).has_token_manager() == old(self).has_token_manager(),
            final(self).token_secret() == old(self).token_secret(),
            old(self).enabled_v() ==> final(self).rev_v() == old(self).rev_v() && final(self).cache_v() == old(self).cache_v() && final(self).index_v() == old(self).index_v()
                && final(self).db_v() == old(self).db_v(),
            !old(self).enabled_v() ==> {
                &&& final(self).rev_v() == old(self).rev_v() + 1
                &&& live_rev(final(self).index_v(), auth_enable_key()) == Some(
                    Revision { main: final(self).rev_v(), sub: 0 },
                )
                &&& db_value_at(
                    final(self).db_v(),
                    Revision { main: final(self).rev_v(), sub: 0 },
                ) == Some(seq![1u8])
                &&& forall|n: Seq<u8>|
                    alist_lookup(final(self).cache_v().up, n) == (match find_user(
                        old(self).users_v(),
                        n,
                    ) {
                        Some(u) => Some(
                            UserPermissionsV {
                                read: user_read_seq(u.roles, old(self).roles_v()),
                                write: user_write_seq(u.roles, old(self).roles_v()),
                            },
                        ),
                        None => None::<UserPermissionsV>,
                    })
                &&& crate::perms::cache_consistent(
                    final(self).cache_v(),
                    final(self).users_v(),
                    final(self).roles_v(),
                )
            },
    {
        if self.is_enabled() {
            return;
        }
        let rev = self.revision.next();
        self.put_enable_flag(true, rev);
        self.enabled = true;
        self.create_permission_cache();
        proof {
            let c = self.cache_v();
            let us = self.users_v();
            let rs = self.roles_v();
            assert forall|n: Seq<u8>|
                (#[trigger] crate::perms::up_perms_of(c, n)).read.to_multiset() == (
            match find_user(us, n) {
                Some(u) => user_read_seq(u.roles, rs).to_multiset(),
                None => Multiset::<crate::perms::KeyRangeV>::empty(),
            }) by {
                if find_user(us, n) is None {
                    broadcast use vstd::seq_lib::group_to_multiset_ensures;

                    let ms = crate::perms::up_perms_of(c, n).read.to_multiset();
                    assert(crate::perms::up_perms_of(c, n).read =~= Seq::<
                        crate::perms::KeyRangeV,
                    >::empty());
                    assert(ms.len() == 0);
                    vstd::multiset::lemma_multiset_empty_len(ms);
                }
            }
            assert forall|n: Seq<u8>|
                (#[trigger] crate::perms::up_perms_of(c, n)).write.to_multiset() == (
            match find_user(us, n) {
                Some(u) => user_write_seq(u.roles, rs).to_multiset(),
                None => Multiset::<crate::perms::KeyRangeV>::empty(),
            }) by {
                if find_user(us, n) is None {
                    broadcast use vstd::seq_lib::group_to_multiset_ensures;

                    let ms = crate::perms::up_perms_of(c, n).write.to_multiset();
                    assert(crate::perms::up_perms_of(c, n).write =~= Seq::<
                        crate::perms::KeyRangeV,
                    >::empty());
                    assert(ms.len() == 0);
                    vstd::multiset::lemma_multiset_empty_len(ms);
                }
            }
        }
    }

    /// Apply `AuthDisableRequest`: already disabled is a no-op; otherwise
    /// the disable byte is written at the next revision and the flag
    /// cleared. The cache is left as it is.
    pub fn sync_auth_disable_request(&mut self)
        requires
            old(self).wf(),
            old(self).rev_v() < i64::MAX,
        ensures
            final(self).wf(),
            final(self).users_v() == old(self).users_v(),
            final(self).roles_v() == old(self).roles_v(),
            !final(self).enabled_v(),
            final(self).pool_v() == old(self).pool_v(),
            final(self).cache_v() == old(self).cache_v(),
            final(self).has_token_manager() == old(self).has_token_manager(),
            final(self).token_secret() == old(self).token_secret(),
            !old(self).enabled_v() ==> final(self).rev_v() == old(self).rev_v() && final(self).index_v() == old(self).index_v() && final(self).db_v() == old(self).db_v(),
            old(self).enabled_v() ==> {
                &&& final(self).rev_v() == old(self).rev_v() + 1
                &&& live_rev(final(self).index_v(), auth_enable_key()) == Some(
                    Revision { main: final(self).rev_v(), sub: 0 },
                )
                &&& db_value_at(
                    final(self).db_v(),
                    Revision { main: final(self).rev_v(), sub: 0 },
                ) == Some(seq![0u8])
            },
    {
        if !self.is_enabled() {
            return;
        }
        let rev = self.revision.next();
        self.put_enable_flag(false, rev);
        self.enabled = false;
    }

    /// Rebuild the permission cache from the stored users and roles.
    fn create_permission_cache(&mut self)
        requires
            old(self).wf(),
        ensures
            final(self).wf(),
            final(self).users_v() == old(self).users_v(),
            final(self).roles_v() == old(self).roles_v(),
            final(self).enabled_v() == old(self).enabled_v(),
            final(self).rev_v() == old(self).rev_v(),
            final(self).pool_v() == old(self).pool_v(),
            final(self).index_v() == old(self).index_v(),
            final(self).db_v() == old(self).db_v(),
            final(self).has_token_manager() == old(self).has_token_manager(),
            final(self).token_secret() == old(self).token_secret(),
            forall|n: Seq<u8>|
                alist_lookup(final(self).cache_v().up, n) == (match find_user(
                    old(self).users_v(),
                    n,
                ) {
                    Some(u) => Some(
                        UserPermissionsV {
                            read: user_read_seq(u.roles, old(self).roles_v()),
                            write: user_write_seq(u.roles, old(self).roles_v()),
                        },
                    ),
                    None => None::<UserPermissionsV>,
                }),
            forall|n: Seq<u8>|
                (#[trigger] crate::perms::rtu_users_of(final(self).cache_v(), n)).to_multiset()
                    == crate::perms::holders_ms(old(self).users_v(), n),
    {
        let users = self.get_all_users();
        let mut cache = PermissionCache::new();
        let ghost us = old(self).users_v();
        proof {
            assert forall|n: Seq<u8>| alist_lookup(cache@.up, n) == (match find_user(
                us.take(0),
                n,
            ) {
                Some(u) => Some(
                    UserPermissionsV {
                        read: user_read_seq(u.roles, old(self).roles_v()),
                        write: user_write_seq(u.roles, old(self).roles_v()),
                    },
                ),
                None => None::<UserPermissionsV>,
            }) by {
                assert(us.take(0).len() == 0);
            }
            assert forall|n: Seq<u8>|
                (#[trigger] crate::perms::rtu_users_of(cache@, n)).to_multiset()
                    == crate::perms::holders_ms(us.take(0), n) by {
                broadcast use vstd::seq_lib::group_to_multiset_ensures;
                broadcast use vstd::multiset::group_multiset_axioms;

                assert(us.take(0).len() == 0);
                let ms = crate::perms::rtu_users_of(cache@, n).to_multiset();
                assert(crate::perms::rtu_users_of(cache@, n) =~= Seq::<Seq<u8>>::empty());
                assert(ms.len() == 0);
                vstd::multiset::lemma_multiset_empty_len(ms);
                assert(crate::perms::holders_ms(us.take(0), n) =~= Multiset::<Seq<u8>>::empty());
            }
        }
        let mut i: usize = 0;
        while i < users.len()
            invariant
                0 <= i <= users@.len(),
                users@.map_values(|u: User| u@) == us,
                us.len() == users@.len(),
                us == old(self).users_v(),
                users_sorted(us),
                self.wf(),
                self == old(self),
                cache_wf(cache@),
                forall|n: Seq<u8>|
                    alist_lookup(cache@.up, n) == (match find_user(us.take(i as int), n) {
                        Some(u) => Some(
                            UserPermissionsV {
                                read: user_read_seq(u.roles, old(self).roles_v()),
                                write: user_write_seq(u.roles, old(self).roles_v()),
                            },
                        ),
                        None => None::<UserPermissionsV>,
                    }),
                forall|n: Seq<u8>|
                    (#[trigger] crate::perms::rtu_users_of(cache@, n)).to_multiset()
                        == crate::perms::holders_ms(us.take(i as int), n),
            decreases users@.len() - i,
        {
            let perms = self.get_user_permissions(&users[i]);
            proof {
                assert(users@[i as int]@ == us[i as int]);
            }
            let ghost cache_pre = cache@;
            cache.set_user_perms(&users[i].name, perms);
            proof {
                assert(us.take(i + 1) =~= us.take(i as int).push(us[i as int]));
                assert forall|n: Seq<u8>| alist_lookup(cache@.up, n) == (match find_user(
                    us.take(i + 1),
                    n,
                ) {
                    Some(u) => Some(
                        UserPermissionsV {
                            read: user_read_seq(u.roles, old(self).roles_v()),
                            write: user_write_seq(u.roles, old(self).roles_v()),
                        },
                    ),
                    None => None::<UserPermissionsV>,
                }) by {
                    lemma_find_user_push(us.take(i as int), us[i as int], n);
                    if n == us[i as int].name {
                        assert(find_user(us.take(i as int), n) is None) by {
                            if find_user(us.take(i as int), n) is Some {
                                lemma_find_user_mem(us.take(i as int), n);
                                lemma_find_user_name(us.take(i as int), n);
                                let m = choose|m: int|
                                    0 <= m < us.take(i as int).len() && us.take(i as int)[m]
                                        == find_user(us.take(i as int), n).unwrap();
                                assert(us.take(i as int)[m] == us[m]);
                                assert(us[m].name == n);
                                assert(0 <= m < i);
                                assert(lex_lt(us[m].name, us[i as int].name));
                                crate::bytes::lemma_lex_irreflexive(us[i as int].name);
                                assert(false);
                            }
                        }
                    }
                }
            }
            let mut j: usize = 0;
            proof {
                assert(us[i as int].roles.take(0) =~= Seq::<Seq<u8>>::empty());
                assert forall|rn: Seq<u8>|
                    (#[trigger] crate::perms::rtu_users_of(cache@, rn)).to_multiset()
                        == crate::perms::holders_ms(us.take(i as int), rn).add(
                        role_part(us[i as int], 0, rn),
                    ) by {
                    broadcast use vstd::multiset::group_multiset_axioms;

                    assert(cache@.rtu == cache_pre.rtu);
                    assert(crate::perms::rtu_users_of(cache@, rn) == crate::perms::rtu_users_of(
                        cache_pre,
                        rn,
                    ));
                    assert(crate::perms::rtu_users_of(cache_pre, rn).to_multiset()
                        == crate::perms::holders_ms(us.take(i as int), rn));
                    assert(role_part(us[i as int], 0, rn) =~= Multiset::<Seq<u8>>::empty());
                    assert(crate::perms::holders_ms(us.take(i as int), rn).add(
                        Multiset::empty(),
                    ) =~= crate::perms::holders_ms(us.take(i as int), rn));
                }
            }
            while j < users[i].roles.len()
                invariant
                    0 <= i < us.len(),
                    0 <= j <= us[i as int].roles.len(),
                    us.len() == users@.len(),
                    us == old(self).users_v(),
                    users@.map_values(|u: User| u@) == us,
                    users@[i as int].roles@.len() == us[i as int].roles.len(),
                    users_sorted(us),
                    self.wf(),
                    self == old(self),
                    cache_wf(cache@),
                    forall|n: Seq<u8>|
                        alist_lookup(cache@.up, n) == (match find_user(us.take(i + 1), n) {
                            Some(u) => Some(
                                UserPermissionsV {
                                    read: user_read_seq(u.roles, old(self).roles_v()),
                                    write: user_write_seq(u.roles, old(self).roles_v()),
                                },
                            ),
                            None => None::<UserPermissionsV>,
                        }),
                    forall|rn: Seq<u8>|
                        (#[trigger] crate::perms::rtu_users_of(cache@, rn)).to_multiset()
                            == crate::perms::holders_ms(us.take(i as int), rn).add(
                            role_part(us[i as int], j as int, rn),
                        ),
                decreases us[i as int].roles.len() - j,
            {
                proof {
                    assert(us[i as int] == users@[i as int]@);
                    assert(us[i as int].roles[j as int] == users@[i as int].roles@[j as int]@);
                    assert(us[i as int].roles_sorted()) by {
                        assert(self.users_v()[i as int] == us[i as int]);
                    }
                }
                let ghost prev = cache@;
                cache.rtu_push(&users[i].roles[j], &users[i].name);
                proof {
                    broadcast use vstd::multiset::group_multiset_axioms;
                    broadcast use vstd::seq_lib::group_to_multiset_ensures;

                    let uv = us[i as int];
                    let rj = uv.roles[j as int];
                    assert(users@[i as int].name@ == uv.name);
                    assert(!uv.roles.take(j as int).contains(rj)) by {
                        if uv.roles.take(j as int).contains(rj) {
                            let m = choose|m: int|
                                0 <= m < j && #[trigger] uv.roles.take(j as int)[m] == rj;
                            assert(uv.roles[m] == rj);
                            assert(lex_lt(uv.roles[m], uv.roles[j as int]));
                            crate::bytes::lemma_lex_irreflexive(rj);
                        }
                    }
                    assert forall|rn: Seq<u8>|
                        (#[trigger] crate::perms::rtu_users_of(cache@, rn)).to_multiset()
                            == crate::perms::holders_ms(us.take(i as int), rn).add(
                            role_part(uv, j + 1, rn),
                        ) by {
                        assert(uv.roles.take(j + 1) =~= uv.roles.take(j as int).push(rj));
                        if rn == rj {
                            assert(crate::perms::rtu_users_of(cache@, rn)
                                == crate::perms::rtu_users_of(prev, rn).push(uv.name));
                            assert(crate::perms::rtu_users_of(cache@, rn).to_multiset()
                                =~= crate::perms::rtu_users_of(prev, rn).to_multiset().insert(
                                uv.name,
                            ));
                            assert(role_part(uv, j as int, rn) =~= Multiset::<Seq<u8>>::empty());
                            assert(uv.roles.take(j + 1)[j as int] == rj);
                            assert(uv.roles.take(j + 1).contains(rn));
                            assert(role_part(uv, j + 1, rn) =~= Multiset::empty().insert(
                                uv.name,
                            ));
                            assert(crate::perms::holders_ms(us.take(i as int), rn).add(
                                Multiset::<Seq<u8>>::empty(),
                            ).insert(uv.name) =~= crate::perms::holders_ms(
                                us.take(i as int),
                                rn,
                            ).add(Multiset::empty().insert(uv.name)));
                        } else {
                            assert(alist_lookup(cache@.rtu, rn) == alist_lookup(prev.rtu, rn));
                            assert(crate::perms::rtu_users_of(cache@, rn)
                                == crate::perms::rtu_users_of(prev, rn));
                            assert(uv.roles.take(j + 1).contains(rn) == uv.roles.take(
                                j as int,
                            ).contains(rn)) by {
                                if uv.roles.take(j + 1).contains(rn) {
                                    let m = choose|m: int|
                                        0 <= m < j + 1 && #[trigger] uv.roles.take(j + 1)[m]
                                            == rn;
                                    assert(m < j);
                                    assert(uv.roles.take(j as int)[m] == rn);
                                }
                                if uv.roles.take(j as int).contains(rn) {
                                    let m = choose|m: int|
                                        0 <= m < j && #[trigger] uv.roles.take(j as int)[m]
                                            == rn;
                                    assert(uv.roles.take(j + 1)[m] == rn);
                                }
                            }
                        }
                    }
                }
                j = j + 1;
            }
            proof {
                broadcast use vstd::multiset::group_multiset_axioms;

                let uv = us[i as int];
                assert(uv.roles.take(uv.roles.len() as int) =~= uv.roles);
                lemma_holders_push(us.take(i as int), uv);
                assert(us.take(i + 1) =~= us.take(i as int).push(uv));
                assert forall|rn: Seq<u8>|
                    (#[trigger] crate::perms::rtu_users_of(cache@, rn)).to_multiset()
                        == crate::perms::holders_ms(us.take(i + 1), rn) by {
                    assert(role_part(uv, uv.roles.len() as int, rn) == (if uv.roles.contains(
                        rn,
                    ) {
                        Multiset::empty().insert(uv.name)
                    } else {
                        Multiset::<Seq<u8>>::empty()
                    })) by {
                        assert(uv.roles.take(uv.roles.len() as int) =~= uv.roles);
                    }
                    assert(crate::perms::holders_ms(seq![uv], rn) == role_part(
                        uv,
                        uv.roles.len() as int,
                        rn,
                    ));
                    assert(crate::perms::holders_ms(us.take(i as int).push(uv), rn)
                        == crate::perms::holders_ms(us.take(i as int), rn).add(
                        crate::perms::holders_ms(seq![uv], rn),
                    ));
                }
            }
            i = i + 1;
        }
        proof {
            assert(us.take(us.len() as int) =~= us);
        }
        self.permission_cache = cache;
    }

    /// Apply `AuthUserAddRequest`: store the new user with no roles at the
    /// next revision.
    pub fn sync_user_add_request(
        &mut self,
        name: &Vec<u8>,
        hashed_password: &Vec<u8>,
        options: Option<crate::rpc::UserAddOptions>,
    )
        requires
            old(self).wf(),
            old(self).rev_v() < i64::MAX,
        ensures
            final(self).wf(),
            final(self).rev_v() == old(self).rev_v() + 1,
            final(self).users_v() == upsert_user(
                old(self).users_v(),
                UserV { name: name@, password: hashed_password@, options, roles: Seq::empty() },
            ),
            final(self).roles_v() == old(self).roles_v(),
            final(self).enabled_v() == old(self).enabled_v(),
            final(self).pool_v() == old(self).pool_v(),
            final(self).cache_v() == old(self).cache_v(),
            final(self).has_token_manager() == old(self).has_token_manager(),
            final(self).token_secret() == old(self).token_secret(),
            live_rev(final(self).index_v(), user_key(name@)) == Some(
                Revision { main: final(self).rev_v(), sub: 0 },
            ),
    {
        let user = User {
            name: clone_bytes(name),
            password: clone_bytes(hashed_password),
            options,
            roles: Vec::new(),
        };
        proof {
            assert(user@.roles =~= Seq::<Seq<u8>>::empty());
        }
        let rev = self.revision.next();
        self.put_user(user, rev, 0);
    }

    /// Apply `AuthUserDeleteRequest`: delete the user at the next
    /// revision, drop its cached permissions, and take it out of every
    /// role's user list.
    pub fn sync_user_delete_request(&mut self, name: &Vec<u8>)
        requires
            old(self).wf(),
            old(self).rev_v() < i64::MAX,
        ensures
            final(self).wf(),
            final(self).rev_v() == old(self).rev_v() + 1,
            final(self).users_v() == remove_user_seq(old(self).users_v(), name@),
            find_user(final(self).users_v(), name@) is None,
            final(self).roles_v() == old(self).roles_v(),
            final(self).enabled_v() == old(self).enabled_v(),
            final(self).pool_v() == old(self).pool_v(),
            final(self).has_token_manager() == old(self).has_token_manager(),
            final(self).token_secret() == old(self).token_secret(),
            alist_lookup(final(self).cache_v().up, name@) is None,
            forall|k: Seq<u8>|
                k != name@ ==> alist_lookup(final(self).cache_v().up, k) == alist_lookup(
                    old(self).cache_v().up,
                    k,
                ),
            final(self).cache_v().rtu.len() == old(self).cache_v().rtu.len(),
            forall|i: int|
                0 <= i < old(self).cache_v().rtu.len() ==> (#[trigger] final(self).cache_v().rtu[i]).0 == old(self).cache_v().rtu[i].0 && final(self).cache_v().rtu[i].1.to_multiset() == (if old(self).cache_v().rtu[i].1.contains(
                    name@,
                ) {
                    old(self).cache_v().rtu[i].1.to_multiset().remove(name@)
                } else {
                    old(self).cache_v().rtu[i].1.to_multiset()
                }),
            live_rev(final(self).index_v(), user_key(name@)) is None,
    {
        let rev = self.revision.next();
        self.delete_user_rec(name, rev, 0);
        self.permission_cache.remove_user_perms(name);
        self.permission_cache.remove_user_everywhere(name);
    }

    /// Apply `AuthUserChangePasswordRequest`: replace the stored password
    /// hash at the next revision; the user must still exist.
    pub fn sync_user_change_password_request(&mut self, name: &Vec<u8>, hashed_password: &Vec<u8>)
        -> (r: Result<(), ExecuteError>)
        requires
            old(self).wf(),
            old(self).rev_v() < i64::MAX,
        ensures
            final(self).wf(),
            final(self).roles_v() == old(self).roles_v(),
            final(self).enabled_v() == old(self).enabled_v(),
            final(self).pool_v() == old(self).pool_v(),
            final(self).cache_v() == old(self).cache_v(),
            final(self).has_token_manager() == old(self).has_token_manager(),
            final(self).token_secret() == old(self).token_secret(),
            match find_user(old(self).users_v(), name@) {
                None => r == Err::<(), ExecuteError>(ExecuteError::UserNotFound) && final(self).users_v() == old(self).users_v() && final(self).rev_v() == old(self).rev_v()
                    && final(self).index_v() == old(self).index_v() && final(self).db_v() == old(self).db_v(),
                Some(u) => r is Ok && final(self).rev_v() == old(self).rev_v() + 1 && final(self).users_v() == upsert_user(
                    old(self).users_v(),
                    UserV { password: hashed_password@, ..u },
                ) && live_rev(final(self).index_v(), user_key(name@)) == Some(
                    Revision { main: final(self).rev_v(), sub: 0 },
                ),
            },
    {
        let mut user = match self.get_user(name) {
            Ok(u) => u,
            Err(e) => {
                return Err(e);
            },
        };
        proof {
            lemma_find_user_name(self.users_v(), name@);
            assert(user@.roles_sorted()) by {
                lemma_find_user_mem(self.users_v(), name@);
                let m = choose|m: int|
                    0 <= m < self.users_v().len() && self.users_v()[m] == user@;
                assert(self.users_v()[m].roles_sorted());
            }
        }
        user.password = clone_bytes(hashed_password);
        let rev = self.revision.next();
        self.put_user(user, rev, 0);
        Ok(())
    }

    /// Apply `AuthRoleAddRequest`: store the new role with no permissions
    /// at the next revision.
    pub fn sync_role_add_request(&mut self, name: &Vec<u8>)
        requires
            old(self).wf(),
            old(self).rev_v() < i64::MAX,
        ensures
            final(self).wf(),
            final(self).rev_v() == old(self).rev_v() + 1,
            final(self).roles_v() == upsert_role(
                old(self).roles_v(),
                RoleV { name: name@, key_permission: Seq::empty() },
            ),
            final(self).users_v() == old(self).users_v(),
            final(self).enabled_v() == old(self).enabled_v(),
            final(self).pool_v() == old(self).pool_v(),
            final(self).cache_v() == old(self).cache_v(),
            final(self).has_token_manager() == old(self).has_token_manager(),
            final(self).token_secret() == old(self).token_secret(),
            live_rev(final(self).index_v(), role_key(name@)) == Some(
                Revision { main: final(self).rev_v(), sub: 0 },
            ),
    {
        let role = Role { name: clone_bytes(name), key_permission: Vec::new() };
        proof {
            assert(role@.key_permission =~= Seq::<PermissionV>::empty());
        }
        let rev = self.revision.next();
        self.put_role(role, rev, 0);
    }
}

impl AuthStoreBackend {
    /// Apply `AuthUserGrantRoleRequest`: the user must exist, the role
    /// must exist unless it is the root role, and the user must not hold
    /// it yet; the role is inserted at its sorted position and the user's
    /// cached permissions gain the role's expansion.
    pub fn sync_user_grant_role_request(&mut self, user_name: &Vec<u8>, role_name: &Vec<u8>) -> (r:
        Result<(), ExecuteError>)
        requires
            old(self).wf(),
            old(self).rev_v() < i64::MAX,
        ensures
            final(self).wf(),
            final(self).roles_v() == old(self).roles_v(),
            final(self).enabled_v() == old(self).enabled_v(),
            final(self).pool_v() == old(self).pool_v(),
            final(self).has_token_manager() == old(self).has_token_manager(),
            final(self).token_secret() == old(self).token_secret(),
            r is Err ==> final(self).users_v() == old(self).users_v() && final(self).rev_v()
                == old(self).rev_v() && final(self).cache_v() == old(self).cache_v(),
            match find_user(old(self).users_v(), user_name@) {
                None => r == Err::<(), ExecuteError>(ExecuteError::UserNotFound),
                Some(u) => {
                    if role_name@ != root_spec() && find_role(
                        old(self).roles_v(),
                        role_name@,
                    ) is None {
                        r == Err::<(), ExecuteError>(ExecuteError::RoleNotFound)
                    } else if u.roles.contains(role_name@) {
                        r == Err::<(), ExecuteError>(ExecuteError::UserAlreadyHasRole)
                    } else {
                        &&& r is Ok
                        &&& final(self).rev_v() == old(self).rev_v() + 1
                        &&& find_user(final(self).users_v(), user_name@) matches Some(nu)
                            && nu.name == u.name && nu.password == u.password && nu.options
                            == u.options && nu.roles_sorted() && nu.roles.to_multiset()
                            == u.roles.to_multiset().insert(role_name@) && final(self).users_v()
                            == upsert_user(old(self).users_v(), nu)
                        &&& live_rev(final(self).index_v(), user_key(user_name@)) == Some(
                            Revision { main: final(self).rev_v(), sub: 0 },
                        )
                        &&& forall|k: Seq<u8>|
                            k != user_name@ ==> find_user(final(self).users_v(), k) == find_user(
                                old(self).users_v(),
                                k,
                            )
                        &&& match find_role(old(self).roles_v(), role_name@) {
                            Some(ro) => {
                                &&& alist_lookup(final(self).cache_v().up, user_name@) == Some(
                                    UserPermissionsV {
                                        read: crate::perms::up_perms_of(
                                            old(self).cache_v(),
                                            user_name@,
                                        ).read + read_ranges(ro.key_permission),
                                        write: crate::perms::up_perms_of(
                                            old(self).cache_v(),
                                            user_name@,
                                        ).write + write_ranges(ro.key_permission),
                                    },
                                )
                                &&& forall|k: Seq<u8>|
                                    k != user_name@ ==> alist_lookup(final(self).cache_v().up, k)
                                        == alist_lookup(old(self).cache_v().up, k)
                                &&& alist_lookup(final(self).cache_v().rtu, role_name@) == Some(
                                    crate::perms::rtu_users_of(
                                        old(self).cache_v(),
                                        role_name@,
                                    ).push(user_name@),
                                )
                                &&& forall|k: Seq<u8>|
                                    k != role_name@ ==> alist_lookup(final(self).cache_v().rtu, k)
                                        == alist_lookup(old(self).cache_v().rtu, k)
                            },
                            None => final(self).cache_v() == old(self).cache_v(),
                        }
                    }
                },
            },
    {
        let mut user = match self.get_user(user_name) {
            Ok(u) => u,
            Err(e) => {
                return Err(e);
            },
        };
        let role_res = self.get_role(role_name);
        let root = root_bytes();
        if !bytes_eq(role_name, &root) && role_res.is_err() {
            return Err(ExecuteError::RoleNotFound);
        }
        proof {
            lemma_find_user_name(self.users_v(), user_name@);
            lemma_find_role_name(self.roles_v(), role_name@);
            assert(user@.roles_sorted()) by {
                lemma_find_user_mem(self.users_v(), user_name@);
                let m = choose|m: int|
                    0 <= m < self.users_v().len() && self.users_v()[m] == user@;
                assert(self.users_v()[m].roles_sorted());
            }
            assert forall|i: int, j: int|
                0 <= i < j < user.roles@.len() implies lex_lt(
                (#[trigger] user.roles@[i])@,
                (#[trigger] user.roles@[j])@,
            ) by {
                assert(user@.roles[i] == user.roles@[i]@);
                assert(user@.roles[j] == user.roles@[j]@);
            }
        }
        let idx = match search_name_list(&user.roles, role_name) {
            Ok(i) => {
                proof {
                    assert(user@.roles[i as int] == role_name@);
                    assert(user@.roles.contains(role_name@));
                }
                return Err(ExecuteError::UserAlreadyHasRole);
            },
            Err(i) => {
                proof {
                    assert(!user@.roles.contains(role_name@));
                }
                i
            },
        };
        let ghost old_roles = user@.roles;
        user.roles.insert(idx, clone_bytes(role_name));
        proof {
            assert(user@.roles =~= old_roles.insert(idx as int, role_name@));
            vstd::seq_lib::to_multiset_insert(old_roles, idx as int, role_name@);
            assert(user@.roles_sorted()) by {
                assert forall|i: int, j: int|
                    0 <= i < j < user@.roles.len() implies lex_lt(
                    user@.roles[i],
                    user@.roles[j],
                ) by {
                    let s2 = old_roles.insert(idx as int, role_name@);
                    let i0: int = if i < idx {
                        i
                    } else {
                        i - 1
                    };
                    let j0: int = if j < idx {
                        j
                    } else {
                        j - 1
                    };
                    if i == idx && j > idx {
                        assert(s2[j] == old_roles[j0]);
                        if j0 == idx {
                            assert(lex_lt(role_name@, old_roles[idx as int]));
                        } else {
                            assert(lex_lt(role_name@, old_roles[idx as int]));
                            assert(lex_lt(old_roles[idx as int], old_roles[j0]));
                            lemma_lex_transitive(
                                role_name@,
                                old_roles[idx as int],
                                old_roles[j0],
                            );
                        }
                    } else if j == idx {
                        assert(s2[i] == old_roles[i0]);
                        assert(lex_lt(old_roles[i0], role_name@));
                    } else {
                        assert(s2[i] == old_roles[i0]);
                        assert(s2[j] == old_roles[j0]);
                        if i < idx && j > idx {
                            assert(lex_lt(old_roles[i0], role_name@));
                            if j0 == idx {
                                assert(lex_lt(role_name@, old_roles[j0]));
                                lemma_lex_transitive(old_roles[i0], role_name@, old_roles[j0]);
                            } else {
                                assert(lex_lt(old_roles[i0], old_roles[j0]));
                            }
                        } else {
                            assert(lex_lt(old_roles[i0], old_roles[j0]));
                        }
                    }
                }
            }
        }
        let rev = self.revision.next();
        let ghost nu = user@;
        self.put_user(user, rev, 0);
        match role_res {
            Ok(ro) => {
                self.permission_cache.append_user_perms(user_name, &ro.key_permission);
                self.permission_cache.rtu_push(role_name, user_name);
            },
            Err(_) => {},
        }
        Ok(())
    }

    /// Apply `AuthUserRevokeRoleRequest`: the user must exist and hold the
    /// role; it is removed, the user's cached permissions recomputed from
    /// its remaining roles, and the user taken out of the role's list.
    pub fn sync_user_revoke_role_request(&mut self, name: &Vec<u8>, role: &Vec<u8>) -> (r: Result<
        (),
        ExecuteError,
    >)
        requires
            old(self).wf(),
            old(self).rev_v() < i64::MAX,
        ensures
            final(self).wf(),
            final(self).roles_v() == old(self).roles_v(),
            final(self).enabled_v() == old(self).enabled_v(),
            final(self).pool_v() == old(self).pool_v(),
            final(self).has_token_manager() == old(self).has_token_manager(),
            final(self).token_secret() == old(self).token_secret(),
            r is Err ==> final(self).users_v() == old(self).users_v() && final(self).rev_v()
                == old(self).rev_v() && final(self).cache_v() == old(self).cache_v(),
            match find_user(old(self).users_v(), name@) {
                None => r == Err::<(), ExecuteError>(ExecuteError::UserNotFound),
                Some(u) => {
                    if !u.roles.contains(role@) {
                        r == Err::<(), ExecuteError>(ExecuteError::UserDoesNotHaveRole)
                    } else {
                        &&& r is Ok
                        &&& final(self).rev_v() == old(self).rev_v() + 1
                        &&& find_user(final(self).users_v(), name@) matches Some(nu)
                            && nu.name == u.name && nu.password == u.password && nu.options
                            == u.options && nu.roles_sorted() && nu.roles.to_multiset()
                            == u.roles.to_multiset().remove(role@) && final(self).users_v()
                            == upsert_user(old(self).users_v(), nu) && alist_lookup(
                            final(self).cache_v().up,
                            name@,
                        ) == Some(
                            UserPermissionsV {
                                read: user_read_seq(nu.roles, old(self).roles_v()),
                                write: user_write_seq(nu.roles, old(self).roles_v()),
                            },
                        )
                        &&& live_rev(final(self).index_v(), user_key(name@)) == Some(
                            Revision { main: final(self).rev_v(), sub: 0 },
                        )
                        &&& forall|k: Seq<u8>|
                            k != name@ ==> find_user(final(self).users_v(), k) == find_user(
                                old(self).users_v(),
                                k,
                            )
                        &&& forall|k: Seq<u8>|
                            k != name@ ==> alist_lookup(final(self).cache_v().up, k)
                                == alist_lookup(old(self).cache_v().up, k)
                        &&& crate::perms::rtu_users_of(final(self).cache_v(), role@).to_multiset()
                            == (if crate::perms::rtu_users_of(
                            old(self).cache_v(),
                            role@,
                        ).contains(name@) {
                            crate::perms::rtu_users_of(
                                old(self).cache_v(),
                                role@,
                            ).to_multiset().remove(name@)
                        } else {
                            crate::perms::rtu_users_of(old(self).cache_v(), role@).to_multiset()
                        })
                        &&& forall|k: Seq<u8>|
                            k != role@ ==> alist_lookup(final(self).cache_v().rtu, k)
                                == alist_lookup(old(self).cache_v().rtu, k)
                    }
                },
            },
    {
        let mut user = match self.get_user(name) {
            Ok(u) => u,
            Err(e) => {
                return Err(e);
            },
        };
        proof {
            lemma_find_user_name(self.users_v(), name@);
            assert(user@.roles_sorted()) by {
                lemma_find_user_mem(self.users_v(), name@);
                let m = choose|m: int|
                    0 <= m < self.users_v().len() && self.users_v()[m] == user@;
                assert(self.users_v()[m].roles_sorted());
            }
            assert forall|i: int, j: int|
                0 <= i < j < user.roles@.len() implies lex_lt(
                (#[trigger] user.roles@[i])@,
                (#[trigger] user.roles@[j])@,
            ) by {
                assert(user@.roles[i] == user.roles@[i]@);
                assert(user@.roles[j] == user.roles@[j]@);
            }
        }
        let idx = match search_name_list(&user.roles, role) {
            Ok(i) => {
                proof {
                    assert(user@.roles[i as int] == role@);
                    assert(user@.roles.contains(role@));
                }
                i
            },
            Err(_) => {
                proof {
                    assert(!user@.roles.contains(role@));
                }
                return Err(ExecuteError::UserDoesNotHaveRole);
            },
        };
        let ghost old_roles = user@.roles;
        let _removed = user.roles.remove(idx);
        proof {
            assert(user@.roles =~= old_roles.remove(idx as int));
            vstd::seq_lib::to_multiset_remove(old_roles, idx as int);
            assert(user@.roles_sorted()) by {
                assert forall|i: int, j: int|
                    0 <= i < j < user@.roles.len() implies lex_lt(
                    user@.roles[i],
                    user@.roles[j],
                ) by {
                    let i0: int = if i < idx {
                        i
                    } else {
                        i + 1
                    };
                    let j0: int = if j < idx {
                        j
                    } else {
                        j + 1
                    };
                    assert(old_roles.remove(idx as int)[i] == old_roles[i0]);
                    assert(old_roles.remove(idx as int)[j] == old_roles[j0]);
                }
            }
        }
        let rev = self.revision.next();
        let perms_user = clone_user(&user);
        self.put_user(user, rev, 0);
        let perms = self.get_user_permissions(&perms_user);
        self.permission_cache.rtu_remove_user(role, name);
        self.permission_cache.set_user_perms(name, perms);
        Ok(())
    }

    /// Apply `AuthRoleGrantPermissionRequest`: the role must exist and the
    /// permission be given. An existing permission over the same range has
    /// its kind overwritten; otherwise the permission is inserted at its
    /// sorted position. The new range fans out into the cached permissions
    /// of every user the cache lists for the role.
    pub fn sync_role_grant_permission_request(&mut self, name: &Vec<u8>, perm: &Option<Permission>)
        -> (r: Result<(), ExecuteError>)
        requires
            old(self).wf(),
            old(self).rev_v() < i64::MAX,
        ensures
            final(self).wf(),
            final(self).users_v() == old(self).users_v(),
            final(self).enabled_v() == old(self).enabled_v(),
            final(self).pool_v() == old(self).pool_v(),
            final(self).has_token_manager() == old(self).has_token_manager(),
            final(self).token_secret() == old(self).token_secret(),
            r is Err ==> final(self).roles_v() == old(self).roles_v() && final(self).rev_v()
                == old(self).rev_v() && final(self).cache_v() == old(self).cache_v(),
            match find_role(old(self).roles_v(), name@) {
                None => r == Err::<(), ExecuteError>(ExecuteError::RoleNotFound),
                Some(ro) => match perm {
                    None => r == Err::<(), ExecuteError>(ExecuteError::PermissionNotGiven),
                    Some(p) => {
                        &&& r is Ok
                        &&& final(self).rev_v() == old(self).rev_v() + 1
                        &&& find_role(final(self).roles_v(), name@) matches Some(nr)
                            && nr.name == ro.name && nr.perms_sorted() && final(self).roles_v()
                            == upsert_role(old(self).roles_v(), nr) && (if has_perm(
                            ro.key_permission,
                            p@.key,
                            p@.range_end,
                        ) {
                            exists|i: int|
                                0 <= i < ro.key_permission.len()
                                    && ro.key_permission[i].key == p@.key
                                    && ro.key_permission[i].range_end == p@.range_end
                                    && nr.key_permission == ro.key_permission.update(
                                    i,
                                    PermissionV { perm_type: p@.perm_type, ..ro.key_permission[i] },
                                )
                        } else {
                            nr.key_permission.to_multiset()
                                == ro.key_permission.to_multiset().insert(p@)
                        })
                        &&& forall|k: Seq<u8>|
                            k != name@ ==> find_role(final(self).roles_v(), k) == find_role(
                                old(self).roles_v(),
                                k,
                            )
                        &&& final(self).cache_v().rtu == old(self).cache_v().rtu
                        &&& forall|k: Seq<u8>|
                            !crate::perms::rtu_users_of(old(self).cache_v(), name@).contains(k)
                                ==> alist_lookup(final(self).cache_v().up, k) == alist_lookup(
                                old(self).cache_v().up,
                                k,
                            )
                        &&& forall|k: int|
                            0 <= k < crate::perms::rtu_users_of(old(self).cache_v(), name@).len()
                                && (forall|j: int|
                                0 <= j < crate::perms::rtu_users_of(
                                    old(self).cache_v(),
                                    name@,
                                ).len() && j != k ==> (#[trigger] crate::perms::rtu_users_of(
                                    old(self).cache_v(),
                                    name@,
                                )[j]) != crate::perms::rtu_users_of(old(self).cache_v(), name@)[k])
                                ==> alist_lookup(
                                final(self).cache_v().up,
                                #[trigger] crate::perms::rtu_users_of(old(self).cache_v(), name@)[k],
                            ) == Some(
                                UserPermissionsV {
                                    read: crate::perms::up_perms_of(
                                        old(self).cache_v(),
                                        crate::perms::rtu_users_of(old(self).cache_v(), name@)[k],
                                    ).read + read_ranges(seq![p@]),
                                    write: crate::perms::up_perms_of(
                                        old(self).cache_v(),
                                        crate::perms::rtu_users_of(old(self).cache_v(), name@)[k],
                                    ).write + write_ranges(seq![p@]),
                                },
                            )
                    },
                },
            },
    {
        let mut role = match self.get_role(name) {
            Ok(x) => x,
            Err(e) => {
                return Err(e);
            },
        };
        let permission = match perm {
            Some(p) => crate::rpc::clone_permission(p),
            None => {
                return Err(ExecuteError::PermissionNotGiven);
            },
        };
        proof {
            lemma_find_role_name(self.roles_v(), name@);
            assert(role@.perms_sorted()) by {
                lemma_find_role_mem(self.roles_v(), name@);
                let m = choose|m: int|
                    0 <= m < self.roles_v().len() && self.roles_v()[m] == role@;
                assert(self.roles_v()[m].perms_sorted());
            }
            assert forall|i: int, j: int|
                0 <= i < j < role.key_permission@.len() implies perm_lt(
                (#[trigger] role.key_permission@[i])@,
                (#[trigger] role.key_permission@[j])@,
            ) by {
                assert(role@.key_permission[i] == role.key_permission@[i]@);
                assert(role@.key_permission[j] == role.key_permission@[j]@);
            }
        }
        let ghost old_perms = role@.key_permission;
        match search_perms(&role.key_permission, &permission.key, &permission.range_end) {
            Ok(i) => {
                proof {
                    assert(old_perms[i as int].key == permission@.key);
                    assert(has_perm(old_perms, permission@.key, permission@.range_end));
                }
                let mut entry = role.key_permission.remove(i);
                entry.perm_type = permission.perm_type;
                role.key_permission.insert(i, entry);
                proof {
                    assert(role@.key_permission =~= old_perms.update(
                        i as int,
                        PermissionV { perm_type: permission@.perm_type, ..old_perms[i as int] },
                    ));
                    assert(role@.perms_sorted()) by {
                        assert forall|a: int, b: int|
                            0 <= a < b < role@.key_permission.len() implies perm_lt(
                            role@.key_permission[a],
                            role@.key_permission[b],
                        ) by {
                            assert(role@.key_permission[a].key == old_perms[a].key
                                && role@.key_permission[a].range_end == old_perms[a].range_end);
                            assert(role@.key_permission[b].key == old_perms[b].key
                                && role@.key_permission[b].range_end == old_perms[b].range_end);
                            assert(perm_lt(old_perms[a], old_perms[b]));
                        }
                    }
                }
            },
            Err(i) => {
                proof {
                    assert(!has_perm(old_perms, permission@.key, permission@.range_end));
                }
                role.key_permission.insert(i, crate::rpc::clone_permission(&permission));
                proof {
                    assert(role@.key_permission =~= old_perms.insert(i as int, permission@));
                    vstd::seq_lib::to_multiset_insert(old_perms, i as int, permission@);
                    let ghost target = PermissionV {
                        perm_type: Type::Read,
                        key: permission@.key,
                        range_end: permission@.range_end,
                    };
                    assert(role@.perms_sorted()) by {
                        assert forall|a: int, b: int|
                            0 <= a < b < role@.key_permission.len() implies perm_lt(
                            role@.key_permission[a],
                            role@.key_permission[b],
                        ) by {
                            let s2 = old_perms.insert(i as int, permission@);
                            let a0: int = if a < i {
                                a
                            } else {
                                a - 1
                            };
                            let b0: int = if b < i {
                                b
                            } else {
                                b - 1
                            };
                            if a == i && b > i {
                                assert(s2[b] == old_perms[b0]);
                                assert(perm_lt(target, old_perms[i as int]));
                                if b0 == i {
                                    assert(perm_lt(permission@, old_perms[b0]));
                                } else {
                                    assert(perm_lt(old_perms[i as int], old_perms[b0]));
                                    lemma_perm_lt_transitive(
                                        target,
                                        old_perms[i as int],
                                        old_perms[b0],
                                    );
                                    assert(perm_lt(permission@, old_perms[b0]));
                                }
                            } else if b == i {
                                assert(s2[a] == old_perms[a0]);
                                assert(perm_lt(old_perms[a0], target));
                                assert(perm_lt(old_perms[a0], permission@));
                            } else {
                                assert(s2[a] == old_perms[a0]);
                                assert(s2[b] == old_perms[b0]);
                                if a < i && b > i {
                                    assert(perm_lt(old_perms[a0], target));
                                    if b0 == i {
                                        assert(perm_lt(target, old_perms[b0])) by {
                                            assert(perm_lt(target, old_perms[i as int]));
                                        }
                                        lemma_perm_lt_transitive(
                                            old_perms[a0],
                                            target,
                                            old_perms[b0],
                                        );
                                    } else {
                                        assert(perm_lt(old_perms[a0], old_perms[b0]));
                                    }
                                } else {
                                    assert(perm_lt(old_perms[a0], old_perms[b0]));
                                }
                            }
                        }
                    }
                }
            },
        }
        let rev = self.revision.next();
        self.put_role(role, rev, 0);
        let users = self.permission_cache.rtu_get(name);
        let ghost pv = permission@;
        let mut single: Vec<Permission> = Vec::new();
        single.push(permission);
        proof {
            assert(single@.map_values(|x: Permission| x@) =~= seq![pv]);
        }
        let ghost mid = *self;
        let ghost listed = crate::perms::rtu_users_of(mid.cache_v(), name@);
        let mut i: usize = 0;
        while i < users.len()
            invariant
                0 <= i <= users@.len(),
                self.wf(),
                users@.map_values(|x: Vec<u8>| x@) == listed,
                listed == crate::perms::rtu_users_of(mid.cache_v(), name@),
                listed.len() == users@.len(),
                single@.map_values(|x: Permission| x@) == seq![pv],
                self.cache_v().rtu == mid.cache_v().rtu,
                forall|k: Seq<u8>|
                    !listed.contains(k) ==> alist_lookup(self.cache_v().up, k) == alist_lookup(
                        mid.cache_v().up,
                        k,
                    ),
                forall|k: int|
                    0 <= k < listed.len() && (forall|j: int|
                        0 <= j < listed.len() && j != k ==> (#[trigger] listed[j]) != listed[k])
                        ==> alist_lookup(self.cache_v().up, #[trigger] listed[k]) == (if k < i {
                        Some(
                            UserPermissionsV {
                                read: crate::perms::up_perms_of(mid.cache_v(), listed[k]).read
                                    + read_ranges(seq![pv]),
                                write: crate::perms::up_perms_of(mid.cache_v(), listed[k]).write
                                    + write_ranges(seq![pv]),
                            },
                        )
                    } else {
                        alist_lookup(mid.cache_v().up, listed[k])
                    }),
                self.users_v() == mid.users_v(),
                self.roles_v() == mid.roles_v(),
                self.enabled_v() == mid.enabled_v(),
                self.rev_v() == mid.rev_v(),
                self.pool_v() == mid.pool_v(),
                self.has_token_manager() == mid.has_token_manager(),
                self.token_secret() == mid.token_secret(),
            decreases users@.len() - i,
        {
            proof {
                assert(users@.map_values(|x: Vec<u8>| x@)[i as int] == users@[i as int]@);
                assert(listed[i as int] == users@[i as int]@);
                assert(listed.contains(users@[i as int]@));
            }
            let ghost pre = self.cache_v();
            self.permission_cache.append_user_perms(&users[i], &single);
            proof {
                assert forall|k: int|
                    0 <= k < listed.len() && (forall|j: int|
                        0 <= j < listed.len() && j != k ==> (#[trigger] listed[j]) != listed[k])
                        implies alist_lookup(self.cache_v().up, #[trigger] listed[k]) == (if k < i
                    + 1 {
                        Some(
                            UserPermissionsV {
                                read: crate::perms::up_perms_of(mid.cache_v(), listed[k]).read
                                    + read_ranges(seq![pv]),
                                write: crate::perms::up_perms_of(mid.cache_v(), listed[k]).write
                                    + write_ranges(seq![pv]),
                            },
                        )
                    } else {
                        alist_lookup(mid.cache_v().up, listed[k])
                    }) by {
                    if k == i {
                        assert(alist_lookup(pre.up, listed[k]) == alist_lookup(
                            mid.cache_v().up,
                            listed[k],
                        ));
                        assert(crate::perms::up_perms_of(pre, listed[k])
                            == crate::perms::up_perms_of(mid.cache_v(), listed[k]));
                    } else {
                        assert(listed[k] != listed[i as int]);
                    }
                }
            }
            i = i + 1;
        }
        Ok(())
    }
}

/// Upserting a record whose name is already at position `k` updates in
/// place.
pub proof fn lemma_upsert_existing(us: Seq<UserV>, u: UserV, k: int)
    requires
        users_sorted(us),
        0 <= k < us.len(),
        us[k].name == u.name,
    ensures
        upsert_user(us, u) == us.update(k, u),
{
    assert forall|j: int| 0 <= j < k implies lex_lt((#[trigger] us[j]).name, u.name) by {
        assert(lex_lt(us[j].name, us[k].name));
    }
    assert(!lex_lt(us[k].name, u.name)) by {
        crate::bytes::lemma_lex_irreflexive(u.name);
    }
    lemma_upsert_user_at(us, u, k);
}

impl AuthStoreBackend {
    /// The revision the latest write of the user's record carries, read
    /// from the MVCC index.
    pub fn user_mod_revision(&self, name: &Vec<u8>) -> (r: Option<Revision>)
        requires
            self.wf(),
        ensures
            r == live_rev(self.index_v(), user_key(name@)),
    {
        let key = user_key_vec(name);
        self.index.get_one(&key)
    }

    /// Apply `AuthRoleRevokePermissionRequest`: the role must exist and
    /// hold the exact permission; it is removed and every user the cache
    /// lists for the role has its permissions recomputed from the stored
    /// records.
    pub fn sync_role_revoke_permission_request(
        &mut self,
        role_name: &Vec<u8>,
        key: &Vec<u8>,
        range_end: &Vec<u8>,
    ) -> (r: Result<(), ExecuteError>)
        requires
            old(self).wf(),
            old(self).rev_v() < i64::MAX,
        ensures
            final(self).wf(),
            final(self).users_v() == old(self).users_v(),
            final(self).enabled_v() == old(self).enabled_v(),
            final(self).pool_v() == old(self).pool_v(),
            final(self).has_token_manager() == old(self).has_token_manager(),
            final(self).token_secret() == old(self).token_secret(),
            r is Err ==> final(self).roles_v() == old(self).roles_v() && final(self).rev_v()
                == old(self).rev_v() && final(self).cache_v() == old(self).cache_v(),
            match find_role(old(self).roles_v(), role_name@) {
                None => r == Err::<(), ExecuteError>(ExecuteError::RoleNotFound),
                Some(ro) => {
                    if !has_perm(ro.key_permission, key@, range_end@) {
                        r == Err::<(), ExecuteError>(ExecuteError::PermissionNotGranted)
                    } else {
                        &&& r is Ok
                        &&& final(self).rev_v() == old(self).rev_v() + 1
                        &&& find_role(final(self).roles_v(), role_name@) matches Some(nr)
                            && nr.name == ro.name && nr.perms_sorted() && final(self).roles_v()
                            == upsert_role(old(self).roles_v(), nr) && exists|i: int|
                            0 <= i < ro.key_permission.len() && ro.key_permission[i].key == key@
                                && ro.key_permission[i].range_end == range_end@
                                && nr.key_permission == ro.key_permission.remove(i)
                        &&& forall|k2: Seq<u8>|
                            k2 != role_name@ ==> find_role(final(self).roles_v(), k2) == find_role(
                                old(self).roles_v(),
                                k2,
                            )
                        &&& final(self).cache_v().rtu == old(self).cache_v().rtu
                        &&& forall|k2: Seq<u8>|
                            !crate::perms::rtu_users_of(old(self).cache_v(), role_name@).contains(
                                k2,
                            ) ==> alist_lookup(final(self).cache_v().up, k2) == alist_lookup(
                                old(self).cache_v().up,
                                k2,
                            )
                        &&& forall|k: int|
                            0 <= k < crate::perms::rtu_users_of(
                                old(self).cache_v(),
                                role_name@,
                            ).len() && (forall|j: int|
                                0 <= j < crate::perms::rtu_users_of(
                                    old(self).cache_v(),
                                    role_name@,
                                ).len() && j != k ==> (#[trigger] crate::perms::rtu_users_of(
                                    old(self).cache_v(),
                                    role_name@,
                                )[j]) != crate::perms::rtu_users_of(
                                    old(self).cache_v(),
                                    role_name@,
                                )[k]) ==> alist_lookup(
                                final(self).cache_v().up,
                                #[trigger] crate::perms::rtu_users_of(
                                    old(self).cache_v(),
                                    role_name@,
                                )[k],
                            ) == (match find_user(
                                old(self).users_v(),
                                crate::perms::rtu_users_of(old(self).cache_v(), role_name@)[k],
                            ) {
                                Some(u) => Some(
                                    UserPermissionsV {
                                        read: user_read_seq(u.roles, final(self).roles_v()),
                                        write: user_write_seq(u.roles, final(self).roles_v()),
                                    },
                                ),
                                None => alist_lookup(
                                    old(self).cache_v().up,
                                    crate::perms::rtu_users_of(
                                        old(self).cache_v(),
                                        role_name@,
                                    )[k],
                                ),
                            })
                    }
                },
            },
    {
        let mut role = match self.get_role(role_name) {
            Ok(x) => x,
            Err(e) => {
                return Err(e);
            },
        };
        proof {
            lemma_find_role_name(self.roles_v(), role_name@);
            assert(role@.perms_sorted()) by {
                lemma_find_role_mem(self.roles_v(), role_name@);
                let m = choose|m: int|
                    0 <= m < self.roles_v().len() && self.roles_v()[m] == role@;
                assert(self.roles_v()[m].perms_sorted());
            }
            assert forall|i: int, j: int|
                0 <= i < j < role.key_permission@.len() implies perm_lt(
                (#[trigger] role.key_permission@[i])@,
                (#[trigger] role.key_permission@[j])@,
            ) by {
                assert(role@.key_permission[i] == role.key_permission@[i]@);
                assert(role@.key_permission[j] == role.key_permission@[j]@);
            }
        }
        let ghost old_perms = role@.key_permission;
        let idx = match search_perms(&role.key_permission, key, range_end) {
            Ok(i) => {
                proof {
                    assert(old_perms[i as int].key == key@);
                    assert(has_perm(old_perms, key@, range_end@));
                }
                i
            },
            Err(_) => {
                return Err(ExecuteError::PermissionNotGranted);
            },
        };
        let _removed = role.key_permission.remove(idx);
        proof {
            assert(role@.key_permission =~= old_perms.remove(idx as int));
            assert(role@.perms_sorted()) by {
                assert forall|a: int, b: int|
                    0 <= a < b < role@.key_permission.len() implies perm_lt(
                    role@.key_permission[a],
                    role@.key_permission[b],
                ) by {
                    let a0: int = if a < idx {
                        a
                    } else {
                        a + 1
                    };
                    let b0: int = if b < idx {
                        b
                    } else {
                        b + 1
                    };
                    assert(old_perms.remove(idx as int)[a] == old_perms[a0]);
                    assert(old_perms.remove(idx as int)[b] == old_perms[b0]);
                }
            }
        }
        let rev = self.revision.next();
        self.put_role(role, rev, 0);
        let users = self.permission_cache.rtu_get(role_name);
        let ghost mid = *self;
        let ghost listed = crate::perms::rtu_users_of(mid.cache_v(), role_name@);
        let mut i: usize = 0;
        while i < users.len()
            invariant
                0 <= i <= users@.len(),
                self.wf(),
                users@.map_values(|x: Vec<u8>| x@) == listed,
                listed == crate::perms::rtu_users_of(mid.cache_v(), role_name@),
                listed.len() == users@.len(),
                self.cache_v().rtu == mid.cache_v().rtu,
                forall|k2: Seq<u8>|
                    !listed.contains(k2) ==> alist_lookup(self.cache_v().up, k2) == alist_lookup(
                        mid.cache_v().up,
                        k2,
                    ),
                forall|k: int|
                    0 <= k < listed.len() && (forall|j: int|
                        0 <= j < listed.len() && j != k ==> (#[trigger] listed[j]) != listed[k])
                        ==> alist_lookup(self.cache_v().up, #[trigger] listed[k]) == (if k < i {
                        match find_user(mid.users_v(), listed[k]) {
                            Some(u) => Some(
                                UserPermissionsV {
                                    read: user_read_seq(u.roles, mid.roles_v()),
                                    write: user_write_seq(u.roles, mid.roles_v()),
                                },
                            ),
                            None => alist_lookup(mid.cache_v().up, listed[k]),
                        }
                    } else {
                        alist_lookup(mid.cache_v().up, listed[k])
                    }),
                self.users_v() == mid.users_v(),
                self.roles_v() == mid.roles_v(),
                self.enabled_v() == mid.enabled_v(),
                self.rev_v() == mid.rev_v(),
                self.pool_v() == mid.pool_v(),
                self.has_token_manager() == mid.has_token_manager(),
                self.token_secret() == mid.token_secret(),
            decreases users@.len() - i,
        {
            proof {
                assert(users@.map_values(|x: Vec<u8>| x@)[i as int] == users@[i as int]@);
                assert(listed[i as int] == users@[i as int]@);
                assert(listed.contains(users@[i as int]@));
            }
            let ghost pre = self.cache_v();
            match self.get_user(&users[i]) {
                Ok(u) => {
                    let perms = self.get_user_permissions(&u);
                    self.permission_cache.set_user_perms(&users[i], perms);
                },
                Err(_) => {},
            }
            proof {
                assert forall|k: int|
                    0 <= k < listed.len() && (forall|j: int|
                        0 <= j < listed.len() && j != k ==> (#[trigger] listed[j]) != listed[k])
                        implies alist_lookup(self.cache_v().up, #[trigger] listed[k]) == (if k < i
                    + 1 {
                        match find_user(mid.users_v(), listed[k]) {
                            Some(u) => Some(
                                UserPermissionsV {
                                    read: user_read_seq(u.roles, mid.roles_v()),
                                    write: user_write_seq(u.roles, mid.roles_v()),
                                },
                            ),
                            None => alist_lookup(mid.cache_v().up, listed[k]),
                        }
                    } else {
                        alist_lookup(mid.cache_v().up, listed[k])
                    }) by {
                    if k == i {
                        if find_user(mid.users_v(), listed[k]) is None {
                            assert(alist_lookup(self.cache_v().up, listed[k]) == alist_lookup(
                                pre.up,
                                listed[k],
                            ));
                        }
                    } else {
                        assert(listed[k] != listed[i as int]);
                    }
                }
            }
            i = i + 1;
        }
        Ok(())
    }

    /// Apply `AuthRoleDeleteRequest`: delete the role at the next
    /// revision, then cascade: every user holding it is rewritten without
    /// it at the same main revision with ascending sub revisions starting
    /// at one, its cached permissions recomputed, and the role's user list
    /// dropped.
    #[verifier::rlimit(100)]
    pub fn sync_role_delete_request(&mut self, role: &Vec<u8>)
        requires
            old(self).wf(),
            old(self).rev_v() < i64::MAX,
        ensures
            final(self).wf(),
            final(self).rev_v() == old(self).rev_v() + 1,
            final(self).roles_v() == remove_role_seq(old(self).roles_v(), role@),
            find_role(final(self).roles_v(), role@) is None,
            final(self).enabled_v() == old(self).enabled_v(),
            final(self).pool_v() == old(self).pool_v(),
            final(self).has_token_manager() == old(self).has_token_manager(),
            final(self).token_secret() == old(self).token_secret(),
            final(self).users_v().len() == old(self).users_v().len(),
            forall|k: int|
                0 <= k < old(self).users_v().len() ==> {
                    let ou = old(self).users_v()[k];
                    let nu = #[trigger] final(self).users_v()[k];
                    &&& nu.name == ou.name
                    &&& nu.password == ou.password
                    &&& nu.options == ou.options
                    &&& nu.roles_sorted()
                    &&& nu.roles.to_multiset() == (if ou.roles.contains(role@) {
                        ou.roles.to_multiset().remove(role@)
                    } else {
                        ou.roles.to_multiset()
                    })
                },
            alist_lookup(final(self).cache_v().rtu, role@) is None,
            forall|k: Seq<u8>|
                k != role@ ==> alist_lookup(final(self).cache_v().rtu, k) == alist_lookup(
                    old(self).cache_v().rtu,
                    k,
                ),
            forall|k: int|
                0 <= k < old(self).users_v().len() && (#[trigger] old(self).users_v()[k]).roles.contains(role@) ==> alist_lookup(
                    final(self).cache_v().up,
                    old(self).users_v()[k].name,
                ) == Some(
                    UserPermissionsV {
                        read: user_read_seq(
                            final(self).users_v()[k].roles,
                            final(self).roles_v(),
                        ),
                        write: user_write_seq(
                            final(self).users_v()[k].roles,
                            final(self).roles_v(),
                        ),
                    },
                ),
            forall|k: int|
                0 <= k < old(self).users_v().len() && (#[trigger] old(self).users_v()[k]).roles.contains(role@) && 1 + holders_before(
                    old(self).users_v(),
                    role@,
                    k,
                ) <= i64::MAX ==> live_rev(
                    final(self).index_v(),
                    user_key(old(self).users_v()[k].name),
                ) == Some(
                    Revision {
                        main: final(self).rev_v(),
                        sub: (1 + holders_before(old(self).users_v(), role@, k)) as i64,
                    },
                ),
            forall|n: Seq<u8>|
                (match find_user(old(self).users_v(), n) {
                    Some(u) => !u.roles.contains(role@),
                    None => true,
                }) ==> alist_lookup(final(self).cache_v().up, n) == alist_lookup(
                    old(self).cache_v().up,
                    n,
                ),
    {
        let rev = self.revision.next();
        self.delete_role_rec(role, rev, 0);
        let users = self.get_all_users();
        let ghost us0 = self.users_v();
        let ghost mid = *self;
        let mut sub: i64 = 1;
        let mut i: usize = 0;
        while i < users.len()
            invariant
                0 <= i <= users@.len(),
                self.wf(),
                users@.map_values(|u: User| u@) == us0,
                us0.len() == users@.len(),
                users_sorted(us0),
                self.roles_v() == mid.roles_v(),
                self.enabled_v() == mid.enabled_v(),
                self.rev_v() == mid.rev_v(),
                self.pool_v() == mid.pool_v(),
                self.has_token_manager() == mid.has_token_manager(),
                self.token_secret() == mid.token_secret(),
                self.cache_v().rtu == mid.cache_v().rtu,
                self.users_v().len() == us0.len(),
                rev == mid.rev_v(),
                1 + holders_before(us0, role@, i as int) <= i64::MAX ==> sub as int == 1
                    + holders_before(us0, role@, i as int),
                forall|k: int|
                    0 <= k < i && (#[trigger] us0[k]).roles.contains(role@) && 1 + holders_before(
                        us0,
                        role@,
                        k,
                    ) <= i64::MAX ==> live_rev(self.index_v(), user_key(us0[k].name)) == Some(
                        Revision {
                            main: rev,
                            sub: (1 + holders_before(us0, role@, k)) as i64,
                        },
                    ),
                forall|k: int|
                    0 <= k < i && (#[trigger] us0[k]).roles.contains(role@) ==> alist_lookup(
                        self.cache_v().up,
                        us0[k].name,
                    ) == Some(
                        UserPermissionsV {
                            read: user_read_seq(self.users_v()[k].roles, mid.roles_v()),
                            write: user_write_seq(self.users_v()[k].roles, mid.roles_v()),
                        },
                    ),
                forall|n: Seq<u8>|
                    (match find_user(us0, n) {
                        Some(u) => !u.roles.contains(role@),
                        None => true,
                    }) ==> alist_lookup(self.cache_v().up, n) == alist_lookup(
                        mid.cache_v().up,
                        n,
                    ),
                forall|k: int|
                    i <= k < us0.len() ==> (#[trigger] self.users_v()[k]) == us0[k],
                forall|k: int|
                    0 <= k < i ==> {
                        let ou = us0[k];
                        let nu = #[trigger] self.users_v()[k];
                        &&& nu.name == ou.name
                        &&& nu.password == ou.password
                        &&& nu.options == ou.options
                        &&& nu.roles_sorted()
                        &&& nu.roles.to_multiset() == (if ou.roles.contains(role@) {
                            ou.roles.to_multiset().remove(role@)
                        } else {
                            ou.roles.to_multiset()
                        })
                    },
            decreases users@.len() - i,
        {
            proof {
                assert(users@[i as int]@ == us0[i as int]);
                assert(self.users_v()[i as int] == us0[i as int]);
                assert(us0[i as int].roles_sorted()) by {
                    assert(self.users_v()[i as int] == us0[i as int]);
                }
            }
            let mut user = clone_user(&users[i]);
            proof {
                assert forall|a: int, b: int|
                    0 <= a < b < user.roles@.len() implies lex_lt(
                    (#[trigger] user.roles@[a])@,
                    (#[trigger] user.roles@[b])@,
                ) by {
                    assert(user@.roles[a] == user.roles@[a]@);
                    assert(user@.roles[b] == user.roles@[b]@);
                }
            }
            match search_name_list(&user.roles, role) {
                Ok(idx) => {
                    proof {
                        assert(user@.roles[idx as int] == role@);
                        assert(user@.roles.contains(role@));
                    }
                    let ghost old_roles = user@.roles;
                    let _removed = user.roles.remove(idx);
                    proof {
                        assert(user@.roles =~= old_roles.remove(idx as int));
                        vstd::seq_lib::to_multiset_remove(old_roles, idx as int);
                        assert(user@.roles_sorted()) by {
                            assert forall|a: int, b: int|
                                0 <= a < b < user@.roles.len() implies lex_lt(
                                user@.roles[a],
                                user@.roles[b],
                            ) by {
                                let a0: int = if a < idx {
                                    a
                                } else {
                                    a + 1
                                };
                                let b0: int = if b < idx {
                                    b
                                } else {
                                    b + 1
                                };
                                assert(old_roles.remove(idx as int)[a] == old_roles[a0]);
                                assert(old_roles.remove(idx as int)[b] == old_roles[b0]);
                            }
                        }
                    }
                    let ghost nu = user@;
                    let perms_user = clone_user(&user);
                    proof {
                        lemma_upsert_existing(self.users_v(), nu, i as int);
                        assert(us0[i as int].roles.contains(role@)) by {
                            assert(old_roles == us0[i as int].roles);
                        }
                        assert forall|j: int|
                            0 <= j < i implies (#[trigger] us0[j]).name != us0[i as int].name by {
                            assert(lex_lt(us0[j].name, us0[i as int].name));
                            lemma_lex_trichotomy(us0[j].name, us0[i as int].name);
                        }
                        lemma_find_user_present(us0, i as int);
                    }
                    let ghost sub0 = sub;
                    self.put_user(user, rev, sub);
                    proof {
                        assert forall|k: int|
                            0 <= k < i && (#[trigger] us0[k]).roles.contains(role@) && 1
                                + holders_before(us0, role@, k) <= i64::MAX implies live_rev(
                            self.index_v(),
                            user_key(us0[k].name),
                        ) == Some(
                            Revision { main: rev, sub: (1 + holders_before(us0, role@, k)) as i64 },
                        ) by {
                            assert(us0[k].name != us0[i as int].name) by {
                                assert(lex_lt(us0[k].name, us0[i as int].name));
                                lemma_lex_trichotomy(us0[k].name, us0[i as int].name);
                            }
                            lemma_user_key_inj(us0[k].name, us0[i as int].name);
                        }
                        assert(holders_before(us0, role@, i + 1) == holders_before(
                            us0,
                            role@,
                            i as int,
                        ) + 1);
                    }
                    sub = if sub == i64::MAX {
                        i64::MIN
                    } else {
                        sub + 1
                    };
                    let perms = self.get_user_permissions(&perms_user);
                    self.permission_cache.set_user_perms(&users[i].name, perms);
                    proof {
                        assert(users@[i as int].name@ == us0[i as int].name);
                        assert(perms_user@ == nu);
                        assert(self.users_v()[i as int] == nu);
                    }
                },
                Err(_) => {
                    proof {
                        assert(!user@.roles.contains(role@));
                        assert(!us0[i as int].roles.contains(role@));
                        assert(holders_before(us0, role@, i + 1) == holders_before(
                            us0,
                            role@,
                            i as int,
                        ));
                    }
                },
            }
            i = i + 1;
        }
        self.permission_cache.rtu_remove_role(role);
    }
}

impl AuthStoreBackend {
    /// The sync phase: pop the proposal's context; when its execute phase
    /// failed nothing changes and the current revision comes back;
    /// otherwise the request's mutation is applied. The revision never
    /// moves backwards, and it stands still only when the state does.
    pub fn sync_request(&mut self, id: u64) -> (r: Result<i64, ExecuteError>)
        requires
            old(self).wf(),
            crate::perms::alist_unique(old(self).pool_v()),
            old(self).rev_v() < i64::MAX,
            alist_lookup(old(self).pool_v(), id) is Some,
        ensures
            final(self).wf(),
            crate::perms::alist_unique(final(self).pool_v()),
            alist_lookup(final(self).pool_v(), id) is None,
            forall|k: u64|
                k != id ==> alist_lookup(final(self).pool_v(), k) == alist_lookup(
                    old(self).pool_v(),
                    k,
                ),
            final(self).has_token_manager() == old(self).has_token_manager(),
            final(self).token_secret() == old(self).token_secret(),
            old(self).rev_v() <= final(self).rev_v() <= old(self).rev_v() + 1,
            r matches Ok(rev) ==> rev == final(self).rev_v(),
            alist_lookup(old(self).pool_v(), id).unwrap().err ==> r == Ok::<i64, ExecuteError>(
                old(self).rev_v(),
            ) && final(self).users_v() == old(self).users_v() && final(self).roles_v() == old(self).roles_v() && final(self).enabled_v() == old(self).enabled_v() && final(self).rev_v()
                == old(self).rev_v() && final(self).cache_v() == old(self).cache_v(),
            final(self).rev_v() == old(self).rev_v() ==> final(self).users_v() == old(self).users_v() && final(self).roles_v() == old(self).roles_v() && final(self).enabled_v()
                == old(self).enabled_v() && final(self).cache_v() == old(self).cache_v(),
            !alist_lookup(old(self).pool_v(), id).unwrap().err ==> match alist_lookup(
                old(self).pool_v(),
                id,
            ).unwrap().req {
                RequestWrapper::AuthEnableRequest => {
                    &&& r is Ok
                    &&& final(self).enabled_v()
                    &&& final(self).users_v() == old(self).users_v()
                    &&& final(self).roles_v() == old(self).roles_v()
                    &&& (old(self).enabled_v() ==> final(self).rev_v() == old(self).rev_v()
                        && final(self).cache_v() == old(self).cache_v())
                    &&& (!old(self).enabled_v() ==> final(self).rev_v() == old(self).rev_v() + 1
                        && crate::perms::cache_consistent(
                        final(self).cache_v(),
                        final(self).users_v(),
                        final(self).roles_v(),
                    ))
                },
                RequestWrapper::AuthDisableRequest => {
                    &&& r is Ok
                    &&& !final(self).enabled_v()
                    &&& final(self).users_v() == old(self).users_v()
                    &&& final(self).roles_v() == old(self).roles_v()
                    &&& final(self).cache_v() == old(self).cache_v()
                    &&& final(self).rev_v() as int == (if old(self).enabled_v() {
                        old(self).rev_v() + 1
                    } else {
                        old(self).rev_v() as int
                    })
                },
                RequestWrapper::AuthStatusRequest
                | RequestWrapper::AuthenticateRequest { .. }
                | RequestWrapper::AuthUserGetRequest { .. }
                | RequestWrapper::AuthUserListRequest
                | RequestWrapper::AuthRoleGetRequest { .. }
                | RequestWrapper::AuthRoleListRequest => {
                    &&& r == Ok::<i64, ExecuteError>(old(self).rev_v())
                    &&& final(self).users_v() == old(self).users_v()
                    &&& final(self).roles_v() == old(self).roles_v()
                    &&& final(self).enabled_v() == old(self).enabled_v()
                    &&& final(self).rev_v() == old(self).rev_v()
                    &&& final(self).cache_v() == old(self).cache_v()
                },
                RequestWrapper::AuthUserAddRequest { name, hashed_password, options } => {
                    &&& r is Ok
                    &&& final(self).rev_v() == old(self).rev_v() + 1
                    &&& final(self).users_v() == upsert_user(
                        old(self).users_v(),
                        UserV {
                            name: name@,
                            password: hashed_password@,
                            options,
                            roles: Seq::empty(),
                        },
                    )
                    &&& final(self).roles_v() == old(self).roles_v()
                    &&& final(self).enabled_v() == old(self).enabled_v()
                    &&& final(self).cache_v() == old(self).cache_v()
                },
                RequestWrapper::AuthUserDeleteRequest { name } => {
                    &&& r is Ok
                    &&& final(self).rev_v() == old(self).rev_v() + 1
                    &&& final(self).users_v() == remove_user_seq(old(self).users_v(), name@)
                    &&& final(self).roles_v() == old(self).roles_v()
                    &&& final(self).enabled_v() == old(self).enabled_v()
                    &&& alist_lookup(final(self).cache_v().up, name@) is None
                },
                RequestWrapper::AuthUserChangePasswordRequest { name, hashed_password } => match find_user(
                    old(self).users_v(),
                    name@,
                ) {
                    None => r == Err::<i64, ExecuteError>(ExecuteError::UserNotFound) && final(self).users_v() == old(self).users_v() && final(self).rev_v() == old(self).rev_v(),
                    Some(u) => r is Ok && final(self).rev_v() == old(self).rev_v() + 1 && final(self).users_v() == upsert_user(
                        old(self).users_v(),
                        UserV { password: hashed_password@, ..u },
                    ) && final(self).roles_v() == old(self).roles_v() && final(self).enabled_v()
                        == old(self).enabled_v() && final(self).cache_v() == old(self).cache_v(),
                },
                RequestWrapper::AuthUserGrantRoleRequest { user, role } => match find_user(
                    old(self).users_v(),
                    user@,
                ) {
                    None => r == Err::<i64, ExecuteError>(ExecuteError::UserNotFound) && final(self).rev_v() == old(self).rev_v(),
                    Some(u) => {
                        if role@ != root_spec() && find_role(old(self).roles_v(), role@) is None {
                            r == Err::<i64, ExecuteError>(ExecuteError::RoleNotFound) && final(self).rev_v() == old(self).rev_v()
                        } else if u.roles.contains(role@) {
                            r == Err::<i64, ExecuteError>(ExecuteError::UserAlreadyHasRole)
                                && final(self).rev_v() == old(self).rev_v()
                        } else {
                            &&& r is Ok
                            &&& final(self).rev_v() == old(self).rev_v() + 1
                            &&& find_user(final(self).users_v(), user@) matches Some(nu)
                                && nu.name == u.name && nu.roles_sorted() && nu.roles.to_multiset()
                                == u.roles.to_multiset().insert(role@)
                            &&& final(self).roles_v() == old(self).roles_v()
                            &&& final(self).enabled_v() == old(self).enabled_v()
                        }
                    },
                },
                RequestWrapper::AuthUserRevokeRoleRequest { name, role } => match find_user(
                    old(self).users_v(),
                    name@,
                ) {
                    None => r == Err::<i64, ExecuteError>(ExecuteError::UserNotFound) && final(self).rev_v() == old(self).rev_v(),
                    Some(u) => {
                        if !u.roles.contains(role@) {
                            r == Err::<i64, ExecuteError>(ExecuteError::UserDoesNotHaveRole)
                                && final(self).rev_v() == old(self).rev_v()
                        } else {
                            &&& r is Ok
                            &&& final(self).rev_v() == old(self).rev_v() + 1
                            &&& find_user(final(self).users_v(), name@) matches Some(nu)
                                && nu.name == u.name && nu.roles_sorted() && nu.roles.to_multiset()
                                == u.roles.to_multiset().remove(role@) && alist_lookup(
                                final(self).cache_v().up,
                                name@,
                            ) == Some(
                                UserPermissionsV {
                                    read: user_read_seq(nu.roles, old(self).roles_v()),
                                    write: user_write_seq(nu.roles, old(self).roles_v()),
                                },
                            )
                            &&& final(self).roles_v() == old(self).roles_v()
                            &&& final(self).enabled_v() == old(self).enabled_v()
                        }
                    },
                },
                RequestWrapper::AuthRoleAddRequest { name } => {
                    &&& r is Ok
                    &&& final(self).rev_v() == old(self).rev_v() + 1
                    &&& final(self).roles_v() == upsert_role(
                        old(self).roles_v(),
                        RoleV { name: name@, key_permission: Seq::empty() },
                    )
                    &&& final(self).users_v() == old(self).users_v()
                    &&& final(self).enabled_v() == old(self).enabled_v()
                    &&& final(self).cache_v() == old(self).cache_v()
                },
                RequestWrapper::AuthRoleDeleteRequest { role } => {
                    &&& r is Ok
                    &&& final(self).rev_v() == old(self).rev_v() + 1
                    &&& final(self).roles_v() == remove_role_seq(old(self).roles_v(), role@)
                    &&& final(self).enabled_v() == old(self).enabled_v()
                    &&& final(self).users_v().len() == old(self).users_v().len()
                    &&& alist_lookup(final(self).cache_v().rtu, role@) is None
                },
                RequestWrapper::AuthRoleGrantPermissionRequest { name, perm } => match find_role(
                    old(self).roles_v(),
                    name@,
                ) {
                    None => r == Err::<i64, ExecuteError>(ExecuteError::RoleNotFound) && final(self).rev_v() == old(self).rev_v(),
                    Some(ro) => match perm {
                        None => r == Err::<i64, ExecuteError>(ExecuteError::PermissionNotGiven)
                            && final(self).rev_v() == old(self).rev_v(),
                        Some(p) => {
                            &&& r is Ok
                            &&& final(self).rev_v() == old(self).rev_v() + 1
                            &&& find_role(final(self).roles_v(), name@) matches Some(nr)
                                && nr.name == ro.name && nr.perms_sorted() && (if has_perm(
                                ro.key_permission,
                                p@.key,
                                p@.range_end,
                            ) {
                                nr.key_permission.len() == ro.key_permission.len()
                            } else {
                                nr.key_permission.to_multiset()
                                    == ro.key_permission.to_multiset().insert(p@)
                            })
                            &&& final(self).users_v() == old(self).users_v()
                            &&& final(self).enabled_v() == old(self).enabled_v()
                        },
                    },
                },
                RequestWrapper::AuthRoleRevokePermissionRequest { role, key, range_end } => match find_role(
                    old(self).roles_v(),
                    role@,
                ) {
                    None => r == Err::<i64, ExecuteError>(ExecuteError::RoleNotFound) && final(self).rev_v() == old(self).rev_v(),
                    Some(ro) => {
                        if !has_perm(ro.key_permission, key@, range_end@) {
                            r == Err::<i64, ExecuteError>(ExecuteError::PermissionNotGranted)
                                && final(self).rev_v() == old(self).rev_v()
                        } else {
                            &&& r is Ok
                            &&& final(self).rev_v() == old(self).rev_v() + 1
                            &&& find_role(final(self).roles_v(), role@) matches Some(nr)
                                && nr.name == ro.name && nr.perms_sorted()
                                && nr.key_permission.len() + 1 == ro.key_permission.len()
                            &&& final(self).users_v() == old(self).users_v()
                            &&& final(self).enabled_v() == old(self).enabled_v()
                        }
                    },
                },
            },
    {
        let ctx = match self.pool_remove(id) {
            Some(c) => c,
            None => {
                proof {
                    assert(false);
                }
                return Err(ExecuteError::InvalidToken);
            },
        };
        if ctx.err {
            return Ok(self.revision.get());
        }
        match ctx.req {
            RequestWrapper::AuthEnableRequest => {
                self.sync_auth_enable_request();
            },
            RequestWrapper::AuthDisableRequest => {
                self.sync_auth_disable_request();
            },
            RequestWrapper::AuthStatusRequest => {},
            RequestWrapper::AuthenticateRequest { .. } => {},
            RequestWrapper::AuthUserAddRequest { name, hashed_password, options } => {
                self.sync_user_add_request(&name, &hashed_password, options);
            },
            RequestWrapper::AuthUserGetRequest { .. } => {},
            RequestWrapper::AuthUserListRequest => {},
            RequestWrapper::AuthUserDeleteRequest { name } => {
                self.sync_user_delete_request(&name);
            },
            RequestWrapper::AuthUserChangePasswordRequest { name, hashed_password } => {
                if let Err(e) = self.sync_user_change_password_request(&name, &hashed_password) {
                    return Err(e);
                }
            },
            RequestWrapper::AuthUserGrantRoleRequest { user, role } => {
                if let Err(e) = self.sync_user_grant_role_request(&user, &role) {
                    return Err(e);
                }
            },
            RequestWrapper::AuthUserRevokeRoleRequest { name, role } => {
                if let Err(e) = self.sync_user_revoke_role_request(&name, &role) {
                    return Err(e);
                }
            },
            RequestWrapper::AuthRoleAddRequest { name } => {
                self.sync_role_add_request(&name);
            },
            RequestWrapper::AuthRoleGetRequest { .. } => {},
            RequestWrapper::AuthRoleListRequest => {},
            RequestWrapper::AuthRoleDeleteRequest { role } => {
                self.sync_role_delete_request(&role);
            },
            RequestWrapper::AuthRoleGrantPermissionRequest { name, perm } => {
                if let Err(e) = self.sync_role_grant_permission_request(&name, &perm) {
                    return Err(e);
                }
            },
            RequestWrapper::AuthRoleRevokePermissionRequest { role, key, range_end } => {
                if let Err(e) = self.sync_role_revoke_permission_request(&role, &key, &range_end) {
                    return Err(e);
                }
            },
        }
        Ok(self.revision.get())
    }
}

/// The execute phase is pure: from equal states, a request draws the same
/// validation outcome.
pub proof fn lemma_execute_deterministic(
    users1: Seq<UserV>,
    roles1: Seq<RoleV>,
    enabled1: bool,
    has_tm1: bool,
    users2: Seq<UserV>,
    roles2: Seq<RoleV>,
    enabled2: bool,
    has_tm2: bool,
    req: RequestWrapper,
)
    requires
        users1 == users2,
        roles1 == roles2,
        enabled1 == enabled2,
        has_tm1 == has_tm2,
    ensures
        spec_execute_err(users1, roles1, enabled1, has_tm1, req) == spec_execute_err(
            users2,
            roles2,
            enabled2,
            has_tm2,
            req,
        ),
{
}

/// A found user carries the looked-up name.
pub proof fn lemma_find_user_name(us: Seq<UserV>, n: Seq<u8>)
    ensures
        find_user(us, n) matches Some(u) ==> u.name == n,
    decreases us.len(),
{
    if us.len() > 0 && us[0].name != n {
        lemma_find_user_name(us.skip(1), n);
    }
}

/// User storage keys are injective in the user name.
pub proof fn lemma_user_key_inj(a: Seq<u8>, b: Seq<u8>)
    requires
        a != b,
    ensures
        user_key(a) != user_key(b),
{
    if user_key(a) == user_key(b) {
        assert(a =~= b) by {
            assert(user_key(a).len() == 5 + a.len());
            assert(user_key(b).len() == 5 + b.len());
            assert forall|i: int| 0 <= i < a.len() implies a[i] == b[i] by {
                assert(user_key(a)[5 + i] == a[i]);
                assert(user_key(b)[5 + i] == b[i]);
            }
        }
    }
}

/// In a list whose first `p` names differ from the `p`-th, the `p`-th
/// record is the one found under its name.
pub proof fn lemma_find_user_present(us: Seq<UserV>, p: int)
    requires
        0 <= p < us.len(),
        forall|j: int| 0 <= j < p ==> (#[trigger] us[j]).name != us[p].name,
    ensures
        find_user(us, us[p].name) == Some(us[p]),
    decreases p,
{
    if p > 0 {
        assert(us.skip(1)[p - 1] == us[p]);
        assert forall|j: int|
            0 <= j < p - 1 implies (#[trigger] us.skip(1)[j]).name != us.skip(1)[p - 1].name by {
            assert(us.skip(1)[j] == us[j + 1]);
        }
        lemma_find_user_present(us.skip(1), p - 1);
        assert(find_user(us, us[p].name) == find_user(us.skip(1), us[p].name));
    }
}

/// Looking a name up in an extended user list: the old entry wins, then
/// the new record when its name matches.
pub proof fn lemma_find_user_push(us: Seq<UserV>, u: UserV, n: Seq<u8>)
    ensures
        find_user(us.push(u), n) == (match find_user(us, n) {
            Some(x) => Some(x),
            None => if u.name == n {
                Some(u)
            } else {
                None::<UserV>
            },
        }),
    decreases us.len(),
{
    if us.len() == 0 {
        assert(us.push(u)[0] == u);
        assert(us.push(u).skip(1) =~= us);
    } else {
        assert(us.push(u)[0] == us[0]);
        assert(us.push(u).skip(1) =~= us.skip(1).push(u));
        lemma_find_user_push(us.skip(1), u, n);
    }
}

/// A found user is a record of the list, so its record invariants hold.
pub proof fn lemma_find_user_mem(us: Seq<UserV>, n: Seq<u8>)
    ensures
        find_user(us, n) matches Some(u) ==> exists|m: int| 0 <= m < us.len() && us[m] == u,
    decreases us.len(),
{
    if us.len() > 0 {
        if us[0].name == n {
        } else {
            lemma_find_user_mem(us.skip(1), n);
            if find_user(us.skip(1), n) is Some {
                let u = find_user(us.skip(1), n).unwrap();
                let m = choose|m: int| 0 <= m < us.skip(1).len() && us.skip(1)[m] == u;
                assert(us.skip(1)[m] == us[m + 1]);
            }
        }
    }
}

/// A found role is a record of the list, so its record invariants hold.
pub proof fn lemma_find_role_mem(rs: Seq<RoleV>, n: Seq<u8>)
    ensures
        find_role(rs, n) matches Some(r) ==> exists|m: int| 0 <= m < rs.len() && rs[m] == r,
    decreases rs.len(),
{
    if rs.len() > 0 {
        if rs[0].name == n {
        } else {
            lemma_find_role_mem(rs.skip(1), n);
            if find_role(rs.skip(1), n) is Some {
                let r = find_role(rs.skip(1), n).unwrap();
                let m = choose|m: int| 0 <= m < rs.skip(1).len() && rs.skip(1)[m] == r;
                assert(rs.skip(1)[m] == rs[m + 1]);
            }
        }
    }
}

/// A found role carries the looked-up name.
pub proof fn lemma_find_role_name(rs: Seq<RoleV>, n: Seq<u8>)
    ensures
        find_role(rs, n) matches Some(r) ==> r.name == n,
    decreases rs.len(),
{
    if rs.len() > 0 && rs[0].name != n {
        lemma_find_role_name(rs.skip(1), n);
    }
}

/// Extending a role-name list extends the expansions by the new role's
/// contribution.
pub proof fn lemma_user_seq_push(rs: Seq<Seq<u8>>, x: Seq<u8>, roles: Seq<RoleV>)
    ensures
        user_read_seq(rs.push(x), roles) == user_read_seq(rs, roles) + (match find_role(
            roles,
            x,
        ) {
            Some(r) => read_ranges(r.key_permission),
            None => Seq::empty(),
        }),
        user_write_seq(rs.push(x), roles) == user_write_seq(rs, roles) + (match find_role(
            roles,
            x,
        ) {
            Some(r) => write_ranges(r.key_permission),
            None => Seq::empty(),
        }),
    decreases rs.len(),
{
    let cr = match find_role(roles, x) {
        Some(r) => read_ranges(r.key_permission),
        None => Seq::<crate::perms::KeyRangeV>::empty(),
    };
    let cw = match find_role(roles, x) {
        Some(r) => write_ranges(r.key_permission),
        None => Seq::<crate::perms::KeyRangeV>::empty(),
    };
    if rs.len() == 0 {
        assert(rs.push(x)[0] == x);
        assert(rs.push(x).skip(1) =~= rs);
        assert(user_read_seq(rs.push(x), roles) =~= user_read_seq(rs, roles) + cr);
        assert(user_write_seq(rs.push(x), roles) =~= user_write_seq(rs, roles) + cw);
    } else {
        assert(rs.push(x)[0] == rs[0]);
        assert(rs.push(x).skip(1) =~= rs.skip(1).push(x));
        lemma_user_seq_push(rs.skip(1), x, roles);
        assert(user_read_seq(rs.push(x), roles) =~= user_read_seq(rs, roles) + cr);
        assert(user_write_seq(rs.push(x), roles) =~= user_write_seq(rs, roles) + cw);
    }
}

/// Every record of a user removal is a record of the old list.
pub proof fn lemma_remove_user_mem(us: Seq<UserV>, n: Seq<u8>, i: int)
    requires
        0 <= i < remove_user_seq(us, n).len(),
    ensures
        exists|m: int| 0 <= m < us.len() && us[m] == remove_user_seq(us, n)[i],
    decreases us.len(),
{
    let s2 = remove_user_seq(us, n);
    if us.len() > 0 {
        if us[0].name == n {
            assert(s2[i] == us[i + 1]);
        } else {
            if i > 0 {
                let t = remove_user_seq(us.skip(1), n);
                assert(s2[i] == t[i - 1]);
                lemma_remove_user_mem(us.skip(1), n, i - 1);
                let m = choose|m: int| 0 <= m < us.skip(1).len() && us.skip(1)[m] == t[i - 1];
                assert(us.skip(1)[m] == us[m + 1]);
            } else {
                assert(s2[0] == us[0]);
            }
        }
    }
}

/// Every record of a role removal is a record of the old list.
pub proof fn lemma_remove_role_mem(rs: Seq<RoleV>, n: Seq<u8>, i: int)
    requires
        0 <= i < remove_role_seq(rs, n).len(),
    ensures
        exists|m: int| 0 <= m < rs.len() && rs[m] == remove_role_seq(rs, n)[i],
    decreases rs.len(),
{
    let s2 = remove_role_seq(rs, n);
    if rs.len() > 0 {
        if rs[0].name == n {
            assert(s2[i] == rs[i + 1]);
        } else {
            if i > 0 {
                let t = remove_role_seq(rs.skip(1), n);
                assert(s2[i] == t[i - 1]);
                lemma_remove_role_mem(rs.skip(1), n, i - 1);
                let m = choose|m: int| 0 <= m < rs.skip(1).len() && rs.skip(1)[m] == t[i - 1];
                assert(rs.skip(1)[m] == rs[m + 1]);
            } else {
                assert(s2[0] == rs[0]);
            }
        }
    }
}

} // verus!
