//! The permission cache: per-user effective key ranges and the
//! role-to-users reverse index, with the spec functions that say what a
//! consistent cache holds.

use vstd::prelude::*;
use vstd::multiset::Multiset;

use crate::rpc::{clone_bytes, Permission, PermissionV, RoleV, Type, UserV};

verus! {

/// A half-open key range `[start, end)`.
#[derive(Debug)]
pub struct KeyRange {
    /// Range start.
    pub start: Vec<u8>,
    /// Exclusive range end.
    pub end: Vec<u8>,
}

/// Mathematical model of a [`KeyRange`].
pub ghost struct KeyRangeV {
    /// Range start.
    pub start: Seq<u8>,
    /// Exclusive range end.
    pub end: Seq<u8>,
}

impl View for KeyRange {
    type V = KeyRangeV;

    open spec fn view(&self) -> KeyRangeV {
        KeyRangeV { start: self.start@, end: self.end@ }
    }
}

impl KeyRange {
    /// Build a range from a permission's key and range end.
    pub fn new(start: Vec<u8>, end: Vec<u8>) -> (r: KeyRange)
        ensures
            r@ == (KeyRangeV { start: start@, end: end@ }),
    {
        KeyRange { start, end }
    }
}

/// Deep copy of a key range.
pub fn clone_key_range(k: &KeyRange) -> (r: KeyRange)
    ensures
        r@ == k@,
{
    KeyRange { start: clone_bytes(&k.start), end: clone_bytes(&k.end) }
}

/// A user's effective permissions: the ranges it may read and write.
#[derive(Debug)]
pub struct UserPermissions {
    /// Readable ranges.
    pub read: Vec<KeyRange>,
    /// Writable ranges.
    pub write: Vec<KeyRange>,
}

/// Mathematical model of [`UserPermissions`].
pub ghost struct UserPermissionsV {
    /// Readable ranges.
    pub read: Seq<KeyRangeV>,
    /// Writable ranges.
    pub write: Seq<KeyRangeV>,
}

impl View for UserPermissions {
    type V = UserPermissionsV;

    open spec fn view(&self) -> UserPermissionsV {
        UserPermissionsV {
            read: self.read@.map_values(|k: KeyRange| k@),
            write: self.write@.map_values(|k: KeyRange| k@),
        }
    }
}

impl UserPermissions {
    /// Empty permissions.
    pub fn new() -> (r: UserPermissions)
        ensures
            r@.read =~= Seq::<KeyRangeV>::empty(),
            r@.write =~= Seq::<KeyRangeV>::empty(),
    {
        let r = UserPermissions { read: Vec::new(), write: Vec::new() };
        proof {
            assert(r@.read =~= Seq::<KeyRangeV>::empty());
            assert(r@.write =~= Seq::<KeyRangeV>::empty());
        }
        r
    }
}

/// Deep copy of user permissions.
pub fn clone_user_permissions(p: &UserPermissions) -> (r: UserPermissions)
    ensures
        r@ == p@,
{
    let mut read: Vec<KeyRange> = Vec::new();
    let mut i: usize = 0;
    while i < p.read.len()
        invariant
            0 <= i <= p.read@.len(),
            read@.len() == i,
            forall|k: int| 0 <= k < i ==> read@[k]@ == p.read@[k]@,
        decreases p.read@.len() - i,
    {
        let c = clone_key_range(&p.read[i]);
        read.push(c);
        i = i + 1;
    }
    let mut write: Vec<KeyRange> = Vec::new();
    let mut j: usize = 0;
    while j < p.write.len()
        invariant
            0 <= j <= p.write@.len(),
            write@.len() == j,
            forall|k: int| 0 <= k < j ==> write@[k]@ == p.write@[k]@,
        decreases p.write@.len() - j,
    {
        let c = clone_key_range(&p.write[j]);
        write.push(c);
        j = j + 1;
    }
    let r = UserPermissions { read, write };
    proof {
        assert(r@.read =~= p@.read);
        assert(r@.write =~= p@.write);
    }
    r
}

/// The range a permission covers.
pub open spec fn kr_of(p: PermissionV) -> KeyRangeV {
    KeyRangeV { start: p.key, end: p.range_end }
}

/// The ranges a permission list lets a user read, in list order.
pub open spec fn read_ranges(ps: Seq<PermissionV>) -> Seq<KeyRangeV>
    decreases ps.len(),
{
    if ps.len() == 0 {
        Seq::empty()
    } else {
        (match ps[0].perm_type {
            Type::Read => seq![kr_of(ps[0])],
            Type::Readwrite => seq![kr_of(ps[0])],
            Type::Write => Seq::empty(),
        }) + read_ranges(ps.skip(1))
    }
}

/// The ranges a permission list lets a user write, in list order.
pub open spec fn write_ranges(ps: Seq<PermissionV>) -> Seq<KeyRangeV>
    decreases ps.len(),
{
    if ps.len() == 0 {
        Seq::empty()
    } else {
        (match ps[0].perm_type {
            Type::Write => seq![kr_of(ps[0])],
            Type::Readwrite => seq![kr_of(ps[0])],
            Type::Read => Seq::empty(),
        }) + write_ranges(ps.skip(1))
    }
}

/// The first role named `name`, if any.
pub open spec fn find_role(roles: Seq<RoleV>, name: Seq<u8>) -> Option<RoleV>
    decreases roles.len(),
{
    if roles.len() == 0 {
        None
    } else if roles[0].name == name {
        Some(roles[0])
    } else {
        find_role(roles.skip(1), name)
    }
}

/// The first user named `name`, if any.
pub open spec fn find_user(users: Seq<UserV>, name: Seq<u8>) -> Option<UserV>
    decreases users.len(),
{
    if users.len() == 0 {
        None
    } else if users[0].name == name {
        Some(users[0])
    } else {
        find_user(users.skip(1), name)
    }
}

/// The readable ranges a role list grants through the given role names;
/// names of missing roles contribute nothing.
pub open spec fn user_read_seq(rs: Seq<Seq<u8>>, roles: Seq<RoleV>) -> Seq<KeyRangeV>
    decreases rs.len(),
{
    if rs.len() == 0 {
        Seq::empty()
    } else {
        (match find_role(roles, rs[0]) {
            Some(r) => read_ranges(r.key_permission),
            None => Seq::empty(),
        }) + user_read_seq(rs.skip(1), roles)
    }
}

/// The writable ranges a role list grants through the given role names.
pub open spec fn user_write_seq(rs: Seq<Seq<u8>>, roles: Seq<RoleV>) -> Seq<KeyRangeV>
    decreases rs.len(),
{
    if rs.len() == 0 {
        Seq::empty()
    } else {
        (match find_role(roles, rs[0]) {
            Some(r) => write_ranges(r.key_permission),
            None => Seq::empty(),
        }) + user_write_seq(rs.skip(1), roles)
    }
}

/// The names of the users holding role `rn`, as a multiset.
pub open spec fn holders_ms(users: Seq<UserV>, rn: Seq<u8>) -> Multiset<Seq<u8>>
    decreases users.len(),
{
    if users.len() == 0 {
        Multiset::empty()
    } else {
        (if users[0].roles.contains(rn) {
            Multiset::empty().insert(users[0].name)
        } else {
            Multiset::empty()
        }).add(holders_ms(users.skip(1), rn))
    }
}

/// First-match lookup in an association list keyed by byte strings.
pub open spec fn alist_lookup<K, V>(s: Seq<(K, V)>, n: K) -> Option<V>
    decreases s.len(),
{
    if s.len() == 0 {
        None
    } else if s[0].0 == n {
        Some(s[0].1)
    } else {
        alist_lookup(s.skip(1), n)
    }
}

/// Keys of an association list are pairwise distinct.
pub open spec fn alist_unique<K, V>(s: Seq<(K, V)>) -> bool {
    forall|i: int, j: int| 0 <= i < j < s.len() ==> (#[trigger] s[i].0) != (#[trigger] s[j].0)
}

/// A scan that found `n` at `p` realizes the lookup.
pub proof fn lemma_alist_at<K, V>(s: Seq<(K, V)>, n: K, p: int)
    requires
        0 <= p < s.len(),
        s[p].0 == n,
        forall|j: int| 0 <= j < p ==> (#[trigger] s[j].0) != n,
    ensures
        alist_lookup(s, n) == Some(s[p].1),
    decreases p,
{
    if p > 0 {
        assert(s.skip(1)[p - 1] == s[p]);
        assert forall|j: int| 0 <= j < p - 1 implies (#[trigger] s.skip(1)[j].0) != n by {
            assert(s.skip(1)[j] == s[j + 1]);
        }
        lemma_alist_at(s.skip(1), n, p - 1);
    }
}

/// A scan that found no `n` shows it absent.
pub proof fn lemma_alist_none<K, V>(s: Seq<(K, V)>, n: K)
    requires
        forall|j: int| 0 <= j < s.len() ==> (#[trigger] s[j].0) != n,
    ensures
        alist_lookup(s, n) is None,
    decreases s.len(),
{
    if s.len() > 0 {
        assert forall|j: int| 0 <= j < s.skip(1).len() implies (#[trigger] s.skip(1)[j].0)
            != n by {
            assert(s.skip(1)[j] == s[j + 1]);
        }
        lemma_alist_none(s.skip(1), n);
    }
}

/// An absent key occurs nowhere in the list.
pub proof fn lemma_alist_none_inv<K, V>(s: Seq<(K, V)>, n: K)
    requires
        alist_lookup(s, n) is None,
    ensures
        forall|j: int| 0 <= j < s.len() ==> (#[trigger] s[j].0) != n,
    decreases s.len(),
{
    if s.len() > 0 {
        lemma_alist_none_inv(s.skip(1), n);
        assert forall|j: int| 0 <= j < s.len() implies (#[trigger] s[j].0) != n by {
            if j > 0 {
                assert(s.skip(1)[j - 1] == s[j]);
            }
        }
    }
}

/// Updating the first entry keyed `n` in place changes only that key.
pub proof fn lemma_alist_update<K, V>(s: Seq<(K, V)>, n: K, p: int, x: V)
    requires
        0 <= p < s.len(),
        s[p].0 == n,
        forall|j: int| 0 <= j < p ==> (#[trigger] s[j].0) != n,
    ensures
        alist_lookup(s.update(p, (n, x)), n) == Some(x),
        forall|k: K| k != n ==> alist_lookup(s.update(p, (n, x)), k) == alist_lookup(s, k),
        alist_unique(s) ==> alist_unique(s.update(p, (n, x))),
    decreases p,
{
    let s2 = s.update(p, (n, x));
    if p == 0 {
        assert(s2[0] == (n, x));
        assert(s2.skip(1) =~= s.skip(1));
        assert forall|k: K| k != n implies alist_lookup(s2, k) == alist_lookup(s, k) by {
            assert(alist_lookup(s2, k) == alist_lookup(s2.skip(1), k));
            assert(alist_lookup(s, k) == alist_lookup(s.skip(1), k));
        }
    } else {
        assert(s.skip(1)[p - 1] == s[p]);
        assert forall|j: int| 0 <= j < p - 1 implies (#[trigger] s.skip(1)[j].0) != n by {
            assert(s.skip(1)[j] == s[j + 1]);
        }
        lemma_alist_update(s.skip(1), n, p - 1, x);
        assert(s2[0] == s[0]);
        assert(s2.skip(1) =~= s.skip(1).update(p - 1, (n, x)));
        assert(s[0].0 != n);
        assert(alist_lookup(s2, n) == alist_lookup(s2.skip(1), n));
        assert forall|k: K| k != n implies alist_lookup(s2, k) == alist_lookup(s, k) by {
            if s[0].0 != k {
                assert(alist_lookup(s2, k) == alist_lookup(s2.skip(1), k));
                assert(alist_lookup(s, k) == alist_lookup(s.skip(1), k));
            }
        }
    }
    if alist_unique(s) {
        assert forall|i: int, j: int|
            0 <= i < j < s2.len() implies (#[trigger] s2[i].0) != (#[trigger] s2[j].0) by {
            assert(s2[i].0 == s[i].0);
            assert(s2[j].0 == s[j].0);
        }
    }
}

/// Appending a new key changes only that key.
pub proof fn lemma_alist_push<K, V>(s: Seq<(K, V)>, n: K, x: V)
    requires
        forall|j: int| 0 <= j < s.len() ==> (#[trigger] s[j].0) != n,
    ensures
        alist_lookup(s.push((n, x)), n) == Some(x),
        forall|k: K| k != n ==> alist_lookup(s.push((n, x)), k) == alist_lookup(s, k),
        alist_unique(s) ==> alist_unique(s.push((n, x))),
    decreases s.len(),
{
    let s2 = s.push((n, x));
    if s.len() == 0 {
        assert(s2[0] == (n, x));
        assert(s2.skip(1) =~= s);
        assert forall|k: K| k != n implies alist_lookup(s2, k) == alist_lookup(s, k) by {
            assert(alist_lookup(s2, k) == alist_lookup(s2.skip(1), k));
        }
    } else {
        assert forall|j: int| 0 <= j < s.skip(1).len() implies (#[trigger] s.skip(1)[j].0)
            != n by {
            assert(s.skip(1)[j] == s[j + 1]);
        }
        lemma_alist_push(s.skip(1), n, x);
        assert(s2[0] == s[0]);
        assert(s2.skip(1) =~= s.skip(1).push((n, x)));
        assert(s[0].0 != n);
        assert(alist_lookup(s2, n) == alist_lookup(s2.skip(1), n));
        assert forall|k: K| k != n implies alist_lookup(s2, k) == alist_lookup(s, k) by {
            if s[0].0 != k {
                assert(alist_lookup(s2, k) == alist_lookup(s2.skip(1), k));
                assert(alist_lookup(s, k) == alist_lookup(s.skip(1), k));
            }
        }
        if alist_unique(s) {
            assert forall|i: int, j: int|
                0 <= i < j < s2.len() implies (#[trigger] s2[i].0) != (#[trigger] s2[j].0) by {
                assert(s2[i].0 == s[i].0);
                if j < s.len() {
                    assert(s2[j].0 == s[j].0);
                }
            }
        }
    }
}

/// Removing the first entry keyed `n` changes only that key, provided keys
/// are unique.
pub proof fn lemma_alist_remove<K, V>(s: Seq<(K, V)>, n: K, p: int)
    requires
        alist_unique(s),
        0 <= p < s.len(),
        s[p].0 == n,
        forall|j: int| 0 <= j < p ==> (#[trigger] s[j].0) != n,
    ensures
        alist_lookup(s.remove(p), n) is None,
        forall|k: K| k != n ==> alist_lookup(s.remove(p), k) == alist_lookup(s, k),
        alist_unique(s.remove(p)),
    decreases p,
{
    let s2 = s.remove(p);
    assert(alist_unique(s2)) by {
        assert forall|i: int, j: int|
            0 <= i < j < s2.len() implies (#[trigger] s2[i].0) != (#[trigger] s2[j].0) by {
            let i0: int = if i < p {
                i
            } else {
                i + 1
            };
            let j0: int = if j < p {
                j
            } else {
                j + 1
            };
            assert(s2[i] == s[i0]);
            assert(s2[j] == s[j0]);
        }
    }
    if p == 0 {
        assert(s2 =~= s.skip(1));
        assert forall|j: int| 0 <= j < s2.len() implies (#[trigger] s2[j].0) != n by {
            assert(s2[j] == s[j + 1]);
        }
        lemma_alist_none(s2, n);
        assert forall|k: K| k != n implies alist_lookup(s2, k) == alist_lookup(s, k) by {
            assert(alist_lookup(s, k) == alist_lookup(s.skip(1), k));
        }
    } else {
        assert(s.skip(1)[p - 1] == s[p]);
        assert forall|j: int| 0 <= j < p - 1 implies (#[trigger] s.skip(1)[j].0) != n by {
            assert(s.skip(1)[j] == s[j + 1]);
        }
        assert(alist_unique(s.skip(1))) by {
            assert forall|i: int, j: int|
                0 <= i < j < s.skip(1).len() implies (#[trigger] s.skip(1)[i].0) != (
            #[trigger] s.skip(1)[j].0) by {
                assert(s.skip(1)[i] == s[i + 1]);
                assert(s.skip(1)[j] == s[j + 1]);
            }
        }
        lemma_alist_remove(s.skip(1), n, p - 1);
        assert(s2[0] == s[0]);
        assert(s2.skip(1) =~= s.skip(1).remove(p - 1));
        assert(s[0].0 != n);
        assert(alist_lookup(s2, n) == alist_lookup(s2.skip(1), n));
        assert forall|k: K| k != n implies alist_lookup(s2, k) == alist_lookup(s, k) by {
            if s[0].0 != k {
                assert(alist_lookup(s2, k) == alist_lookup(s2.skip(1), k));
                assert(alist_lookup(s, k) == alist_lookup(s.skip(1), k));
            }
        }
    }
}

/// Extending a permission list extends its readable-range expansion.
pub proof fn lemma_read_ranges_push(ps: Seq<PermissionV>, x: PermissionV)
    ensures
        read_ranges(ps.push(x)) == read_ranges(ps) + (match x.perm_type {
            Type::Read => seq![kr_of(x)],
            Type::Readwrite => seq![kr_of(x)],
            Type::Write => Seq::<KeyRangeV>::empty(),
        }),
    decreases ps.len(),
{
    let c = match x.perm_type {
        Type::Read => seq![kr_of(x)],
        Type::Readwrite => seq![kr_of(x)],
        Type::Write => Seq::<KeyRangeV>::empty(),
    };
    if ps.len() == 0 {
        assert(ps.push(x)[0] == x);
        assert(ps.push(x).skip(1) =~= ps);
        assert(read_ranges(ps.push(x)) =~= read_ranges(ps) + c);
    } else {
        assert(ps.push(x)[0] == ps[0]);
        assert(ps.push(x).skip(1) =~= ps.skip(1).push(x));
        lemma_read_ranges_push(ps.skip(1), x);
        assert(read_ranges(ps.push(x)) =~= read_ranges(ps) + c);
    }
}

/// Extending a permission list extends its writable-range expansion.
pub proof fn lemma_write_ranges_push(ps: Seq<PermissionV>, x: PermissionV)
    ensures
        write_ranges(ps.push(x)) == write_ranges(ps) + (match x.perm_type {
            Type::Write => seq![kr_of(x)],
            Type::Readwrite => seq![kr_of(x)],
            Type::Read => Seq::<KeyRangeV>::empty(),
        }),
    decreases ps.len(),
{
    let c = match x.perm_type {
        Type::Write => seq![kr_of(x)],
        Type::Readwrite => seq![kr_of(x)],
        Type::Read => Seq::<KeyRangeV>::empty(),
    };
    if ps.len() == 0 {
        assert(ps.push(x)[0] == x);
        assert(ps.push(x).skip(1) =~= ps);
        assert(write_ranges(ps.push(x)) =~= write_ranges(ps) + c);
    } else {
        assert(ps.push(x)[0] == ps[0]);
        assert(ps.push(x).skip(1) =~= ps.skip(1).push(x));
        lemma_write_ranges_push(ps.skip(1), x);
        assert(write_ranges(ps.push(x)) =~= write_ranges(ps) + c);
    }
}

/// Push the expansion of a permission list onto effective permissions.
pub fn push_expanded(p: &mut UserPermissions, perms: &Vec<Permission>)
    ensures
        final(p)@.read == old(p)@.read + read_ranges(perms@.map_values(|x: Permission| x@)),
        final(p)@.write == old(p)@.write + write_ranges(perms@.map_values(|x: Permission| x@)),
{
    let ghost pv = perms@.map_values(|x: Permission| x@);
    let mut i: usize = 0;
    proof {
        assert(pv.take(0) =~= Seq::<PermissionV>::empty());
        assert(p@.read =~= old(p)@.read + read_ranges(pv.take(0)));
        assert(p@.write =~= old(p)@.write + write_ranges(pv.take(0)));
    }
    while i < perms.len()
        invariant
            0 <= i <= perms@.len(),
            pv == perms@.map_values(|x: Permission| x@),
            pv.len() == perms@.len(),
            p@.read == old(p)@.read + read_ranges(pv.take(i as int)),
            p@.write == old(p)@.write + write_ranges(pv.take(i as int)),
        decreases perms@.len() - i,
    {
        let perm = &perms[i];
        proof {
            assert(pv[i as int] == perm@);
            assert(pv.take(i + 1) =~= pv.take(i as int).push(pv[i as int]));
            lemma_read_ranges_push(pv.take(i as int), pv[i as int]);
            lemma_write_ranges_push(pv.take(i as int), pv[i as int]);
        }
        let kr = KeyRange::new(clone_bytes(&perm.key), clone_bytes(&perm.range_end));
        let ghost prev = p@;
        proof {
            assert(kr@ == kr_of(pv[i as int]));
        }
        match perm.perm_type {
            Type::Readwrite => {
                let kr2 = clone_key_range(&kr);
                p.read.push(kr);
                p.write.push(kr2);
                proof {
                    assert(p@.read =~= prev.read.push(kr_of(pv[i as int])));
                    assert(p@.write =~= prev.write.push(kr_of(pv[i as int])));
                    assert(p@.read =~= old(p)@.read + read_ranges(pv.take(i + 1)));
                    assert(p@.write =~= old(p)@.write + write_ranges(pv.take(i + 1)));
                }
            },
            Type::Write => {
                p.write.push(kr);
                proof {
                    assert(p@.read =~= prev.read);
                    assert(p@.write =~= prev.write.push(kr_of(pv[i as int])));
                    assert(p@.read =~= old(p)@.read + read_ranges(pv.take(i + 1)));
                    assert(p@.write =~= old(p)@.write + write_ranges(pv.take(i + 1)));
                }
            },
            Type::Read => {
                p.read.push(kr);
                proof {
                    assert(p@.read =~= prev.read.push(kr_of(pv[i as int])));
                    assert(p@.write =~= prev.write);
                    assert(p@.read =~= old(p)@.read + read_ranges(pv.take(i + 1)));
                    assert(p@.write =~= old(p)@.write + write_ranges(pv.take(i + 1)));
                }
            },
        }
        i = i + 1;
    }
    proof {
        assert(pv.take(pv.len() as int) =~= pv);
    }
}

/// Remove the first occurrence of `user` from `l` by swapping in the last
/// element, as seen through the name views.
pub fn remove_name_swap(l: &mut Vec<Vec<u8>>, user: &Vec<u8>)
    ensures
        final(l)@.map_values(|n: Vec<u8>| n@).to_multiset() == (if old(l)@.map_values(
            |n: Vec<u8>| n@,
        ).contains(user@) {
            old(l)@.map_values(|n: Vec<u8>| n@).to_multiset().remove(user@)
        } else {
            old(l)@.map_values(|n: Vec<u8>| n@).to_multiset()
        }),
{
    let ghost lv0 = old(l)@.map_values(|n: Vec<u8>| n@);
    proof {
        assert(l@.map_values(|n: Vec<u8>| n@) == lv0);
    }
    let mut i: usize = 0;
    while i < l.len()
        invariant
            0 <= i <= lv0.len(),
            lv0 == old(l)@.map_values(|n: Vec<u8>| n@),
            l@.map_values(|n: Vec<u8>| n@) == lv0,
            lv0.len() == l@.len(),
            forall|j: int| 0 <= j < i ==> lv0[j] != user@,
        decreases lv0.len() - i,
    {
        proof {
            assert(lv0[i as int] == l@[i as int]@);
        }
        if crate::bytes::bytes_eq(&l[i], user) {
            let _removed = l.swap_remove(i);
            proof {
                let lv1 = l@.map_values(|n: Vec<u8>| n@);
                let upd = lv0.update(i as int, lv0.last());
                assert(lv1 =~= upd.drop_last());
                broadcast use vstd::seq_lib::group_seq_properties;

                vstd::seq_lib::to_multiset_update(lv0, i as int, lv0.last());
                assert(upd.drop_last() =~= upd.remove(upd.len() - 1));
                vstd::seq_lib::to_multiset_remove(upd, upd.len() - 1);
                assert(upd[upd.len() - 1] == lv0.last());
                if i as int == lv0.len() - 1 {
                    assert(upd =~= lv0);
                    assert(lv1.to_multiset() =~= lv0.to_multiset().remove(user@));
                } else {
                    assert(upd.to_multiset() =~= lv0.to_multiset().remove(lv0[i as int]).insert(
                        lv0.last(),
                    ));
                    assert(lv1.to_multiset() =~= lv0.to_multiset().remove(lv0[i as int]).insert(
                        lv0.last(),
                    ).remove(lv0.last()));
                    assert(lv1.to_multiset() =~= lv0.to_multiset().remove(user@));
                }
                assert(lv0.contains(user@));
            }
            return;
        }
        i = i + 1;
    }
    proof {
        assert(!lv0.contains(user@)) by {
            if lv0.contains(user@) {
                let j = choose|j: int| 0 <= j < lv0.len() && lv0[j] == user@;
                assert(lv0[j] != user@);
            }
        }
    }
}

/// Mathematical model of a [`PermissionCache`].
pub ghost struct CacheV {
    /// Effective permissions per user name.
    pub up: Seq<(Seq<u8>, UserPermissionsV)>,
    /// Users holding each role.
    pub rtu: Seq<(Seq<u8>, Seq<Seq<u8>>)>,
}

/// In-memory cache of effective user permissions and the role-to-users
/// reverse index.
pub struct PermissionCache {
    /// Effective permissions per user name.
    user_permissions: Vec<(Vec<u8>, UserPermissions)>,
    /// Users holding each role.
    role_to_users_map: Vec<(Vec<u8>, Vec<Vec<u8>>)>,
}

impl View for PermissionCache {
    type V = CacheV;

    closed spec fn view(&self) -> CacheV {
        CacheV {
            up: self.user_permissions@.map_values(
                |e: (Vec<u8>, UserPermissions)| (e.0@, e.1@),
            ),
            rtu: self.role_to_users_map@.map_values(
                |e: (Vec<u8>, Vec<Vec<u8>>)| (e.0@, e.1@.map_values(|n: Vec<u8>| n@)),
            ),
        }
    }
}

/// Both cache maps have pairwise distinct keys.
pub open spec fn cache_wf(c: CacheV) -> bool {
    alist_unique(c.up) && alist_unique(c.rtu)
}

/// The effective permissions the cache holds for `n`, or empty.
pub open spec fn up_perms_of(c: CacheV, n: Seq<u8>) -> UserPermissionsV {
    match alist_lookup(c.up, n) {
        Some(p) => p,
        None => UserPermissionsV { read: Seq::empty(), write: Seq::empty() },
    }
}

/// The users the cache lists for role `n`, or empty.
pub open spec fn rtu_users_of(c: CacheV, n: Seq<u8>) -> Seq<Seq<u8>> {
    match alist_lookup(c.rtu, n) {
        Some(l) => l,
        None => Seq::empty(),
    }
}

/// The cache agrees with a fresh rebuild over the given users and roles:
/// per user, the cached read and write ranges equal (as multisets) the
/// expansion of its persisted roles; per role, the cached holders equal
/// (as a multiset) the users persisted as holding it.
pub open spec fn cache_consistent(c: CacheV, users: Seq<UserV>, roles: Seq<RoleV>) -> bool {
    &&& forall|n: Seq<u8>|
        #[trigger] up_perms_of(c, n).read.to_multiset() == (match find_user(users, n) {
            Some(u) => user_read_seq(u.roles, roles).to_multiset(),
            None => Multiset::<KeyRangeV>::empty(),
        })
    &&& forall|n: Seq<u8>|
        #[trigger] up_perms_of(c, n).write.to_multiset() == (match find_user(users, n) {
            Some(u) => user_write_seq(u.roles, roles).to_multiset(),
            None => Multiset::<KeyRangeV>::empty(),
        })
    &&& forall|n: Seq<u8>| #[trigger] rtu_users_of(c, n).to_multiset() == holders_ms(users, n)
}

impl PermissionCache {
    /// An empty cache.
    pub fn new() -> (r: PermissionCache)
        ensures
            r@.up =~= Seq::<(Seq<u8>, UserPermissionsV)>::empty(),
            r@.rtu =~= Seq::<(Seq<u8>, Seq<Seq<u8>>)>::empty(),
            cache_wf(r@),
    {
        let r = PermissionCache { user_permissions: Vec::new(), role_to_users_map: Vec::new() };
        proof {
            assert(r@.up =~= Seq::<(Seq<u8>, UserPermissionsV)>::empty());
            assert(r@.rtu =~= Seq::<(Seq<u8>, Seq<Seq<u8>>)>::empty());
        }
        r
    }

    /// Scan position of `name` in the user-permissions list.
    fn find_up(&self, name: &Vec<u8>) -> (r: Option<usize>)
        ensures
            match r {
                Some(p) => p < self@.up.len() && self@.up[p as int].0 == name@ && forall|j: int|
                    0 <= j < p ==> (#[trigger] self@.up[j].0) != name@,
                None => forall|j: int|
                    0 <= j < self@.up.len() ==> (#[trigger] self@.up[j].0) != name@,
            },
    {
        let mut p: usize = 0;
        while p < self.user_permissions.len()
            invariant
                0 <= p <= self@.up.len(),
                self@.up.len() == self.user_permissions@.len(),
                forall|j: int| 0 <= j < p ==> (#[trigger] self@.up[j].0) != name@,
            decreases self@.up.len() - p,
        {
            proof {
                assert(self@.up[p as int].0 == self.user_permissions@[p as int].0@);
            }
            if crate::bytes::bytes_eq(&self.user_permissions[p].0, name) {
                return Some(p);
            }
            p = p + 1;
        }
        None
    }

    /// Scan position of `name` in the role-to-users list.
    fn find_rtu(&self, name: &Vec<u8>) -> (r: Option<usize>)
        ensures
            match r {
                Some(p) => p < self@.rtu.len() && self@.rtu[p as int].0 == name@ && forall|j: int|
                    0 <= j < p ==> (#[trigger] self@.rtu[j].0) != name@,
                None => forall|j: int|
                    0 <= j < self@.rtu.len() ==> (#[trigger] self@.rtu[j].0) != name@,
            },
    {
        let mut p: usize = 0;
        while p < self.role_to_users_map.len()
            invariant
                0 <= p <= self@.rtu.len(),
                self@.rtu.len() == self.role_to_users_map@.len(),
                forall|j: int| 0 <= j < p ==> (#[trigger] self@.rtu[j].0) != name@,
            decreases self@.rtu.len() - p,
        {
            proof {
                assert(self@.rtu[p as int].0 == self.role_to_users_map@[p as int].0@);
            }
            if crate::bytes::bytes_eq(&self.role_to_users_map[p].0, name) {
                return Some(p);
            }
            p = p + 1;
        }
        None
    }

    /// Copy out the effective permissions cached for `name`.
    pub fn read(&self, name: &Vec<u8>) -> (r: Option<UserPermissions>)
        ensures
            match r {
                Some(p) => alist_lookup(self@.up, name@) == Some(p@),
                None => alist_lookup(self@.up, name@) is None,
            },
    {
        match self.find_up(name) {
            Some(p) => {
                proof {
                    lemma_alist_at(self@.up, name@, p as int);
                }
                Some(clone_user_permissions(&self.user_permissions[p].1))
            },
            None => {
                proof {
                    lemma_alist_none(self@.up, name@);
                }
                None
            },
        }
    }

    /// Insert or replace the effective permissions cached for `name`.
    pub fn set_user_perms(&mut self, name: &Vec<u8>, perms: UserPermissions)
        requires
            cache_wf(old(self)@),
        ensures
            cache_wf(final(self)@),
            alist_lookup(final(self)@.up, name@) == Some(perms@),
            forall|k: Seq<u8>|
                k != name@ ==> alist_lookup(final(self)@.up, k) == alist_lookup(old(self)@.up, k),
            final(self)@.rtu == old(self)@.rtu,
    {
        let ghost pv = perms@;
        match self.find_up(name) {
            Some(p) => {
                proof {
                    lemma_alist_update(old(self)@.up, name@, p as int, pv);
                }
                let _old = self.user_permissions.remove(p);
                self.user_permissions.insert(p, (clone_bytes(name), perms));
                proof {
                    assert(self@.up =~= old(self)@.up.update(p as int, (name@, pv)));
                    assert(self@.rtu =~= old(self)@.rtu);
                }
            },
            None => {
                proof {
                    lemma_alist_push(old(self)@.up, name@, pv);
                }
                self.user_permissions.push((clone_bytes(name), perms));
                proof {
                    assert(self@.up =~= old(self)@.up.push((name@, pv)));
                    assert(self@.rtu =~= old(self)@.rtu);
                }
            },
        }
    }

    /// Drop the cached permissions of `name`.
    pub fn remove_user_perms(&mut self, name: &Vec<u8>)
        requires
            cache_wf(old(self)@),
        ensures
            cache_wf(final(self)@),
            alist_lookup(final(self)@.up, name@) is None,
            forall|k: Seq<u8>|
                k != name@ ==> alist_lookup(final(self)@.up, k) == alist_lookup(old(self)@.up, k),
            final(self)@.rtu == old(self)@.rtu,
    {
        match self.find_up(name) {
            Some(p) => {
                proof {
                    lemma_alist_remove(old(self)@.up, name@, p as int);
                }
                let _old = self.user_permissions.remove(p);
                proof {
                    assert(self@.up =~= old(self)@.up.remove(p as int));
                    assert(self@.rtu =~= old(self)@.rtu);
                }
            },
            None => {
                proof {
                    lemma_alist_none(old(self)@.up, name@);
                }
            },
        }
    }

    /// Merge the expansion of `perms` into the permissions cached for
    /// `name`, creating an empty entry first when none exists.
    pub fn append_user_perms(&mut self, name: &Vec<u8>, perms: &Vec<Permission>)
        requires
            cache_wf(old(self)@),
        ensures
            cache_wf(final(self)@),
            alist_lookup(final(self)@.up, name@) == Some(
                UserPermissionsV {
                    read: up_perms_of(old(self)@, name@).read + read_ranges(
                        perms@.map_values(|x: Permission| x@),
                    ),
                    write: up_perms_of(old(self)@, name@).write + write_ranges(
                        perms@.map_values(|x: Permission| x@),
                    ),
                },
            ),
            forall|k: Seq<u8>|
                k != name@ ==> alist_lookup(final(self)@.up, k) == alist_lookup(old(self)@.up, k),
            final(self)@.rtu == old(self)@.rtu,
    {
        let mut entry = match self.read(name) {
            Some(p) => p,
            None => UserPermissions::new(),
        };
        proof {
            assert(entry@ == up_perms_of(old(self)@, name@));
        }
        push_expanded(&mut entry, perms);
        self.set_user_perms(name, entry);
    }

    /// Copy out the users listed for `role`, or an empty list.
    pub fn rtu_get(&self, role: &Vec<u8>) -> (r: Vec<Vec<u8>>)
        ensures
            r@.map_values(|n: Vec<u8>| n@) == rtu_users_of(self@, role@),
    {
        match self.find_rtu(role) {
            Some(p) => {
                proof {
                    lemma_alist_at(self@.rtu, role@, p as int);
                }
                let r = crate::rpc::clone_byte_list(&self.role_to_users_map[p].1);
                proof {
                    assert(self@.rtu[p as int].1 == self.role_to_users_map@[p as int].1@
                        .map_values(|n: Vec<u8>| n@));
                }
                r
            },
            None => {
                proof {
                    lemma_alist_none(self@.rtu, role@);
                    assert(Seq::<Vec<u8>>::empty().map_values(|n: Vec<u8>| n@) =~= Seq::<
                        Seq<u8>,
                    >::empty());
                }
                Vec::new()
            },
        }
    }

    /// Append `user` to the users listed for `role`, creating the list
    /// when absent.
    pub fn rtu_push(&mut self, role: &Vec<u8>, user: &Vec<u8>)
        requires
            cache_wf(old(self)@),
        ensures
            cache_wf(final(self)@),
            alist_lookup(final(self)@.rtu, role@) == Some(
                rtu_users_of(old(self)@, role@).push(user@),
            ),
            forall|k: Seq<u8>|
                k != role@ ==> alist_lookup(final(self)@.rtu, k) == alist_lookup(
                    old(self)@.rtu,
                    k,
                ),
            final(self)@.up == old(self)@.up,
    {
        match self.find_rtu(role) {
            Some(p) => {
                proof {
                    lemma_alist_at(old(self)@.rtu, role@, p as int);
                }
                let mut e = self.role_to_users_map.remove(p);
                e.1.push(clone_bytes(user));
                let ghost lv = e.1@.map_values(|n: Vec<u8>| n@);
                proof {
                    lemma_alist_update(
                        old(self)@.rtu,
                        role@,
                        p as int,
                        rtu_users_of(old(self)@, role@).push(user@),
                    );
                    assert(lv =~= rtu_users_of(old(self)@, role@).push(user@));
                }
                self.role_to_users_map.insert(p, e);
                proof {
                    assert(self@.rtu =~= old(self)@.rtu.update(
                        p as int,
                        (role@, rtu_users_of(old(self)@, role@).push(user@)),
                    ));
                    assert(self@.up =~= old(self)@.up);
                }
            },
            None => {
                proof {
                    lemma_alist_none(old(self)@.rtu, role@);
                    lemma_alist_push(
                        old(self)@.rtu,
                        role@,
                        rtu_users_of(old(self)@, role@).push(user@),
                    );
                }
                let mut l: Vec<Vec<u8>> = Vec::new();
                l.push(clone_bytes(user));
                proof {
                    assert(l@.map_values(|n: Vec<u8>| n@) =~= rtu_users_of(
                        old(self)@,
                        role@,
                    ).push(user@));
                }
                self.role_to_users_map.push((clone_bytes(role), l));
                proof {
                    assert(self@.rtu =~= old(self)@.rtu.push(
                        (role@, rtu_users_of(old(self)@, role@).push(user@)),
                    ));
                    assert(self@.up =~= old(self)@.up);
                }
            },
        }
    }

    /// Remove one occurrence of `user` from the users listed for `role`,
    /// if the role is listed and holds the user.
    pub fn rtu_remove_user(&mut self, role: &Vec<u8>, user: &Vec<u8>)
        requires
            cache_wf(old(self)@),
        ensures
            cache_wf(final(self)@),
            rtu_users_of(final(self)@, role@).to_multiset() == (
            if rtu_users_of(old(self)@, role@).contains(user@) {
                rtu_users_of(old(self)@, role@).to_multiset().remove(user@)
            } else {
                rtu_users_of(old(self)@, role@).to_multiset()
            }),
            alist_lookup(final(self)@.rtu, role@) is Some <==> alist_lookup(
                old(self)@.rtu,
                role@,
            ) is Some,
            forall|k: Seq<u8>|
                k != role@ ==> alist_lookup(final(self)@.rtu, k) == alist_lookup(
                    old(self)@.rtu,
                    k,
                ),
            final(self)@.up == old(self)@.up,
    {
        match self.find_rtu(role) {
            Some(p) => {
                proof {
                    lemma_alist_at(old(self)@.rtu, role@, p as int);
                }
                let mut e = self.role_to_users_map.remove(p);
                remove_name_swap(&mut e.1, user);
                let ghost lv = e.1@.map_values(|n: Vec<u8>| n@);
                proof {
                    lemma_alist_update(old(self)@.rtu, role@, p as int, lv);
                }
                self.role_to_users_map.insert(p, e);
                proof {
                    assert(self@.rtu =~= old(self)@.rtu.update(p as int, (role@, lv)));
                    assert(self@.up =~= old(self)@.up);
                }
            },
            None => {
                proof {
                    lemma_alist_none(old(self)@.rtu, role@);
                }
            },
        }
    }

    /// Remove one occurrence of `user` from every role's user list.
    pub fn remove_user_everywhere(&mut self, user: &Vec<u8>)
        requires
            cache_wf(old(self)@),
        ensures
            cache_wf(final(self)@),
            final(self)@.rtu.len() == old(self)@.rtu.len(),
            forall|i: int|
                0 <= i < old(self)@.rtu.len() ==> (#[trigger] final(self)@.rtu[i]).0
                    == old(self)@.rtu[i].0 && final(self)@.rtu[i].1.to_multiset() == (
                if old(self)@.rtu[i].1.contains(user@) {
                    old(self)@.rtu[i].1.to_multiset().remove(user@)
                } else {
                    old(self)@.rtu[i].1.to_multiset()
                }),
            final(self)@.up == old(self)@.up,
    {
        let mut i: usize = 0;
        while i < self.role_to_users_map.len()
            invariant
                0 <= i <= old(self)@.rtu.len(),
                self@.rtu.len() == old(self)@.rtu.len(),
                self@.up == old(self)@.up,
                forall|j: int| i <= j < old(self)@.rtu.len() ==> (#[trigger] self@.rtu[j])
                    == old(self)@.rtu[j],
                forall|j: int|
                    0 <= j < i ==> (#[trigger] self@.rtu[j]).0 == old(self)@.rtu[j].0
                        && self@.rtu[j].1.to_multiset() == (if old(self)@.rtu[j].1.contains(
                        user@,
                    ) {
                        old(self)@.rtu[j].1.to_multiset().remove(user@)
                    } else {
                        old(self)@.rtu[j].1.to_multiset()
                    }),
            decreases old(self)@.rtu.len() - i,
        {
            let ghost mid = self@;
            let mut e = self.role_to_users_map.remove(i);
            remove_name_swap(&mut e.1, user);
            let ghost lv = e.1@.map_values(|n: Vec<u8>| n@);
            self.role_to_users_map.insert(i, e);
            proof {
                assert(self@.rtu =~= mid.rtu.update(i as int, (mid.rtu[i as int].0, lv)));
                assert(self@.up =~= mid.up);
                assert(mid.rtu[i as int] == old(self)@.rtu[i as int]);
            }
            i = i + 1;
        }
        proof {
            assert(cache_wf(self@)) by {
                assert forall|i0: int, j0: int|
                    0 <= i0 < j0 < self@.rtu.len() implies (#[trigger] self@.rtu[i0].0) != (
                #[trigger] self@.rtu[j0].0) by {
                    assert(self@.rtu[i0].0 == old(self)@.rtu[i0].0);
                    assert(self@.rtu[j0].0 == old(self)@.rtu[j0].0);
                }
            }
        }
    }

    /// Drop the users listed for `role`.
    pub fn rtu_remove_role(&mut self, role: &Vec<u8>)
        requires
            cache_wf(old(self)@),
        ensures
            cache_wf(final(self)@),
            alist_lookup(final(self)@.rtu, role@) is None,
            forall|k: Seq<u8>|
                k != role@ ==> alist_lookup(final(self)@.rtu, k) == alist_lookup(
                    old(self)@.rtu,
                    k,
                ),
            final(self)@.up == old(self)@.up,
    {
        match self.find_rtu(role) {
            Some(p) => {
                proof {
                    lemma_alist_remove(old(self)@.rtu, role@, p as int);
                }
                let _old = self.role_to_users_map.remove(p);
                proof {
                    assert(self@.rtu =~= old(self)@.rtu.remove(p as int));
                    assert(self@.up =~= old(self)@.up);
                }
            },
            None => {
                proof {
                    lemma_alist_none(old(self)@.rtu, role@);
                }
            },
        }
    }
}

} // verus!
