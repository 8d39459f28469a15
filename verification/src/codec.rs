//! Wire-stable, etcd-compatible binary encoding of the persisted records.
//!
//! Records are field-tagged, length-prefixed protobuf messages. Fields
//! holding their default value are skipped; the encoder writes fields in
//! ascending tag order and the decoder expects that canonical order.
//! Decoding an encoded record yields the record back.

use vstd::prelude::*;
use vstd::arithmetic::div_mod::lemma_fundamental_div_mod;

use crate::rpc::{Permission, PermissionV, Role, RoleV, Type, User, UserAddOptions, UserV};

verus! {

/// Base-128 varint encoding, low groups first.
pub open spec fn varint(n: nat) -> Seq<u8>
    decreases n,
{
    if n < 128 {
        seq![n as u8]
    } else {
        seq![(n % 128 + 128) as u8] + varint(n / 128)
    }
}

/// Decode a varint from the front of `s`, returning the value and the
/// remainder.
pub open spec fn dec_varint(s: Seq<u8>) -> Option<(nat, Seq<u8>)>
    decreases s.len(),
{
    if s.len() == 0 {
        None
    } else if s[0] < 128 {
        Some((s[0] as nat, s.skip(1)))
    } else {
        match dec_varint(s.skip(1)) {
            None => None,
            Some((v, r)) => Some((((s[0] - 128) as nat + 128 * v) as nat, r)),
        }
    }
}

/// Decoding inverts encoding for varints.
pub proof fn lemma_varint_rt(n: nat, rest: Seq<u8>)
    ensures
        dec_varint(varint(n) + rest) == Some((n, rest)),
    decreases n,
{
    let s = varint(n) + rest;
    if n < 128 {
        assert(s[0] == n as u8);
        assert(s.skip(1) =~= rest);
    } else {
        assert(s[0] == (n % 128 + 128) as u8);
        assert(s[0] >= 128);
        assert(s.skip(1) =~= varint(n / 128) + rest);
        lemma_varint_rt(n / 128, rest);
        lemma_fundamental_div_mod(n as int, 128);
        assert((s[0] - 128) as nat + 128 * (n / 128) == n);
    }
}

/// Encode `n` as a varint appended to `out`.
pub fn encode_varint(out: &mut Vec<u8>, n: u64)
    ensures
        final(out)@ == old(out)@ + varint(n as nat),
    decreases n,
{
    if n < 128 {
        out.push(n as u8);
        proof {
            assert(out@ =~= old(out)@ + varint(n as nat));
        }
    } else {
        let b = (n % 128) as u8 + 128;
        out.push(b);
        let ghost mid = out@;
        encode_varint(out, n / 128);
        proof {
            assert(mid =~= old(out)@ + seq![(n as nat % 128 + 128) as u8]);
            assert(out@ =~= old(out)@ + varint(n as nat));
        }
    }
}

/// Decode a varint at `pos`; returns the value and the position after it.
/// Fails when the buffer ends inside the varint or the value does not fit
/// in 64 bits.
pub fn decode_varint(buf: &Vec<u8>, pos: usize) -> (r: Option<(u64, usize)>)
    requires
        pos <= buf@.len(),
    ensures
        match r {
            Some(vp) => pos < vp.1 <= buf@.len() && dec_varint(buf@.skip(pos as int))
                == Some((vp.0 as nat, buf@.skip(vp.1 as int))),
            None => match dec_varint(buf@.skip(pos as int)) {
                None => true,
                Some(vr) => vr.0 > u64::MAX,
            },
        },
    decreases buf@.len() - pos,
{
    let ghost s = buf@.skip(pos as int);
    if pos == buf.len() {
        return None;
    }
    let b = buf[pos];
    proof {
        assert(s[0] == b);
    }
    if b < 128 {
        proof {
            assert(s.skip(1) =~= buf@.skip(pos + 1));
        }
        Some((b as u64, pos + 1))
    } else {
        proof {
            assert(s.skip(1) =~= buf@.skip(pos + 1));
        }
        match decode_varint(buf, pos + 1) {
            None => {
                proof {
                    if dec_varint(s) is Some {
                        let vr = dec_varint(buf@.skip(pos + 1)).unwrap();
                        assert(vr.0 > u64::MAX);
                        assert(dec_varint(s).unwrap().0 >= 128 * vr.0);
                    }
                }
                None
            },
            Some((v, p2)) => {
                let c = b - 128;
                if v > (u64::MAX - c as u64) / 128 {
                    proof {
                        lemma_fundamental_div_mod((u64::MAX - c) as int, 128);
                        assert(128 * (v as int) > u64::MAX - c);
                        assert(dec_varint(s).unwrap().0 == c + 128 * v);
                    }
                    None
                } else {
                    proof {
                        lemma_fundamental_div_mod((u64::MAX - c) as int, 128);
                        assert(128 * (v as int) <= u64::MAX - c);
                    }
                    let val = c as u64 + 128 * v;
                    Some((val, p2))
                }
            },
        }
    }
}

/// A tagged, length-prefixed field.
pub open spec fn enc_bytes_field(tag: u8, b: Seq<u8>) -> Seq<u8> {
    seq![tag] + varint(b.len()) + b
}

/// An optional byte-string field: skipped entirely when the value is empty.
pub open spec fn opt_bytes_part(tag: u8, b: Seq<u8>) -> Seq<u8> {
    if b.len() == 0 {
        Seq::empty()
    } else {
        enc_bytes_field(tag, b)
    }
}

/// Decode a length-prefixed byte string from the front of `s`.
pub open spec fn dec_bytes(s: Seq<u8>) -> Option<(Seq<u8>, Seq<u8>)> {
    match dec_varint(s) {
        None => None,
        Some((n, r)) => if n <= r.len() {
            Some((r.take(n as int), r.skip(n as int)))
        } else {
            None
        },
    }
}

/// Decode an optional byte-string field: absent tag means empty value.
pub open spec fn dec_opt_bytes(tag: u8, s: Seq<u8>) -> Option<(Seq<u8>, Seq<u8>)> {
    if s.len() > 0 && s[0] == tag {
        dec_bytes(s.skip(1))
    } else {
        Some((Seq::empty(), s))
    }
}

/// Encoding of a repeated role-name field (tag `0x1a`), one element per
/// entry, in order.
pub open spec fn roles_part(rs: Seq<Seq<u8>>) -> Seq<u8>
    decreases rs.len(),
{
    if rs.len() == 0 {
        Seq::empty()
    } else {
        enc_bytes_field(0x1a, rs[0]) + roles_part(rs.skip(1))
    }
}

/// Decode the repeated role-name field.
pub open spec fn dec_roles(s: Seq<u8>) -> Option<(Seq<Seq<u8>>, Seq<u8>)>
    decreases s.len(),
{
    if s.len() > 0 && s[0] == 0x1a {
        match dec_bytes(s.skip(1)) {
            None => None,
            Some((b, r)) => if r.len() < s.len() {
                match dec_roles(r) {
                    None => None,
                    Some((rs, r2)) => Some((seq![b] + rs, r2)),
                }
            } else {
                None
            },
        }
    } else {
        Some((Seq::empty(), s))
    }
}

/// Body of the user-options message.
pub open spec fn options_body(o: UserAddOptions) -> Seq<u8> {
    if o.no_password {
        seq![0x08u8, 1u8]
    } else {
        Seq::empty()
    }
}

/// Encoding of the optional options field (tag `0x22`).
pub open spec fn opts_part(o: Option<UserAddOptions>) -> Seq<u8> {
    match o {
        None => Seq::empty(),
        Some(oo) => seq![0x22u8] + varint(options_body(oo).len()) + options_body(oo),
    }
}

/// Decode the body of the user-options message.
pub open spec fn dec_options_body(b: Seq<u8>) -> Option<UserAddOptions> {
    if b.len() == 0 {
        Some(UserAddOptions { no_password: false })
    } else if b == seq![0x08u8, 1u8] {
        Some(UserAddOptions { no_password: true })
    } else {
        None
    }
}

/// Decode the optional options field.
pub open spec fn dec_opt_options(s: Seq<u8>) -> Option<(Option<UserAddOptions>, Seq<u8>)> {
    if s.len() > 0 && s[0] == 0x22 {
        match dec_bytes(s.skip(1)) {
            None => None,
            Some((b, r)) => match dec_options_body(b) {
                None => None,
                Some(o) => Some((Some(o), r)),
            },
        }
    } else {
        Some((None, s))
    }
}

/// Encoding of a whole user record.
pub open spec fn enc_user(u: UserV) -> Seq<u8> {
    opt_bytes_part(0x0a, u.name) + opt_bytes_part(0x12, u.password) + roles_part(u.roles)
        + opts_part(u.options)
}

/// Decode a whole user record; the buffer must be consumed exactly.
pub open spec fn dec_user(s: Seq<u8>) -> Option<UserV> {
    match dec_opt_bytes(0x0a, s) {
        None => None,
        Some((name, s1)) => match dec_opt_bytes(0x12, s1) {
            None => None,
            Some((pwd, s2)) => match dec_roles(s2) {
                None => None,
                Some((rs, s3)) => match dec_opt_options(s3) {
                    None => None,
                    Some((o, s4)) => if s4.len() == 0 {
                        Some(UserV { name, password: pwd, options: o, roles: rs })
                    } else {
                        None
                    },
                },
            },
        },
    }
}

/// Encoding of the permission-kind field (tag `0x08`), skipped for the
/// default kind.
pub open spec fn type_part(t: Type) -> Seq<u8> {
    match t {
        Type::Read => Seq::empty(),
        Type::Write => seq![0x08u8, 1u8],
        Type::Readwrite => seq![0x08u8, 2u8],
    }
}

/// Decode the permission-kind field.
pub open spec fn dec_type(s: Seq<u8>) -> Option<(Type, Seq<u8>)> {
    if s.len() >= 2 && s[0] == 0x08 && s[1] == 1 {
        Some((Type::Write, s.skip(2)))
    } else if s.len() >= 2 && s[0] == 0x08 && s[1] == 2 {
        Some((Type::Readwrite, s.skip(2)))
    } else if s.len() > 0 && s[0] == 0x08 {
        None
    } else {
        Some((Type::Read, s))
    }
}

/// Encoding of one permission message body.
pub open spec fn enc_perm(p: PermissionV) -> Seq<u8> {
    type_part(p.perm_type) + opt_bytes_part(0x12, p.key) + opt_bytes_part(0x1a, p.range_end)
}

/// Decode one permission message body; the body must be consumed exactly.
pub open spec fn dec_perm(s: Seq<u8>) -> Option<PermissionV> {
    match dec_type(s) {
        None => None,
        Some((t, s1)) => match dec_opt_bytes(0x12, s1) {
            None => None,
            Some((k, s2)) => match dec_opt_bytes(0x1a, s2) {
                None => None,
                Some((re, s3)) => if s3.len() == 0 {
                    Some(PermissionV { perm_type: t, key: k, range_end: re })
                } else {
                    None
                },
            },
        },
    }
}

/// Encoding of the repeated permission field (tag `0x12`), one embedded
/// message per entry.
pub open spec fn perms_part(ps: Seq<PermissionV>) -> Seq<u8>
    decreases ps.len(),
{
    if ps.len() == 0 {
        Seq::empty()
    } else {
        enc_bytes_field(0x12, enc_perm(ps[0])) + perms_part(ps.skip(1))
    }
}

/// Decode the repeated permission field.
pub open spec fn dec_perms(s: Seq<u8>) -> Option<(Seq<PermissionV>, Seq<u8>)>
    decreases s.len(),
{
    if s.len() > 0 && s[0] == 0x12 {
        match dec_bytes(s.skip(1)) {
            None => None,
            Some((b, r)) => match dec_perm(b) {
                None => None,
                Some(p) => if r.len() < s.len() {
                    match dec_perms(r) {
                        None => None,
                        Some((ps, r2)) => Some((seq![p] + ps, r2)),
                    }
                } else {
                    None
                },
            },
        }
    } else {
        Some((Seq::empty(), s))
    }
}

/// Encoding of a whole role record.
pub open spec fn enc_role(r: RoleV) -> Seq<u8> {
    opt_bytes_part(0x0a, r.name) + perms_part(r.key_permission)
}

/// Decode a whole role record; the buffer must be consumed exactly.
pub open spec fn dec_role(s: Seq<u8>) -> Option<RoleV> {
    match dec_opt_bytes(0x0a, s) {
        None => None,
        Some((name, s1)) => match dec_perms(s1) {
            None => None,
            Some((ps, s2)) => if s2.len() == 0 {
                Some(RoleV { name, key_permission: ps })
            } else {
                None
            },
        },
    }
}

/// A varint takes at least one byte.
pub proof fn lemma_varint_len(n: nat)
    ensures
        varint(n).len() >= 1,
{
    if n < 128 {
    } else {
    }
}

/// Decoding inverts encoding for a tagged, length-prefixed field.
pub proof fn lemma_bytes_rt(b: Seq<u8>, rest: Seq<u8>)
    ensures
        dec_bytes(varint(b.len()) + b + rest) == Some((b, rest)),
{
    let s = varint(b.len()) + b + rest;
    assert(s =~= varint(b.len()) + (b + rest));
    lemma_varint_rt(b.len(), b + rest);
    assert((b + rest).take(b.len() as int) =~= b);
    assert((b + rest).skip(b.len() as int) =~= rest);
}

/// Decoding inverts encoding for an optional byte-string field, provided
/// what follows does not begin with the field's tag.
pub proof fn lemma_opt_bytes_rt(tag: u8, v: Seq<u8>, tail: Seq<u8>)
    requires
        tail.len() == 0 || tail[0] != tag,
    ensures
        dec_opt_bytes(tag, opt_bytes_part(tag, v) + tail) == Some((v, tail)),
{
    if v.len() == 0 {
        assert(opt_bytes_part(tag, v) + tail =~= tail);
        assert(v =~= Seq::<u8>::empty());
    } else {
        let s = opt_bytes_part(tag, v) + tail;
        assert(s[0] == tag);
        assert(s.skip(1) =~= varint(v.len()) + v + tail) by {
            lemma_varint_len(v.len());
            assert(s =~= (seq![tag] + varint(v.len()) + v) + tail);
        }
        lemma_bytes_rt(v, tail);
    }
}

/// Decoding inverts encoding for the repeated role-name field, provided
/// what follows does not begin with its tag.
pub proof fn lemma_roles_rt(rs: Seq<Seq<u8>>, tail: Seq<u8>)
    requires
        tail.len() == 0 || tail[0] != 0x1a,
    ensures
        dec_roles(roles_part(rs) + tail) == Some((rs, tail)),
    decreases rs.len(),
{
    if rs.len() == 0 {
        assert(roles_part(rs) + tail =~= tail);
        assert(rs =~= Seq::<Seq<u8>>::empty());
    } else {
        let s = roles_part(rs) + tail;
        let inner = roles_part(rs.skip(1)) + tail;
        assert(s =~= enc_bytes_field(0x1a, rs[0]) + inner);
        assert(s[0] == 0x1a);
        assert(s.skip(1) =~= varint(rs[0].len()) + rs[0] + inner) by {
            assert(s =~= (seq![0x1au8] + varint(rs[0].len()) + rs[0]) + inner);
        }
        lemma_bytes_rt(rs[0], inner);
        lemma_varint_len(rs[0].len());
        assert(inner.len() < s.len());
        lemma_roles_rt(rs.skip(1), tail);
        assert(seq![rs[0]] + rs.skip(1) =~= rs);
    }
}

/// Decoding inverts encoding for the optional options field, provided
/// what follows does not begin with its tag.
pub proof fn lemma_opt_options_rt(o: Option<UserAddOptions>, tail: Seq<u8>)
    requires
        tail.len() == 0 || tail[0] != 0x22,
    ensures
        dec_opt_options(opts_part(o) + tail) == Some((o, tail)),
{
    match o {
        None => {
            assert(opts_part(o) + tail =~= tail);
        },
        Some(oo) => {
            let body = options_body(oo);
            let s = opts_part(o) + tail;
            assert(s[0] == 0x22);
            assert(s.skip(1) =~= varint(body.len()) + body + tail) by {
                assert(s =~= (seq![0x22u8] + varint(body.len()) + body) + tail);
            }
            lemma_bytes_rt(body, tail);
            if oo.no_password {
                assert(dec_options_body(body) == Some(UserAddOptions { no_password: true }));
            } else {
                assert(body.len() == 0);
                assert(dec_options_body(body) == Some(UserAddOptions { no_password: false }));
            }
        },
    }
}

/// Decoding inverts encoding for the permission-kind field, provided what
/// follows does not begin with its tag.
pub proof fn lemma_type_rt(t: Type, tail: Seq<u8>)
    requires
        tail.len() == 0 || tail[0] != 0x08,
    ensures
        dec_type(type_part(t) + tail) == Some((t, tail)),
{
    let s = type_part(t) + tail;
    match t {
        Type::Read => {
            assert(s =~= tail);
        },
        Type::Write => {
            assert(s[0] == 0x08 && s[1] == 1);
            assert(s.skip(2) =~= tail);
        },
        Type::Readwrite => {
            assert(s[0] == 0x08 && s[1] == 2);
            assert(s.skip(2) =~= tail);
        },
    }
}

/// Decoding inverts encoding for one permission message body.
pub proof fn lemma_perm_rt(p: PermissionV)
    ensures
        dec_perm(enc_perm(p)) == Some(p),
{
    let kp = opt_bytes_part(0x12, p.key);
    let rp = opt_bytes_part(0x1a, p.range_end);
    let s1 = kp + rp;
    assert(enc_perm(p) =~= type_part(p.perm_type) + s1);
    assert(s1.len() == 0 || s1[0] != 0x08) by {
        if p.key.len() > 0 {
            assert(s1[0] == 0x12);
        } else {
            assert(s1 =~= rp);
            if p.range_end.len() > 0 {
                assert(s1[0] == 0x1a);
            }
        }
    }
    lemma_type_rt(p.perm_type, s1);
    assert(rp.len() == 0 || rp[0] != 0x12) by {
        if p.range_end.len() > 0 {
            assert(rp[0] == 0x1a);
        }
    }
    lemma_opt_bytes_rt(0x12, p.key, rp);
    lemma_opt_bytes_rt(0x1a, p.range_end, Seq::empty());
    assert(rp + Seq::<u8>::empty() =~= rp);
}

/// Decoding inverts encoding for the repeated permission field, provided
/// what follows does not begin with its tag.
pub proof fn lemma_perms_rt(ps: Seq<PermissionV>, tail: Seq<u8>)
    requires
        tail.len() == 0 || tail[0] != 0x12,
    ensures
        dec_perms(perms_part(ps) + tail) == Some((ps, tail)),
    decreases ps.len(),
{
    if ps.len() == 0 {
        assert(perms_part(ps) + tail =~= tail);
        assert(ps =~= Seq::<PermissionV>::empty());
    } else {
        let body = enc_perm(ps[0]);
        let s = perms_part(ps) + tail;
        let inner = perms_part(ps.skip(1)) + tail;
        assert(s =~= enc_bytes_field(0x12, body) + inner);
        assert(s[0] == 0x12);
        assert(s.skip(1) =~= varint(body.len()) + body + inner) by {
            assert(s =~= (seq![0x12u8] + varint(body.len()) + body) + inner);
        }
        lemma_bytes_rt(body, inner);
        lemma_perm_rt(ps[0]);
        lemma_varint_len(body.len());
        assert(inner.len() < s.len());
        lemma_perms_rt(ps.skip(1), tail);
        assert(seq![ps[0]] + ps.skip(1) =~= ps);
    }
}

/// Round trip: decoding an encoded user record yields it back.
pub proof fn lemma_user_rt(u: UserV)
    ensures
        dec_user(enc_user(u)) == Some(u),
{
    let s3 = opts_part(u.options);
    let s2 = roles_part(u.roles) + s3;
    let s1 = opt_bytes_part(0x12, u.password) + s2;
    assert(enc_user(u) =~= opt_bytes_part(0x0a, u.name) + s1);
    assert(s3.len() == 0 || s3[0] == 0x22) by {
        if u.options is Some {
            assert(s3[0] == 0x22);
        }
    }
    assert(s2.len() == 0 || s2[0] == 0x1a || s2[0] == 0x22) by {
        if u.roles.len() > 0 {
            assert(s2[0] == 0x1a);
        } else {
            assert(s2 =~= s3);
        }
    }
    assert(s1.len() == 0 || s1[0] == 0x12 || s1[0] == 0x1a || s1[0] == 0x22) by {
        if u.password.len() > 0 {
            assert(s1[0] == 0x12);
        } else {
            assert(s1 =~= s2);
        }
    }
    lemma_opt_bytes_rt(0x0a, u.name, s1);
    lemma_opt_bytes_rt(0x12, u.password, s2);
    lemma_roles_rt(u.roles, s3);
    lemma_opt_options_rt(u.options, Seq::empty());
    assert(s3 + Seq::<u8>::empty() =~= s3);
}

/// Append a tagged, length-prefixed field unconditionally.
fn encode_field_always(out: &mut Vec<u8>, tag: u8, b: &Vec<u8>)
    ensures
        final(out)@ == old(out)@ + enc_bytes_field(tag, b@),
{
    out.push(tag);
    let ghost mid1 = out@;
    encode_varint(out, b.len() as u64);
    let ghost mid2 = out@;
    let mut i: usize = 0;
    while i < b.len()
        invariant
            0 <= i <= b@.len(),
            out@ == mid2 + b@.subrange(0, i as int),
        decreases b@.len() - i,
    {
        let c = b[i];
        out.push(c);
        proof {
            assert(out@ =~= mid2 + b@.subrange(0, i + 1));
        }
        i = i + 1;
    }
    proof {
        assert(mid1 =~= old(out)@ + seq![tag]);
        assert(b@.subrange(0, b@.len() as int) =~= b@);
        assert(out@ =~= old(out)@ + enc_bytes_field(tag, b@));
    }
}

/// Append an optional byte-string field, skipping an empty value.
fn encode_field_opt(out: &mut Vec<u8>, tag: u8, b: &Vec<u8>)
    ensures
        final(out)@ == old(out)@ + opt_bytes_part(tag, b@),
{
    if b.len() == 0 {
        proof {
            assert(out@ =~= old(out)@ + opt_bytes_part(tag, b@));
        }
        return;
    }
    encode_field_always(out, tag, b);
}

/// Appending one more element extends the repeated role-name encoding.
proof fn lemma_roles_part_push(rs: Seq<Seq<u8>>, x: Seq<u8>)
    ensures
        roles_part(rs.push(x)) == roles_part(rs) + enc_bytes_field(0x1a, x),
    decreases rs.len(),
{
    if rs.len() == 0 {
        assert(rs.push(x)[0] == x);
        assert(rs.push(x).skip(1) =~= rs);
        assert(roles_part(rs.push(x)) =~= roles_part(rs) + enc_bytes_field(0x1a, x));
    } else {
        assert(rs.push(x)[0] == rs[0]);
        assert(rs.push(x).skip(1) =~= rs.skip(1).push(x));
        lemma_roles_part_push(rs.skip(1), x);
        assert(roles_part(rs.push(x)) =~= roles_part(rs) + enc_bytes_field(0x1a, x));
    }
}

/// Appending one more element extends the repeated permission encoding.
proof fn lemma_perms_part_push(ps: Seq<PermissionV>, x: PermissionV)
    ensures
        perms_part(ps.push(x)) == perms_part(ps) + enc_bytes_field(0x12, enc_perm(x)),
    decreases ps.len(),
{
    if ps.len() == 0 {
        assert(ps.push(x)[0] == x);
        assert(ps.push(x).skip(1) =~= ps);
        assert(perms_part(ps.push(x)) =~= perms_part(ps) + enc_bytes_field(0x12, enc_perm(x)));
    } else {
        assert(ps.push(x)[0] == ps[0]);
        assert(ps.push(x).skip(1) =~= ps.skip(1).push(x));
        lemma_perms_part_push(ps.skip(1), x);
        assert(perms_part(ps.push(x)) =~= perms_part(ps) + enc_bytes_field(0x12, enc_perm(x)));
    }
}

/// Encode a user record to its wire form.
pub fn encode_user(u: &User) -> (r: Vec<u8>)
    ensures
        r@ == enc_user(u@),
{
    let mut out: Vec<u8> = Vec::new();
    encode_field_opt(&mut out, 0x0a, &u.name);
    encode_field_opt(&mut out, 0x12, &u.password);
    let ghost base = out@;
    let mut i: usize = 0;
    while i < u.roles.len()
        invariant
            0 <= i <= u.roles@.len(),
            out@ == base + roles_part(u@.roles.take(i as int)),
        decreases u.roles@.len() - i,
    {
        encode_field_always(&mut out, 0x1a, &u.roles[i]);
        proof {
            assert(u@.roles.take(i + 1) =~= u@.roles.take(i as int).push(u@.roles[i as int]));
            lemma_roles_part_push(u@.roles.take(i as int), u@.roles[i as int]);
        }
        i = i + 1;
    }
    proof {
        assert(u@.roles.take(u.roles@.len() as int) =~= u@.roles);
    }
    match u.options {
        None => {},
        Some(o) => {
            out.push(0x22);
            if o.no_password {
                out.push(2);
                out.push(0x08);
                out.push(1);
                proof {
                    assert(varint(2) =~= seq![2u8]);
                }
            } else {
                out.push(0);
                proof {
                    assert(varint(0) =~= seq![0u8]);
                }
            }
        },
    }
    proof {
        assert(out@ =~= enc_user(u@));
    }
    out
}

/// Encode a role record to its wire form.
pub fn encode_role(r: &Role) -> (out: Vec<u8>)
    ensures
        out@ == enc_role(r@),
{
    let mut out: Vec<u8> = Vec::new();
    encode_field_opt(&mut out, 0x0a, &r.name);
    let ghost base = out@;
    let mut i: usize = 0;
    while i < r.key_permission.len()
        invariant
            0 <= i <= r.key_permission@.len(),
            out@ == base + perms_part(r@.key_permission.take(i as int)),
        decreases r.key_permission@.len() - i,
    {
        let p = &r.key_permission[i];
        let mut body: Vec<u8> = Vec::new();
        match p.perm_type {
            Type::Read => {},
            Type::Write => {
                body.push(0x08);
                body.push(1);
            },
            Type::Readwrite => {
                body.push(0x08);
                body.push(2);
            },
        }
        proof {
            assert(body@ =~= type_part(p@.perm_type));
        }
        encode_field_opt(&mut body, 0x12, &p.key);
        encode_field_opt(&mut body, 0x1a, &p.range_end);
        proof {
            assert(body@ =~= enc_perm(p@));
        }
        encode_field_always(&mut out, 0x12, &body);
        proof {
            assert(r@.key_permission.take(i + 1) =~= r@.key_permission.take(i as int).push(
                r@.key_permission[i as int],
            ));
            lemma_perms_part_push(r@.key_permission.take(i as int), r@.key_permission[i as int]);
        }
        i = i + 1;
    }
    proof {
        assert(r@.key_permission.take(r.key_permission@.len() as int) =~= r@.key_permission);
        assert(out@ =~= enc_role(r@));
    }
    out
}

/// The remainder a varint decode leaves is a strict suffix.
proof fn lemma_dec_varint_suffix(s: Seq<u8>)
    ensures
        dec_varint(s) matches Some(vr) ==> vr.1.len() < s.len(),
    decreases s.len(),
{
    if s.len() > 0 && s[0] >= 128 {
        lemma_dec_varint_suffix(s.skip(1));
    }
}

/// Decode a length-prefixed byte string at `pos`.
fn decode_bytes(buf: &Vec<u8>, pos: usize) -> (r: Option<(Vec<u8>, usize)>)
    requires
        pos <= buf@.len(),
    ensures
        match r {
            Some(vp) => pos < vp.1 <= buf@.len() && dec_bytes(buf@.skip(pos as int))
                == Some((vp.0@, buf@.skip(vp.1 as int))),
            None => dec_bytes(buf@.skip(pos as int)) is None,
        },
{
    let ghost s = buf@.skip(pos as int);
    let blen = buf.len();
    match decode_varint(buf, pos) {
        None => {
            proof {
                if dec_varint(s) is Some {
                    let vr = dec_varint(s).unwrap();
                    assert(vr.0 > u64::MAX);
                    lemma_dec_varint_suffix(s);
                    assert(vr.1.len() < s.len());
                }
            }
            None
        },
        Some((n, p1)) => {
            let ghost rem = buf@.skip(p1 as int);
            if n > (blen - p1) as u64 {
                proof {
                    assert(rem.len() == buf@.len() - p1);
                }
                None
            } else {
                let count = n as usize;
                let mut v: Vec<u8> = Vec::new();
                let mut i: usize = 0;
                while i < count
                    invariant
                        0 <= i <= count,
                        p1 + count <= buf@.len(),
                        buf@.len() <= usize::MAX,
                        v@ == buf@.subrange(p1 as int, p1 + i),
                    decreases count - i,
                {
                    let c = buf[p1 + i];
                    v.push(c);
                    proof {
                        assert(v@ =~= buf@.subrange(p1 as int, p1 + i + 1));
                    }
                    i = i + 1;
                }
                proof {
                    assert(v@ =~= rem.take(n as int));
                    assert(buf@.skip(p1 + count) =~= rem.skip(n as int));
                }
                Some((v, p1 + count))
            }
        },
    }
}

/// Decode an optional byte-string field at `pos`.
fn decode_opt_bytes(buf: &Vec<u8>, pos: usize, tag: u8) -> (r: Option<(Vec<u8>, usize)>)
    requires
        pos <= buf@.len(),
    ensures
        match r {
            Some(vp) => pos <= vp.1 <= buf@.len() && dec_opt_bytes(tag, buf@.skip(pos as int))
                == Some((vp.0@, buf@.skip(vp.1 as int))),
            None => dec_opt_bytes(tag, buf@.skip(pos as int)) is None,
        },
{
    let ghost s = buf@.skip(pos as int);
    if pos < buf.len() && buf[pos] == tag {
        proof {
            assert(s[0] == tag);
            assert(s.skip(1) =~= buf@.skip(pos + 1));
        }
        decode_bytes(buf, pos + 1)
    } else {
        let v: Vec<u8> = Vec::new();
        proof {
            assert(v@ =~= Seq::<u8>::empty());
        }
        Some((v, pos))
    }
}

/// Decode the repeated role-name field at `pos`.
fn decode_roles(buf: &Vec<u8>, pos: usize) -> (r: Option<(Vec<Vec<u8>>, usize)>)
    requires
        pos <= buf@.len(),
    ensures
        match r {
            Some(vp) => pos <= vp.1 <= buf@.len() && dec_roles(buf@.skip(pos as int))
                == Some((vp.0@.map_values(|b: Vec<u8>| b@), buf@.skip(vp.1 as int))),
            None => dec_roles(buf@.skip(pos as int)) is None,
        },
    decreases buf@.len() - pos,
{
    let ghost s = buf@.skip(pos as int);
    if pos < buf.len() && buf[pos] == 0x1a {
        proof {
            assert(s[0] == 0x1a);
            assert(s.skip(1) =~= buf@.skip(pos + 1));
        }
        match decode_bytes(buf, pos + 1) {
            None => None,
            Some((b, p2)) => {
                proof {
                    assert(buf@.skip(p2 as int).len() < s.len());
                }
                match decode_roles(buf, p2) {
                    None => None,
                    Some((mut rs, p3)) => {
                        rs.insert(0, b);
                        proof {
                            assert(rs@.map_values(|x: Vec<u8>| x@) =~= seq![b@]
                                + rs@.skip(1).map_values(|x: Vec<u8>| x@));
                            assert(rs@.skip(1) =~= rs@.subrange(1, rs@.len() as int));
                        }
                        Some((rs, p3))
                    },
                }
            },
        }
    } else {
        let v: Vec<Vec<u8>> = Vec::new();
        proof {
            assert(v@.map_values(|x: Vec<u8>| x@) =~= Seq::<Seq<u8>>::empty());
        }
        Some((v, pos))
    }
}

/// Decode the optional options field at `pos`.
fn decode_opt_options(buf: &Vec<u8>, pos: usize) -> (r: Option<(Option<UserAddOptions>, usize)>)
    requires
        pos <= buf@.len(),
    ensures
        match r {
            Some(vp) => pos <= vp.1 <= buf@.len() && dec_opt_options(buf@.skip(pos as int))
                == Some((vp.0, buf@.skip(vp.1 as int))),
            None => dec_opt_options(buf@.skip(pos as int)) is None,
        },
{
    let ghost s = buf@.skip(pos as int);
    if pos < buf.len() && buf[pos] == 0x22 {
        proof {
            assert(s[0] == 0x22);
            assert(s.skip(1) =~= buf@.skip(pos + 1));
        }
        match decode_bytes(buf, pos + 1) {
            None => None,
            Some((b, p2)) => {
                if b.len() == 0 {
                    Some((Some(UserAddOptions { no_password: false }), p2))
                } else if b.len() == 2 && b[0] == 0x08 && b[1] == 1 {
                    proof {
                        assert(b@ =~= seq![0x08u8, 1u8]);
                    }
                    Some((Some(UserAddOptions { no_password: true }), p2))
                } else {
                    proof {
                        assert(b@ != seq![0x08u8, 1u8]) by {
                            if b@.len() == 2 {
                                assert(b@[0] == 0x08 && b@[1] == 1 ==> b@ == seq![0x08u8, 1u8]);
                            } else {
                                assert(seq![0x08u8, 1u8].len() == 2);
                            }
                        }
                    }
                    None
                }
            },
        }
    } else {
        Some((None, pos))
    }
}

/// Decode a user record from its wire form; fails on anything that the
/// encoder does not produce.
pub fn decode_user(buf: &Vec<u8>) -> (r: Option<User>)
    ensures
        match r {
            Some(u) => dec_user(buf@) == Some(u@),
            None => dec_user(buf@) is None,
        },
{
    proof {
        assert(buf@.skip(0) =~= buf@);
    }
    let (name, p1) = match decode_opt_bytes(buf, 0, 0x0a) {
        None => {
            return None;
        },
        Some(x) => x,
    };
    let (password, p2) = match decode_opt_bytes(buf, p1, 0x12) {
        None => {
            return None;
        },
        Some(x) => x,
    };
    let (roles, p3) = match decode_roles(buf, p2) {
        None => {
            return None;
        },
        Some(x) => x,
    };
    let (options, p4) = match decode_opt_options(buf, p3) {
        None => {
            return None;
        },
        Some(x) => x,
    };
    if p4 != buf.len() {
        return None;
    }
    Some(User { name, password, options, roles })
}

/// Decode the permission-kind field at `pos`.
fn decode_type(buf: &Vec<u8>, pos: usize) -> (r: Option<(Type, usize)>)
    requires
        pos <= buf@.len(),
    ensures
        match r {
            Some(vp) => pos <= vp.1 <= buf@.len() && dec_type(buf@.skip(pos as int))
                == Some((vp.0, buf@.skip(vp.1 as int))),
            None => dec_type(buf@.skip(pos as int)) is None,
        },
{
    let ghost s = buf@.skip(pos as int);
    if pos < buf.len() && buf[pos] == 0x08 {
        proof {
            assert(s[0] == 0x08);
        }
        if pos + 1 < buf.len() && buf[pos + 1] == 1 {
            proof {
                assert(s[1] == 1);
                assert(s.skip(2) =~= buf@.skip(pos + 2));
            }
            Some((Type::Write, pos + 2))
        } else if pos + 1 < buf.len() && buf[pos + 1] == 2 {
            proof {
                assert(s[1] == 2);
                assert(s.skip(2) =~= buf@.skip(pos + 2));
            }
            Some((Type::Readwrite, pos + 2))
        } else {
            proof {
                if pos + 1 < buf@.len() {
                    assert(s[1] == buf@[pos + 1]);
                }
            }
            None
        }
    } else {
        Some((Type::Read, pos))
    }
}

/// Decode one permission message body; the whole body must be consumed.
fn decode_perm_body(buf: &Vec<u8>) -> (r: Option<Permission>)
    ensures
        match r {
            Some(p) => dec_perm(buf@) == Some(p@),
            None => dec_perm(buf@) is None,
        },
{
    proof {
        assert(buf@.skip(0) =~= buf@);
    }
    let (t, p1) = match decode_type(buf, 0) {
        None => {
            return None;
        },
        Some(x) => x,
    };
    let (key, p2) = match decode_opt_bytes(buf, p1, 0x12) {
        None => {
            return None;
        },
        Some(x) => x,
    };
    let (range_end, p3) = match decode_opt_bytes(buf, p2, 0x1a) {
        None => {
            return None;
        },
        Some(x) => x,
    };
    if p3 != buf.len() {
        return None;
    }
    Some(Permission { perm_type: t, key, range_end })
}

/// Decode the repeated permission field at `pos`.
fn decode_perms(buf: &Vec<u8>, pos: usize) -> (r: Option<(Vec<Permission>, usize)>)
    requires
        pos <= buf@.len(),
    ensures
        match r {
            Some(vp) => pos <= vp.1 <= buf@.len() && dec_perms(buf@.skip(pos as int))
                == Some((vp.0@.map_values(|p: Permission| p@), buf@.skip(vp.1 as int))),
            None => dec_perms(buf@.skip(pos as int)) is None,
        },
    decreases buf@.len() - pos,
{
    let ghost s = buf@.skip(pos as int);
    if pos < buf.len() && buf[pos] == 0x12 {
        proof {
            assert(s[0] == 0x12);
            assert(s.skip(1) =~= buf@.skip(pos + 1));
        }
        match decode_bytes(buf, pos + 1) {
            None => None,
            Some((b, p2)) => {
                match decode_perm_body(&b) {
                    None => None,
                    Some(p) => {
                        proof {
                            assert(buf@.skip(p2 as int).len() < s.len());
                        }
                        match decode_perms(buf, p2) {
                            None => None,
                            Some((mut ps, p3)) => {
                                ps.insert(0, p);
                                proof {
                                    assert(ps@.map_values(|x: Permission| x@) =~= seq![p@]
                                        + ps@.skip(1).map_values(|x: Permission| x@));
                                    assert(ps@.skip(1) =~= ps@.subrange(1, ps@.len() as int));
                                }
                                Some((ps, p3))
                            },
                        }
                    },
                }
            },
        }
    } else {
        let v: Vec<Permission> = Vec::new();
        proof {
            assert(v@.map_values(|x: Permission| x@) =~= Seq::<PermissionV>::empty());
        }
        Some((v, pos))
    }
}

/// Decode a role record from its wire form; fails on anything that the
/// encoder does not produce.
pub fn decode_role(buf: &Vec<u8>) -> (r: Option<Role>)
    ensures
        match r {
            Some(ro) => dec_role(buf@) == Some(ro@),
            None => dec_role(buf@) is None,
        },
{
    proof {
        assert(buf@.skip(0) =~= buf@);
    }
    let (name, p1) = match decode_opt_bytes(buf, 0, 0x0a) {
        None => {
            return None;
        },
        Some(x) => x,
    };
    let (key_permission, p2) = match decode_perms(buf, p1) {
        None => {
            return None;
        },
        Some(x) => x,
    };
    if p2 != buf.len() {
        return None;
    }
    Some(Role { name, key_permission })
}

/// Round trip: decoding an encoded role record yields it back.
pub proof fn lemma_role_rt(r: RoleV)
    ensures
        dec_role(enc_role(r)) == Some(r),
{
    let s1 = perms_part(r.key_permission);
    assert(enc_role(r) =~= opt_bytes_part(0x0a, r.name) + s1);
    assert(s1.len() == 0 || s1[0] == 0x12) by {
        if r.key_permission.len() > 0 {
            assert(s1[0] == 0x12);
        }
    }
    lemma_opt_bytes_rt(0x0a, r.name, s1);
    lemma_perms_rt(r.key_permission, Seq::empty());
    assert(s1 + Seq::<u8>::empty() =~= s1);
}

} // verus!
