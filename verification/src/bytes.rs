//! Lexicographic byte-string order, comparison, and prefix ranges.
//!
//! Logical keys, user names, role names and permission ranges are byte
//! strings ordered lexicographically; range scans over a prefix use the
//! prefix's lexicographic successor as their exclusive upper bound.

use vstd::prelude::*;

verus! {

/// Strict lexicographic order on byte strings: `a` comes before `b`.
pub open spec fn lex_lt(a: Seq<u8>, b: Seq<u8>) -> bool
    decreases a.len(),
{
    if b.len() == 0 {
        false
    } else if a.len() == 0 {
        true
    } else if a[0] < b[0] {
        true
    } else if a[0] == b[0] {
        lex_lt(a.skip(1), b.skip(1))
    } else {
        false
    }
}

/// `p` is a prefix of `k`.
pub open spec fn is_prefix(p: Seq<u8>, k: Seq<u8>) -> bool {
    p.len() <= k.len() && k.subrange(0, p.len() as int) == p
}

/// The order is irreflexive.
pub proof fn lemma_lex_irreflexive(a: Seq<u8>)
    ensures
        !lex_lt(a, a),
    decreases a.len(),
{
    if a.len() > 0 {
        lemma_lex_irreflexive(a.skip(1));
    }
}

/// Exactly one of `a < b`, `a == b`, `b < a` holds.
pub proof fn lemma_lex_trichotomy(a: Seq<u8>, b: Seq<u8>)
    ensures
        lex_lt(a, b) || lex_lt(b, a) || a == b,
        lex_lt(a, b) ==> !lex_lt(b, a),
        lex_lt(a, b) ==> a != b,
        lex_lt(b, a) ==> a != b,
    decreases a.len(),
{
    if a.len() > 0 && b.len() > 0 && a[0] == b[0] {
        lemma_lex_trichotomy(a.skip(1), b.skip(1));
        if a.skip(1) == b.skip(1) {
            assert(a =~= b) by {
                assert(a.len() == b.len());
                assert forall|i: int| 0 <= i < a.len() implies a[i] == b[i] by {
                    if i > 0 {
                        assert(a.skip(1)[i - 1] == a[i]);
                        assert(b.skip(1)[i - 1] == b[i]);
                    }
                }
            }
        }
        if a == b {
            assert(a.skip(1) =~= b.skip(1));
        }
    } else {
        if a == b && a.len() > 0 {
            assert(a[0] == b[0]);
        }
    }
}

/// The order is transitive.
pub proof fn lemma_lex_transitive(a: Seq<u8>, b: Seq<u8>, c: Seq<u8>)
    requires
        lex_lt(a, b),
        lex_lt(b, c),
    ensures
        lex_lt(a, c),
    decreases a.len(),
{
    if c.len() > 0 && a.len() > 0 {
        if b.len() > 0 && a[0] == b[0] && b[0] == c[0] {
            lemma_lex_transitive(a.skip(1), b.skip(1), c.skip(1));
        }
    }
}

/// Sharing an equal prefix of length `i` shifts the comparison to the tails.
pub proof fn lemma_lex_skip(a: Seq<u8>, b: Seq<u8>, i: int)
    requires
        0 <= i <= a.len(),
        i <= b.len(),
        a.subrange(0, i) == b.subrange(0, i),
    ensures
        lex_lt(a, b) == lex_lt(a.skip(i), b.skip(i)),
    decreases i,
{
    if i > 0 {
        assert(a[0] == b[0]) by {
            assert(a.subrange(0, i)[0] == a[0]);
            assert(b.subrange(0, i)[0] == b[0]);
        }
        assert(a.skip(1).subrange(0, i - 1) == b.skip(1).subrange(0, i - 1)) by {
            assert(a.skip(1).subrange(0, i - 1) =~= a.subrange(0, i).skip(1));
            assert(b.skip(1).subrange(0, i - 1) =~= b.subrange(0, i).skip(1));
        }
        lemma_lex_skip(a.skip(1), b.skip(1), i - 1);
        assert(a.skip(1).skip(i - 1) =~= a.skip(i));
        assert(b.skip(1).skip(i - 1) =~= b.skip(i));
    } else {
        assert(a.skip(0) =~= a);
        assert(b.skip(0) =~= b);
    }
}

/// A string never precedes its own prefix.
pub proof fn lemma_prefix_not_below(p: Seq<u8>, k: Seq<u8>)
    requires
        is_prefix(p, k),
    ensures
        !lex_lt(k, p),
        p != k ==> lex_lt(p, k),
    decreases p.len(),
{
    assert(p.subrange(0, p.len() as int) =~= p);
    lemma_lex_skip(k, p, p.len() as int);
    lemma_lex_skip(p, k, p.len() as int);
    assert(p.skip(p.len() as int).len() == 0);
    if p != k {
        assert(k.skip(p.len() as int).len() > 0) by {
            if k.len() == p.len() {
                assert(p =~= k);
            }
        }
    }
}

/// Result of a three-way byte-string comparison.
pub enum Cmp {
    /// The left operand comes first.
    Lt,
    /// The operands are equal.
    Eq,
    /// The right operand comes first.
    Gt,
}

/// Three-way lexicographic comparison of two byte strings.
pub fn bytes_cmp(a: &Vec<u8>, b: &Vec<u8>) -> (r: Cmp)
    ensures
        r is Lt <==> lex_lt(a@, b@),
        r is Gt <==> lex_lt(b@, a@),
        r is Eq <==> a@ == b@,
{
    proof {
        lemma_lex_trichotomy(a@, b@);
    }
    let n = if a.len() < b.len() {
        a.len()
    } else {
        b.len()
    };
    let mut i: usize = 0;
    while i < n
        invariant
            0 <= i <= n,
            n <= a@.len(),
            n <= b@.len(),
            n == if a@.len() < b@.len() {
                a@.len() as int
            } else {
                b@.len() as int
            },
            a@.subrange(0, i as int) == b@.subrange(0, i as int),
        decreases n - i,
    {
        let x = a[i];
        let y = b[i];
        proof {
            lemma_lex_skip(a@, b@, i as int);
            lemma_lex_skip(b@, a@, i as int);
        }
        if x < y {
            return Cmp::Lt;
        }
        if y < x {
            return Cmp::Gt;
        }
        proof {
            assert(a@.subrange(0, i + 1) =~= b@.subrange(0, i + 1));
        }
        i = i + 1;
    }
    proof {
        lemma_lex_skip(a@, b@, n as int);
        lemma_lex_skip(b@, a@, n as int);
    }
    if a.len() < b.len() {
        Cmp::Lt
    } else if b.len() < a.len() {
        Cmp::Gt
    } else {
        proof {
            assert(a@ =~= b@);
        }
        Cmp::Eq
    }
}

/// Equality test on byte strings.
pub fn bytes_eq(a: &Vec<u8>, b: &Vec<u8>) -> (r: bool)
    ensures
        r <==> a@ == b@,
{
    matches!(bytes_cmp(a, b), Cmp::Eq)
}

/// The lexicographic successor of a prefix: the last byte below `0xff` is
/// incremented and everything after it dropped; a prefix of only `0xff`
/// bytes has the whole remaining key space, written as the single byte `0`.
pub open spec fn prefix_end(p: Seq<u8>) -> Seq<u8>
    decreases p.len(),
{
    if p.len() == 0 {
        seq![0u8]
    } else if p.last() < 0xff {
        p.drop_last().push((p.last() + 1) as u8)
    } else {
        prefix_end(p.drop_last())
    }
}

/// Compute the exclusive upper bound of the range holding every key that
/// starts with `p`.
pub fn get_prefix(p: &Vec<u8>) -> (r: Vec<u8>)
    ensures
        r@ == prefix_end(p@),
{
    let mut i: usize = p.len();
    proof {
        assert(p@.subrange(0, p@.len() as int) =~= p@);
    }
    while i > 0
        invariant
            0 <= i <= p@.len(),
            prefix_end(p@.subrange(0, i as int)) == prefix_end(p@),
        decreases i,
    {
        if p[i - 1] < 0xff {
            let mut r: Vec<u8> = Vec::new();
            let mut j: usize = 0;
            while j < i - 1
                invariant
                    0 <= j <= i - 1,
                    i <= p@.len(),
                    r@ == p@.subrange(0, j as int),
                decreases i - 1 - j,
            {
                let c = p[j];
                r.push(c);
                proof {
                    assert(r@ =~= p@.subrange(0, j + 1));
                }
                j = j + 1;
            }
            let last = p[i - 1];
            r.push(last + 1);
            proof {
                let q = p@.subrange(0, i as int);
                assert(q.last() == p@[i - 1]);
                assert(q.drop_last() =~= p@.subrange(0, i - 1));
                assert(r@ =~= q.drop_last().push((q.last() + 1) as u8));
            }
            return r;
        }
        proof {
            let q = p@.subrange(0, i as int);
            assert(q.last() == p@[i - 1]);
            assert(q.drop_last() =~= p@.subrange(0, i - 1));
        }
        i = i - 1;
    }
    proof {
        assert(p@.subrange(0, 0).len() == 0);
    }
    let mut r: Vec<u8> = Vec::new();
    r.push(0u8);
    proof {
        assert(r@ =~= seq![0u8]);
    }
    r
}

/// Every key with prefix `p` lies in the half-open interval
/// `[p, prefix_end(p))` when `p` ends in a byte below `0xff`.
pub proof fn lemma_prefix_in_range(p: Seq<u8>, k: Seq<u8>)
    requires
        p.len() > 0,
        p.last() < 0xff,
        is_prefix(p, k),
    ensures
        !lex_lt(k, p),
        lex_lt(k, prefix_end(p)),
{
    lemma_prefix_not_below(p, k);
    let q = prefix_end(p);
    let n = p.len() as int;
    assert(q =~= p.drop_last().push((p.last() + 1) as u8));
    assert(k.subrange(0, n - 1) == q.subrange(0, n - 1)) by {
        assert(k.subrange(0, n - 1) =~= k.subrange(0, n).subrange(0, n - 1));
        assert(q.subrange(0, n - 1) =~= p.subrange(0, n - 1));
        assert(k.subrange(0, n).subrange(0, n - 1) =~= p.subrange(0, n - 1));
    }
    lemma_lex_skip(k, q, n - 1);
    assert(k.skip(n - 1)[0] == k[n - 1]);
    assert(k[n - 1] == p[n - 1]) by {
        assert(k.subrange(0, n)[n - 1] == k[n - 1]);
    }
    assert(q.skip(n - 1)[0] == q[n - 1]);
    assert(q[n - 1] == p.last() + 1);
    assert(lex_lt(k.skip(n - 1), q.skip(n - 1)));
}

/// Concatenate two byte strings.
pub fn bytes_concat(a: &Vec<u8>, b: &Vec<u8>) -> (r: Vec<u8>)
    ensures
        r@ == a@ + b@,
{
    let mut r: Vec<u8> = Vec::new();
    let mut i: usize = 0;
    while i < a.len()
        invariant
            0 <= i <= a@.len(),
            r@ == a@.subrange(0, i as int),
        decreases a@.len() - i,
    {
        let c = a[i];
        r.push(c);
        proof {
            assert(r@ =~= a@.subrange(0, i + 1));
        }
        i = i + 1;
    }
    proof {
        assert(r@ =~= a@);
    }
    let mut j: usize = 0;
    while j < b.len()
        invariant
            0 <= j <= b@.len(),
            r@ == a@ + b@.subrange(0, j as int),
        decreases b@.len() - j,
    {
        let c = b[j];
        r.push(c);
        proof {
            assert(r@ =~= a@ + b@.subrange(0, j + 1));
        }
        j = j + 1;
    }
    proof {
        assert(r@ =~= a@ + b@);
    }
    r
}

} // verus!
