//! The MVCC key index: logical byte key to revision bookkeeping.
//!
//! Entries are kept strictly sorted by key. A live entry points at the
//! revision of the latest write of its key; deletion marks the entry dead
//! and a later insert revives it as a fresh creation.

use vstd::prelude::*;

use crate::bytes::{
    bytes_cmp, lex_lt, lemma_lex_irreflexive, lemma_lex_transitive, lemma_lex_trichotomy, Cmp,
};
use crate::revision::Revision;

verus! {

/// One index entry.
pub struct IndexEntry {
    /// The logical key.
    pub key: Vec<u8>,
    /// Revision of the write that created the current incarnation.
    pub create: Revision,
    /// Revision of the latest write.
    pub modr: Revision,
    /// Number of writes in the current incarnation.
    pub version: i64,
    /// Whether the key is live (not deleted).
    pub live: bool,
}

/// Mathematical model of an [`IndexEntry`].
pub ghost struct IndexEntryV {
    /// The logical key.
    pub key: Seq<u8>,
    /// Revision of the write that created the current incarnation.
    pub create: Revision,
    /// Revision of the latest write.
    pub modr: Revision,
    /// Number of writes in the current incarnation.
    pub version: int,
    /// Whether the key is live.
    pub live: bool,
}

impl View for IndexEntry {
    type V = IndexEntryV;

    open spec fn view(&self) -> IndexEntryV {
        IndexEntryV {
            key: self.key@,
            create: self.create,
            modr: self.modr,
            version: self.version as int,
            live: self.live,
        }
    }
}

/// Entries are strictly sorted by key.
pub open spec fn index_sorted(s: Seq<IndexEntryV>) -> bool {
    forall|i: int, j: int| 0 <= i < j < s.len() ==> lex_lt(s[i].key, s[j].key)
}

/// A well-formed index.
pub open spec fn index_wf(s: Seq<IndexEntryV>) -> bool {
    index_sorted(s)
}

/// The entry stored under `key`, live or dead.
pub open spec fn lookup(s: Seq<IndexEntryV>, key: Seq<u8>) -> Option<IndexEntryV>
    decreases s.len(),
{
    if s.len() == 0 {
        None
    } else if s[0].key == key {
        Some(s[0])
    } else {
        lookup(s.skip(1), key)
    }
}

/// The revision of the latest live write of `key`, if the key is live.
pub open spec fn live_rev(s: Seq<IndexEntryV>, key: Seq<u8>) -> Option<Revision> {
    match lookup(s, key) {
        Some(e) => if e.live {
            Some(e.modr)
        } else {
            None
        },
        None => None,
    }
}

/// Whether `e` is a live entry whose key lies in `[lo, hi)`.
pub open spec fn in_range(e: IndexEntryV, lo: Seq<u8>, hi: Seq<u8>) -> bool {
    e.live && !lex_lt(e.key, lo) && lex_lt(e.key, hi)
}

/// The live entries with keys in `[lo, hi)`, in key order.
pub open spec fn range_entries(s: Seq<IndexEntryV>, lo: Seq<u8>, hi: Seq<u8>) -> Seq<IndexEntryV>
    decreases s.len(),
{
    if s.len() == 0 {
        Seq::empty()
    } else {
        (if in_range(s[0], lo, hi) {
            seq![s[0]]
        } else {
            Seq::empty()
        }) + range_entries(s.skip(1), lo, hi)
    }
}

/// A fresh entry created by writing `key` at `(main, sub)`.
pub open spec fn fresh_entry(key: Seq<u8>, main: i64, sub: i64) -> IndexEntryV {
    IndexEntryV {
        key,
        create: Revision { main, sub },
        modr: Revision { main, sub },
        version: 1,
        live: true,
    }
}

/// The entry that a write of `key` at `(main, sub)` leaves in the index:
/// a live entry keeps its creation and gains a version; a dead or absent
/// entry begins a fresh incarnation.
pub open spec fn ins_result(s: Seq<IndexEntryV>, key: Seq<u8>, main: i64, sub: i64) -> IndexEntryV {
    match lookup(s, key) {
        Some(e) => if e.live {
            IndexEntryV {
                key,
                create: e.create,
                modr: Revision { main, sub },
                version: if e.version < i64::MAX { e.version + 1 } else { e.version as int },
                live: true,
            }
        } else {
            fresh_entry(key, main, sub)
        },
        None => fresh_entry(key, main, sub),
    }
}

/// The index after a write of `key` at `(main, sub)`.
pub open spec fn spec_insert(s: Seq<IndexEntryV>, key: Seq<u8>, main: i64, sub: i64) -> Seq<
    IndexEntryV,
>
    decreases s.len(),
{
    if s.len() == 0 {
        seq![fresh_entry(key, main, sub)]
    } else if lex_lt(key, s[0].key) {
        seq![fresh_entry(key, main, sub)] + s
    } else if s[0].key == key {
        seq![ins_result(s, key, main, sub)] + s.skip(1)
    } else {
        seq![s[0]] + spec_insert(s.skip(1), key, main, sub)
    }
}

/// The index after deleting `key`: a matching entry is marked dead.
pub open spec fn spec_delete(s: Seq<IndexEntryV>, key: Seq<u8>) -> Seq<IndexEntryV>
    decreases s.len(),
{
    if s.len() == 0 {
        s
    } else if s[0].key == key {
        seq![IndexEntryV { live: false, ..s[0] }] + s.skip(1)
    } else {
        seq![s[0]] + spec_delete(s.skip(1), key)
    }
}

/// What a write does to the index: the written key gets its new entry,
/// every other key keeps its entry, and well-formedness is preserved.
pub proof fn lemma_insert(s: Seq<IndexEntryV>, key: Seq<u8>, main: i64, sub: i64)
    requires
        index_wf(s),
    ensures
        index_wf(spec_insert(s, key, main, sub)),
        lookup(spec_insert(s, key, main, sub), key) == Some(ins_result(s, key, main, sub)),
        forall|k: Seq<u8>| k != key ==> lookup(spec_insert(s, key, main, sub), k) == lookup(s, k),
    decreases s.len(),
{
    let s2 = spec_insert(s, key, main, sub);
    if s.len() == 0 {
        assert(s2 =~= seq![fresh_entry(key, main, sub)]);
        assert forall|k: Seq<u8>| k != key implies lookup(s2, k) == lookup(s, k) by {
            assert(s2.skip(1) =~= s);
        }
    } else if lex_lt(key, s[0].key) {
        assert(s2 =~= seq![fresh_entry(key, main, sub)] + s);
        assert(s2.skip(1) =~= s);
        assert(index_sorted(s2)) by {
            assert forall|i: int, j: int| 0 <= i < j < s2.len() implies lex_lt(
                s2[i].key,
                s2[j].key,
            ) by {
                if i == 0 {
                    assert(s2[j] == s[j - 1]);
                    if j > 1 {
                        assert(lex_lt(s[0].key, s[j - 1].key));
                        lemma_lex_transitive(key, s[0].key, s[j - 1].key);
                    }
                } else {
                    assert(s2[i] == s[i - 1]);
                    assert(s2[j] == s[j - 1]);
                }
            }
        }
        assert(lookup(s, key) is None) by {
            lemma_lookup_absent(s, key);
        }
    } else if s[0].key == key {
        assert(s2 =~= seq![ins_result(s, key, main, sub)] + s.skip(1));
        assert(s2.skip(1) =~= s.skip(1));
        assert(s2[0].key == key);
        assert(index_sorted(s2)) by {
            assert forall|i: int, j: int| 0 <= i < j < s2.len() implies lex_lt(
                s2[i].key,
                s2[j].key,
            ) by {
                assert(s2[j] == s.skip(1)[j - 1]);
                assert(s.skip(1)[j - 1] == s[j]);
                if i > 0 {
                    assert(s2[i] == s.skip(1)[i - 1]);
                    assert(s.skip(1)[i - 1] == s[i]);
                    assert(lex_lt(s[i].key, s[j].key));
                } else {
                    assert(s2[0].key == s[0].key);
                    assert(lex_lt(s[0].key, s[j].key));
                }
            }
        }
        assert forall|k: Seq<u8>| k != key implies lookup(s2, k) == lookup(s, k) by {
            assert(s2.skip(1) =~= s.skip(1));
            assert(s2[0].key == key);
            assert(lookup(s2, k) == lookup(s2.skip(1), k));
            assert(lookup(s, k) == lookup(s.skip(1), k));
        }
    } else {
        lemma_lex_trichotomy(key, s[0].key);
        assert(lex_lt(s[0].key, key));
        assert(lookup(s, key) == lookup(s.skip(1), key));
        assert(index_wf(s.skip(1))) by {
            assert forall|i: int, j: int|
                0 <= i < j < s.skip(1).len() implies lex_lt(
                s.skip(1)[i].key,
                s.skip(1)[j].key,
            ) by {
                assert(s.skip(1)[i] == s[i + 1]);
                assert(s.skip(1)[j] == s[j + 1]);
            }
        }
        lemma_insert(s.skip(1), key, main, sub);
        let t = spec_insert(s.skip(1), key, main, sub);
        assert(s2 =~= seq![s[0]] + t);
        assert(s2.skip(1) =~= t);
        assert(ins_result(s, key, main, sub) == ins_result(s.skip(1), key, main, sub));
        assert(index_sorted(s2)) by {
            assert forall|i: int, j: int| 0 <= i < j < s2.len() implies lex_lt(
                s2[i].key,
                s2[j].key,
            ) by {
                assert(s2[j] == t[j - 1]);
                if i == 0 {
                    assert(s2[0] == s[0]);
                    lemma_entry_key_origin(s.skip(1), key, main, sub, j - 1);
                    if t[j - 1].key == key {
                        assert(lex_lt(s[0].key, key));
                    } else {
                        let m = choose|m: int|
                            0 <= m < s.skip(1).len() && s.skip(1)[m].key == t[j - 1].key;
                        assert(s.skip(1)[m] == s[m + 1]);
                        assert(lex_lt(s[0].key, s[m + 1].key));
                    }
                } else {
                    assert(s2[i] == t[i - 1]);
                    assert(index_sorted(t));
                    assert(lex_lt(t[i - 1].key, t[j - 1].key));
                }
            }
        }
        assert forall|k: Seq<u8>| k != key implies lookup(s2, k) == lookup(s, k) by {
            assert(s2[0] == s[0]);
            if s[0].key != k {
                assert(lookup(s2, k) == lookup(t, k));
                assert(lookup(s, k) == lookup(s.skip(1), k));
            }
        }
    }
}

/// Every key in an updated index is the written key or a key of the old
/// index.
pub proof fn lemma_entry_key_origin(s: Seq<IndexEntryV>, key: Seq<u8>, main: i64, sub: i64, i: int)
    requires
        0 <= i < spec_insert(s, key, main, sub).len(),
    ensures
        spec_insert(s, key, main, sub)[i].key == key || exists|m: int|
            0 <= m < s.len() && s[m].key == spec_insert(s, key, main, sub)[i].key,
    decreases s.len(),
{
    let s2 = spec_insert(s, key, main, sub);
    if s.len() == 0 {
    } else if lex_lt(key, s[0].key) {
        if i > 0 {
            assert(s2[i] == s[i - 1]);
        }
    } else if s[0].key == key {
        if i > 0 {
            assert(s2[i] == s.skip(1)[i - 1]);
            assert(s.skip(1)[i - 1] == s[i]);
        }
    } else {
        if i > 0 {
            let t = spec_insert(s.skip(1), key, main, sub);
            assert(s2[i] == t[i - 1]);
            lemma_entry_key_origin(s.skip(1), key, main, sub, i - 1);
            if t[i - 1].key != key {
                let m = choose|m: int| 0 <= m < s.skip(1).len() && s.skip(1)[m].key == t[i - 1].key;
                assert(s.skip(1)[m] == s[m + 1]);
            }
        }
    }
}

/// In a sorted index, a key below the first entry's key is absent.
pub proof fn lemma_lookup_absent(s: Seq<IndexEntryV>, key: Seq<u8>)
    requires
        index_sorted(s),
        s.len() > 0,
        lex_lt(key, s[0].key),
    ensures
        lookup(s, key) is None,
    decreases s.len(),
{
    lemma_lex_trichotomy(key, s[0].key);
    if s.len() > 1 {
        assert(index_sorted(s.skip(1))) by {
            assert forall|i: int, j: int|
                0 <= i < j < s.skip(1).len() implies lex_lt(
                s.skip(1)[i].key,
                s.skip(1)[j].key,
            ) by {
                assert(s.skip(1)[i] == s[i + 1]);
                assert(s.skip(1)[j] == s[j + 1]);
            }
        }
        assert(s.skip(1)[0] == s[1]);
        assert(lex_lt(s[0].key, s[1].key));
        lemma_lex_transitive(key, s[0].key, s.skip(1)[0].key);
        lemma_lookup_absent(s.skip(1), key);
        assert(lookup(s, key) == lookup(s.skip(1), key));
    } else {
        assert(s.skip(1).len() == 0);
        assert(lookup(s, key) == lookup(s.skip(1), key));
        assert(lookup(s.skip(1), key) is None);
    }
}

/// What a delete does to the index: the deleted key's entry goes dead,
/// every other key keeps its entry, and well-formedness is preserved.
pub proof fn lemma_delete(s: Seq<IndexEntryV>, key: Seq<u8>)
    requires
        index_wf(s),
    ensures
        index_wf(spec_delete(s, key)),
        lookup(spec_delete(s, key), key) == match lookup(s, key) {
            Some(e) => Some(IndexEntryV { live: false, ..e }),
            None => None::<IndexEntryV>,
        },
        forall|k: Seq<u8>| k != key ==> lookup(spec_delete(s, key), k) == lookup(s, k),
        spec_delete(s, key).len() == s.len(),
        forall|i: int|
            0 <= i < s.len() ==> #[trigger] spec_delete(s, key)[i] == (if s[i].key == key {
                IndexEntryV { live: false, ..s[i] }
            } else {
                s[i]
            }),
    decreases s.len(),
{
    let s2 = spec_delete(s, key);
    if s.len() == 0 {
    } else if s[0].key == key {
        assert(s2 =~= seq![IndexEntryV { live: false, ..s[0] }] + s.skip(1));
        assert(s2.skip(1) =~= s.skip(1));
        assert forall|i: int| 0 <= i < s.len() implies #[trigger] s2[i] == (if s[i].key == key {
            IndexEntryV { live: false, ..s[i] }
        } else {
            s[i]
        }) by {
            if i > 0 {
                assert(s2[i] == s[i]);
                assert(!lex_lt(s[i].key, s[i].key)) by {
                    lemma_lex_irreflexive(s[i].key);
                }
                assert(lex_lt(s[0].key, s[i].key));
                lemma_lex_trichotomy(s[0].key, s[i].key);
            }
        }
        assert forall|k: Seq<u8>| k != key implies lookup(s2, k) == lookup(s, k) by {
            assert(lookup(s2, k) == lookup(s2.skip(1), k));
            assert(lookup(s, k) == lookup(s.skip(1), k));
        }
        assert(index_sorted(s2)) by {
            assert forall|i: int, j: int| 0 <= i < j < s2.len() implies lex_lt(
                s2[i].key,
                s2[j].key,
            ) by {
                assert(s2[i].key == s[i].key);
                assert(s2[j].key == s[j].key);
            }
        }
    } else {
        assert(index_wf(s.skip(1))) by {
            assert forall|i: int, j: int|
                0 <= i < j < s.skip(1).len() implies lex_lt(
                s.skip(1)[i].key,
                s.skip(1)[j].key,
            ) by {
                assert(s.skip(1)[i] == s[i + 1]);
                assert(s.skip(1)[j] == s[j + 1]);
            }
        }
        lemma_delete(s.skip(1), key);
        let t = spec_delete(s.skip(1), key);
        assert(s2 =~= seq![s[0]] + t);
        assert(s2.skip(1) =~= t);
        assert forall|i: int| 0 <= i < s.len() implies #[trigger] s2[i] == (if s[i].key == key {
            IndexEntryV { live: false, ..s[i] }
        } else {
            s[i]
        }) by {
            if i > 0 {
                assert(s2[i] == t[i - 1]);
                assert(t[i - 1] == (if s.skip(1)[i - 1].key == key {
                    IndexEntryV { live: false, ..s.skip(1)[i - 1] }
                } else {
                    s.skip(1)[i - 1]
                }));
                assert(s.skip(1)[i - 1] == s[i]);
            }
        }
        assert(index_sorted(s2)) by {
            assert forall|i: int, j: int| 0 <= i < j < s2.len() implies lex_lt(
                s2[i].key,
                s2[j].key,
            ) by {
                assert(s2[i].key == s[i].key);
                assert(s2[j].key == s[j].key);
            }
        }
        assert(lookup(s2, key) == lookup(t, key));
        assert(lookup(s, key) == lookup(s.skip(1), key));
        assert forall|k: Seq<u8>| k != key implies lookup(s2, k) == lookup(s, k) by {
            if s[0].key != k {
                assert(lookup(s2, k) == lookup(t, k));
                assert(lookup(s, k) == lookup(s.skip(1), k));
            }
        }
    }
}

/// `t` with the first entry keyed `key` removed.
pub open spec fn spec_remove(t: Seq<IndexEntryV>, key: Seq<u8>) -> Seq<IndexEntryV>
    decreases t.len(),
{
    if t.len() == 0 {
        t
    } else if t[0].key == key {
        t.skip(1)
    } else {
        seq![t[0]] + spec_remove(t.skip(1), key)
    }
}

/// Removing an absent key changes nothing.
pub proof fn lemma_remove_absent(t: Seq<IndexEntryV>, key: Seq<u8>)
    requires
        forall|j: int| 0 <= j < t.len() ==> #[trigger] t[j].key != key,
    ensures
        spec_remove(t, key) == t,
    decreases t.len(),
{
    if t.len() > 0 {
        assert forall|j: int| 0 <= j < t.skip(1).len() implies #[trigger] t.skip(1)[j].key
            != key by {
            assert(t.skip(1)[j] == t[j + 1]);
        }
        lemma_remove_absent(t.skip(1), key);
        assert(seq![t[0]] + t.skip(1) =~= t);
    }
}

/// Every element of a range scan is an element of the index.
pub proof fn lemma_range_mem(s: Seq<IndexEntryV>, lo: Seq<u8>, hi: Seq<u8>, j: int)
    requires
        0 <= j < range_entries(s, lo, hi).len(),
    ensures
        exists|i: int|
            0 <= i < s.len() && s[i] == range_entries(s, lo, hi)[j] && in_range(
                range_entries(s, lo, hi)[j],
                lo,
                hi,
            ),
    decreases s.len(),
{
    let t = range_entries(s, lo, hi);
    if s.len() > 0 {
        if in_range(s[0], lo, hi) {
            if j == 0 {
                assert(t[0] == s[0]);
            } else {
                lemma_range_mem(s.skip(1), lo, hi, j - 1);
                let i = choose|i: int|
                    0 <= i < s.skip(1).len() && s.skip(1)[i] == range_entries(s.skip(1), lo, hi)[j
                        - 1] && in_range(range_entries(s.skip(1), lo, hi)[j - 1], lo, hi);
                assert(s.skip(1)[i] == s[i + 1]);
                assert(t[j] == range_entries(s.skip(1), lo, hi)[j - 1]);
            }
        } else {
            assert(t =~= range_entries(s.skip(1), lo, hi));
            lemma_range_mem(s.skip(1), lo, hi, j);
            let i = choose|i: int|
                0 <= i < s.skip(1).len() && s.skip(1)[i] == range_entries(s.skip(1), lo, hi)[j]
                    && in_range(range_entries(s.skip(1), lo, hi)[j], lo, hi);
            assert(s.skip(1)[i] == s[i + 1]);
        }
    }
}

/// In a sorted index whose keys all come after `key`, a range scan holds
/// no entry keyed `key` or below.
pub proof fn lemma_range_keys_above(s: Seq<IndexEntryV>, lo: Seq<u8>, hi: Seq<u8>, key: Seq<u8>)
    requires
        forall|i: int| 0 <= i < s.len() ==> lex_lt(key, #[trigger] s[i].key),
    ensures
        forall|j: int|
            0 <= j < range_entries(s, lo, hi).len() ==> lex_lt(
                key,
                #[trigger] range_entries(s, lo, hi)[j].key,
            ),
{
    assert forall|j: int| 0 <= j < range_entries(s, lo, hi).len() implies lex_lt(
        key,
        #[trigger] range_entries(s, lo, hi)[j].key,
    ) by {
        lemma_range_mem(s, lo, hi, j);
    }
}

/// How a write changes a range scan: a write outside the range leaves it
/// unchanged; a write inside it inserts or updates the written key's entry
/// at its sorted position.
pub proof fn lemma_insert_range(
    s: Seq<IndexEntryV>,
    key: Seq<u8>,
    main: i64,
    sub: i64,
    lo: Seq<u8>,
    hi: Seq<u8>,
)
    requires
        index_sorted(s),
    ensures
        (lex_lt(key, lo) || !lex_lt(key, hi)) ==> range_entries(
            spec_insert(s, key, main, sub),
            lo,
            hi,
        ) == range_entries(s, lo, hi),
        (!lex_lt(key, lo) && lex_lt(key, hi)) ==> range_entries(
            spec_insert(s, key, main, sub),
            lo,
            hi,
        ) == spec_insert(range_entries(s, lo, hi), key, main, sub),
    decreases s.len(),
{
    let s2 = spec_insert(s, key, main, sub);
    let fresh = fresh_entry(key, main, sub);
    let key_in = !lex_lt(key, lo) && lex_lt(key, hi);
    if s.len() == 0 {
        assert(s2 =~= seq![fresh]);
        assert(s2.skip(1) =~= s);
        if key_in {
            assert(range_entries(s2, lo, hi) =~= seq![fresh]);
            assert(spec_insert(range_entries(s, lo, hi), key, main, sub) =~= seq![fresh]);
        } else {
            assert(range_entries(s2, lo, hi) =~= range_entries(s, lo, hi));
        }
    } else if lex_lt(key, s[0].key) {
        assert(s2 =~= seq![fresh] + s);
        assert(s2[0] == fresh);
        assert(s2.skip(1) =~= s);
        let rs = range_entries(s, lo, hi);
        if key_in {
            assert(range_entries(s2, lo, hi) =~= seq![fresh] + rs);
            assert forall|i: int| 0 <= i < s.len() implies lex_lt(key, #[trigger] s[i].key) by {
                if i > 0 {
                    lemma_lex_transitive(key, s[0].key, s[i].key);
                }
            }
            lemma_range_keys_above(s, lo, hi, key);
            if rs.len() == 0 {
                assert(spec_insert(rs, key, main, sub) =~= seq![fresh]);
                assert(seq![fresh] + rs =~= seq![fresh]);
            } else {
                assert(lex_lt(key, rs[0].key));
                assert(spec_insert(rs, key, main, sub) =~= seq![fresh] + rs);
            }
        } else {
            assert(!in_range(fresh, lo, hi));
            assert(range_entries(s2, lo, hi) =~= rs);
        }
    } else if s[0].key == key {
        let res = ins_result(s, key, main, sub);
        assert(s2 =~= seq![res] + s.skip(1));
        assert(s2[0] == res);
        assert(s2.skip(1) =~= s.skip(1));
        let rtail = range_entries(s.skip(1), lo, hi);
        assert forall|i: int|
            0 <= i < s.skip(1).len() implies lex_lt(key, #[trigger] s.skip(1)[i].key) by {
            assert(s.skip(1)[i] == s[i + 1]);
        }
        lemma_range_keys_above(s.skip(1), lo, hi, key);
        if key_in {
            assert(in_range(res, lo, hi));
            assert(range_entries(s2, lo, hi) =~= seq![res] + rtail);
            if s[0].live {
                assert(in_range(s[0], lo, hi));
                let rs = range_entries(s, lo, hi);
                assert(rs =~= seq![s[0]] + rtail);
                assert(rs[0] == s[0]);
                assert(rs.skip(1) =~= rtail);
                assert(lookup(rs, key) == Some(s[0]));
                assert(lookup(s, key) == Some(s[0]));
                assert(ins_result(rs, key, main, sub) == res);
                assert(spec_insert(rs, key, main, sub) =~= seq![res] + rtail);
            } else {
                assert(!in_range(s[0], lo, hi));
                let rs = range_entries(s, lo, hi);
                assert(rs =~= rtail);
                assert(res == fresh);
                if rtail.len() == 0 {
                    assert(spec_insert(rs, key, main, sub) =~= seq![fresh]);
                    assert(seq![res] + rtail =~= seq![fresh]);
                } else {
                    assert(lex_lt(key, rtail[0].key));
                    assert(spec_insert(rs, key, main, sub) =~= seq![fresh] + rtail);
                }
            }
        } else {
            assert(!in_range(res, lo, hi));
            assert(!in_range(s[0], lo, hi));
            assert(range_entries(s2, lo, hi) =~= rtail);
            assert(range_entries(s, lo, hi) =~= rtail);
        }
    } else {
        lemma_lex_trichotomy(key, s[0].key);
        assert(lex_lt(s[0].key, key));
        assert(index_sorted(s.skip(1))) by {
            assert forall|i: int, j: int|
                0 <= i < j < s.skip(1).len() implies lex_lt(
                s.skip(1)[i].key,
                s.skip(1)[j].key,
            ) by {
                assert(s.skip(1)[i] == s[i + 1]);
                assert(s.skip(1)[j] == s[j + 1]);
            }
        }
        lemma_insert_range(s.skip(1), key, main, sub, lo, hi);
        let t = spec_insert(s.skip(1), key, main, sub);
        assert(s2 =~= seq![s[0]] + t);
        assert(s2[0] == s[0]);
        assert(s2.skip(1) =~= t);
        let rtail = range_entries(s.skip(1), lo, hi);
        if key_in {
            assert(range_entries(t, lo, hi) == spec_insert(rtail, key, main, sub));
            if in_range(s[0], lo, hi) {
                let rs = range_entries(s, lo, hi);
                assert(rs =~= seq![s[0]] + rtail);
                assert(rs[0] == s[0]);
                assert(rs.skip(1) =~= rtail);
                assert(range_entries(s2, lo, hi) =~= seq![s[0]] + spec_insert(
                    rtail,
                    key,
                    main,
                    sub,
                ));
                assert(spec_insert(rs, key, main, sub) =~= seq![s[0]] + spec_insert(
                    rtail,
                    key,
                    main,
                    sub,
                ));
            } else {
                assert(range_entries(s, lo, hi) =~= rtail);
                assert(range_entries(s2, lo, hi) =~= spec_insert(rtail, key, main, sub));
            }
        } else {
            assert(range_entries(t, lo, hi) == rtail);
            if in_range(s[0], lo, hi) {
                assert(range_entries(s2, lo, hi) =~= seq![s[0]] + rtail);
                assert(range_entries(s, lo, hi) =~= seq![s[0]] + rtail);
            } else {
                assert(range_entries(s2, lo, hi) =~= rtail);
                assert(range_entries(s, lo, hi) =~= rtail);
            }
        }
    }
}

/// How a delete changes a range scan: the deleted key's entry drops out.
pub proof fn lemma_delete_range(
    s: Seq<IndexEntryV>,
    key: Seq<u8>,
    lo: Seq<u8>,
    hi: Seq<u8>,
)
    requires
        index_sorted(s),
    ensures
        range_entries(spec_delete(s, key), lo, hi) == spec_remove(
            range_entries(s, lo, hi),
            key,
        ),
    decreases s.len(),
{
    let s2 = spec_delete(s, key);
    if s.len() == 0 {
        assert(range_entries(s2, lo, hi) =~= spec_remove(range_entries(s, lo, hi), key));
    } else if s[0].key == key {
        let dead = IndexEntryV { live: false, ..s[0] };
        assert(s2 =~= seq![dead] + s.skip(1));
        assert(s2[0] == dead);
        assert(s2.skip(1) =~= s.skip(1));
        let rtail = range_entries(s.skip(1), lo, hi);
        assert(!in_range(dead, lo, hi));
        assert(range_entries(s2, lo, hi) =~= rtail);
        assert forall|i: int|
            0 <= i < s.skip(1).len() implies lex_lt(key, #[trigger] s.skip(1)[i].key) by {
            assert(s.skip(1)[i] == s[i + 1]);
        }
        lemma_range_keys_above(s.skip(1), lo, hi, key);
        if in_range(s[0], lo, hi) {
            let rs = range_entries(s, lo, hi);
            assert(rs =~= seq![s[0]] + rtail);
            assert(rs[0] == s[0]);
            assert(rs.skip(1) =~= rtail);
            assert(spec_remove(rs, key) =~= rtail);
        } else {
            assert(range_entries(s, lo, hi) =~= rtail);
            assert forall|j: int| 0 <= j < rtail.len() implies #[trigger] rtail[j].key != key by {
                lemma_lex_trichotomy(key, rtail[j].key);
            }
            lemma_remove_absent(rtail, key);
        }
    } else {
        assert(index_sorted(s.skip(1))) by {
            assert forall|i: int, j: int|
                0 <= i < j < s.skip(1).len() implies lex_lt(
                s.skip(1)[i].key,
                s.skip(1)[j].key,
            ) by {
                assert(s.skip(1)[i] == s[i + 1]);
                assert(s.skip(1)[j] == s[j + 1]);
            }
        }
        lemma_delete_range(s.skip(1), key, lo, hi);
        let t = spec_delete(s.skip(1), key);
        assert(s2 =~= seq![s[0]] + t);
        assert(s2[0] == s[0]);
        assert(s2.skip(1) =~= t);
        let rtail = range_entries(s.skip(1), lo, hi);
        if in_range(s[0], lo, hi) {
            let rs = range_entries(s, lo, hi);
            assert(rs =~= seq![s[0]] + rtail);
            assert(rs[0] == s[0]);
            assert(rs.skip(1) =~= rtail);
            assert(range_entries(s2, lo, hi) =~= seq![s[0]] + spec_remove(rtail, key));
            assert(spec_remove(rs, key) =~= seq![s[0]] + spec_remove(rtail, key));
        } else {
            assert(range_entries(s2, lo, hi) =~= spec_remove(rtail, key));
            assert(range_entries(s, lo, hi) =~= rtail);
        }
    }
}

/// Splicing a write at its scan position realizes `spec_insert`.
proof fn lemma_spec_insert_at(s: Seq<IndexEntryV>, key: Seq<u8>, main: i64, sub: i64, p: int)
    requires
        index_sorted(s),
        0 <= p <= s.len(),
        forall|j: int| 0 <= j < p ==> lex_lt(#[trigger] s[j].key, key),
        p < s.len() ==> !lex_lt(s[p].key, key),
    ensures
        spec_insert(s, key, main, sub) == (if p < s.len() && s[p].key == key {
            s.update(p, ins_result(s, key, main, sub))
        } else {
            s.insert(p, fresh_entry(key, main, sub))
        }),
        lookup(s, key) == (if p < s.len() && s[p].key == key {
            Some(s[p])
        } else {
            None::<IndexEntryV>
        }),
    decreases s.len(),
{
    if p == 0 {
        if s.len() == 0 {
            assert(spec_insert(s, key, main, sub) =~= s.insert(0, fresh_entry(key, main, sub)));
        } else if s[0].key == key {
            assert(spec_insert(s, key, main, sub) =~= s.update(
                0,
                ins_result(s, key, main, sub),
            ));
        } else {
            lemma_lex_trichotomy(key, s[0].key);
            assert(lex_lt(key, s[0].key));
            assert(spec_insert(s, key, main, sub) =~= s.insert(0, fresh_entry(key, main, sub)));
            lemma_lookup_absent(s, key);
        }
    } else {
        lemma_lex_trichotomy(key, s[0].key);
        assert(lex_lt(s[0].key, key));
        assert(index_sorted(s.skip(1))) by {
            assert forall|i: int, j: int|
                0 <= i < j < s.skip(1).len() implies lex_lt(
                s.skip(1)[i].key,
                s.skip(1)[j].key,
            ) by {
                assert(s.skip(1)[i] == s[i + 1]);
                assert(s.skip(1)[j] == s[j + 1]);
            }
        }
        assert forall|j: int| 0 <= j < p - 1 implies lex_lt(#[trigger] s.skip(1)[j].key, key) by {
            assert(s.skip(1)[j] == s[j + 1]);
        }
        if p - 1 < s.skip(1).len() {
            assert(s.skip(1)[p - 1] == s[p]);
        }
        lemma_spec_insert_at(s.skip(1), key, main, sub, p - 1);
        let t = spec_insert(s.skip(1), key, main, sub);
        assert(spec_insert(s, key, main, sub) =~= seq![s[0]] + t);
        assert(lookup(s, key) == lookup(s.skip(1), key));
        assert(ins_result(s, key, main, sub) == ins_result(s.skip(1), key, main, sub));
        if p < s.len() && s[p].key == key {
            assert(s.skip(1)[p - 1] == s[p]);
            assert(seq![s[0]] + s.skip(1).update(p - 1, ins_result(s, key, main, sub))
                =~= s.update(p, ins_result(s, key, main, sub)));
        } else {
            assert(seq![s[0]] + s.skip(1).insert(p - 1, fresh_entry(key, main, sub)) =~= s.insert(
                p,
                fresh_entry(key, main, sub),
            ));
        }
    }
}

/// The MVCC key index.
pub struct Index {
    /// Entries, strictly sorted by key.
    entries: Vec<IndexEntry>,
}

impl View for Index {
    type V = Seq<IndexEntryV>;

    closed spec fn view(&self) -> Seq<IndexEntryV> {
        self.entries@.map_values(|e: IndexEntry| e@)
    }
}

impl Index {
    /// An empty index.
    pub fn new() -> (r: Index)
        ensures
            r@ =~= Seq::<IndexEntryV>::empty(),
            index_wf(r@),
    {
        Index { entries: Vec::new() }
    }

    /// Scan position of `key`: the first index whose key is not below
    /// `key`.
    fn scan(&self, key: &Vec<u8>) -> (p: usize)
        ensures
            0 <= p <= self@.len(),
            forall|j: int| 0 <= j < p ==> lex_lt(#[trigger] self@[j].key, key@),
            p < self@.len() ==> !lex_lt(self@[p as int].key, key@),
    {
        let mut p: usize = 0;
        while p < self.entries.len()
            invariant
                0 <= p <= self@.len(),
                forall|j: int| 0 <= j < p ==> lex_lt(#[trigger] self@[j].key, key@),
            decreases self@.len() - p,
        {
            match bytes_cmp(&self.entries[p].key, key) {
                Cmp::Lt => {
                    p = p + 1;
                },
                _ => {
                    return p;
                },
            }
        }
        p
    }

    /// The revision of the latest live write of `key`, if any.
    pub fn get_one(&self, key: &Vec<u8>) -> (r: Option<Revision>)
        requires
            index_wf(self@),
        ensures
            r == live_rev(self@, key@),
    {
        let p = self.scan(key);
        proof {
            lemma_spec_insert_at(self@, key@, 1, 0, p as int);
        }
        if p < self.entries.len() {
            let e = &self.entries[p];
            if crate::bytes::bytes_eq(&e.key, key) {
                if e.live {
                    return Some(e.modr);
                }
                return None;
            }
        }
        None
    }

    /// Record the write of `key` at `(main, sub)` and return the entry's
    /// new revision bookkeeping.
    pub fn insert_or_update(&mut self, key: &Vec<u8>, main: i64, sub: i64) -> (r: (
        Revision,
        Revision,
        i64,
    ))
        requires
            index_wf(old(self)@),
        ensures
            final(self)@ == spec_insert(old(self)@, key@, main, sub),
            index_wf(final(self)@),
            ({
                let e = ins_result(old(self)@, key@, main, sub);
                r.0 == e.create && r.1 == e.modr && r.2 as int == e.version
            }),
    {
        proof {
            lemma_insert(old(self)@, key@, main, sub);
        }
        let p = self.scan(key);
        proof {
            lemma_spec_insert_at(self@, key@, main, sub, p as int);
        }
        let ghost res = ins_result(self@, key@, main, sub);
        if p < self.entries.len() && crate::bytes::bytes_eq(&self.entries[p].key, key) {
            let old_e = self.entries.remove(p);
            if old_e.live {
                let nv = if old_e.version < i64::MAX {
                    old_e.version + 1
                } else {
                    old_e.version
                };
                let ne = IndexEntry {
                    key: old_e.key,
                    create: old_e.create,
                    modr: Revision::new(main, sub),
                    version: nv,
                    live: true,
                };
                self.entries.insert(p, ne);
                proof {
                    assert(self@ =~= old(self)@.update(p as int, res));
                }
                (old_e.create, Revision::new(main, sub), nv)
            } else {
                let ne = IndexEntry {
                    key: old_e.key,
                    create: Revision::new(main, sub),
                    modr: Revision::new(main, sub),
                    version: 1,
                    live: true,
                };
                self.entries.insert(p, ne);
                proof {
                    assert(self@ =~= old(self)@.update(p as int, res));
                }
                (Revision::new(main, sub), Revision::new(main, sub), 1)
            }
        } else {
            let ne = IndexEntry {
                key: crate::rpc::clone_bytes(key),
                create: Revision::new(main, sub),
                modr: Revision::new(main, sub),
                version: 1,
                live: true,
            };
            self.entries.insert(p, ne);
            proof {
                assert(self@ =~= old(self)@.insert(p as int, fresh_entry(key@, main, sub)));
            }
            (Revision::new(main, sub), Revision::new(main, sub), 1)
        }
    }

    /// Mark `key` deleted; returns the tombstone revision when the key was
    /// live.
    pub fn delete_one(&mut self, key: &Vec<u8>, main: i64, sub: i64) -> (r: Option<Revision>)
        requires
            index_wf(old(self)@),
        ensures
            final(self)@ == spec_delete(old(self)@, key@),
            index_wf(final(self)@),
            r == (match lookup(old(self)@, key@) {
                Some(e) => if e.live {
                    Some(Revision { main, sub })
                } else {
                    None::<Revision>
                },
                None => None::<Revision>,
            }),
    {
        proof {
            lemma_delete(old(self)@, key@);
        }
        let p = self.scan(key);
        proof {
            lemma_spec_insert_at(self@, key@, 1, 0, p as int);
        }
        if p < self.entries.len() && crate::bytes::bytes_eq(&self.entries[p].key, key) {
            let old_e = self.entries.remove(p);
            let was_live = old_e.live;
            let ne = IndexEntry {
                key: old_e.key,
                create: old_e.create,
                modr: old_e.modr,
                version: old_e.version,
                live: false,
            };
            self.entries.insert(p, ne);
            proof {
                assert(self@ =~= spec_delete(old(self)@, key@)) by {
                    assert(self@ =~= old(self)@.update(
                        p as int,
                        IndexEntryV { live: false, ..old(self)@[p as int] },
                    ));
                    assert forall|i: int| 0 <= i < self@.len() implies self@[i] == spec_delete(
                        old(self)@,
                        key@,
                    )[i] by {
                        if i != p {
                            assert(old(self)@[i].key != key@) by {
                                if i < p {
                                    lemma_lex_trichotomy(old(self)@[i].key, key@);
                                } else {
                                    lemma_lex_trichotomy(old(self)@[p as int].key, old(self)@[i].key);
                                }
                            }
                        }
                    }
                    assert(self@ =~= spec_delete(old(self)@, key@));
                }
            }
            if was_live {
                Some(Revision::new(main, sub))
            } else {
                None
            }
        } else {
            proof {
                assert forall|i: int| 0 <= i < self@.len() implies self@[i] == spec_delete(
                    self@,
                    key@,
                )[i] by {
                    assert(self@[i].key != key@) by {
                        if i < p {
                            lemma_lex_trichotomy(self@[i].key, key@);
                        } else {
                            assert(self@[p as int].key != key@);
                            lemma_lex_trichotomy(key@, self@[p as int].key);
                            if i > p {
                                assert(lex_lt(self@[p as int].key, self@[i].key));
                                lemma_lex_transitive(key@, self@[p as int].key, self@[i].key);
                            }
                            lemma_lex_trichotomy(key@, self@[i].key);
                        }
                    }
                }
                assert(spec_delete(self@, key@).len() == self@.len()) by {
                    lemma_delete(self@, key@);
                }
                assert(self@ =~= spec_delete(self@, key@));
            }
            None
        }
    }

    /// The latest revisions of the live keys in `[lo, hi)`, in key order.
    pub fn get_range(&self, lo: &Vec<u8>, hi: &Vec<u8>) -> (r: Vec<Revision>)
        ensures
            r@ == range_entries(self@, lo@, hi@).map_values(|e: IndexEntryV| e.modr),
    {
        let mut r: Vec<Revision> = Vec::new();
        let mut i: usize = 0;
        while i < self.entries.len()
            invariant
                0 <= i <= self@.len(),
                r@ == range_entries(self@.take(i as int), lo@, hi@).map_values(
                    |e: IndexEntryV| e.modr,
                ),
            decreases self@.len() - i,
        {
            let e = &self.entries[i];
            let keep = e.live && !matches!(bytes_cmp(&e.key, lo), Cmp::Lt) && matches!(
                bytes_cmp(&e.key, hi),
                Cmp::Lt,
            );
            if keep {
                r.push(e.modr);
            }
            proof {
                lemma_range_take_step(self@, lo@, hi@, i as int);
                assert(keep == in_range(self@[i as int], lo@, hi@));
                if keep {
                    assert(r@ =~= range_entries(self@.take(i + 1), lo@, hi@).map_values(
                        |e: IndexEntryV| e.modr,
                    ));
                } else {
                    assert(r@ =~= range_entries(self@.take(i + 1), lo@, hi@).map_values(
                        |e: IndexEntryV| e.modr,
                    ));
                }
            }
            i = i + 1;
        }
        proof {
            assert(self@.take(self@.len() as int) =~= self@);
        }
        r
    }
}

/// Extending a scan window by one entry appends it when it is in range.
proof fn lemma_range_take_step(s: Seq<IndexEntryV>, lo: Seq<u8>, hi: Seq<u8>, i: int)
    requires
        0 <= i < s.len(),
    ensures
        range_entries(s.take(i + 1), lo, hi) == range_entries(s.take(i), lo, hi) + (if in_range(
            s[i],
            lo,
            hi,
        ) {
            seq![s[i]]
        } else {
            Seq::<IndexEntryV>::empty()
        }),
    decreases i,
{
    if i == 0 {
        assert(s.take(1)[0] == s[0]);
        assert(s.take(1).skip(1) =~= s.take(0));
        assert(range_entries(s.take(0), lo, hi) =~= Seq::<IndexEntryV>::empty());
        assert(range_entries(s.take(1), lo, hi) =~= range_entries(s.take(0), lo, hi) + (
        if in_range(s[0], lo, hi) {
            seq![s[0]]
        } else {
            Seq::<IndexEntryV>::empty()
        }));
    } else {
        assert(s.take(i + 1)[0] == s[0]);
        assert(s.take(i)[0] == s[0]);
        assert(s.take(i + 1).skip(1) =~= s.skip(1).take(i));
        assert(s.take(i).skip(1) =~= s.skip(1).take(i - 1));
        lemma_range_take_step(s.skip(1), lo, hi, i - 1);
        assert(s.skip(1)[i - 1] == s[i]);
        assert(range_entries(s.take(i + 1), lo, hi) =~= range_entries(s.take(i), lo, hi) + (
        if in_range(s[i], lo, hi) {
            seq![s[i]]
        } else {
            Seq::<IndexEntryV>::empty()
        }));
    }
}

} // verus!
