//! The encoded store: serialized records and tombstones keyed by revision.

use vstd::prelude::*;

use crate::revision::Revision;

verus! {

/// One stored record or tombstone.
pub struct DbEntry {
    /// The revision the record was written at.
    pub rev: Revision,
    /// The serialized record; empty for a tombstone.
    pub value: Vec<u8>,
    /// Whether this entry marks a deletion.
    pub tombstone: bool,
}

/// Mathematical model of a [`DbEntry`].
pub ghost struct DbEntryV {
    /// The revision the record was written at.
    pub rev: Revision,
    /// The serialized record bytes.
    pub value: Seq<u8>,
    /// Whether this entry marks a deletion.
    pub tombstone: bool,
}

impl View for DbEntry {
    type V = DbEntryV;

    open spec fn view(&self) -> DbEntryV {
        DbEntryV { rev: self.rev, value: self.value@, tombstone: self.tombstone }
    }
}

/// The latest entry stored under `rev`, if any.
pub open spec fn db_at(s: Seq<DbEntryV>, rev: Revision) -> Option<DbEntryV>
    decreases s.len(),
{
    if s.len() == 0 {
        None
    } else if s.last().rev == rev {
        Some(s.last())
    } else {
        db_at(s.drop_last(), rev)
    }
}

/// The live record bytes stored under `rev`: none if absent or a tombstone.
pub open spec fn db_value_at(s: Seq<DbEntryV>, rev: Revision) -> Option<Seq<u8>> {
    match db_at(s, rev) {
        Some(e) => if e.tombstone {
            None
        } else {
            Some(e.value)
        },
        None => None,
    }
}

/// Byte-addressable store from revision to serialized record, with
/// tombstones; later writes to the same revision shadow earlier ones.
pub struct Db {
    /// Entries in write order.
    entries: Vec<DbEntry>,
}

impl View for Db {
    type V = Seq<DbEntryV>;

    closed spec fn view(&self) -> Seq<DbEntryV> {
        self.entries@.map_values(|e: DbEntry| e@)
    }
}

impl Db {
    /// An empty store.
    pub fn new() -> (r: Db)
        ensures
            r@ =~= Seq::<DbEntryV>::empty(),
    {
        Db { entries: Vec::new() }
    }

    /// Durably write `value` under `rev`.
    pub fn insert(&mut self, rev: Revision, value: Vec<u8>)
        ensures
            db_at(final(self)@, rev) == Some(
                DbEntryV { rev, value: value@, tombstone: false },
            ),
            forall|r: Revision| r != rev ==> db_at(final(self)@, r) == db_at(old(self)@, r),
    {
        let ghost v = value@;
        self.entries.push(DbEntry { rev, value, tombstone: false });
        proof {
            let s = self@;
            assert(s.last() == DbEntryV { rev, value: v, tombstone: false });
            assert(s.drop_last() =~= old(self)@);
        }
    }

    /// Record a tombstone under `rev`.
    pub fn mark_deletion(&mut self, rev: Revision)
        ensures
            db_at(final(self)@, rev) == Some(
                DbEntryV { rev, value: Seq::empty(), tombstone: true },
            ),
            forall|r: Revision| r != rev ==> db_at(final(self)@, r) == db_at(old(self)@, r),
    {
        self.entries.push(DbEntry { rev, value: Vec::new(), tombstone: true });
        proof {
            let s = self@;
            assert(s.last() == DbEntryV { rev, value: Seq::<u8>::empty(), tombstone: true });
            assert(s.drop_last() =~= old(self)@);
        }
    }

    /// Read the record bytes stored under `rev`, skipping tombstones.
    pub fn get(&self, rev: &Revision) -> (r: Option<Vec<u8>>)
        ensures
            match r {
                Some(v) => db_value_at(self@, *rev) == Some(v@),
                None => db_value_at(self@, *rev) is None,
            },
    {
        let mut i: usize = self.entries.len();
        proof {
            assert(self@.take(self@.len() as int) =~= self@);
        }
        while i > 0
            invariant
                0 <= i <= self@.len(),
                db_at(self@, *rev) == db_at(self@.take(i as int), *rev),
            decreases i,
        {
            let e = &self.entries[i - 1];
            proof {
                assert(self@.take(i as int).last() == self@[i - 1]);
                assert(self@[i - 1] == e@);
            }
            if e.rev.main == rev.main && e.rev.sub == rev.sub {
                if e.tombstone {
                    return None;
                }
                let v = crate::rpc::clone_bytes(&e.value);
                return Some(v);
            }
            proof {
                assert(self@.take(i as int).drop_last() =~= self@.take(i - 1));
            }
            i = i - 1;
        }
        proof {
            assert(self@.take(0).len() == 0);
        }
        None
    }
}

} // verus!
