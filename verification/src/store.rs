//! An ordered, mutable collection of records. Insertion order is preserved
//! and is the only stable addressing scheme.

use vstd::prelude::*;

use crate::record::{str_eq, views_of, Record, RecordView};

verus! {

/// Holds of the records that survive a removal of `id`: all whose own
/// identifier differs from it.
pub open spec fn keeps_other_id(id: Seq<char>) -> spec_fn(RecordView) -> bool {
    |r: RecordView| r.id != id
}

/// The ordered record collection. Every mutation completes fully before the
/// operation returns; no partially mutated sequence is ever observable.
pub struct RecordStore {
    records: Vec<Record>,
}

impl View for RecordStore {
    type V = Seq<RecordView>;

    closed spec fn view(&self) -> Seq<RecordView> {
        views_of(self.records@)
    }
}

impl RecordStore {
    /// An empty store.
    pub fn new() -> (s: Self)
        ensures
            s@ == Seq::<RecordView>::empty(),
    {
        let s = RecordStore { records: Vec::new() };
        proof {
            assert(s@ =~= Seq::<RecordView>::empty());
        }
        s
    }

    /// How many records the store holds.
    pub fn len(&self) -> (n: usize)
        ensures
            n == self@.len(),
    {
        self.records.len()
    }

    /// A read-only view of the record at `i`, in insertion order.
    pub fn get(&self, i: usize) -> (r: &Record)
        requires
            i < self@.len(),
        ensures
            r@ == self@[i as int],
    {
        &self.records[i]
    }

    /// Discards the current sequence and installs the given one.
    pub fn replace(&mut self, records: Vec<Record>)
        ensures
            final(self)@ == views_of(records@),
    {
        self.records = records;
    }

    /// Inserts the given records after the current end, preserving their
    /// relative order; identifier collisions are not checked.
    pub fn append(&mut self, records: Vec<Record>)
        ensures
            final(self)@ == old(self)@ + views_of(records@),
    {
        let mut tail = records;
        let ghost added = tail@;
        self.records.append(&mut tail);
        proof {
            assert(final(self)@ =~= old(self)@ + views_of(added));
        }
    }

    /// Removes every record whose identifier equals `id`, preserving the
    /// relative order of the survivors. A no-op if nothing matches.
    pub fn remove_by_id(&mut self, id: &str)
        ensures
            final(self)@ == old(self)@.filter(keeps_other_id(id@)),
    {
        let mut source: Vec<Record> = Vec::new();
        core::mem::swap(&mut self.records, &mut source);
        let ghost orig = source@;
        let mut kept: Vec<Record> = Vec::new();
        let n = source.len();
        let mut i: usize = 0;
        while i < n
            invariant
                n == orig.len(),
                i <= n,
                source@ == orig.skip(i as int),
                views_of(kept@) == views_of(orig.take(i as int)).filter(keeps_other_id(id@)),
            decreases n - i,
        {
            let ghost prefix = views_of(orig.take(i as int));
            let ghost old_kept = kept@;
            let r = source.remove(0);
            proof {
                assert(r == orig[i as int]);
                assert(source@ =~= orig.skip(i + 1));
            }
            let keep = !str_eq(r.id.as_str(), id);
            if keep {
                kept.push(r);
            }
            proof {
                let cur = views_of(orig.take(i + 1));
                assert(cur =~= prefix.push(orig[i as int]@));
                assert(cur.drop_last() == prefix);
                assert(cur.last() == orig[i as int]@);
                assert(keep == (r.id@ != id@));
                assert(keeps_other_id(id@)(orig[i as int]@) == (orig[i as int]@.id != id@));
                assert(keep == keeps_other_id(id@)(orig[i as int]@));
                reveal(Seq::filter);
                if keep {
                    assert(cur.filter(keeps_other_id(id@)) == prefix.filter(keeps_other_id(id@)).push(cur.last()));
                    assert(views_of(kept@) =~= views_of(old_kept).push(orig[i as int]@));
                } else {
                    assert(cur.filter(keeps_other_id(id@)) == prefix.filter(keeps_other_id(id@)));
                    assert(views_of(kept@) == views_of(old_kept));
                }
                assert(views_of(kept@) == cur.filter(keeps_other_id(id@)));
            }
            i += 1;
        }
        self.records = kept;
        proof {
            assert(orig.take(n as int) =~= orig);
        }
    }
}

} // verus!
