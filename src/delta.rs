//! The pending writes since the last flush, collapsed per key to one net effect.

use vstd::prelude::*;
use crate::row::{OrderedRow, Row, RowValue};
use crate::sorted::{strictly_sorted, keyed, get, put, remove_key, search, lemma_ops_at, lemma_insert_sorted, lemma_update_sorted, lemma_remove_sorted};

verus! {

/// The net pending effect on one key relative to what is durable.
#[derive(Debug, Clone, PartialEq, Eq)]
pub enum FlushStatus {
    /// The key is new: add the row.
    Insert(Row),
    /// The key's durable row is to be removed.
    Delete,
    /// The key's durable row is to be overwritten by the row.
    DeleteInsert(Row),
}

/// The mathematical value of a pending effect.
pub enum Delta {
    Insert(RowValue),
    Delete,
    Upsert(RowValue),
}

impl View for FlushStatus {
    type V = Delta;

    open spec fn view(&self) -> Delta {
        match self {
            FlushStatus::Insert(r) => Delta::Insert(r@),
            FlushStatus::Delete => Delta::Delete,
            FlushStatus::DeleteInsert(r) => Delta::Upsert(r@),
        }
    }
}

/// The effect after an insert of `row`, given the effect before.
pub open spec fn after_insert(prev: Option<Delta>, row: RowValue) -> Delta {
    match prev {
        None => Delta::Insert(row),
        Some(Delta::Insert(_)) => Delta::Insert(row),
        Some(Delta::Delete) => Delta::Upsert(row),
        Some(Delta::Upsert(_)) => Delta::Upsert(row),
    }
}

/// The effect after a delete, given the effect before; `None` where the two cancel.
pub open spec fn after_delete(prev: Option<Delta>) -> Option<Delta> {
    match prev {
        None => Some(Delta::Delete),
        Some(Delta::Insert(_)) => None,
        Some(Delta::Delete) => Some(Delta::Delete),
        Some(Delta::Upsert(_)) => Some(Delta::Delete),
    }
}

/// The row that a pending effect leaves under its key, if any.
pub open spec fn delta_row(d: Delta) -> Option<RowValue> {
    match d {
        Delta::Insert(r) => Some(r),
        Delta::Delete => None,
        Delta::Upsert(r) => Some(r),
    }
}

pub open spec fn opt_view(o: Option<FlushStatus>) -> Option<Delta> {
    match o {
        Some(f) => Some(f@),
        None => None,
    }
}

impl FlushStatus {
    /// The status after an insert of `row` over `prev`.
    pub fn do_insert(prev: Option<FlushStatus>, row: Row) -> (r: FlushStatus)
        ensures
            r@ == after_insert(opt_view(prev), row@),
    {
        match prev {
            None => FlushStatus::Insert(row),
            Some(FlushStatus::Insert(_)) => FlushStatus::Insert(row),
            Some(FlushStatus::Delete) => FlushStatus::DeleteInsert(row),
            Some(FlushStatus::DeleteInsert(_)) => FlushStatus::DeleteInsert(row),
        }
    }

    /// The status after a delete over `prev`; `None` where an insert is cancelled.
    pub fn do_delete(prev: Option<FlushStatus>) -> (r: Option<FlushStatus>)
        ensures
            opt_view(r) == after_delete(opt_view(prev)),
    {
        match prev {
            None => Some(FlushStatus::Delete),
            Some(FlushStatus::Insert(_)) => None,
            Some(FlushStatus::Delete) => Some(FlushStatus::Delete),
            Some(FlushStatus::DeleteInsert(_)) => Some(FlushStatus::Delete),
        }
    }

    /// The row this status leaves in place, if any.
    pub fn into_option(self) -> (r: Option<Row>)
        ensures
            match r {
                Some(row) => delta_row(self@) == Some(row@),
                None => delta_row(self@) == None::<RowValue>,
            },
    {
        match self {
            FlushStatus::Insert(row) => Some(row),
            FlushStatus::Delete => None,
            FlushStatus::DeleteInsert(row) => Some(row),
        }
    }

    /// A reference to the row this status leaves in place, if any.
    pub fn row(&self) -> (r: Option<&Row>)
        ensures
            match r {
                Some(row) => delta_row(self@) == Some(row@),
                None => delta_row(self@) == None::<RowValue>,
            },
    {
        match self {
            FlushStatus::Insert(row) => Some(row),
            FlushStatus::Delete => None,
            FlushStatus::DeleteInsert(row) => Some(row),
        }
    }
}

/// The pending writes, one net effect per key, in key order.
pub struct DeltaTracker {
    entries: Vec<(OrderedRow, FlushStatus)>,
}

impl DeltaTracker {
    pub closed spec fn view(&self) -> Seq<(Seq<u8>, Delta)> {
        keyed(self.entries@)
    }

    pub open spec fn wf(&self) -> bool {
        strictly_sorted(self@)
    }

    pub fn new() -> (r: DeltaTracker)
        ensures
            r.wf(),
            r@ == Seq::<(Seq<u8>, Delta)>::empty(),
    {
        let r = DeltaTracker { entries: Vec::new() };
        assert(r@ =~= Seq::<(Seq<u8>, Delta)>::empty());
        r
    }

    pub fn is_empty(&self) -> (r: bool)
        ensures
            r == (self@.len() == 0),
    {
        self.entries.len() == 0
    }

    pub fn len(&self) -> (r: usize)
        ensures
            r == self@.len(),
    {
        self.entries.len()
    }

    /// The entry at position `i`, in key order.
    pub fn entry(&self, i: usize) -> (r: &(OrderedRow, FlushStatus))
        requires
            i < self@.len(),
        ensures
            (r.0@, r.1@) == self@[i as int],
    {
        &self.entries[i]
    }

    /// Records an insert of `row` under `key`.
    pub fn record_insert(&mut self, key: OrderedRow, row: Row)
        requires
            old(self).wf(),
        ensures
            final(self).wf(),
            final(self)@ == put(old(self)@, key@, after_insert(get(old(self)@, key@), row@)),
    {
        let (p, found) = search(&self.entries, key.as_bytes());
        let ghost s = self@;
        proof {
            lemma_ops_at(s, key@, after_insert(get(s, key@), row@), p as int);
        }
        if found {
            let prev = self.entries.remove(p);
            let st = FlushStatus::do_insert(Some(prev.1), row);
            self.entries.insert(p, (key, st));
            proof {
                lemma_update_sorted(s, p as int, after_insert(get(s, key@), row@));
                assert(self@ =~= s.update(p as int, (s[p as int].0, after_insert(get(s, key@), row@))));
            }
        } else {
            let st = FlushStatus::do_insert(None, row);
            self.entries.insert(p, (key, st));
            proof {
                lemma_insert_sorted(s, key@, after_insert(get(s, key@), row@), p as int);
                assert(self@ =~= s.take(p as int) + seq![(key@, after_insert(get(s, key@), row@))] + s.skip(p as int));
            }
        }
    }

    /// Records a delete under `key`.
    pub fn record_delete(&mut self, key: OrderedRow)
        requires
            old(self).wf(),
        ensures
            final(self).wf(),
            final(self)@ == match after_delete(get(old(self)@, key@)) {
                Some(d) => put(old(self)@, key@, d),
                None => remove_key(old(self)@, key@),
            },
    {
        let (p, found) = search(&self.entries, key.as_bytes());
        let ghost s = self@;
        proof {
            lemma_ops_at(s, key@, Delta::Delete, p as int);
        }
        if found {
            let prev = self.entries.remove(p);
            let st = FlushStatus::do_delete(Some(prev.1));
            match st {
                Some(st) => {
                    self.entries.insert(p, (key, st));
                    proof {
                        lemma_update_sorted(s, p as int, Delta::Delete);
                        assert(self@ =~= s.update(p as int, (s[p as int].0, Delta::Delete)));
                    }
                },
                None => {
                    proof {
                        lemma_remove_sorted(s, p as int);
                        assert(self@ =~= s.remove(p as int));
                    }
                },
            }
        } else {
            self.entries.insert(p, (key, FlushStatus::Delete));
            proof {
                lemma_insert_sorted(s, key@, Delta::Delete, p as int);
                assert(self@ =~= s.take(p as int) + seq![(key@, Delta::Delete)] + s.skip(p as int));
            }
        }
    }

    /// Empties the tracker, handing back what it held.
    pub fn take(&mut self) -> (r: Vec<(OrderedRow, FlushStatus)>)
        ensures
            final(self).wf(),
            final(self)@.len() == 0,
            keyed(r@) == old(self)@,
    {
        let r = self.entries.split_off(0);
        assert(self@ =~= Seq::<(Seq<u8>, Delta)>::empty());
        r
    }
}

} // verus!
