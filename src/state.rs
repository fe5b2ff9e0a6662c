//! The managed ranked-window state: the extremes of an ordered key space in two
//! caches, pending writes since the last flush, and the rows in a store.

use vstd::prelude::*;
use crate::bytes::{lex_lt, lex_le, compare_bytes, lemma_lex_total, lemma_lex_transitive, lemma_lex_irreflexive};
use crate::delta::{Delta, DeltaTracker, after_insert, after_delete, delta_row};
use crate::merge::{merge_spec, merge_with_deltas};
use crate::persist::{decode_rows, decode_entries, flush_writes, build_flush_batch, rows_have_arity};
use crate::row::{DataType, OrderedRow, Row, RowValue};
use crate::sorted::{strictly_sorted, keyed, has_key, get, put, remove_key, search, lemma_ops_at, lemma_put_ends, lemma_remove_ends, lemma_remove_sorted};
use crate::store::{StateStore, StorageError, Keyspace, scan_spec, apply_writes};

verus! {

/// Why an operation that reads or writes the store failed.
#[derive(Debug, Clone, Copy, PartialEq, Eq)]
pub enum StateError {
    /// The store failed to read or write.
    Storage(StorageError),
    /// The stored cells do not decode to whole rows in key order.
    Corrupted,
}

/// The cached extremes of an ordered key space over a persistent store.
///
/// `bottom` holds the smallest keys and `top` the largest; when both hold
/// entries, every key of `bottom` sorts before every key of `top`.
pub struct ManagedTopNBottomNState<S: StateStore> {
    top_n: Vec<(OrderedRow, Row)>,
    bottom_n: Vec<(OrderedRow, Row)>,
    flush_buffer: DeltaTracker,
    total_count: usize,
    top_n_count: Option<usize>,
    bottom_n_count: Option<usize>,
    keyspace: Keyspace<S>,
    data_types: Vec<DataType>,
}

/// The lower half of `rows`, which seeds the bottom cache.
pub open spec fn lower_half<V>(rows: Seq<(Seq<u8>, V)>) -> Seq<(Seq<u8>, V)> {
    rows.take((rows.len() / 2) as int)
}

/// The upper half of `rows`, which seeds the top cache.
pub open spec fn upper_half<V>(rows: Seq<(Seq<u8>, V)>) -> Seq<(Seq<u8>, V)> {
    rows.skip((rows.len() / 2) as int)
}

impl<S: StateStore> ManagedTopNBottomNState<S> {
    /// The top cache: the largest cached keys, in order.
    pub closed spec fn top(&self) -> Seq<(Seq<u8>, RowValue)> {
        keyed(self.top_n@)
    }

    /// The bottom cache: the smallest cached keys, in order.
    pub closed spec fn bottom(&self) -> Seq<(Seq<u8>, RowValue)> {
        keyed(self.bottom_n@)
    }

    /// The pending effects since the last flush, in key order.
    pub closed spec fn pending(&self) -> Seq<(Seq<u8>, Delta)> {
        self.flush_buffer@
    }

    /// The number of rows in the caches and the store together.
    pub closed spec fn count(&self) -> nat {
        self.total_count as nat
    }

    pub closed spec fn top_capacity(&self) -> Option<usize> {
        self.top_n_count
    }

    pub closed spec fn bottom_capacity(&self) -> Option<usize> {
        self.bottom_n_count
    }

    pub closed spec fn store(&self) -> S {
        self.keyspace.store_view()
    }

    pub closed spec fn prefix(&self) -> Seq<u8> {
        self.keyspace.prefix_view()
    }

    pub closed spec fn types(&self) -> Seq<DataType> {
        self.data_types@
    }

    /// The caches do not overlap: the bottom cache's largest key sorts before
    /// the top cache's smallest.
    pub open spec fn caches_disjoint(&self) -> bool {
        self.bottom().len() > 0 && self.top().len() > 0 ==> lex_lt(self.bottom().last().0, self.top()[0].0)
    }

    pub open spec fn wf(&self) -> bool {
        &&& strictly_sorted(self.top())
        &&& strictly_sorted(self.bottom())
        &&& strictly_sorted(self.pending())
        &&& self.store().inv()
        &&& 0 < self.types().len() <= u32::MAX
        &&& rows_have_arity(self.pending(), self.types().len())
        &&& self.caches_disjoint()
        &&& self.top().len() + self.bottom().len() <= usize::MAX
    }

    /// The rows the store holds for this state, or `None` where its cells are malformed.
    pub open spec fn durable_rows(&self) -> Option<Seq<(Seq<u8>, RowValue)>> {
        decode_rows(scan_spec(self.store().contents(), self.prefix()), self.types())
    }

    /// Everything but the caches and the count is as in `other`.
    pub open spec fn same_backing(&self, other: &Self) -> bool {
        &&& self.pending() == other.pending()
        &&& self.store() == other.store()
        &&& self.prefix() == other.prefix()
        &&& self.types() == other.types()
        &&& self.top_capacity() == other.top_capacity()
        &&& self.bottom_capacity() == other.bottom_capacity()
    }

    /// The configuration (store, prefix, types, capacities) is as in `other`.
    pub open spec fn same_config(&self, other: &Self) -> bool {
        &&& self.store() == other.store()
        &&& self.prefix() == other.prefix()
        &&& self.types() == other.types()
        &&& self.top_capacity() == other.top_capacity()
        &&& self.bottom_capacity() == other.bottom_capacity()
    }

    /// An insert of `k` goes to the top cache.
    pub open spec fn goes_to_top(&self, k: Seq<u8>) -> bool {
        if self.top().len() > self.bottom().len() {
            lex_lt(self.top()[0].0, k)
        } else {
            self.bottom().len() == 0 || lex_le(self.bottom().last().0, k)
        }
    }

    /// The largest entry, as `top_element` reports it.
    pub open spec fn top_entry(&self) -> Option<(Seq<u8>, RowValue)> {
        if self.count() == 0 {
            None
        } else if self.top().len() > 0 {
            Some(self.top().last())
        } else if self.bottom().len() > 0 {
            Some(self.bottom().last())
        } else {
            None
        }
    }

    /// The smallest entry, as `bottom_element` reports it.
    pub open spec fn bottom_entry(&self) -> Option<(Seq<u8>, RowValue)> {
        if self.count() == 0 {
            None
        } else if self.bottom().len() > 0 {
            Some(self.bottom()[0])
        } else if self.top().len() > 0 {
            Some(self.top()[0])
        } else {
            None
        }
    }

    /// A state over `keyspace` that holds `total_count` rows, nothing cached and nothing pending.
    pub fn new(
        cache_size: Option<usize>,
        total_count: usize,
        keyspace: Keyspace<S>,
        data_types: Vec<DataType>,
    ) -> (r: Self)
        requires
            keyspace.store_view().inv(),
            0 < data_types@.len() <= u32::MAX,
        ensures
            r.wf(),
            r.top().len() == 0,
            r.bottom().len() == 0,
            r.pending().len() == 0,
            r.count() == total_count,
            r.top_capacity() == cache_size,
            r.bottom_capacity() == cache_size,
            r.store() == keyspace.store_view(),
            r.prefix() == keyspace.prefix_view(),
            r.types() == data_types@,
    {
        let r = ManagedTopNBottomNState {
            top_n: Vec::new(),
            bottom_n: Vec::new(),
            flush_buffer: DeltaTracker::new(),
            total_count,
            top_n_count: cache_size,
            bottom_n_count: cache_size,
            keyspace,
            data_types,
        };
        assert(r.top() =~= Seq::<(Seq<u8>, RowValue)>::empty());
        assert(r.bottom() =~= Seq::<(Seq<u8>, RowValue)>::empty());
        r
    }

    pub fn total_count(&self) -> (r: usize)
        ensures
            r == self.count(),
    {
        self.total_count
    }

    /// Whether writes are pending since the last flush.
    pub fn is_dirty(&self) -> (r: bool)
        ensures
            r == (self.pending().len() > 0),
    {
        !self.flush_buffer.is_empty()
    }

    /// The number of cached entries, both caches together.
    pub fn get_cache_len(&self) -> (r: usize)
        requires
            self.wf(),
        ensures
            r == self.top().len() + self.bottom().len(),
    {
        self.top_n.len() + self.bottom_n.len()
    }

    /// Inserts `value` under a key that no cache holds: into the smaller cache
    /// where that keeps the caches apart, else into the other one; the insert is
    /// recorded as pending and the count grows by one.
    pub fn insert(&mut self, key: OrderedRow, value: Row)
        requires
            old(self).wf(),
            !has_key(old(self).top(), key@),
            !has_key(old(self).bottom(), key@),
            value@.len() == old(self).types().len(),
            old(self).count() < usize::MAX,
            old(self).top().len() + old(self).bottom().len() < usize::MAX,
        ensures
            final(self).wf(),
            final(self).count() == old(self).count() + 1,
            old(self).goes_to_top(key@) ==> final(self).top() == put(old(self).top(), key@, value@)
                && final(self).bottom() == old(self).bottom(),
            !old(self).goes_to_top(key@) ==> final(self).bottom() == put(old(self).bottom(), key@, value@)
                && final(self).top() == old(self).top(),
            final(self).pending() == put(old(self).pending(), key@, after_insert(get(old(self).pending(), key@), value@)),
            final(self).same_config(old(self)),
    {
        let top_n_size = self.top_n.len();
        let bottom_n_size = self.bottom_n.len();
        let to_top = if top_n_size > bottom_n_size {
            compare_bytes(self.top_n[0].0.as_bytes(), key.as_bytes()) == -1
        } else if bottom_n_size == 0 {
            true
        } else {
            compare_bytes(self.bottom_n[bottom_n_size - 1].0.as_bytes(), key.as_bytes()) != 1
        };
        let ghost t0 = self.top();
        let ghost b0 = self.bottom();
        let buffer_key = key.duplicate();
        let buffer_row = value.duplicate();
        if to_top {
            let (p, _) = search(&self.top_n, key.as_bytes());
            proof {
                lemma_ops_at(t0, key@, value@, p as int);
                lemma_put_ends(t0, key@, value@, p as int);
                if b0.len() > 0 && t0.len() <= b0.len() {
                    assert(lex_lt(b0.last().0, key@)) by {
                        assert(b0.last() == b0[b0.len() - 1]);
                        if b0.last().0 == key@ {
                            assert(has_key(b0, key@));
                        }
                    }
                    if p > 0 {
                        assert(lex_lt(b0.last().0, t0[0].0));
                    }
                }
            }
            self.top_n.insert(p, (key, value));
            assert(self.top() =~= t0.take(p as int) + seq![(key@, value@)] + t0.skip(p as int));
        } else {
            let (p, _) = search(&self.bottom_n, key.as_bytes());
            proof {
                lemma_ops_at(b0, key@, value@, p as int);
                lemma_put_ends(b0, key@, value@, p as int);
                if t0.len() > 0 && t0.len() > b0.len() {
                    assert(lex_lt(key@, t0[0].0)) by {
                        lemma_lex_total(key@, t0[0].0);
                        if t0[0].0 == key@ {
                            assert(has_key(t0, key@));
                        }
                    }
                }
                if t0.len() <= b0.len() && b0.len() > 0 {
                    assert(lex_lt(key@, b0.last().0)) by {
                        lemma_lex_total(key@, b0.last().0);
                    }
                    assert(p < b0.len()) by {
                        if p == b0.len() {
                            assert(lex_lt(b0[b0.len() - 1].0, key@));
                            crate::bytes::lemma_lex_total(key@, b0.last().0);
                        }
                    }
                }
            }
            self.bottom_n.insert(p, (key, value));
            assert(self.bottom() =~= b0.take(p as int) + seq![(key@, value@)] + b0.skip(p as int));
        }
        let ghost d0 = self.pending();
        self.flush_buffer.record_insert(buffer_key, buffer_row);
        proof {
            lemma_put_arity(d0, key@, after_insert(get(d0, key@), value@), self.types().len());
        }
        self.total_count = self.total_count + 1;
    }

    /// The rows the store holds for this state, in key order.
    pub fn scan_from_storage(&self) -> (r: Result<Vec<(OrderedRow, Row)>, StateError>)
        requires
            self.wf(),
        ensures
            r matches Ok(v) ==> self.durable_rows() == Some(keyed(v@)),
            r matches Err(StateError::Corrupted) ==> self.durable_rows() is None,
    {
        let entries = match self.keyspace.scan_strip_prefix() {
            Ok(e) => e,
            Err(e) => {
                return Err(StateError::Storage(e));
            },
        };
        match decode_entries(&entries, &self.data_types) {
            Some(rows) => Ok(rows),
            None => Err(StateError::Corrupted),
        }
    }

    /// Rebuilds both caches, which are empty, from the store merged with the
    /// pending writes: the lower half of the merged rows seeds the bottom cache
    /// and the upper half the top cache.
    pub fn scan_and_merge(&mut self) -> (r: Result<(), StateError>)
        requires
            old(self).wf(),
            old(self).top().len() == 0,
            old(self).bottom().len() == 0,
        ensures
            final(self).wf(),
            final(self).same_backing(old(self)),
            final(self).count() == old(self).count(),
            r is Ok ==> old(self).durable_rows() is Some
                && final(self).bottom() == lower_half(merge_spec(old(self).durable_rows()->Some_0, old(self).pending()))
                && final(self).top() == upper_half(merge_spec(old(self).durable_rows()->Some_0, old(self).pending())),
            r is Err ==> final(self).top().len() == 0 && final(self).bottom().len() == 0,
    {
        let rows = self.scan_from_storage()?;
        let mut merged = merge_with_deltas(&rows, &self.flush_buffer);
        let ghost m = keyed(merged@);
        let mid = merged.len() / 2;
        let upper = merged.split_off(mid);
        self.bottom_n = merged;
        self.top_n = upper;
        proof {
            assert(self.bottom() =~= lower_half(m));
            assert(self.top() =~= upper_half(m));
            if self.bottom().len() > 0 && self.top().len() > 0 {
                assert(self.bottom().last() == m[mid - 1]);
                assert(self.top()[0] == m[mid as int]);
            }
        }
        Ok(())
    }

    /// Fills the caches from the store alone, which is exact while nothing is
    /// pending: the lower half of the stored rows seeds the bottom cache and the
    /// upper half the top cache.
    pub fn fill_in_cache(&mut self) -> (r: Result<(), StateError>)
        requires
            old(self).wf(),
            old(self).pending().len() == 0,
        ensures
            final(self).refilled_from(old(self), r is Ok),
    {
        let mut rows = self.scan_from_storage()?;
        let ghost m = keyed(rows@);
        let mid = rows.len() / 2;
        let upper = rows.split_off(mid);
        self.bottom_n = rows;
        self.top_n = upper;
        proof {
            assert(self.bottom() =~= lower_half(m));
            assert(self.top() =~= upper_half(m));
            if self.bottom().len() > 0 && self.top().len() > 0 {
                assert(self.bottom().last() == m[mid - 1]);
                assert(self.top()[0] == m[mid as int]);
            }
        }
        Ok(())
    }

    /// The state after refilling the caches of `old` from the store; `ok` tells
    /// whether the call succeeded.
    pub open spec fn refilled_from(&self, old: &Self, ok: bool) -> bool {
        &&& self.wf()
        &&& self.same_backing(old)
        &&& self.count() == old.count()
        &&& ok ==> old.durable_rows() is Some
            && self.bottom() == lower_half(old.durable_rows()->Some_0)
            && self.top() == upper_half(old.durable_rows()->Some_0)
        &&& !ok ==> self.top() == old.top() && self.bottom() == old.bottom()
    }

    /// The state after flushing `old`; `ok` tells whether the call succeeded.
    pub open spec fn flushed_from(&self, old: &Self, ok: bool) -> bool {
        &&& self.wf()
        &&& self.top() == old.top()
        &&& self.bottom() == old.bottom()
        &&& self.count() == old.count()
        &&& self.prefix() == old.prefix()
        &&& self.types() == old.types()
        &&& self.top_capacity() == old.top_capacity()
        &&& self.bottom_capacity() == old.bottom_capacity()
        &&& old.pending().len() == 0 ==> ok && *self == *old
        &&& ok ==> self.pending().len() == 0 && self.store().contents() == apply_writes(
            old.store().contents(),
            flush_writes(old.prefix(), old.pending(), old.types().len()),
        )
        &&& !ok ==> self.pending() == old.pending() && self.store().contents() == old.store().contents()
    }

    /// The state after deleting `k` from `old`; `ok` tells whether the call succeeded.
    pub open spec fn deleted_from(&self, old: &Self, k: Seq<u8>, ok: bool) -> bool {
        let t = remove_key(old.top(), k);
        let b = remove_key(old.bottom(), k);
        &&& self.wf()
        &&& self.count() == old.count() - 1
        &&& self.pending() == pending_after_delete(old.pending(), k)
        &&& self.same_config(old)
        &&& if t.len() == 0 && b.len() == 0 && self.count() > 0 {
            &&& ok ==> self.durable_rows() is Some
                && self.bottom() == lower_half(merge_spec(self.durable_rows()->Some_0, self.pending()))
                && self.top() == upper_half(merge_spec(self.durable_rows()->Some_0, self.pending()))
            &&& !ok ==> self.top().len() == 0 && self.bottom().len() == 0
        } else {
            ok && self.top() == t && self.bottom() == b
        }
    }

    /// Deletes the cached key `key`, records the delete as pending, and hands
    /// back the row it held. Where both caches run dry while rows remain, they
    /// are rebuilt from the store merged with the pending writes.
    pub fn delete(&mut self, key: &OrderedRow) -> (r: Result<Option<Row>, StateError>)
        requires
            old(self).wf(),
            has_key(old(self).top(), key@) || has_key(old(self).bottom(), key@),
            old(self).count() > 0,
        ensures
            final(self).deleted_from(old(self), key@, r is Ok),
            r is Ok ==> r->Ok_0 is Some && Some(r->Ok_0->Some_0@) == if has_key(old(self).top(), key@) {
                get(old(self).top(), key@)
            } else {
                get(old(self).bottom(), key@)
            },
    {
        let ghost t0 = self.top();
        let ghost b0 = self.bottom();
        let (pt, ft) = search(&self.top_n, key.as_bytes());
        let (pb, fb) = search(&self.bottom_n, key.as_bytes());
        proof {
            lemma_ops_at(t0, key@, Seq::<crate::row::DatumValue>::empty(), pt as int);
            lemma_ops_at(b0, key@, Seq::<crate::row::DatumValue>::empty(), pb as int);
        }
        let prev_top = if ft {
            proof {
                lemma_remove_sorted(t0, pt as int);
                if t0.len() > 1 {
                    lemma_remove_ends(t0, pt as int);
                    if b0.len() > 0 && t0[0].0 != t0.remove(pt as int)[0].0 {
                        lemma_lex_transitive(b0.last().0, t0[0].0, t0.remove(pt as int)[0].0);
                    }
                }
            }
            let e = self.top_n.remove(pt);
            assert(self.top() =~= t0.remove(pt as int));
            Some(e.1)
        } else {
            None
        };
        let ghost t1 = self.top();
        let prev_bottom = if fb {
            proof {
                lemma_remove_sorted(b0, pb as int);
                if b0.len() > 1 {
                    lemma_remove_ends(b0, pb as int);
                    if t1.len() > 0 && b0.last().0 != b0.remove(pb as int).last().0 {
                        if t0[0].0 != t1[0].0 {
                            lemma_remove_ends(t0, pt as int);
                            lemma_lex_transitive(b0.last().0, t0[0].0, t1[0].0);
                        }
                        lemma_lex_transitive(b0.remove(pb as int).last().0, b0.last().0, t1[0].0);
                    }
                }
            }
            let e = self.bottom_n.remove(pb);
            assert(self.bottom() =~= b0.remove(pb as int));
            Some(e.1)
        } else {
            None
        };
        let ghost d0 = self.pending();
        self.flush_buffer.record_delete(key.duplicate());
        proof {
            lemma_pending_after_delete_arity(d0, key@, self.types().len());
        }
        self.total_count = self.total_count - 1;
        if self.top_n.len() == 0 && self.bottom_n.len() == 0 && self.total_count > 0 {
            self.scan_and_merge()?;
        }
        match prev_top {
            Some(row) => Ok(Some(row)),
            None => Ok(prev_bottom),
        }
    }

    /// Removes and hands back the largest entry, as `top_element` reports it.
    pub fn pop_top_element(&mut self) -> (r: Result<Option<(OrderedRow, Row)>, StateError>)
        requires
            old(self).wf(),
            old(self).count() == 0 || old(self).top().len() > 0 || old(self).bottom().len() > 0,
        ensures
            old(self).count() == 0 ==> r == Ok::<Option<(OrderedRow, Row)>, StateError>(None) && *final(self) == *old(self),
            old(self).count() > 0 ==> final(self).deleted_from(old(self), old(self).top_entry()->Some_0.0, r is Ok),
            old(self).count() > 0 && r is Ok ==> r->Ok_0 is Some
                && (r->Ok_0->Some_0.0@, r->Ok_0->Some_0.1@) == old(self).top_entry()->Some_0,
    {
        if self.total_count == 0 {
            return Ok(None);
        }
        let key = if self.top_n.len() == 0 {
            proof {
                assert(has_key(self.bottom(), self.bottom().last().0)) by {
                    assert(self.bottom()[self.bottom().len() - 1] == self.bottom().last());
                }
                lemma_get_at(self.bottom(), self.bottom().len() - 1);
            }
            self.bottom_n[self.bottom_n.len() - 1].0.duplicate()
        } else {
            proof {
                assert(has_key(self.top(), self.top().last().0)) by {
                    assert(self.top()[self.top().len() - 1] == self.top().last());
                }
                lemma_get_at(self.top(), self.top().len() - 1);
                lemma_not_in_bottom(self, self.top().last().0);
            }
            self.top_n[self.top_n.len() - 1].0.duplicate()
        };
        let value = self.delete(&key)?;
        match value {
            Some(v) => Ok(Some((key, v))),
            None => Ok(None),
        }
    }

    /// Removes and hands back the smallest entry, as `bottom_element` reports it.
    pub fn pop_bottom_element(&mut self) -> (r: Result<Option<(OrderedRow, Row)>, StateError>)
        requires
            old(self).wf(),
            old(self).count() == 0 || old(self).top().len() > 0 || old(self).bottom().len() > 0,
        ensures
            old(self).count() == 0 ==> r == Ok::<Option<(OrderedRow, Row)>, StateError>(None) && *final(self) == *old(self),
            old(self).count() > 0 ==> final(self).deleted_from(old(self), old(self).bottom_entry()->Some_0.0, r is Ok),
            old(self).count() > 0 && r is Ok ==> r->Ok_0 is Some
                && (r->Ok_0->Some_0.0@, r->Ok_0->Some_0.1@) == old(self).bottom_entry()->Some_0,
    {
        if self.total_count == 0 {
            return Ok(None);
        }
        let key = if self.bottom_n.len() == 0 {
            proof {
                assert(has_key(self.top(), self.top()[0].0));
                lemma_get_at(self.top(), 0);
            }
            self.top_n[0].0.duplicate()
        } else {
            proof {
                assert(has_key(self.bottom(), self.bottom()[0].0));
                lemma_get_at(self.bottom(), 0);
                lemma_not_in_top(self, self.bottom()[0].0);
            }
            self.bottom_n[0].0.duplicate()
        };
        let value = self.delete(&key)?;
        match value {
            Some(v) => Ok(Some((key, v))),
            None => Ok(None),
        }
    }

    /// The largest entry: the top cache's last, or the bottom cache's last where
    /// the top cache is empty; `None` where no row is counted.
    pub fn top_element(&self) -> (r: Option<(&OrderedRow, &Row)>)
        ensures
            match r {
                Some(e) => self.top_entry() == Some((e.0@, e.1@)),
                None => self.top_entry() is None,
            },
    {
        if self.total_count == 0 {
            None
        } else if self.top_n.len() == 0 {
            if self.bottom_n.len() == 0 {
                None
            } else {
                let e = &self.bottom_n[self.bottom_n.len() - 1];
                Some((&e.0, &e.1))
            }
        } else {
            let e = &self.top_n[self.top_n.len() - 1];
            Some((&e.0, &e.1))
        }
    }

    /// The smallest entry: the bottom cache's first, or the top cache's first
    /// where the bottom cache is empty; `None` where no row is counted.
    pub fn bottom_element(&self) -> (r: Option<(&OrderedRow, &Row)>)
        ensures
            match r {
                Some(e) => self.bottom_entry() == Some((e.0@, e.1@)),
                None => self.bottom_entry() is None,
            },
    {
        if self.total_count == 0 {
            None
        } else if self.bottom_n.len() == 0 {
            if self.top_n.len() == 0 {
                None
            } else {
                let e = &self.top_n[0];
                Some((&e.0, &e.1))
            }
        } else {
            let e = &self.bottom_n[0];
            Some((&e.0, &e.1))
        }
    }

    /// Keeps only the `n` largest entries of the top cache.
    pub fn retain_top_n(&mut self, n: usize)
        requires
            old(self).wf(),
        ensures
            final(self).wf(),
            final(self).top() == if old(self).top().len() > n {
                old(self).top().skip(old(self).top().len() - n)
            } else {
                old(self).top()
            },
            final(self).bottom() == old(self).bottom(),
            final(self).count() == old(self).count(),
            final(self).same_backing(old(self)),
    {
        let len = self.top_n.len();
        if len > n {
            let ghost t0 = self.top();
            let kept = self.top_n.split_off(len - n);
            self.top_n = kept;
            proof {
                assert(self.top() =~= t0.skip(len - n));
                assert forall|i: int, j: int| 0 <= i < j < self.top().len() implies lex_lt(
                    #[trigger] self.top()[i].0, #[trigger] self.top()[j].0) by {
                    assert(self.top()[i] == t0[i + len - n] && self.top()[j] == t0[j + len - n]);
                }
                if self.top().len() > 0 && self.bottom().len() > 0 && len - n > 0 {
                    assert(self.top()[0] == t0[len - n]);
                    lemma_lex_transitive(self.bottom().last().0, t0[0].0, t0[len - n].0);
                }
            }
        }
    }

    /// Keeps only the `n` smallest entries of the bottom cache.
    pub fn retain_bottom_n(&mut self, n: usize)
        requires
            old(self).wf(),
        ensures
            final(self).wf(),
            final(self).bottom() == if old(self).bottom().len() > n {
                old(self).bottom().take(n as int)
            } else {
                old(self).bottom()
            },
            final(self).top() == old(self).top(),
            final(self).count() == old(self).count(),
            final(self).same_backing(old(self)),
    {
        let len = self.bottom_n.len();
        if len > n {
            let ghost b0 = self.bottom();
            let _evicted = self.bottom_n.split_off(n);
            proof {
                assert(self.bottom() =~= b0.take(n as int));
                assert forall|i: int, j: int| 0 <= i < j < self.bottom().len() implies lex_lt(
                    #[trigger] self.bottom()[i].0, #[trigger] self.bottom()[j].0) by {
                    assert(self.bottom()[i] == b0[i] && self.bottom()[j] == b0[j]);
                }
                if self.top().len() > 0 && self.bottom().len() > 0 {
                    assert(self.bottom().last() == b0[n - 1]);
                    lemma_lex_transitive(b0[n - 1].0, b0.last().0, self.top()[0].0);
                }
            }
        }
    }

    /// Trims each cache to its capacity, where it has one.
    pub fn retain_both_n(&mut self)
        requires
            old(self).wf(),
        ensures
            final(self).wf(),
            final(self).top() == match old(self).top_capacity() {
                Some(n) => if old(self).top().len() > n {
                    old(self).top().skip(old(self).top().len() - n)
                } else {
                    old(self).top()
                },
                None => old(self).top(),
            },
            final(self).bottom() == match old(self).bottom_capacity() {
                Some(n) => if old(self).bottom().len() > n {
                    old(self).bottom().take(n as int)
                } else {
                    old(self).bottom()
                },
                None => old(self).bottom(),
            },
            final(self).count() == old(self).count(),
            final(self).same_backing(old(self)),
    {
        if let Some(n) = self.top_n_count {
            self.retain_top_n(n);
        }
        if let Some(n) = self.bottom_n_count {
            self.retain_bottom_n(n);
        }
    }

    /// Makes the pending writes durable in one batch and clears them. Nothing
    /// is written where nothing is pending; on a failed write nothing changes.
    pub fn flush(&mut self) -> (r: Result<(), StateError>)
        requires
            old(self).wf(),
        ensures
            final(self).flushed_from(old(self), r is Ok),
    {
        if self.flush_buffer.is_empty() {
            return Ok(());
        }
        let batch = build_flush_batch(self.keyspace.prefix(), &self.flush_buffer, self.data_types.len());
        match self.keyspace.ingest_batch(batch) {
            Ok(()) => {
                let _written = self.flush_buffer.take();
                proof {
                    assert forall|j: int| 0 <= j < self.pending().len() implies match delta_row(#[trigger] self.pending()[j].1) {
                        Some(x) => x.len() == self.types().len(),
                        None => true,
                    } by {}
                }
                Ok(())
            },
            Err(e) => Err(StateError::Storage(e)),
        }
    }

    /// The store and prefix this state works on, handed back when the state goes.
    pub fn into_keyspace(self) -> (r: Keyspace<S>)
        ensures
            r.store_view() == self.store(),
            r.prefix_view() == self.prefix(),
    {
        self.keyspace
    }
}


/// The pending effects after a delete of `k`.
pub open spec fn pending_after_delete(d: Seq<(Seq<u8>, Delta)>, k: Seq<u8>) -> Seq<(Seq<u8>, Delta)> {
    match after_delete(get(d, k)) {
        Some(x) => put(d, k, x),
        None => remove_key(d, k),
    }
}

proof fn lemma_get_at<V>(s: Seq<(Seq<u8>, V)>, i: int)
    requires
        strictly_sorted(s),
        0 <= i < s.len(),
    ensures
        get(s, s[i].0) == Some(s[i].1),
        has_key(s, s[i].0),
{
    let k = s[i].0;
    assert(crate::sorted::is_position(s, k, i)) by {
        assert forall|j: int| 0 <= j < i implies lex_lt(#[trigger] s[j].0, k) by {}
    }
    lemma_ops_at(s, k, s[i].1, i);
}

proof fn lemma_not_in_bottom<S: StateStore>(st: &ManagedTopNBottomNState<S>, k: Seq<u8>)
    requires
        st.wf(),
        st.top().len() > 0,
        k == st.top().last().0,
    ensures
        !has_key(st.bottom(), k),
{
    let b = st.bottom();
    let t = st.top();
    if has_key(b, k) {
        let i = choose|i: int| 0 <= i < b.len() && (#[trigger] b[i]).0 == k;
        if i < b.len() - 1 {
            lemma_lex_transitive(b[i].0, b.last().0, t[0].0);
        }
        if t.len() > 1 {
            assert(lex_lt(t[0].0, t[t.len() - 1].0));
            lemma_lex_transitive(b[i].0, t[0].0, k);
        }
        lemma_lex_irreflexive(k);
    }
}

proof fn lemma_not_in_top<S: StateStore>(st: &ManagedTopNBottomNState<S>, k: Seq<u8>)
    requires
        st.wf(),
        st.bottom().len() > 0,
        k == st.bottom()[0].0,
    ensures
        !has_key(st.top(), k),
{
    let b = st.bottom();
    let t = st.top();
    if has_key(t, k) {
        let i = choose|i: int| 0 <= i < t.len() && (#[trigger] t[i]).0 == k;
        if b.len() > 1 {
            assert(lex_lt(b[0].0, b[b.len() - 1].0));
            lemma_lex_transitive(k, b.last().0, t[0].0);
        }
        if i > 0 {
            lemma_lex_transitive(k, t[0].0, t[i].0);
        }
        lemma_lex_irreflexive(k);
    }
}

/// A delete keeps every pending row at `c` cells.
proof fn lemma_pending_after_delete_arity(d: Seq<(Seq<u8>, Delta)>, k: Seq<u8>, c: nat)
    requires
        rows_have_arity(d, c),
    ensures
        rows_have_arity(pending_after_delete(d, k), c),
{
    match after_delete(get(d, k)) {
        Some(x) => {
            lemma_put_arity(d, k, x, c);
        },
        None => {
            lemma_remove_arity(d, k, c);
        },
    }
}

proof fn lemma_remove_arity(d: Seq<(Seq<u8>, Delta)>, k: Seq<u8>, c: nat)
    requires
        rows_have_arity(d, c),
    ensures
        rows_have_arity(remove_key(d, k), c),
    decreases d.len(),
{
    if d.len() > 0 {
        let t = d.drop_first();
        assert(rows_have_arity(t, c)) by {
            assert forall|j: int| 0 <= j < t.len() implies match delta_row(#[trigger] t[j].1) {
                Some(r) => r.len() == c,
                None => true,
            } by {
                assert(t[j] == d[j + 1]);
            }
        }
        if d[0].0 != k {
            lemma_remove_arity(t, k, c);
            let r = remove_key(d, k);
            assert forall|j: int| 0 <= j < r.len() implies match delta_row(#[trigger] r[j].1) {
                Some(x) => x.len() == c,
                None => true,
            } by {
                if j > 0 {
                    assert(r[j] == remove_key(t, k)[j - 1]);
                }
            }
        }
    }
}

/// Putting an effect whose row has `c` cells keeps every pending row at `c` cells.
proof fn lemma_put_arity(d: Seq<(Seq<u8>, Delta)>, k: Seq<u8>, e: Delta, c: nat)
    requires
        rows_have_arity(d, c),
        match delta_row(e) {
            Some(r) => r.len() == c,
            None => true,
        },
    ensures
        rows_have_arity(put(d, k, e), c),
    decreases d.len(),
{
    if d.len() > 0 && d[0].0 != k && !lex_lt(k, d[0].0) {
        let t = d.drop_first();
        assert(rows_have_arity(t, c)) by {
            assert forall|j: int| 0 <= j < t.len() implies match delta_row(#[trigger] t[j].1) {
                Some(r) => r.len() == c,
                None => true,
            } by {
                assert(t[j] == d[j + 1]);
            }
        }
        lemma_put_arity(t, k, e, c);
        let r = put(d, k, e);
        assert(r == seq![d[0]] + put(t, k, e));
        assert forall|j: int| 0 <= j < r.len() implies match delta_row(#[trigger] r[j].1) {
            Some(x) => x.len() == c,
            None => true,
        } by {
            if j > 0 {
                assert(r[j] == put(t, k, e)[j - 1]);
            }
        }
    } else if d.len() > 0 && d[0].0 == k {
        let r = put(d, k, e);
        assert forall|j: int| 0 <= j < r.len() implies match delta_row(#[trigger] r[j].1) {
            Some(x) => x.len() == c,
            None => true,
        } by {
            if j > 0 {
                assert(r[j] == d[j]);
            }
        }
    } else {
        let r = put(d, k, e);
        assert forall|j: int| 0 <= j < r.len() implies match delta_row(#[trigger] r[j].1) {
            Some(x) => x.len() == c,
            None => true,
        } by {
            if j > 0 {
                assert(r[j] == d[j - 1]);
            }
        }
    }
}

} // verus!
