//! The persistent store: a sorted map from byte keys to byte values, read by
//! prefix scans and written by atomic batches.

use vstd::prelude::*;
use crate::bytes::{lex_lt, lex_le, compare_bytes, lemma_lex_transitive};
use crate::sorted::{strictly_sorted, put, remove_key, is_position, lemma_ops_at, lemma_insert_sorted, lemma_update_sorted, lemma_remove_sorted};
use crate::row::copy_bytes;

verus! {

/// A failure of the store to read or write.
#[derive(Debug, Clone, Copy, PartialEq, Eq)]
pub enum StorageError {
    Unavailable,
}

pub open spec fn byte_entries(v: Seq<(Vec<u8>, Vec<u8>)>) -> Seq<(Seq<u8>, Seq<u8>)> {
    v.map_values(|e: (Vec<u8>, Vec<u8>)| (e.0@, e.1@))
}

pub open spec fn opt_bytes(o: Option<Vec<u8>>) -> Option<Seq<u8>> {
    match o {
        Some(b) => Some(b@),
        None => None,
    }
}

pub open spec fn byte_writes(v: Seq<(Vec<u8>, Option<Vec<u8>>)>) -> Seq<(Seq<u8>, Option<Seq<u8>>)> {
    v.map_values(|e: (Vec<u8>, Option<Vec<u8>>)| (e.0@, opt_bytes(e.1)))
}

/// The entries of `s` whose keys start with `prefix`, with the prefix taken off, in order.
pub open spec fn scan_spec(s: Seq<(Seq<u8>, Seq<u8>)>, prefix: Seq<u8>) -> Seq<(Seq<u8>, Seq<u8>)>
    decreases s.len(),
{
    if s.len() == 0 {
        Seq::empty()
    } else {
        let rest = scan_spec(s.drop_last(), prefix);
        let e = s.last();
        if prefix.is_prefix_of(e.0) {
            rest.push((e.0.skip(prefix.len() as int), e.1))
        } else {
            rest
        }
    }
}

/// `s` after the writes `w`, in order: a value is put, an absent value removes the key.
pub open spec fn apply_writes(s: Seq<(Seq<u8>, Seq<u8>)>, w: Seq<(Seq<u8>, Option<Seq<u8>>)>) -> Seq<(Seq<u8>, Seq<u8>)>
    decreases w.len(),
{
    if w.len() == 0 {
        s
    } else {
        let before = apply_writes(s, w.drop_last());
        match w.last().1 {
            Some(v) => put(before, w.last().0, v),
            None => remove_key(before, w.last().0),
        }
    }
}

/// The capability this state needs of a persistent store.
pub trait StateStore: Sized {
    /// What the store holds, in key order.
    spec fn contents(&self) -> Seq<(Seq<u8>, Seq<u8>)>;

    spec fn inv(&self) -> bool;

    /// A store's entries are kept in strictly ascending key order.
    proof fn lemma_contents_sorted(&self)
        requires
            self.inv(),
        ensures
            strictly_sorted(self.contents());

    /// The entries under `prefix`, in key order, with the prefix taken off.
    fn scan(&self, prefix: &[u8]) -> (r: Result<Vec<(Vec<u8>, Vec<u8>)>, StorageError>)
        requires
            self.inv(),
        ensures
            r matches Ok(v) ==> byte_entries(v@) == scan_spec(self.contents(), prefix@);

    /// Applies all of `batch` at once, or nothing of it.
    fn ingest_batch(&mut self, batch: Vec<(Vec<u8>, Option<Vec<u8>>)>) -> (r: Result<(), StorageError>)
        requires
            old(self).inv(),
        ensures
            final(self).inv(),
            r is Ok ==> final(self).contents() == apply_writes(old(self).contents(), byte_writes(batch@)),
            r is Err ==> final(self).contents() == old(self).contents();
}

/// A store held in memory, as a sorted vector of entries.
pub struct MemoryStateStore {
    entries: Vec<(Vec<u8>, Vec<u8>)>,
}

fn search_bytes(v: &Vec<(Vec<u8>, Vec<u8>)>, k: &[u8]) -> (r: (usize, bool))
    requires
        strictly_sorted(byte_entries(v@)),
    ensures
        is_position(byte_entries(v@), k@, r.0 as int),
        r.1 == (r.0 < v@.len() && byte_entries(v@)[r.0 as int].0 == k@),
{
    let ghost s = byte_entries(v@);
    let mut lo: usize = 0;
    let mut hi: usize = v.len();
    while lo < hi
        invariant
            0 <= lo <= hi <= v@.len(),
            s == byte_entries(v@),
            strictly_sorted(s),
            forall|i: int| 0 <= i < lo ==> lex_lt(#[trigger] s[i].0, k@),
            forall|i: int| hi <= i < s.len() ==> lex_le(k@, #[trigger] s[i].0),
        decreases hi - lo,
    {
        let mid = lo + (hi - lo) / 2;
        let c = compare_bytes(v[mid].0.as_slice(), k);
        if c == -1 {
            proof {
                assert forall|i: int| 0 <= i < mid + 1 implies lex_lt(#[trigger] s[i].0, k@) by {
                    if i < mid {
                        lemma_lex_transitive(s[i].0, s[mid as int].0, k@);
                    }
                }
            }
            lo = mid + 1;
        } else {
            proof {
                assert forall|i: int| mid <= i < s.len() implies lex_le(k@, #[trigger] s[i].0) by {
                    if i > mid && s[mid as int].0 != k@ {
                        lemma_lex_transitive(k@, s[mid as int].0, s[i].0);
                    }
                }
            }
            hi = mid;
        }
    }
    if lo < v.len() {
        let c = compare_bytes(v[lo].0.as_slice(), k);
        (lo, c == 0)
    } else {
        (lo, false)
    }
}

fn starts_with(b: &[u8], prefix: &[u8]) -> (r: bool)
    ensures
        r == prefix@.is_prefix_of(b@),
{
    if prefix.len() > b.len() {
        return false;
    }
    let mut i: usize = 0;
    while i < prefix.len()
        invariant
            0 <= i <= prefix@.len() <= b@.len(),
            forall|j: int| 0 <= j < i ==> prefix@[j] == b@[j],
        decreases prefix@.len() - i,
    {
        if prefix[i] != b[i] {
            return false;
        }
        i = i + 1;
    }
    true
}

fn copy_from(b: &[u8], start: usize) -> (r: Vec<u8>)
    requires
        start <= b@.len(),
    ensures
        r@ == b@.skip(start as int),
{
    let mut out: Vec<u8> = Vec::new();
    let mut i: usize = start;
    while i < b.len()
        invariant
            start <= i <= b@.len(),
            out@ == b@.subrange(start as int, i as int),
        decreases b@.len() - i,
    {
        out.push(b[i]);
        i = i + 1;
        assert(out@ =~= b@.subrange(start as int, i as int));
    }
    assert(out@ =~= b@.skip(start as int));
    out
}

impl MemoryStateStore {
    pub fn new() -> (r: MemoryStateStore)
        ensures
            r.inv(),
            r.contents() == Seq::<(Seq<u8>, Seq<u8>)>::empty(),
    {
        let r = MemoryStateStore { entries: Vec::new() };
        assert(byte_entries(r.entries@) =~= Seq::<(Seq<u8>, Seq<u8>)>::empty());
        r
    }

    /// The number of entries held.
    pub fn len(&self) -> (r: usize)
        ensures
            r == self.contents().len(),
    {
        self.entries.len()
    }
}

impl StateStore for MemoryStateStore {
    closed spec fn contents(&self) -> Seq<(Seq<u8>, Seq<u8>)> {
        byte_entries(self.entries@)
    }

    closed spec fn inv(&self) -> bool {
        strictly_sorted(byte_entries(self.entries@))
    }

    proof fn lemma_contents_sorted(&self) {
    }

    fn scan(&self, prefix: &[u8]) -> (r: Result<Vec<(Vec<u8>, Vec<u8>)>, StorageError>) {
        let ghost s = byte_entries(self.entries@);
        let mut out: Vec<(Vec<u8>, Vec<u8>)> = Vec::new();
        let mut i: usize = 0;
        while i < self.entries.len()
            invariant
                0 <= i <= s.len(),
                s == byte_entries(self.entries@),
                byte_entries(out@) == scan_spec(s.take(i as int), prefix@),
            decreases s.len() - i,
        {
            proof {
                assert(s.take(i + 1).drop_last() =~= s.take(i as int));
                assert(s.take(i + 1).last() == s[i as int]);
            }
            let e = &self.entries[i];
            if starts_with(e.0.as_slice(), prefix) {
                let k = copy_from(e.0.as_slice(), prefix.len());
                let v = copy_bytes(e.1.as_slice());
                out.push((k, v));
                assert(byte_entries(out@) =~= scan_spec(s.take(i as int), prefix@).push((s[i as int].0.skip(prefix@.len() as int), s[i as int].1)));
            }
            i = i + 1;
        }
        assert(s.take(i as int) =~= s);
        Ok(out)
    }

    fn ingest_batch(&mut self, batch: Vec<(Vec<u8>, Option<Vec<u8>>)>) -> (r: Result<(), StorageError>) {
        let ghost w = byte_writes(batch@);
        let ghost start = byte_entries(self.entries@);
        let mut i: usize = 0;
        while i < batch.len()
            invariant
                0 <= i <= w.len(),
                w == byte_writes(batch@),
                strictly_sorted(byte_entries(self.entries@)),
                byte_entries(self.entries@) == apply_writes(start, w.take(i as int)),
            decreases w.len() - i,
        {
            proof {
                assert(w.take(i + 1).drop_last() =~= w.take(i as int));
                assert(w.take(i + 1).last() == w[i as int]);
            }
            let ghost s = byte_entries(self.entries@);
            let (p, found) = search_bytes(&self.entries, batch[i].0.as_slice());
            let ghost k = batch@[i as int].0@;
            match &batch[i].1 {
                Some(v) => {
                    proof {
                        lemma_ops_at(s, k, v@, p as int);
                    }
                    let key = copy_bytes(batch[i].0.as_slice());
                    let val = copy_bytes(v.as_slice());
                    if found {
                        self.entries.set(p, (key, val));
                        proof {
                            lemma_update_sorted(s, p as int, v@);
                            assert(byte_entries(self.entries@) =~= s.update(p as int, (s[p as int].0, v@)));
                        }
                    } else {
                        self.entries.insert(p, (key, val));
                        proof {
                            lemma_insert_sorted(s, k, v@, p as int);
                            assert(byte_entries(self.entries@) =~= s.take(p as int) + seq![(k, v@)] + s.skip(p as int));
                        }
                    }
                },
                None => {
                    proof {
                        lemma_ops_at(s, k, Seq::<u8>::empty(), p as int);
                    }
                    if found {
                        self.entries.remove(p);
                        proof {
                            lemma_remove_sorted(s, p as int);
                            assert(byte_entries(self.entries@) =~= s.remove(p as int));
                        }
                    }
                },
            }
            i = i + 1;
        }
        assert(w.take(i as int) =~= w);
        Ok(())
    }
}

/// A store together with the key prefix that one state owns in it.
pub struct Keyspace<S: StateStore> {
    prefix: Vec<u8>,
    store: S,
}

impl<S: StateStore> Keyspace<S> {
    pub closed spec fn prefix_view(&self) -> Seq<u8> {
        self.prefix@
    }

    pub closed spec fn store_view(&self) -> S {
        self.store
    }

    /// The keyspace under `prefix` in `store`.
    pub fn new(store: S, prefix: Vec<u8>) -> (r: Keyspace<S>)
        ensures
            r.prefix_view() == prefix@,
            r.store_view() == store,
    {
        Keyspace { prefix, store }
    }

    /// The keyspace of one executor: the byte `e` followed by its id, most significant byte first.
    pub fn executor_root(store: S, executor_id: u32) -> (r: Keyspace<S>)
        ensures
            r.prefix_view() == seq![0x65u8] + crate::codec::be_bytes(executor_id as nat, 4),
            r.store_view() == store,
    {
        let mut prefix: Vec<u8> = Vec::new();
        prefix.push(0x65u8);
        crate::codec::push_be(&mut prefix, executor_id as u64, 4);
        assert(prefix@ =~= seq![0x65u8] + crate::codec::be_bytes(executor_id as nat, 4));
        Keyspace { prefix, store }
    }

    pub fn prefix(&self) -> (r: &[u8])
        ensures
            r@ == self.prefix_view(),
    {
        self.prefix.as_slice()
    }

    /// Entries under this keyspace's prefix, with the prefix taken off.
    pub fn scan_strip_prefix(&self) -> (r: Result<Vec<(Vec<u8>, Vec<u8>)>, StorageError>)
        requires
            self.store_view().inv(),
        ensures
            r matches Ok(v) ==> byte_entries(v@) == scan_spec(self.store_view().contents(), self.prefix_view()),
    {
        self.store.scan(self.prefix.as_slice())
    }

    /// Applies a batch of writes to the store.
    pub fn ingest_batch(&mut self, batch: Vec<(Vec<u8>, Option<Vec<u8>>)>) -> (r: Result<(), StorageError>)
        requires
            old(self).store_view().inv(),
        ensures
            final(self).store_view().inv(),
            final(self).prefix_view() == old(self).prefix_view(),
            r is Ok ==> final(self).store_view().contents() == apply_writes(old(self).store_view().contents(), byte_writes(batch@)),
            r is Err ==> final(self).store_view().contents() == old(self).store_view().contents(),
    {
        self.store.ingest_batch(batch)
    }

    /// The store, handed back.
    pub fn into_store(self) -> (r: S)
        ensures
            r == self.store_view(),
    {
        self.store
    }

    pub fn store(&self) -> (r: &S)
        ensures
            *r == self.store_view(),
    {
        &self.store
    }
}

} // verus!
