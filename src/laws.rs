//! Properties that hold across operations of the managed state.

use vstd::prelude::*;
use crate::bytes::{lex_lt, lemma_lex_transitive};
use crate::row::RowValue;
use crate::merge::merge_spec;
use crate::state::ManagedTopNBottomNState;
use crate::store::StateStore;
use crate::durability::{lemma_flush_then_scan, pending_typed, prefix_free};

verus! {

/// The caches never overlap: in every well-formed state, which every operation
/// keeps, each key of the bottom cache sorts strictly before each key of the
/// top cache, so no key is in both.
pub proof fn lemma_caches_never_overlap<S: StateStore>(s: &ManagedTopNBottomNState<S>)
    requires
        s.wf(),
    ensures
        forall|i: int, j: int| 0 <= i < s.bottom().len() && 0 <= j < s.top().len() ==>
            lex_lt(#[trigger] s.bottom()[i].0, #[trigger] s.top()[j].0),
{
    let b = s.bottom();
    let t = s.top();
    assert forall|i: int, j: int| 0 <= i < b.len() && 0 <= j < t.len() implies
        lex_lt(#[trigger] b[i].0, #[trigger] t[j].0) by {
        assert(b.last() == b[b.len() - 1]);
        if i < b.len() - 1 {
            lemma_lex_transitive(b[i].0, b.last().0, t[0].0);
        }
        if j > 0 {
            lemma_lex_transitive(b[i].0, t[0].0, t[j].0);
        }
    }
}

/// Flushing twice in a row: the second flush succeeds, changes nothing, and
/// leaves nothing pending.
pub proof fn lemma_flush_idempotent<S: StateStore>(
    s0: &ManagedTopNBottomNState<S>,
    s1: &ManagedTopNBottomNState<S>,
    s2: &ManagedTopNBottomNState<S>,
    ok2: bool,
)
    requires
        s1.flushed_from(s0, true),
        s2.flushed_from(s1, ok2),
    ensures
        ok2,
        *s2 == *s1,
        s2.pending().len() == 0,
{
}

/// A refill shows the stored extremes: after filling the caches of a state
/// with nothing pending, the largest entry reported is the last stored row and
/// the smallest is the first.
pub proof fn lemma_refill_shows_stored_extremes<S: StateStore>(
    s0: &ManagedTopNBottomNState<S>,
    s1: &ManagedTopNBottomNState<S>,
)
    requires
        s0.wf(),
        s0.pending().len() == 0,
        s1.refilled_from(s0, true),
        s1.count() > 0,
        s0.durable_rows()->Some_0.len() > 0,
    ensures
        s1.top_entry() == Some(s0.durable_rows()->Some_0.last()),
        s1.bottom_entry() == Some(s0.durable_rows()->Some_0[0]),
{
    let rows = s0.durable_rows()->Some_0;
    let mid = rows.len() / 2;
    assert(s1.top().len() > 0);
    assert(s1.top().last() == rows.last());
    if mid > 0 {
        assert(s1.bottom()[0] == rows[0]);
    } else {
        assert(s1.top()[0] == rows[0]);
    }
}

/// Writes that were never flushed never reach a refill: a state reached from
/// `s0` by inserts, deletes and pops keeps `s0`'s store, so fresh states over
/// either store, refilled, hold the same caches.
pub proof fn lemma_unflushed_writes_not_refilled<S: StateStore>(
    s0: &ManagedTopNBottomNState<S>,
    s1: &ManagedTopNBottomNState<S>,
    a0: &ManagedTopNBottomNState<S>,
    a1: &ManagedTopNBottomNState<S>,
    b0: &ManagedTopNBottomNState<S>,
    b1: &ManagedTopNBottomNState<S>,
)
    requires
        s1.same_config(s0),
        a0.store() == s0.store(),
        b0.store() == s1.store(),
        a0.prefix() == s0.prefix(),
        b0.prefix() == s1.prefix(),
        a0.types() == s0.types(),
        b0.types() == s1.types(),
        a1.refilled_from(a0, true),
        b1.refilled_from(b0, true),
    ensures
        a1.top() == b1.top(),
        a1.bottom() == b1.bottom(),
        a0.durable_rows() == s0.durable_rows(),
{
}


/// All rows of a state: the stored rows with the pending effects applied.
pub open spec fn logical_rows<S: StateStore>(s: &ManagedTopNBottomNState<S>) -> Seq<(Seq<u8>, RowValue)> {
    merge_spec(s.durable_rows()->Some_0, s.pending())
}

/// Durability round trip: where the reported largest and smallest entries of
/// `s0` are those of all its rows, a flush, then a fresh state over the same
/// store, prefix, types and count, refilled, reports the same largest and
/// smallest entries. The keys of the rows are prefix-free and the pending rows
/// fit the column types, as keys and rows of one schema are.
pub proof fn lemma_flush_round_trip<S: StateStore>(
    s0: &ManagedTopNBottomNState<S>,
    s1: &ManagedTopNBottomNState<S>,
    f0: &ManagedTopNBottomNState<S>,
    f1: &ManagedTopNBottomNState<S>,
)
    requires
        s0.wf(),
        s0.durable_rows() is Some,
        pending_typed(s0.pending(), s0.types()),
        prefix_free(logical_rows(s0)),
        s0.count() == 0 || (logical_rows(s0).len() > 0
            && s0.top_entry() == Some(logical_rows(s0).last())
            && s0.bottom_entry() == Some(logical_rows(s0)[0])),
        s1.flushed_from(s0, true),
        f0.wf(),
        f0.pending().len() == 0,
        f0.store() == s1.store(),
        f0.prefix() == s1.prefix(),
        f0.types() == s1.types(),
        f0.count() == s1.count(),
        f1.refilled_from(f0, true),
    ensures
        f1.top_entry() == s0.top_entry(),
        f1.bottom_entry() == s0.bottom_entry(),
{
    s0.store().lemma_contents_sorted();
    lemma_flush_then_scan(s0.store().contents(), s0.prefix(), s0.types(), s0.pending());
    assert(f0.durable_rows() == Some(logical_rows(s0)));
    if s0.count() > 0 {
        lemma_refill_shows_stored_extremes(f0, f1);
    }
}

} // verus!
