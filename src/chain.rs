//! The decisions of the chain operator, which first forwards a snapshot of an
//! existing view and then, once the snapshot is exhausted, the view's live feed.
//! The caller reads the upstreams and reports back; this type decides.

use vstd::prelude::*;

verus! {

/// Which upstream the chain reads from.
#[derive(Debug, Clone, Copy, PartialEq, Eq, Structural)]
pub enum ChainState {
    ReadingSnapshot,
    ReadingMView,
}

/// What to do with a failed read of the snapshot.
#[derive(Debug, Clone, Copy, PartialEq, Eq, Structural)]
pub enum SnapshotFailure {
    /// The snapshot is exhausted: switch to the live feed and read it.
    SwitchToMView,
    /// A real failure: hand it on.
    Propagate,
}

/// A chain over two upstreams: first `snapshot`, then `mview`.
pub struct Chain<E> {
    pub snapshot: E,
    pub mview: E,
    state: ChainState,
}

impl<E> Chain<E> {
    pub closed spec fn state_view(&self) -> ChainState {
        self.state
    }

    pub closed spec fn snapshot_view(&self) -> E {
        self.snapshot
    }

    pub closed spec fn mview_view(&self) -> E {
        self.mview
    }

    /// A chain that starts by reading `snapshot`.
    pub fn new(snapshot: E, mview: E) -> (r: Chain<E>)
        ensures
            r.state_view() == ChainState::ReadingSnapshot,
            r.snapshot_view() == snapshot,
            r.mview_view() == mview,
    {
        Chain { snapshot, mview, state: ChainState::ReadingSnapshot }
    }

    /// The upstream that the next message comes from.
    pub fn state(&self) -> (r: ChainState)
        ensures
            r == self.state_view(),
    {
        self.state
    }

    /// Decides on a failed read of the snapshot: an end-of-stream switches the
    /// chain to the live feed for good; any other failure is handed on.
    pub fn on_snapshot_failure(&mut self, end_of_stream: bool) -> (r: SnapshotFailure)
        ensures
            end_of_stream ==> r == SnapshotFailure::SwitchToMView
                && final(self).state_view() == ChainState::ReadingMView,
            !end_of_stream ==> r == SnapshotFailure::Propagate
                && final(self).state_view() == old(self).state_view(),
            final(self).snapshot_view() == old(self).snapshot_view(),
            final(self).mview_view() == old(self).mview_view(),
    {
        if end_of_stream {
            self.state = ChainState::ReadingMView;
            SnapshotFailure::SwitchToMView
        } else {
            SnapshotFailure::Propagate
        }
    }
}

} // verus!
