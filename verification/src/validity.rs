//! What holds of every query manager, whatever was asked of it.
use crate::model::{GetView, ManagerView, QueryView, StateView, SyncView};
use crate::types::{QueryEvent, QueryId, Request};
use cid::Cid;
use vstd::prelude::*;

verus! {

/// The block that a request is about.
pub open spec fn request_cid(req: Request) -> Cid {
    match req {
        Request::Have(_, cid) => cid,
        Request::Block(_, cid) => cid,
        Request::Providers(cid) => cid,
        Request::MissingBlocks(cid) => cid,
    }
}

/// The query that an event is about.
pub open spec fn event_id(event: QueryEvent) -> QueryId {
    match event {
        QueryEvent::Request(id, _) => id,
        QueryEvent::Complete(id, _, _) => id,
    }
}

impl GetView {
    /// The subqueries have ids below `next_id`. A peer that has the block is asked for it at once
    /// unless another one is being asked. Once the providers are known, something is in progress.
    pub open spec fn wf(self, next_id: nat) -> bool {
        &&& self.block matches Some(block) ==> block@ < next_id
        &&& forall|k: u64| #[trigger] self.have.contains(k) ==> k < next_id
        &&& self.block is None ==> self.res.len() == 0
        &&& !self.initial ==> !self.idle()
    }
}

impl SyncView {
    /// The subqueries have ids below `next_id`. Something is in progress.
    pub open spec fn wf(self, next_id: nat) -> bool {
        &&& forall|k: u64| #[trigger] self.missing.contains(k) ==> k < next_id
        &&& forall|k: u64| #[trigger] self.children.contains_key(k) ==> k < next_id
        &&& !(self.missing.is_empty() && self.children.is_empty())
    }
}

impl QueryView {
    /// A subquery has a parent. The root of a get query is its parent if it has one. A sync query
    /// is the root of itself.
    pub open spec fn wf(self, next_id: nat) -> bool {
        &&& self.hdr.id@ < next_id
        &&& match self.state {
            StateView::Leaf => self.hdr.parent matches Some(parent) && parent@ < next_id,
            StateView::Get(state) => {
                &&& state.wf(next_id)
                &&& self.hdr.root == match self.hdr.parent {
                    Some(parent) => parent,
                    None => self.hdr.id,
                }
            },
            StateView::Sync(state) => {
                &&& state.wf(next_id)
                &&& self.hdr.parent is None
                &&& self.hdr.root == self.hdr.id
            },
        }
    }
}

impl ManagerView {
    /// The header of each query holds the id that it is found by, which was taken.
    pub open spec fn queries_wf(self) -> bool {
        forall|k: u64| #[trigger]
            self.queries.contains_key(k) ==> {
                &&& self.queries[k].hdr.id@ == k
                &&& self.queries[k].wf(self.next_id)
            }
    }

    /// The subqueries of a query are under the given root.
    pub open spec fn rooted(self, id: QueryId, root: QueryId) -> bool {
        forall|k: u64| #[trigger]
            self.queries.contains_key(k) && self.queries[k].state is Leaf
                && self.queries[k].hdr.parent == Some(id) ==> self.queries[k].hdr.root == root
    }

    /// The subqueries of a query have the same root as the query itself.
    pub open spec fn roots_wf(self) -> bool {
        forall|id: QueryId| #[trigger]
            self.has(id) ==> self.rooted(id, self.query(id).hdr.root)
    }

    /// An event is about an id that was taken. A request is one of a subquery, if its query is
    /// still in progress. A query that is complete is not in progress.
    pub open spec fn event_wf(self, event: QueryEvent) -> bool {
        match event {
            QueryEvent::Request(id, req) => {
                &&& id@ < self.next_id
                &&& self.has(id) ==> {
                    &&& self.query(id).state is Leaf
                    &&& self.query(id).hdr.cid == request_cid(req)
                }
            },
            QueryEvent::Complete(id, _, _) => {
                &&& id@ < self.next_id
                &&& !self.has(id)
            },
        }
    }

    /// Requests are emitted in the order of their ids, and no query completes twice.
    pub open spec fn in_order(first: QueryEvent, second: QueryEvent) -> bool {
        match (first, second) {
            (QueryEvent::Request(a, _), QueryEvent::Request(b, _)) => a@ < b@,
            (QueryEvent::Complete(a, _, _), QueryEvent::Complete(b, _, _)) => a != b,
            _ => true,
        }
    }

    pub open spec fn events_wf(self) -> bool {
        &&& forall|i: int| 0 <= i < self.events.len() ==> self.event_wf(#[trigger] self.events[i])
        &&& forall|i: int, j: int|
            0 <= i < j < self.events.len() ==> ManagerView::in_order(
                #[trigger] self.events[i],
                #[trigger] self.events[j],
            )
    }

    /// The invariant of the query manager.
    pub open spec fn wf(self) -> bool {
        &&& self.fits()
        &&& self.queries_wf()
        &&& self.roots_wf()
        &&& self.events_wf()
    }

    /// No event is about the query.
    pub open spec fn silent(self, id: QueryId) -> bool {
        forall|i: int| 0 <= i < self.events.len() ==> event_id(#[trigger] self.events[i]) != id
    }

    /// The other manager is this one after it started some queries: what it remembered and emitted
    /// before is unchanged, what is new has ids that were taken since.
    pub open spec fn extended_by(self, other: ManagerView) -> bool {
        &&& self.next_id <= other.next_id
        &&& forall|k: u64| #[trigger]
            self.queries.contains_key(k) ==> other.queries.contains_key(k) && other.queries[k]
                == self.queries[k]
        &&& forall|k: u64| #[trigger]
            other.queries.contains_key(k) ==> self.queries.contains_key(k) || self.next_id <= k
                < other.next_id
        &&& self.events.len() <= other.events.len()
        &&& forall|i: int|
            0 <= i < self.events.len() ==> #[trigger] other.events[i] == self.events[i]
        &&& forall|i: int|
            self.events.len() <= i < other.events.len() ==> {
                &&& #[trigger] other.events[i] is Request
                &&& self.next_id <= event_id(other.events[i])@ < other.next_id
            }
    }
}

} // verus!
