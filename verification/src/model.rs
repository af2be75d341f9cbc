//! The mathematical model of the query manager: what it remembers, and what each operation and
//! each response makes of it.
//!
//! Queries are found by the number of their id. The counter of ids is a natural number here; the
//! manager itself requires that it never passes what 64 bits hold.
use crate::types::{Header, QueryEvent, QueryId, QueryType, Request, Response};
use cid::Cid;
use libp2p::PeerId;
use vstd::prelude::*;

verus! {

/// What a get query remembers.
#[verifier::ext_equal]
pub struct GetView {
    /// The providers of the block have not been asked for yet, or have not been reported yet.
    pub initial: bool,
    /// The have queries that are in progress.
    pub have: Set<u64>,
    /// The block query that is in progress.
    pub block: Option<QueryId>,
    /// Peers that have the block and were not asked for it yet.
    pub res: Seq<PeerId>,
}

/// What a sync query remembers.
#[verifier::ext_equal]
pub struct SyncView {
    /// The get queries that are in progress.
    pub missing: Set<u64>,
    /// The missing blocks queries that are in progress, each with the peers that provided the
    /// block whose links are being looked up.
    pub children: Map<u64, Seq<PeerId>>,
}

/// What a query remembers; a query that stands for a single request remembers
/// nothing.
#[verifier::ext_equal]
pub enum StateView {
    Leaf,
    Get(GetView),
    Sync(SyncView),
}

/// A query in progress.
#[verifier::ext_equal]
pub struct QueryView {
    pub hdr: Header,
    pub state: StateView,
}

/// The query manager.
#[verifier::ext_equal]
pub struct ManagerView {
    /// The number of the next id.
    pub next_id: nat,
    /// The queries in progress, by the number of their id.
    pub queries: Map<u64, QueryView>,
    /// The events that were not retrieved yet, the oldest first.
    pub events: Seq<QueryEvent>,
}

impl GetView {
    /// A get query that asked nobody yet.
    pub open spec fn new() -> GetView {
        GetView { initial: true, have: Set::empty(), block: None, res: Seq::empty() }
    }

    /// Nothing is in progress, and there is nobody left to ask.
    pub open spec fn idle(self) -> bool {
        self.have.is_empty() && self.block is None && self.res.len() == 0
    }

    /// The state after `count` peers were asked by queries with the ids from `first` on: the first
    /// of them for the block if no block query was in progress, all others whether they have it.
    pub open spec fn asking(self, first: nat, count: nat) -> GetView {
        GetView {
            block: if self.block is None && count > 0 {
                Some(QueryId::of(first))
            } else {
                self.block
            },
            have: self.have + Set::new(
                |k: u64|
                    first <= k < first + count && (self.block is Some || k != first),
            ),
            ..self
        }
    }

    /// The state after the have or block query `id` was answered: it is no longer in progress, and
    /// a peer that has the block is remembered.
    pub open spec fn answered(self, id: QueryId, peer: PeerId, have: bool) -> GetView {
        GetView {
            have: self.have.remove(id@),
            block: if self.block == Some(id) {
                None
            } else {
                self.block
            },
            res: if have {
                self.res.push(peer)
            } else {
                self.res
            },
            ..self
        }
    }
}

impl SyncView {
    /// The peers that provided the block whose links the missing blocks query looks up.
    pub open spec fn providers_of(self, id: QueryId) -> Seq<PeerId> {
        if self.children.contains_key(id@) {
            self.children[id@]
        } else {
            Seq::empty()
        }
    }
}

impl ManagerView {
    /// A manager that was never used.
    pub open spec fn new() -> ManagerView {
        ManagerView { next_id: 0, queries: Map::empty(), events: Seq::empty() }
    }

    /// The ids that were taken fit in 64 bits.
    pub open spec fn fits(self) -> bool {
        self.next_id <= u64::MAX
    }

    /// The id that is taken next.
    pub open spec fn fresh(self) -> QueryId {
        QueryId::of(self.next_id)
    }

    /// Is the query in progress?
    pub open spec fn has(self, id: QueryId) -> bool {
        self.queries.contains_key(id@)
    }

    /// The query with the id.
    pub open spec fn query(self, id: QueryId) -> QueryView
        recommends
            self.has(id),
    {
        self.queries[id@]
    }

    /// The state of the get query with the id, if there is one.
    pub open spec fn get_state(self, id: QueryId) -> Option<GetView> {
        if self.has(id) {
            match self.query(id).state {
                StateView::Get(state) => Some(state),
                _ => None,
            }
        } else {
            None
        }
    }

    /// The state of the sync query with the id, if there is one.
    pub open spec fn sync_state(self, id: QueryId) -> Option<SyncView> {
        if self.has(id) {
            match self.query(id).state {
                StateView::Sync(state) => Some(state),
                _ => None,
            }
        } else {
            None
        }
    }

    /// Takes the next id.
    pub open spec fn allocate(self) -> ManagerView {
        ManagerView { next_id: self.next_id + 1, ..self }
    }

    /// Forgets a query.
    pub open spec fn forget(self, id: QueryId) -> ManagerView {
        ManagerView { queries: self.queries.remove(id@), ..self }
    }

    /// Remembers a query.
    pub open spec fn keep(self, id: QueryId, hdr: Header, state: StateView) -> ManagerView {
        ManagerView { queries: self.queries.insert(id@, QueryView { hdr, state }), ..self }
    }

    /// Emits an event.
    pub open spec fn emit(self, event: QueryEvent) -> ManagerView {
        ManagerView { events: self.events.push(event), ..self }
    }

    /// Starts a subquery: it takes the next id, and the request is emitted.
    pub open spec fn start(
        self,
        root: QueryId,
        parent: Option<QueryId>,
        cid: Cid,
        req: Request,
    ) -> ManagerView {
        let id = self.fresh();
        self.allocate().keep(id, Header { id, root, parent, cid }, StateView::Leaf).emit(
            QueryEvent::Request(id, req),
        )
    }

    /// Asks peers for a block on behalf of the get query `parent`, one subquery for each peer in
    /// their order. All are asked whether they have the block, but if no block query is in
    /// progress, the first one is asked for the block itself.
    pub open spec fn ask_peers(
        self,
        root: QueryId,
        parent: QueryId,
        cid: Cid,
        peers: Seq<PeerId>,
        in_progress: bool,
    ) -> ManagerView {
        let first = self.next_id;
        ManagerView {
            next_id: first + peers.len(),
            queries: self.queries.union_prefer_right(
                Map::new(
                    |k: u64| first <= k < first + peers.len(),
                    |k: u64|
                        QueryView {
                            hdr: Header {
                                id: QueryId::of(k as nat),
                                root,
                                parent: Some(parent),
                                cid,
                            },
                            state: StateView::Leaf,
                        },
                ),
            ),
            events: self.events + Seq::new(
                peers.len(),
                |i: int|
                    QueryEvent::Request(
                        QueryId::of((first + i) as nat),
                        if i == 0 && !in_progress {
                            Request::Block(peers[i], cid)
                        } else {
                            Request::Have(peers[i], cid)
                        },
                    ),
            ),
        }
    }

    /// Starts a get query. It asks the initial peers, and if there are none, for the providers of
    /// the block.
    pub open spec fn get(
        self,
        parent: Option<QueryId>,
        cid: Cid,
        initial: Seq<PeerId>,
    ) -> ManagerView {
        let id = self.fresh();
        let root = match parent {
            Some(parent) => parent,
            None => id,
        };
        let asked = if initial.len() == 0 {
            self.allocate().start(root, Some(id), cid, Request::Providers(cid))
        } else {
            self.allocate().ask_peers(root, id, cid, initial, false)
        };
        asked.keep(
            id,
            Header { id, root, parent, cid },
            StateView::Get(GetView::new().asking(self.next_id + 1, initial.len())),
        )
    }

    /// Starts a get query for each of the blocks, in their order.
    pub open spec fn get_each(
        self,
        parent: QueryId,
        cids: Seq<Cid>,
        initial: Seq<PeerId>,
    ) -> ManagerView
        decreases cids.len(),
    {
        if cids.len() == 0 {
            self
        } else {
            self.get_each(parent, cids.drop_last(), initial).get(
                Some(parent),
                cids.last(),
                initial,
            )
        }
    }

    /// The ids of the get queries that are started for the blocks.
    pub open spec fn ids_of_gets(
        self,
        parent: QueryId,
        cids: Seq<Cid>,
        initial: Seq<PeerId>,
    ) -> Set<u64>
        decreases cids.len(),
    {
        if cids.len() == 0 {
            Set::empty()
        } else {
            self.ids_of_gets(parent, cids.drop_last(), initial).insert(
                self.get_each(parent, cids.drop_last(), initial).fresh()@,
            )
        }
    }

    /// Starts a sync query. It gets the missing blocks, and if there are none, looks up which
    /// blocks are missing.
    pub open spec fn sync(self, cid: Cid, missing: Seq<Cid>) -> ManagerView {
        let id = self.fresh();
        let taken = self.allocate();
        let started = if missing.len() == 0 {
            taken.start(id, Some(id), cid, Request::MissingBlocks(cid))
        } else {
            taken.get_each(id, missing, Seq::empty())
        };
        started.keep(
            id,
            Header { id, root: id, parent: None, cid },
            StateView::Sync(
                SyncView {
                    missing: taken.ids_of_gets(id, missing, Seq::empty()),
                    children: if missing.len() == 0 {
                        map![taken.fresh()@ => Seq::empty()]
                    } else {
                        Map::empty()
                    },
                },
            ),
        )
    }

    /// Is the event a request of a subquery in progress under the root?
    pub open spec fn belongs_to(self, event: QueryEvent, root: QueryId) -> bool {
        match event {
            QueryEvent::Request(id, _) => self.has(id) && self.query(id).hdr.root == root,
            QueryEvent::Complete(_, _, _) => false,
        }
    }

    /// Withdraws the requests under a root.
    pub open spec fn withdraw(self, root: QueryId) -> ManagerView {
        ManagerView {
            events: self.events.filter(|event: QueryEvent| !self.belongs_to(event, root)),
            ..self
        }
    }

    /// Cancels a query.
    pub open spec fn cancel(self, root: QueryId) -> ManagerView {
        if self.has(root) {
            let query = self.query(root);
            let rest = self.forget(root).withdraw(root);
            match query.state {
                StateView::Get(_) => rest,
                StateView::Sync(state) => ManagerView {
                    queries: rest.queries.remove_keys(state.missing),
                    ..rest
                },
                StateView::Leaf => rest.keep(root, query.hdr, query.state),
            }
        } else {
            self
        }
    }

    /// What kind of query can be cancelled under the id.
    pub open spec fn cancels(self, root: QueryId) -> Option<QueryType> {
        if self.get_state(root) is Some {
            Some(QueryType::Get)
        } else if self.sync_state(root) is Some {
            Some(QueryType::Sync)
        } else {
            None
        }
    }

    /// A sync query is over.
    pub open spec fn recv_sync(self, query: Header, res: Result<(), Cid>) -> ManagerView {
        self.emit(QueryEvent::Complete(query.id, QueryType::Sync, res))
    }

    /// A get query is over: `providers` are the peers that have the block, none if it was not
    /// found. Its sync query fails with it, or looks up which blocks are missing below the block.
    pub open spec fn recv_get(self, query: Header, providers: Seq<PeerId>) -> ManagerView {
        match query.parent {
            Some(id) => {
                let rest = self.forget(id);
                match self.sync_state(id) {
                    Some(state) => {
                        let parent = self.query(id).hdr;
                        if providers.len() == 0 {
                            rest.recv_sync(parent, Err(query.cid))
                        } else {
                            rest.start(
                                parent.root,
                                Some(parent.root),
                                query.cid,
                                Request::MissingBlocks(query.cid),
                            ).keep(
                                id,
                                parent,
                                StateView::Sync(
                                    SyncView {
                                        missing: state.missing.remove(query.id@),
                                        children: state.children.insert(
                                            rest.fresh()@,
                                            providers,
                                        ),
                                    },
                                ),
                            )
                        }
                    },
                    None => rest,
                }
            },
            None => self.emit(
                QueryEvent::Complete(
                    query.id,
                    QueryType::Get,
                    if providers.len() == 0 {
                        Err(query.cid)
                    } else {
                        Ok(())
                    },
                ),
            ),
        }
    }

    /// A have query was answered. The get query asks a peer that has the block for it, unless a
    /// block query is in progress. If nothing is in progress, it asks for the providers, and if
    /// those are known already, the block was not found.
    pub open spec fn recv_have(self, query: Header, peer: PeerId, have: bool) -> ManagerView
        recommends
            query.parent is Some,
    {
        let id = query.parent->0;
        let rest = self.forget(id);
        match self.get_state(id) {
            Some(state) => {
                let parent = self.query(id).hdr;
                let state = state.answered(query.id, peer, have);
                if state.block is None && state.res.len() > 0 {
                    rest.start(
                        parent.root,
                        Some(parent.id),
                        query.cid,
                        Request::Block(state.res.last(), query.cid),
                    ).keep(
                        id,
                        parent,
                        StateView::Get(
                            GetView {
                                block: Some(rest.fresh()),
                                res: state.res.drop_last(),
                                ..state
                            },
                        ),
                    )
                } else if !state.idle() {
                    rest.keep(id, parent, StateView::Get(state))
                } else if state.initial {
                    rest.start(
                        parent.root,
                        Some(parent.id),
                        query.cid,
                        Request::Providers(query.cid),
                    ).keep(id, parent, StateView::Get(state))
                } else {
                    rest.recv_get(parent, Seq::empty())
                }
            },
            None => rest,
        }
    }

    /// A block query was answered: the get query is over if the block was received.
    pub open spec fn recv_block(self, query: Header, peer: PeerId, block: bool) -> ManagerView
        recommends
            query.parent is Some,
    {
        if block {
            let id = query.parent->0;
            match self.get_state(id) {
                Some(state) => self.forget(id).recv_get(self.query(id).hdr, state.res.push(peer)),
                None => self.forget(id),
            }
        } else {
            self.recv_have(query, peer, false)
        }
    }

    /// A providers query was answered: the get query asks the providers, and if there are none and
    /// nothing is in progress, the block was not found.
    pub open spec fn recv_providers(self, query: Header, peers: Seq<PeerId>) -> ManagerView
        recommends
            query.parent is Some,
    {
        let id = query.parent->0;
        let rest = self.forget(id);
        match self.get_state(id) {
            Some(state) => {
                let parent = self.query(id).hdr;
                let asking = GetView { initial: false, ..state }.asking(
                    self.next_id,
                    peers.len(),
                );
                if asking.idle() {
                    rest.recv_get(parent, Seq::empty())
                } else {
                    rest.ask_peers(
                        parent.root,
                        parent.id,
                        query.cid,
                        peers,
                        state.block is Some,
                    ).keep(id, parent, StateView::Get(asking))
                }
            },
            None => rest,
        }
    }

    /// A missing blocks query was answered: the sync query gets the missing blocks, first from the
    /// peers that provided the block above them, and is over if nothing is in progress.
    pub open spec fn recv_missing_blocks(self, query: Header, missing: Seq<Cid>) -> ManagerView
        recommends
            query.parent is Some,
    {
        let id = query.parent->0;
        let rest = self.forget(id);
        match self.sync_state(id) {
            Some(state) => {
                let parent = self.query(id).hdr;
                let providers = state.providers_of(query.id);
                let state = SyncView {
                    missing: state.missing + rest.ids_of_gets(
                        parent.root,
                        missing,
                        providers,
                    ),
                    children: state.children.remove(query.id@),
                };
                if state.missing.is_empty() && state.children.is_empty() {
                    rest.recv_sync(parent, Ok(()))
                } else {
                    rest.get_each(parent.root, missing, providers).keep(
                        id,
                        parent,
                        StateView::Sync(state),
                    )
                }
            },
            None => rest,
        }
    }

    /// A query was answered. A query that is not in progress has no say.
    pub open spec fn inject_response(self, id: QueryId, res: Response) -> ManagerView {
        if self.has(id) {
            let query = self.query(id).hdr;
            let rest = self.forget(id);
            match res {
                Response::Have(peer, have) => rest.recv_have(query, peer, have),
                Response::Block(peer, block) => rest.recv_block(query, peer, block),
                Response::Providers(peers) => rest.recv_providers(query, peers@),
                Response::MissingBlocks(cids) => rest.recv_missing_blocks(query, cids@),
            }
        } else {
            self
        }
    }

    /// Can a response to the query be handled? A query that no other query waits for has none.
    pub open spec fn answerable(self, id: QueryId) -> bool {
        self.has(id) ==> self.query(id).hdr.parent is Some
    }

    /// Retrieves the oldest event.
    pub open spec fn next(self) -> ManagerView {
        if self.events.len() == 0 {
            self
        } else {
            ManagerView { events: self.events.drop_first(), ..self }
        }
    }
}

} // verus!
