//! The query manager.
use crate::external::{map_get, map_insert, map_remove, set_insert, set_items, set_remove};
use crate::lemmas::{
    lemma_ask_nobody, lemma_ask_one_more, lemma_cancel_wf, lemma_get_each_takes_ids,
    lemma_get_one_more, lemma_get_wf, lemma_inject_response_wf, lemma_next_wf,
    lemma_no_ids_of_gets, lemma_sync_wf,
};
use crate::model::{GetView, ManagerView, QueryView, StateView, SyncView};
use crate::types::{
    group_query_id, Header, QueryEvent, QueryId, QueryType, Request, Response,
};
use cid::Cid;
use fnv::{FnvHashMap, FnvHashSet};
use libp2p::PeerId;
use std::collections::VecDeque;
use vstd::prelude::*;
use vstd::std_specs::iter::IteratorSpec;

verus! {

broadcast use group_query_id;

/// Query.
#[derive(Debug)]
struct Query {
    /// Header.
    hdr: Header,
    /// State.
    state: State,
}

#[derive(Debug)]
enum State {
    Leaf,
    Get(GetState),
    Sync(SyncState),
}

#[derive(Debug)]
struct GetState {
    initial: bool,
    have: FnvHashSet<u64>,
    block: Option<QueryId>,
    res: Vec<PeerId>,
}

#[derive(Debug)]
struct SyncState {
    missing: FnvHashSet<u64>,
    children: FnvHashMap<u64, Vec<PeerId>>,
}

enum Transition<S, C> {
    Next(S),
    Complete(C),
}

type GetTransition = Transition<GetState, Vec<PeerId>>;

type SyncTransition = Transition<SyncState, Result<(), Cid>>;

impl View for GetState {
    type V = GetView;

    closed spec fn view(&self) -> GetView {
        GetView { initial: self.initial, have: self.have@, block: self.block, res: self.res@ }
    }
}

impl View for SyncState {
    type V = SyncView;

    closed spec fn view(&self) -> SyncView {
        SyncView {
            missing: self.missing@,
            children: self.children@.map_values(|peers: Vec<PeerId>| peers@),
        }
    }
}

impl View for State {
    type V = StateView;

    closed spec fn view(&self) -> StateView {
        match self {
            State::Leaf => StateView::Leaf,
            State::Get(state) => StateView::Get(state@),
            State::Sync(state) => StateView::Sync(state@),
        }
    }
}

impl View for Query {
    type V = QueryView;

    closed spec fn view(&self) -> QueryView {
        QueryView { hdr: self.hdr, state: self.state@ }
    }
}

/// Starts, advances and completes queries. The requests that its queries make and the results
/// that they come to are events, which the caller retrieves with `next`; the responses come back
/// through `inject_response`.
pub struct QueryManager {
    id_counter: u64,
    queries: FnvHashMap<u64, Query>,
    events: VecDeque<QueryEvent>,
}

impl View for QueryManager {
    type V = ManagerView;

    closed spec fn view(&self) -> ManagerView {
        ManagerView {
            next_id: self.id_counter as nat,
            queries: self.queries@.map_values(|query: Query| query@),
            events: self.events@,
        }
    }
}

impl Default for QueryManager {
    fn default() -> (mgr: QueryManager)
        ensures
            mgr@ == ManagerView::new(),
            mgr@.wf(),
    {
        let mgr = QueryManager {
            id_counter: 0,
            queries: FnvHashMap::default(),
            events: VecDeque::default(),
        };
        proof {
            assert(mgr@.queries =~= Map::<u64, QueryView>::empty());
        }
        mgr
    }
}

impl QueryManager {
    /// Start a new subquery.
    fn start_query(
        &mut self,
        root: QueryId,
        parent: Option<QueryId>,
        cid: Cid,
        req: Request,
    ) -> (id: QueryId)
        requires
            old(self)@.start(root, parent, cid, req).fits(),
        ensures
            id == old(self)@.fresh(),
            final(self)@ == old(self)@.start(root, parent, cid, req),
    {
        let id = QueryId::from_number(self.id_counter);
        self.id_counter += 1;
        let query = Query { hdr: Header { id, root, parent, cid }, state: State::Leaf };
        map_insert(&mut self.queries, id.number(), query);
        self.events.push_back(QueryEvent::Request(id, req));
        proof {
            assert(self@.queries =~= old(self)@.start(root, parent, cid, req).queries);
        }
        id
    }

    /// Starts a new have query to ask a peer if it has a block.
    fn have(&mut self, root: QueryId, parent: QueryId, peer_id: PeerId, cid: Cid) -> (id: QueryId)
        requires
            old(self)@.next_id < u64::MAX,
        ensures
            id == old(self)@.fresh(),
            final(self)@ == old(self)@.start(
                root,
                Some(parent),
                cid,
                Request::Have(peer_id, cid),
            ),
    {
        self.start_query(root, Some(parent), cid, Request::Have(peer_id, cid))
    }

    /// Starts a new block query to request a block from a peer.
    fn block(&mut self, root: QueryId, parent: QueryId, peer_id: PeerId, cid: Cid) -> (id: QueryId)
        requires
            old(self)@.next_id < u64::MAX,
        ensures
            id == old(self)@.fresh(),
            final(self)@ == old(self)@.start(
                root,
                Some(parent),
                cid,
                Request::Block(peer_id, cid),
            ),
    {
        self.start_query(root, Some(parent), cid, Request::Block(peer_id, cid))
    }

    /// Starts a query to determine the providers of a block.
    fn providers(&mut self, root: QueryId, parent: QueryId, cid: Cid) -> (id: QueryId)
        requires
            old(self)@.next_id < u64::MAX,
        ensures
            id == old(self)@.fresh(),
            final(self)@ == old(self)@.start(root, Some(parent), cid, Request::Providers(cid)),
    {
        self.start_query(root, Some(parent), cid, Request::Providers(cid))
    }

    /// Starts a query to determine the missing blocks of a dag.
    fn missing_blocks(&mut self, parent: QueryId, cid: Cid) -> (id: QueryId)
        requires
            old(self)@.next_id < u64::MAX,
        ensures
            id == old(self)@.fresh(),
            final(self)@ == old(self)@.start(
                parent,
                Some(parent),
                cid,
                Request::MissingBlocks(cid),
            ),
    {
        self.start_query(parent, Some(parent), cid, Request::MissingBlocks(cid))
    }

    /// Remembers a query.
    fn keep_query(&mut self, id: QueryId, query: Query)
        ensures
            final(self)@ == old(self)@.keep(id, query.hdr, query.state@),
    {
        map_insert(&mut self.queries, id.number(), query);
        proof {
            assert(self@.queries =~= old(self)@.keep(id, query.hdr, query.state@).queries);
        }
    }

    /// Forgets a query, and hands it out if it was in progress.
    fn take_query(&mut self, id: QueryId) -> (query: Option<Query>)
        ensures
            final(self)@ == old(self)@.forget(id),
            match query {
                Some(query) => old(self)@.has(id) && query@ == old(self)@.query(id),
                None => !old(self)@.has(id) && final(self)@ == old(self)@,
            },
    {
        let query = map_remove(&mut self.queries, id.number());
        proof {
            assert(self@.queries =~= old(self)@.forget(id).queries);
            assert(query is None ==> self@.queries =~= old(self)@.queries);
        }
        query
    }

    /// Asks one more peer on behalf of a get query: for the block if no block query is in
    /// progress, whether it has the block otherwise.
    fn ask_peer(
        &mut self,
        root: QueryId,
        parent: QueryId,
        cid: Cid,
        state: &mut GetState,
        peer: PeerId,
    )
        requires
            old(self)@.next_id < u64::MAX,
        ensures
            ({
                let id = old(self)@.fresh();
                if old(state)@.block is None {
                    &&& final(self)@ == old(self)@.start(
                        root,
                        Some(parent),
                        cid,
                        Request::Block(peer, cid),
                    )
                    &&& final(state)@ == GetView { block: Some(id), ..old(state)@ }
                } else {
                    &&& final(self)@ == old(self)@.start(
                        root,
                        Some(parent),
                        cid,
                        Request::Have(peer, cid),
                    )
                    &&& final(state)@ == GetView {
                        have: old(state)@.have.insert(id@),
                        ..old(state)@
                    }
                }
            }),
    {
        if state.block.is_none() {
            state.block = Some(self.block(root, parent, peer, cid));
        } else {
            let id = self.have(root, parent, peer, cid);
            set_insert(&mut state.have, id.number());
        }
    }

    /// Asks peers on behalf of a get query, in their order.
    fn ask_peers(
        &mut self,
        parent: &Header,
        cid: Cid,
        state: &mut GetState,
        peers: Vec<PeerId>,
    )
        requires
            old(self)@.next_id + peers@.len() <= u64::MAX,
        ensures
            final(self)@ == old(self)@.ask_peers(
                parent.root,
                parent.id,
                cid,
                peers@,
                old(state)@.block is Some,
            ),
            final(state)@ == old(state)@.asking(old(self)@.next_id, peers@.len()),
    {
        let ghost before = self@;
        let ghost quiet = state@;
        let mut i: usize = 0;
        proof {
            lemma_ask_nobody(before, quiet, parent.root, parent.id, cid, quiet.block is Some);
            assert(peers@.take(0) =~= Seq::<PeerId>::empty());
        }
        while i < peers.len()
            invariant
                i <= peers.len(),
                before.next_id + peers@.len() <= u64::MAX,
                self@ == before.ask_peers(
                    parent.root,
                    parent.id,
                    cid,
                    peers@.take(i as int),
                    quiet.block is Some,
                ),
                state@ == quiet.asking(before.next_id, i as nat),
            decreases peers.len() - i,
        {
            proof {
                let asked = peers@.take(i as int);
                let peer = peers@[i as int];
                lemma_ask_one_more(before, quiet, parent.root, parent.id, cid, asked, peer);
                assert(peers@.take(i + 1) =~= asked.push(peer));
            }
            self.ask_peer(parent.root, parent.id, cid, state, peers[i]);
            i += 1;
        }
        proof {
            assert(peers@.take(i as int) =~= peers@);
        }
    }

    /// Starts a query to locate and retrieve a block. The initial peers will be queried first
    /// before performing a more expensive provider query.
    pub fn get(
        &mut self,
        parent: Option<QueryId>,
        cid: Cid,
        initial: impl Iterator<Item = PeerId>,
    ) -> (id: QueryId)
        requires
            initial.obeys_prophetic_iter_laws(),
            initial.decrease() is Some,
            old(self)@.get(parent, cid, initial.remaining()).fits(),
        ensures
            id == old(self)@.fresh(),
            final(self)@ == old(self)@.get(parent, cid, initial.remaining()),
            old(self)@.wf() ==> final(self)@.wf(),
    {
        let ghost peers = initial.remaining();
        let mut initial = initial;
        let id = QueryId::from_number(self.id_counter);
        self.id_counter += 1;
        let root = match parent {
            Some(parent) => parent,
            None => id,
        };
        let mut state = GetState {
            initial: true,
            have: FnvHashSet::default(),
            block: None,
            res: Vec::new(),
        };
        let ghost taken = self@;
        let ghost mut asked = Seq::<PeerId>::empty();
        proof {
            lemma_ask_nobody(taken, GetView::new(), root, id, cid, false);
        }
        loop
            invariant
                initial.obeys_prophetic_iter_laws(),
                initial.decrease() is Some,
                peers == asked + initial.remaining(),
                taken.next_id + peers.len() <= u64::MAX,
                self@ == taken.ask_peers(root, id, cid, asked, false),
                state@ == GetView::new().asking(taken.next_id, asked.len()),
            ensures
                asked == peers,
            decreases initial.decrease()->0,
        {
            match initial.next() {
                Some(peer) => {
                    proof {
                        lemma_ask_one_more(taken, GetView::new(), root, id, cid, asked, peer);
                        asked = asked.push(peer);
                    }
                    self.ask_peer(root, id, cid, &mut state, peer);
                },
                None => {
                    break;
                },
            }
        }
        if state.block.is_none() {
            self.providers(root, id, cid);
        }
        let query = Query { hdr: Header { id, root, parent, cid }, state: State::Get(state) };
        self.keep_query(id, query);
        proof {
            if old(self)@.wf() {
                lemma_get_wf(old(self)@, parent, cid, peers);
            }
        }
        id
    }

    /// Starts a get query for each of the blocks, and adds their ids to a set.
    fn get_each(
        &mut self,
        parent: QueryId,
        cids: impl Iterator<Item = Cid>,
        initial: &Vec<PeerId>,
        ids: &mut FnvHashSet<u64>,
    )
        requires
            cids.obeys_prophetic_iter_laws(),
            cids.decrease() is Some,
            old(self)@.get_each(parent, cids.remaining(), initial@).fits(),
        ensures
            final(self)@ == old(self)@.get_each(parent, cids.remaining(), initial@),
            final(ids)@ == old(ids)@ + old(self)@.ids_of_gets(
                parent,
                cids.remaining(),
                initial@,
            ),
    {
        let ghost all = cids.remaining();
        let ghost before = self@;
        let mut cids = cids;
        let ghost mut done = Seq::<Cid>::empty();
        loop
            invariant
                cids.obeys_prophetic_iter_laws(),
                cids.decrease() is Some,
                all == done + cids.remaining(),
                before.get_each(parent, all, initial@).fits(),
                self@ == before.get_each(parent, done, initial@),
                ids@ == old(ids)@ + before.ids_of_gets(parent, done, initial@),
            ensures
                done == all,
            decreases cids.decrease()->0,
        {
            match cids.next() {
                Some(cid) => {
                    proof {
                        lemma_get_one_more(before, parent, done, cid, initial@);
                        assert(all.take(done.len() as int + 1) =~= done.push(cid));
                        lemma_get_each_takes_ids(
                            before,
                            parent,
                            all,
                            initial@,
                            done.len() as int + 1,
                        );
                        done = done.push(cid);
                    }
                    let peers = copy_peers(initial);
                    let id = self.get(Some(parent), cid, peers.into_iter());
                    set_insert(ids, id.number());
                },
                None => {
                    break;
                },
            }
        }
    }

    /// Starts a query to recursively retrieve a dag. The missing blocks are the first
    /// blocks that need to be retrieved.
    pub fn sync(&mut self, cid: Cid, missing: impl Iterator<Item = Cid>) -> (id: QueryId)
        requires
            missing.obeys_prophetic_iter_laws(),
            missing.decrease() is Some,
            old(self)@.sync(cid, missing.remaining()).fits(),
        ensures
            id == old(self)@.fresh(),
            final(self)@ == old(self)@.sync(cid, missing.remaining()),
            old(self)@.wf() ==> final(self)@.wf(),
    {
        let ghost before = self@;
        let ghost cids = missing.remaining();
        proof {
            lemma_no_ids_of_gets(
                before.allocate(),
                before.fresh(),
                cids,
                Seq::<PeerId>::empty(),
            );
            lemma_get_each_takes_ids(
                before.allocate(),
                before.fresh(),
                cids,
                Seq::<PeerId>::empty(),
                0,
            );
        }
        let id = QueryId::from_number(self.id_counter);
        self.id_counter += 1;
        let mut state = SyncState {
            missing: FnvHashSet::default(),
            children: FnvHashMap::default(),
        };
        self.get_each(id, missing, &Vec::new(), &mut state.missing);
        if state.missing.is_empty() {
            let child = self.missing_blocks(id, cid);
            map_insert(&mut state.children, child.number(), Vec::new());
        }
        proof {
            let after = before.sync(cid, cids).query(id).state->Sync_0;
            assert(state@.missing =~= after.missing);
            assert(state@.children =~= after.children);
        }
        let query = Query {
            hdr: Header { id, root: id, parent: None, cid },
            state: State::Sync(state),
        };
        self.keep_query(id, query);
        proof {
            if before.wf() {
                lemma_sync_wf(before, cid, cids);
            }
        }
        id
    }

    /// Is the event a request of a subquery in progress under the root?
    fn belongs_to(&self, event: &QueryEvent, root: QueryId) -> (belongs: bool)
        ensures
            belongs == self@.belongs_to(*event, root),
    {
        match event {
            QueryEvent::Request(id, _) => match map_get(&self.queries, id.number()) {
                Some(query) => query.hdr.root == root,
                None => false,
            },
            QueryEvent::Complete(_, _, _) => false,
        }
    }

    /// Withdraws the requests under a root.
    fn withdraw(&mut self, root: QueryId)
        ensures
            final(self)@ == old(self)@.withdraw(root),
    {
        let ghost before = self@;
        let ghost stays = |event: QueryEvent| !before.belongs_to(event, root);
        let ghost mut done = Seq::<QueryEvent>::empty();
        let mut kept: VecDeque<QueryEvent> = VecDeque::new();
        proof {
            reveal(Seq::filter);
        }
        loop
            invariant
                stays == (|event: QueryEvent| !before.belongs_to(event, root)),
                before.events == done + self.events@,
                self@.queries == before.queries,
                self@.next_id == before.next_id,
                kept@ == done.filter(stays),
            ensures
                done == before.events,
            decreases self.events@.len(),
        {
            match self.events.pop_front() {
                Some(event) => {
                    proof {
                        reveal(Seq::filter);
                        assert(done.push(event).drop_last() == done);
                        done = done.push(event);
                    }
                    if !self.belongs_to(&event, root) {
                        kept.push_back(event);
                    }
                },
                None => {
                    break;
                },
            }
        }
        self.events = kept;
    }

    /// Cancels an in progress query.
    pub fn cancel(&mut self, root: QueryId) -> (cancelled: Option<QueryType>)
        ensures
            cancelled == old(self)@.cancels(root),
            final(self)@ == old(self)@.cancel(root),
            old(self)@.wf() ==> final(self)@.wf(),
    {
        proof {
            if self@.wf() {
                lemma_cancel_wf(self@, root);
            }
        }
        let query = match self.take_query(root) {
            Some(query) => query,
            None => {
                return None;
            },
        };
        self.withdraw(root);
        match query.state {
            State::Get(_) => Some(QueryType::Get),
            State::Sync(state) => {
                let ghost rest = self@;
                let ghost missing = state.missing@;
                let ids = set_items(state.missing);
                let mut i: usize = 0;
                while i < ids.len()
                    invariant
                        i <= ids.len(),
                        self@ == (ManagerView {
                            queries: rest.queries.remove_keys(ids@.take(i as int).to_set()),
                            ..rest
                        }),
                    decreases ids.len() - i,
                {
                    let ghost before = self@;
                    map_remove(&mut self.queries, ids[i]);
                    proof {
                        let done = ids@.take(i as int);
                        let more = ids@.take(i + 1);
                        assert(more == done.push(ids@[i as int]));
                        assert(more.to_set() =~= done.to_set().insert(ids@[i as int])) by {
                            broadcast use vstd::seq_lib::group_seq_properties;

                        }
                        assert(self@.queries =~= before.queries.remove(ids@[i as int]));
                        assert(self@.queries =~= rest.queries.remove_keys(more.to_set()));
                    }
                    i += 1;
                }
                proof {
                    assert(ids@.take(i as int) == ids@);
                }
                Some(QueryType::Sync)
            },
            State::Leaf => {
                self.keep_query(root, query);
                None
            },
        }
    }

    /// Advances a get query state machine using a transition function.
    fn get_query<F>(&mut self, id: QueryId, f: F) where
        F: FnOnce(&mut Self, &Header, GetState) -> GetTransition,

        requires
            forall|mgr: &mut Self, parent: &Header, state: GetState|
                {
                    &&& mgr@ == old(self)@.forget(id)
                    &&& old(self)@.get_state(id) == Some(state@)
                    &&& *parent == old(self)@.query(id).hdr
                } ==> #[trigger] call_requires(f, (mgr, parent, state)),
            forall|
                mgr: &mut Self,
                parent: &Header,
                state: GetState,
                transition: GetTransition,
            |
                {
                    &&& mgr@ == old(self)@.forget(id)
                    &&& old(self)@.get_state(id) == Some(state@)
                    &&& *parent == old(self)@.query(id).hdr
                    &&& #[trigger] call_ensures(f, (mgr, parent, state), transition)
                } ==> (transition matches Transition::Complete(providers)
                    ==> final(mgr)@.recv_get(*parent, providers@).fits()),
        ensures
            match old(self)@.get_state(id) {
                Some(before) => exists|
                    mgr: &mut Self,
                    parent: &Header,
                    state: GetState,
                    transition: GetTransition,
                |
                    {
                        &&& mgr@ == old(self)@.forget(id)
                        &&& state@ == before
                        &&& *parent == old(self)@.query(id).hdr
                        &&& #[trigger] call_ensures(f, (mgr, parent, state), transition)
                        &&& final(self)@ == match transition {
                            Transition::Next(state) => final(mgr)@.keep(
                                id,
                                *parent,
                                StateView::Get(state@),
                            ),
                            Transition::Complete(providers) => final(mgr)@.recv_get(
                                *parent,
                                providers@,
                            ),
                        }
                    },
                None => final(self)@ == old(self)@.forget(id),
            },
    {
        if let Some(mut parent) = self.take_query(id) {
            let state = if let State::Get(state) = parent.state {
                state
            } else {
                return;
            };
            match f(self, &parent.hdr, state) {
                Transition::Next(state) => {
                    parent.state = State::Get(state);
                    self.keep_query(id, parent);
                },
                Transition::Complete(providers) => {
                    self.recv_get(parent.hdr, providers);
                },
            }
        }
    }

    /// Advances a sync query state machine using a transition function.
    fn sync_query<F>(&mut self, id: QueryId, f: F) where
        F: FnOnce(&mut Self, &Header, SyncState) -> SyncTransition,

        requires
            forall|mgr: &mut Self, parent: &Header, state: SyncState|
                {
                    &&& mgr@ == old(self)@.forget(id)
                    &&& old(self)@.sync_state(id) == Some(state@)
                    &&& *parent == old(self)@.query(id).hdr
                } ==> #[trigger] call_requires(f, (mgr, parent, state)),
        ensures
            match old(self)@.sync_state(id) {
                Some(before) => exists|
                    mgr: &mut Self,
                    parent: &Header,
                    state: SyncState,
                    transition: SyncTransition,
                |
                    {
                        &&& mgr@ == old(self)@.forget(id)
                        &&& state@ == before
                        &&& *parent == old(self)@.query(id).hdr
                        &&& #[trigger] call_ensures(f, (mgr, parent, state), transition)
                        &&& final(self)@ == match transition {
                            Transition::Next(state) => final(mgr)@.keep(
                                id,
                                *parent,
                                StateView::Sync(state@),
                            ),
                            Transition::Complete(res) => final(mgr)@.recv_sync(*parent, res),
                        }
                    },
                None => final(self)@ == old(self)@.forget(id),
            },
    {
        if let Some(mut parent) = self.take_query(id) {
            let state = if let State::Sync(state) = parent.state {
                state
            } else {
                return;
            };
            match f(self, &parent.hdr, state) {
                Transition::Next(state) => {
                    parent.state = State::Sync(state);
                    self.keep_query(id, parent);
                },
                Transition::Complete(res) => {
                    self.recv_sync(parent.hdr, res);
                },
            }
        }
    }

    /// Processes the response of a have query.
    ///
    /// Marks the in progress query as complete and updates the set of peers that have
    /// a block. If there isn't an in progress block query a new block query will be
    /// started. If no block query can be started either a provider query is started or
    /// the get query is marked as complete with a block-not-found error.
    fn recv_have(&mut self, query: Header, peer_id: PeerId, have: bool)
        requires
            query.parent is Some,
            old(self)@.recv_have(query, peer_id, have).fits(),
        ensures
            final(self)@ == old(self)@.recv_have(query, peer_id, have),
    {
        self.get_query(
            query.parent.unwrap(),
            |mgr: &mut Self, parent: &Header, state: GetState| -> (transition: GetTransition)
                requires
                    !asks_on(state@.answered(query.id, peer_id, have)) || mgr@.allocate().fits(),
                ensures
                    heard(
                        *old(mgr),
                        *final(mgr),
                        *parent,
                        transition,
                        query.cid,
                        state@.answered(query.id, peer_id, have),
                    )
            {
                let mut state = state;
                set_remove(&mut state.have, query.id.number());
                if state.block == Some(query.id) {
                    state.block = None;
                }
                if have {
                    state.res.push(peer_id);
                }
                if state.block.is_none() && state.res.len() > 0 {
                    let peer = state.res.pop().unwrap();
                    state.block = Some(mgr.block(parent.root, parent.id, peer, query.cid));
                }
                if state.have.is_empty() && state.block.is_none() && state.res.len() == 0 {
                    if state.initial {
                        mgr.providers(parent.root, parent.id, query.cid);
                    } else {
                        proof {
                            assert(state.res@ =~= Seq::<PeerId>::empty());
                        }
                        return Transition::Complete(state.res);
                    }
                }
                Transition::Next(state)
            },
        );
    }

    /// Processes the response of a block query.
    ///
    /// Either completes the get query or processes it like a have query response.
    fn recv_block(&mut self, query: Header, peer_id: PeerId, block: bool)
        requires
            query.parent is Some,
            old(self)@.recv_block(query, peer_id, block).fits(),
        ensures
            final(self)@ == old(self)@.recv_block(query, peer_id, block),
    {
        if block {
            self.get_query(
                query.parent.unwrap(),
                |mgr: &mut Self, parent: &Header, state: GetState| -> (transition: GetTransition)
                    ensures
                        received(*old(mgr), *final(mgr), transition, state@.res.push(peer_id))
                {
                    let mut state = state;
                    state.res.push(peer_id);
                    Transition::Complete(state.res)
                },
            );
        } else {
            self.recv_have(query, peer_id, block);
        }
    }

    /// Processes the response of a providers query.
    ///
    /// Either starts a new set of block and have queries or marks the get query
    /// as complete with a `block-not-found` error if no new providers where found.
    fn recv_providers(&mut self, query: Header, peers: Vec<PeerId>)
        requires
            query.parent is Some,
            old(self)@.recv_providers(query, peers@).fits(),
        ensures
            final(self)@ == old(self)@.recv_providers(query, peers@),
    {
        let ghost found = peers@;
        self.get_query(
            query.parent.unwrap(),
            |mgr: &mut Self, parent: &Header, state: GetState| -> (transition: GetTransition)
                requires
                    mgr@.next_id + found.len() <= u64::MAX,
                ensures
                    provided(*old(mgr), *final(mgr), *parent, transition, query.cid, state@, found)
            {
                let mut state = state;
                state.initial = false;
                mgr.ask_peers(parent, query.cid, &mut state, peers);
                if state.have.is_empty() && state.block.is_none() && state.res.len() == 0 {
                    proof {
                        assert(state.res@ =~= Seq::<PeerId>::empty());
                    }
                    Transition::Complete(state.res)
                } else {
                    Transition::Next(state)
                }
            },
        );
    }

    /// Processes the response of a missing blocks query.
    ///
    /// Starts a get query for each missing block. If there are no in progress queries
    /// the sync query is marked as complete.
    fn recv_missing_blocks(&mut self, query: Header, missing: Vec<Cid>)
        requires
            query.parent is Some,
            old(self)@.recv_missing_blocks(query, missing@).fits(),
        ensures
            final(self)@ == old(self)@.recv_missing_blocks(query, missing@),
    {
        let ghost cids = missing@;
        proof {
            let id = query.parent->0;
            if let Some(state) = self@.sync_state(id) {
                let rest = self@.forget(id);
                let parent = self@.query(id).hdr;
                let providers = state.providers_of(query.id);
                lemma_no_ids_of_gets(rest, parent.root, cids, providers);
                let ids = rest.ids_of_gets(parent.root, cids, providers);
                assert((state.missing + ids).is_empty() ==> ids =~= Set::empty());
            }
        }
        self.sync_query(
            query.parent.unwrap(),
            |mgr: &mut Self, parent: &Header, state: SyncState| -> (transition: SyncTransition)
                requires
                    mgr@.get_each(parent.root, cids, state@.providers_of(query.id)).fits(),
                ensures
                    missed(*old(mgr), *final(mgr), *parent, transition, state@, query.id, cids)
            {
                let mut state = state;
                let ghost before = state@;
                let providers = match map_remove(&mut state.children, query.id.number()) {
                    Some(providers) => providers,
                    None => Vec::new(),
                };
                proof {
                    assert(state@.children =~= before.children.remove(query.id@));
                    assert(state@.children.dom() =~= state.children@.dom());
                }
                mgr.get_each(parent.root, missing.into_iter(), &providers, &mut state.missing);
                if state.missing.is_empty() && state.children.is_empty() {
                    Transition::Complete(Ok(()))
                } else {
                    Transition::Next(state)
                }
            },
        );
    }

    /// Processes the response of a get query.
    ///
    /// If it is part of a sync query a new missing blocks query is started. Otherwise
    /// the get query emits a `complete` event.
    fn recv_get(&mut self, query: Header, providers: Vec<PeerId>)
        requires
            old(self)@.recv_get(query, providers@).fits(),
        ensures
            final(self)@ == old(self)@.recv_get(query, providers@),
    {
        if let Some(id) = query.parent {
            let ghost peers = providers@;
            self.sync_query(
                id,
                |mgr: &mut Self, parent: &Header, state: SyncState| -> (transition: SyncTransition)
                    requires
                        peers.len() == 0 || mgr@.allocate().fits(),
                    ensures
                        got(*old(mgr), *final(mgr), *parent, state, transition, query, peers)
                {
                    let mut state = state;
                    let ghost before = state@;
                    set_remove(&mut state.missing, query.id.number());
                    if providers.len() == 0 {
                        Transition::Complete(Err(query.cid))
                    } else {
                        let child = mgr.missing_blocks(parent.root, query.cid);
                        map_insert(&mut state.children, child.number(), providers);
                        proof {
                            assert(state@.children =~= before.children.insert(child@, peers));
                        }
                        Transition::Next(state)
                    }
                },
            );
        } else {
            let res = if providers.len() == 0 {
                Err(query.cid)
            } else {
                Ok(())
            };
            self.events.push_back(QueryEvent::Complete(query.id, QueryType::Get, res));
        }
    }

    /// Processes the response of a sync query.
    ///
    /// The sync query emits a `complete` event.
    fn recv_sync(&mut self, query: Header, res: Result<(), Cid>)
        ensures
            final(self)@ == old(self)@.recv_sync(query, res),
    {
        self.events.push_back(QueryEvent::Complete(query.id, QueryType::Sync, res));
    }

    /// Dispatches the response to a query handler.
    pub fn inject_response(&mut self, id: QueryId, res: Response)
        requires
            old(self)@.answerable(id),
            old(self)@.inject_response(id, res).fits(),
        ensures
            final(self)@ == old(self)@.inject_response(id, res),
            old(self)@.wf() ==> final(self)@.wf(),
    {
        proof {
            if self@.wf() {
                lemma_inject_response_wf(self@, id, res);
            }
        }
        let query = if let Some(query) = self.take_query(id) {
            query.hdr
        } else {
            return;
        };
        match res {
            Response::Have(peer, have) => {
                self.recv_have(query, peer, have);
            },
            Response::Block(peer, block) => {
                self.recv_block(query, peer, block);
            },
            Response::Providers(peers) => {
                self.recv_providers(query, peers);
            },
            Response::MissingBlocks(cids) => {
                self.recv_missing_blocks(query, cids);
            },
        }
    }

    /// Returns the header of a query.
    pub fn query_info(&self, id: QueryId) -> (hdr: Option<&Header>)
        ensures
            hdr == (if self@.queries.contains_key(id@) {
                Some(&self@.queries[id@].hdr)
            } else {
                None
            }),
    {
        match map_get(&self.queries, id.number()) {
            Some(query) => Some(&query.hdr),
            None => None,
        }
    }

    /// Retrieves the next query event.
    pub fn next(&mut self) -> (event: Option<QueryEvent>)
        ensures
            event == (if old(self)@.events.len() == 0 {
                None
            } else {
                Some(old(self)@.events[0])
            }),
            final(self)@ == old(self)@.next(),
            old(self)@.wf() ==> final(self)@.wf(),
    {
        proof {
            if self@.wf() {
                lemma_next_wf(self@);
            }
        }
        self.events.pop_front()
    }
}

/// Does a get query in this state, after an answer, start a subquery?
spec fn asks_on(state: GetView) -> bool {
    state.block is None && (state.res.len() > 0 || state.idle() && state.initial)
}

/// The transition of a get query after an answer that brought it into the state.
spec fn heard(
    before: QueryManager,
    after: QueryManager,
    parent: Header,
    transition: GetTransition,
    cid: Cid,
    state: GetView,
) -> bool {
    if state.block is None && state.res.len() > 0 {
        &&& after@ == before@.start(
            parent.root,
            Some(parent.id),
            cid,
            Request::Block(state.res.last(), cid),
        )
        &&& transition matches Transition::Next(next)
        &&& next@ == GetView {
            block: Some(before@.fresh()),
            res: state.res.drop_last(),
            ..state
        }
    } else if !state.idle() {
        &&& after@ == before@
        &&& transition matches Transition::Next(next)
        &&& next@ == state
    } else if state.initial {
        &&& after@ == before@.start(parent.root, Some(parent.id), cid, Request::Providers(cid))
        &&& transition matches Transition::Next(next)
        &&& next@ == state
    } else {
        &&& after@ == before@
        &&& transition matches Transition::Complete(providers)
        &&& providers@ == Seq::<PeerId>::empty()
    }
}

/// The transition of a get query whose block was received.
spec fn received(
    before: QueryManager,
    after: QueryManager,
    transition: GetTransition,
    peers: Seq<PeerId>,
) -> bool {
    &&& after@ == before@
    &&& transition matches Transition::Complete(providers)
    &&& providers@ == peers
}

/// The transition of a sync query when one of its get queries is over.
spec fn got(
    before: QueryManager,
    after: QueryManager,
    parent: Header,
    state: SyncState,
    transition: SyncTransition,
    query: Header,
    providers: Seq<PeerId>,
) -> bool {
    if providers.len() == 0 {
        &&& after@ == before@
        &&& transition == SyncTransition::Complete(Err(query.cid))
    } else {
        &&& after@ == before@.start(
            parent.root,
            Some(parent.root),
            query.cid,
            Request::MissingBlocks(query.cid),
        )
        &&& transition matches Transition::Next(next)
        &&& next@ == SyncView {
            missing: state@.missing.remove(query.id@),
            children: state@.children.insert(before@.fresh()@, providers),
        }
    }
}

/// The transition of a get query when providers of its block were found.
spec fn provided(
    before: QueryManager,
    after: QueryManager,
    parent: Header,
    transition: GetTransition,
    cid: Cid,
    state: GetView,
    peers: Seq<PeerId>,
) -> bool {
    let asking = GetView { initial: false, ..state }.asking(before@.next_id, peers.len());
    &&& after@ == before@.ask_peers(parent.root, parent.id, cid, peers, state.block is Some)
    &&& if asking.idle() {
        &&& transition matches Transition::Complete(providers)
        &&& providers@ == Seq::<PeerId>::empty()
    } else {
        &&& transition matches Transition::Next(next)
        &&& next@ == asking
    }
}

/// The transition of a sync query when the blocks that are missing were looked up.
spec fn missed(
    before: QueryManager,
    after: QueryManager,
    parent: Header,
    transition: SyncTransition,
    state: SyncView,
    id: QueryId,
    cids: Seq<Cid>,
) -> bool {
    let providers = state.providers_of(id);
    let missing = state.missing + before@.ids_of_gets(parent.root, cids, providers);
    let children = state.children.remove(id@);
    &&& after@ == before@.get_each(parent.root, cids, providers)
    &&& if missing.is_empty() && children.is_empty() {
        transition == SyncTransition::Complete(Ok(()))
    } else {
        &&& transition matches Transition::Next(next)
        &&& next@ == SyncView { missing, children }
    }
}

/// A copy of a list of peers.
fn copy_peers(peers: &Vec<PeerId>) -> (copy: Vec<PeerId>)
    ensures
        copy@ == peers@,
{
    let mut copy: Vec<PeerId> = Vec::new();
    let mut i: usize = 0;
    while i < peers.len()
        invariant
            i <= peers.len(),
            copy@ == peers@.take(i as int),
        decreases peers.len() - i,
    {
        copy.push(peers[i]);
        i += 1;
    }
    copy
}

} // verus!
