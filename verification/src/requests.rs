//! What a request tells the caller about its query: which responses answer it.
use crate::laws::law_response_steps;
use crate::lemmas::{
    lemma_allocate_wf, lemma_cancel_adds_nothing, lemma_forget_wf, lemma_get_each_takes_ids,
    lemma_get_each_wf, lemma_get_wf, lemma_sync_wf,
};
use crate::model::{GetView, ManagerView};
use crate::progress::law_response_is_attended;
use crate::steps::{answered_into, lemma_answered_into, lemma_get_each_adds};
use crate::types::{group_query_id, QueryEvent, QueryId, Request, Response};
use cid::Cid;
use libp2p::PeerId;
use vstd::prelude::*;

verus! {

broadcast use group_query_id;

/// The response is one to the request: it says which peers provide the block, or which blocks are
/// missing, if that was asked for. A peer that was asked for a block, or whether it has it, may
/// answer either question.
pub open spec fn responds_to(res: Response, req: Request) -> bool {
    match req {
        Request::Have(_, _) => res is Have || res is Block,
        Request::Block(_, _) => res is Have || res is Block,
        Request::Providers(_) => res is Providers,
        Request::MissingBlocks(_) => res is MissingBlocks,
    }
}

impl ManagerView {
    /// The query, if it is in progress, is a subquery that makes the request. The query that waits
    /// for it, if that is in progress too, knows it by what was asked for: a get query counts it
    /// among its have queries, or has it as its block query, or knows it as neither if it asks for
    /// providers; a sync query counts it among its missing blocks queries.
    pub open spec fn asks(self, id: QueryId, req: Request) -> bool {
        self.has(id) ==> {
            &&& self.query(id).state is Leaf
            &&& self.query(id).hdr.parent matches Some(parent)
            &&& self.get_state(parent) matches Some(state) ==> match req {
                Request::Have(_, _) => state.have.contains(id@),
                Request::Block(_, _) => state.block == Some(id),
                Request::Providers(_) => !state.have.contains(id@) && state.block != Some(id),
                Request::MissingBlocks(_) => false,
            }
            &&& self.sync_state(parent) matches Some(state) ==> req is MissingBlocks
                && state.children.contains_key(id@)
        }
    }

    /// Every subquery of a get query is about the block of the get query.
    pub open spec fn same_blocks(self) -> bool {
        forall|k: u64, p: QueryId|
            #![trigger self.queries.contains_key(k), self.queries.contains_key(p@)]
            {
                &&& self.queries.contains_key(k)
                &&& self.queries[k].state is Leaf
                &&& self.queries[k].hdr.parent == Some(p)
                &&& self.queries.contains_key(p@)
                &&& self.queries[p@].state is Get
            } ==> self.queries[k].hdr.cid == self.queries[p@].hdr.cid
    }

    /// The event, if it is a request, is one that its query makes.
    pub open spec fn is_asked(self, event: QueryEvent) -> bool {
        event matches QueryEvent::Request(id, req) ==> self.asks(id, req)
    }

    /// Every request among the events is one that its query makes.
    pub open spec fn requests_are_asked(self) -> bool {
        forall|i: int| 0 <= i < self.events.len() ==> self.is_asked(#[trigger] self.events[i])
    }
}

/// A query makes the same request after other queries were started.
proof fn lemma_extended_asks(m: ManagerView, after: ManagerView, id: QueryId, req: Request)
    requires
        m.wf(),
        m.extended_by(after),
        m.asks(id, req),
        id@ < m.next_id,
    ensures
        after.asks(id, req),
{
    if after.has(id) {
        assert(m.queries.contains_key(id@));
        let p = m.query(id).hdr.parent->0;
        if after.has(p) {
            assert(after.queries.contains_key(p@));
            assert(m.queries.contains_key(p@));
        }
    }
}

/// A query makes the same request after fewer queries are remembered.
proof fn lemma_fewer_asks(m: ManagerView, less: ManagerView, id: QueryId, req: Request)
    requires
        m.asks(id, req),
        forall|k: u64| #[trigger]
            less.queries.contains_key(k) ==> m.queries.contains_key(k) && less.queries[k]
                == m.queries[k],
    ensures
        less.asks(id, req),
{
    if less.has(id) {
        assert(less.queries.contains_key(id@));
        let p = m.query(id).hdr.parent->0;
        assert(less.has(p) ==> less.queries.contains_key(p@));
    }
}

/// A query makes the same request after another one was answered.
proof fn lemma_answered_asks(
    m: ManagerView,
    after: ManagerView,
    answered: QueryId,
    id: QueryId,
    req: Request,
)
    requires
        m.wf(),
        answered_into(m, after, answered),
        m.asks(id, req),
        id@ < m.next_id,
    ensures
        after.asks(id, req),
{
    if after.has(id) {
        assert(after.queries.contains_key(id@));
        assert(m.queries.contains_key(id@));
        let p = m.query(id).hdr.parent->0;
        if after.has(p) {
            assert(after.queries.contains_key(p@));
            assert(m.queries.contains_key(p@));
        }
    }
}

/// The requests that get queries start with are those that their subqueries make.
proof fn lemma_get_each_asks(
    m: ManagerView,
    parent: QueryId,
    cids: Seq<Cid>,
    initial: Seq<PeerId>,
    i: int,
)
    requires
        m.wf(),
        m.get_each(parent, cids, initial).fits(),
        m.events.len() <= i < m.get_each(parent, cids, initial).events.len(),
    ensures
        m.get_each(parent, cids, initial).is_asked(m.get_each(parent, cids, initial).events[i]),
    decreases cids.len(),
{
    if cids.len() > 0 {
        let fewer = cids.drop_last();
        let before = m.get_each(parent, fewer, initial);
        let after = m.get_each(parent, cids, initial);
        lemma_get_each_takes_ids(m, parent, cids, initial, fewer.len() as int);
        assert(cids.take(fewer.len() as int) =~= fewer);
        lemma_get_each_wf(m, parent, fewer, initial);
        lemma_get_wf(before, Some(parent), cids.last(), initial);
        if i < before.events.len() {
            lemma_get_each_asks(m, parent, fewer, initial, i);
            assert(after.events[i] == before.events[i]);
            if let QueryEvent::Request(id, req) = before.events[i] {
                lemma_extended_asks(before, after, id, req);
            }
        }
    }
}

/// The requests that get queries for a sync query start with are those that their subqueries make,
/// also once the sync query is remembered.
proof fn lemma_get_each_for_sync_asks(
    m: ManagerView,
    after: ManagerView,
    sync: QueryId,
    cids: Seq<Cid>,
    initial: Seq<PeerId>,
    i: int,
)
    requires
        m.wf(),
        sync@ < m.next_id,
        !m.has(sync),
        m.get_each(sync, cids, initial).fits(),
        m.events.len() <= i < after.events.len(),
        after.has(sync),
        after == m.get_each(sync, cids, initial).keep(
            sync,
            after.query(sync).hdr,
            after.query(sync).state,
        ),
    ensures
        after.is_asked(after.events[i]),
{
    let started = m.get_each(sync, cids, initial);
    lemma_get_each_wf(m, sync, cids, initial);
    lemma_get_each_asks(m, sync, cids, initial, i);
    if let QueryEvent::Request(id, req) = started.events[i] {
        if started.queries.contains_key(id@) {
            lemma_get_each_adds(m, sync, cids, initial, id@);
        }
    }
}

/// The requests that a response leads to are those that the new subqueries make.
proof fn lemma_response_asks(m: ManagerView, id: QueryId, res: Response, i: int)
    requires
        m.wf(),
        m.has(id),
        m.answerable(id),
        m.inject_response(id, res).fits(),
        m.events.len() <= i < m.inject_response(id, res).events.len(),
    ensures
        m.inject_response(id, res).is_asked(m.inject_response(id, res).events[i]),
{
    let after = m.inject_response(id, res);
    let query = m.query(id).hdr;
    let rest = m.forget(id);
    let p = query.parent->0;
    let base = rest.forget(p);
    lemma_forget_wf(m, id);
    lemma_forget_wf(rest, p);
    if rest.has(p) {
        let parent = rest.query(p).hdr;
        assert(parent.id == p);
        if let Some(s) = parent.parent {
            if base.has(s) {
                assert(m.query(s).hdr.id == s);
            }
        }
        match res {
            Response::Providers(peers) => {
                if let Some(before) = rest.get_state(p) {
                    let asking = (GetView { initial: false, ..before }).asking(
                        m.next_id,
                        peers@.len(),
                    );
                    assert(before.block matches Some(block) ==> block@ < m.next_id);
                    assert(!asking.idle() ==> after.get_state(p) == Some(asking));
                }
            },
            Response::MissingBlocks(cids) => {
                if let Some(before) = rest.sync_state(p) {
                    if after.has(p) {
                        let providers = before.providers_of(id);
                        lemma_get_each_for_sync_asks(base, after, p, cids@, providers, i);
                    }
                }
            },
            _ => {},
        }
    }
}

/// A manager that was never used has emitted no request.
pub proof fn law_new_requests_are_asked()
    ensures
        ManagerView::new().requests_are_asked(),
{
}

/// Every operation emits only requests that its queries make, and leaves those emitted before so.
pub proof fn law_requests_are_asked(
    m: ManagerView,
    id: QueryId,
    res: Response,
    parent: Option<QueryId>,
    cid: Cid,
    initial: Seq<PeerId>,
    missing: Seq<Cid>,
)
    requires
        m.wf(),
        m.requests_are_asked(),
    ensures
        m.get(parent, cid, initial).fits() ==> m.get(parent, cid, initial).requests_are_asked(),
        m.sync(cid, missing).fits() ==> m.sync(cid, missing).requests_are_asked(),
        m.answerable(id) && m.inject_response(id, res).fits() ==> m.inject_response(
            id,
            res,
        ).requests_are_asked(),
        m.cancel(id).requests_are_asked(),
        m.next().requests_are_asked(),
{
    let get = m.get(parent, cid, initial);
    if get.fits() {
        lemma_get_wf(m, parent, cid, initial);
        assert forall|i: int| 0 <= i < get.events.len() implies get.is_asked(
            #[trigger] get.events[i],
        ) by {
            if i < m.events.len() {
                lemma_old_stays_asked(m, id, res, parent, cid, initial, missing, i);
            }
        }
    }
    let sync = m.sync(cid, missing);
    if sync.fits() {
        let taken = m.allocate();
        lemma_sync_wf(m, cid, missing);
        lemma_get_each_takes_ids(taken, m.fresh(), missing, Seq::empty(), 0);
        lemma_allocate_wf(m);
        assert forall|i: int| 0 <= i < sync.events.len() implies sync.is_asked(
            #[trigger] sync.events[i],
        ) by {
            if i < m.events.len() {
                lemma_old_stays_asked(m, id, res, parent, cid, initial, missing, i);
            } else if missing.len() > 0 {
                lemma_get_each_for_sync_asks(taken, sync, m.fresh(), missing, Seq::empty(), i);
            }
        }
    }
    let heard = m.inject_response(id, res);
    if m.has(id) && m.answerable(id) && heard.fits() {
        law_response_steps(m, id, res);
        assert forall|i: int| 0 <= i < heard.events.len() implies heard.is_asked(
            #[trigger] heard.events[i],
        ) by {
            if i < m.events.len() {
                lemma_old_stays_asked(m, id, res, parent, cid, initial, missing, i);
            } else {
                lemma_response_asks(m, id, res, i);
            }
        }
    }
    let less = m.cancel(id);
    lemma_cancel_adds_nothing(m, id);
    assert forall|i: int| 0 <= i < less.events.len() implies less.is_asked(
        #[trigger] less.events[i],
    ) by {
        let at = choose|at: int| 0 <= at < m.events.len() && m.events[at] == less.events[i];
        lemma_old_stays_asked(m, id, res, parent, cid, initial, missing, at);
    }
    let next = m.next();
    assert forall|i: int| 0 <= i < next.events.len() implies next.is_asked(
        #[trigger] next.events[i],
    ) by {
        let at = if m.events.len() == 0 {
            i
        } else {
            i + 1
        };
        lemma_old_stays_asked(m, id, res, parent, cid, initial, missing, at);
        assert(next.events[i] == m.events[at]);
    }
}

/// An event that was emitted before is still a request that its query makes, if it is one at all.
proof fn lemma_old_stays_asked(
    m: ManagerView,
    id: QueryId,
    res: Response,
    parent: Option<QueryId>,
    cid: Cid,
    initial: Seq<PeerId>,
    missing: Seq<Cid>,
    i: int,
)
    requires
        m.wf(),
        m.requests_are_asked(),
        0 <= i < m.events.len(),
    ensures
        m.get(parent, cid, initial).fits() ==> m.get(parent, cid, initial).is_asked(m.events[i]),
        m.sync(cid, missing).fits() ==> m.sync(cid, missing).is_asked(m.events[i]),
        m.answerable(id) && m.inject_response(id, res).fits() ==> m.inject_response(
            id,
            res,
        ).is_asked(m.events[i]),
        m.cancel(id).is_asked(m.events[i]),
        m.next().is_asked(m.events[i]),
{
    assert(m.is_asked(m.events[i]));
    assert(m.event_wf(m.events[i]));
    if let QueryEvent::Request(asked, req) = m.events[i] {
        law_request_stays_asked(m, asked, req, id, res, parent, cid, initial, missing);
    }
}

/// A request that was made stays one that its query makes until it is answered, whatever happens
/// meanwhile, and whether it was retrieved or not.
pub proof fn law_request_stays_asked(
    m: ManagerView,
    asked: QueryId,
    req: Request,
    id: QueryId,
    res: Response,
    parent: Option<QueryId>,
    cid: Cid,
    initial: Seq<PeerId>,
    missing: Seq<Cid>,
)
    requires
        m.wf(),
        asked@ < m.next_id,
        m.asks(asked, req),
    ensures
        m.get(parent, cid, initial).fits() ==> m.get(parent, cid, initial).asks(asked, req),
        m.sync(cid, missing).fits() ==> m.sync(cid, missing).asks(asked, req),
        m.answerable(id) && m.inject_response(id, res).fits() ==> m.inject_response(
            id,
            res,
        ).asks(asked, req),
        m.cancel(id).asks(asked, req),
        m.next().asks(asked, req),
{
    if m.get(parent, cid, initial).fits() {
        lemma_get_wf(m, parent, cid, initial);
        lemma_extended_asks(m, m.get(parent, cid, initial), asked, req);
    }
    if m.sync(cid, missing).fits() {
        lemma_sync_wf(m, cid, missing);
        lemma_extended_asks(m, m.sync(cid, missing), asked, req);
    }
    if m.has(id) && m.answerable(id) && m.inject_response(id, res).fits() {
        lemma_answered_into(m, id, res);
        lemma_answered_asks(m, m.inject_response(id, res), id, asked, req);
    }
    lemma_cancel_adds_nothing(m, id);
    lemma_fewer_asks(m, m.cancel(id), asked, req);
    lemma_fewer_asks(m, m.next(), asked, req);
}

/// A request that is retrieved is one that its query makes.
pub proof fn law_retrieved_request_is_asked(m: ManagerView, id: QueryId, req: Request)
    requires
        m.wf(),
        m.requests_are_asked(),
        m.events.len() > 0,
        m.events[0] == QueryEvent::Request(id, req),
    ensures
        m.next().asks(id, req),
        id@ < m.next().next_id,
{
    assert(m.is_asked(m.events[0]));
    assert(m.event_wf(m.events[0]));
    lemma_fewer_asks(m, m.next(), id, req);
}

/// A response to a request answers what the query asked for.
pub proof fn law_response_answers_request(m: ManagerView, id: QueryId, req: Request, res: Response)
    requires
        m.asks(id, req),
        responds_to(res, req),
    ensures
        m.answered_by(id, res),
        m.answerable(id),
{
}

/// As long as callers give to each request that they retrieved a response to it, every query in
/// progress is attended to.
pub proof fn law_responses_keep_attended(m: ManagerView, id: QueryId, req: Request, res: Response)
    requires
        m.wf(),
        m.attended(),
        m.asks(id, req),
        responds_to(res, req),
        m.inject_response(id, res).fits(),
    ensures
        m.inject_response(id, res).attended(),
{
    law_response_answers_request(m, id, req, res);
    law_response_is_attended(m, id, res);
}

/// A manager that was never used has no subquery.
pub proof fn law_new_has_same_blocks()
    ensures
        ManagerView::new().same_blocks(),
{
}

/// A get query asks about one block all its life: its subqueries are about its block, and every
/// operation keeps it so, as long as responses are given to subqueries.
pub proof fn law_same_blocks_are_kept(
    m: ManagerView,
    id: QueryId,
    res: Response,
    parent: Option<QueryId>,
    cid: Cid,
    initial: Seq<PeerId>,
    missing: Seq<Cid>,
)
    requires
        m.wf(),
        m.same_blocks(),
    ensures
        m.get(parent, cid, initial).fits() ==> m.get(parent, cid, initial).same_blocks(),
        m.sync(cid, missing).fits() ==> m.sync(cid, missing).same_blocks(),
        m.queries[id@].state is Leaf && m.inject_response(id, res).fits() ==> m.inject_response(
            id,
            res,
        ).same_blocks(),
        m.cancel(id).same_blocks(),
        m.next().same_blocks(),
{
    let get = m.get(parent, cid, initial);
    if get.fits() {
        lemma_get_wf(m, parent, cid, initial);
        assert forall|k: u64, p: QueryId|
            #![trigger get.queries.contains_key(k), get.queries.contains_key(p@)]
            {
                &&& get.queries.contains_key(k)
                &&& get.queries[k].state is Leaf
                &&& get.queries[k].hdr.parent == Some(p)
                &&& get.queries.contains_key(p@)
                &&& get.queries[p@].state is Get
            } implies get.queries[k].hdr.cid == get.queries[p@].hdr.cid by {
            if m.queries.contains_key(k) {
                assert(m.queries.contains_key(p@));
            }
        }
    }
    let sync = m.sync(cid, missing);
    if sync.fits() {
        let fresh = m.fresh();
        let taken = m.allocate();
        lemma_sync_wf(m, cid, missing);
        lemma_get_each_takes_ids(taken, fresh, missing, Seq::empty(), 0);
        lemma_allocate_wf(m);
        assert forall|k: u64, p: QueryId|
            #![trigger sync.queries.contains_key(k), sync.queries.contains_key(p@)]
            {
                &&& sync.queries.contains_key(k)
                &&& sync.queries[k].state is Leaf
                &&& sync.queries[k].hdr.parent == Some(p)
                &&& sync.queries.contains_key(p@)
                &&& sync.queries[p@].state is Get
            } implies sync.queries[k].hdr.cid == sync.queries[p@].hdr.cid by {
            if m.queries.contains_key(k) {
                assert(m.queries.contains_key(p@));
            } else if missing.len() > 0 {
                lemma_get_each_adds(taken, fresh, missing, Seq::empty(), k);
            }
        }
    }
    let heard = m.inject_response(id, res);
    if m.has(id) && m.query(id).state is Leaf && heard.fits() {
        lemma_answered_into(m, id, res);
        assert forall|k: u64, p: QueryId|
            #![trigger heard.queries.contains_key(k), heard.queries.contains_key(p@)]
            {
                &&& heard.queries.contains_key(k)
                &&& heard.queries[k].state is Leaf
                &&& heard.queries[k].hdr.parent == Some(p)
                &&& heard.queries.contains_key(p@)
                &&& heard.queries[p@].state is Get
            } implies heard.queries[k].hdr.cid == heard.queries[p@].hdr.cid by {
            if m.queries.contains_key(k) {
                assert(m.queries.contains_key(p@));
            } else if m.query(id).hdr.parent == Some(p) {
                assert(m.queries.contains_key(id@));
                assert(m.queries.contains_key(p@));
            }
        }
    }
    lemma_cancel_adds_nothing(m, id);
}

} // verus!
