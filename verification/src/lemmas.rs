//! Facts about the model that the proofs of the query manager rest on.
use crate::model::{GetView, ManagerView, QueryView, StateView, SyncView};
use crate::types::{group_query_id, Header, QueryEvent, QueryId, QueryType, Request, Response};
use crate::validity::{event_id, request_cid};
use cid::Cid;
use libp2p::PeerId;
use vstd::prelude::*;

verus! {

broadcast use group_query_id;

/// Asking no peer changes nothing.
pub proof fn lemma_ask_nobody(
    m: ManagerView,
    state: GetView,
    root: QueryId,
    parent: QueryId,
    cid: Cid,
    in_progress: bool,
)
    ensures
        m.ask_peers(root, parent, cid, Seq::empty(), in_progress) == m,
        state.asking(m.next_id, 0) == state,
{
    let none = Seq::<PeerId>::empty();
    assert(m.ask_peers(root, parent, cid, none, in_progress).queries =~= m.queries);
    assert(m.ask_peers(root, parent, cid, none, in_progress).events =~= m.events);
    assert(state.asking(m.next_id, 0).have =~= state.have);
}

/// Asking peers and then one more is asking them all.
pub proof fn lemma_ask_one_more(
    m: ManagerView,
    state: GetView,
    root: QueryId,
    parent: QueryId,
    cid: Cid,
    peers: Seq<PeerId>,
    peer: PeerId,
)
    requires
        m.next_id + peers.len() < u64::MAX,
    ensures
        ({
            let in_progress = state.block is Some;
            let asked = m.ask_peers(root, parent, cid, peers, in_progress);
            let asking = state.asking(m.next_id, peers.len());
            let id = asked.fresh();
            let all = m.ask_peers(root, parent, cid, peers.push(peer), in_progress);
            let asking_all = state.asking(m.next_id, peers.len() + 1);
            if asking.block is None {
                &&& all == asked.start(root, Some(parent), cid, Request::Block(peer, cid))
                &&& asking_all == GetView { block: Some(id), ..asking }
            } else {
                &&& all == asked.start(root, Some(parent), cid, Request::Have(peer, cid))
                &&& asking_all == GetView { have: asking.have.insert(id@), ..asking }
            }
        }),
{
    let in_progress = state.block is Some;
    let asked = m.ask_peers(root, parent, cid, peers, in_progress);
    let asking = state.asking(m.next_id, peers.len());
    let id = asked.fresh();
    let all = m.ask_peers(root, parent, cid, peers.push(peer), in_progress);
    let asking_all = state.asking(m.next_id, peers.len() + 1);
    let req = if asking.block is None {
        Request::Block(peer, cid)
    } else {
        Request::Have(peer, cid)
    };
    let started = asked.start(root, Some(parent), cid, req);
    assert(all.queries =~= started.queries);
    assert(all.events =~= started.events);
    if asking.block is None {
        assert(asking_all.have =~= asking.have);
    } else {
        assert(asking_all.have =~= asking.have.insert(id@));
    }
}

/// Starting get queries takes ids and returns none.
pub proof fn lemma_get_each_takes_ids(
    m: ManagerView,
    parent: QueryId,
    cids: Seq<Cid>,
    initial: Seq<PeerId>,
    n: int,
)
    requires
        0 <= n <= cids.len(),
    ensures
        m.next_id <= m.get_each(parent, cids.take(n), initial).next_id,
        m.get_each(parent, cids.take(n), initial).next_id <= m.get_each(
            parent,
            cids,
            initial,
        ).next_id,
    decreases cids.len(),
{
    if n < cids.len() {
        lemma_get_each_takes_ids(m, parent, cids.drop_last(), initial, n);
        assert(cids.drop_last().take(n) == cids.take(n));
    } else {
        assert(cids.take(n) == cids);
        if n > 0 {
            lemma_get_each_takes_ids(m, parent, cids.drop_last(), initial, n - 1);
        }
    }
}

/// Starting get queries for some blocks and then for one more is starting them for all.
pub proof fn lemma_get_one_more(
    m: ManagerView,
    parent: QueryId,
    cids: Seq<Cid>,
    cid: Cid,
    initial: Seq<PeerId>,
)
    ensures
        m.get_each(parent, cids.push(cid), initial) == m.get_each(parent, cids, initial).get(
            Some(parent),
            cid,
            initial,
        ),
        m.ids_of_gets(parent, cids.push(cid), initial) == m.ids_of_gets(
            parent,
            cids,
            initial,
        ).insert(m.get_each(parent, cids, initial).fresh()@),
{
    assert(cids.push(cid).drop_last() == cids);
}

/// No get query is started only if there is no block to get.
pub proof fn lemma_no_ids_of_gets(
    m: ManagerView,
    parent: QueryId,
    cids: Seq<Cid>,
    initial: Seq<PeerId>,
)
    ensures
        m.ids_of_gets(parent, cids, initial).is_empty() <==> cids.len() == 0,
{
    if cids.len() > 0 {
        let last = m.get_each(parent, cids.drop_last(), initial).fresh()@;
        assert(m.ids_of_gets(parent, cids, initial).contains(last));
    }
}

/// Starting queries in two steps is starting queries.
pub proof fn lemma_extended_twice(a: ManagerView, b: ManagerView, c: ManagerView)
    requires
        a.extended_by(b),
        b.extended_by(c),
    ensures
        a.extended_by(c),
{
}

/// A query that was silent before other queries were started stays silent.
pub proof fn lemma_extended_silent(a: ManagerView, b: ManagerView, id: QueryId)
    requires
        a.extended_by(b),
        a.silent(id),
        id@ < a.next_id,
    ensures
        b.silent(id),
{
    assert forall|i: int| 0 <= i < b.events.len() implies event_id(#[trigger] b.events[i]) != id by {
        if i < a.events.len() {
            assert(b.events[i] == a.events[i]);
        }
    }
}

/// No event is about a get or sync query in progress.
pub proof fn lemma_silent(m: ManagerView, id: QueryId)
    requires
        m.wf(),
        m.has(id),
        !(m.query(id).state is Leaf),
    ensures
        m.silent(id),
{
    assert forall|i: int| 0 <= i < m.events.len() implies event_id(#[trigger] m.events[i]) != id by {
        assert(m.event_wf(m.events[i]));
    }
}

/// Forgetting a query keeps the invariant.
pub proof fn lemma_forget_wf(m: ManagerView, id: QueryId)
    requires
        m.wf(),
    ensures
        m.forget(id).wf(),
{
    let after = m.forget(id);
    assert(after.queries_wf());
    assert forall|other: QueryId| #[trigger] after.has(other) implies after.rooted(
        other,
        after.query(other).hdr.root,
    ) by {
        assert(m.has(other));
    }
    assert forall|i: int| 0 <= i < after.events.len() implies after.event_wf(
        #[trigger] after.events[i],
    ) by {
        assert(m.event_wf(m.events[i]));
    }
}

/// Remembering a query keeps the invariant, if no event is about it and its subqueries are under
/// its root.
pub proof fn lemma_keep_wf(m: ManagerView, id: QueryId, hdr: Header, state: StateView)
    requires
        m.wf(),
        !m.has(id),
        m.silent(id),
        m.rooted(id, hdr.root),
        hdr.id == id,
        !(state is Leaf),
        (QueryView { hdr, state }).wf(m.next_id),
    ensures
        m.keep(id, hdr, state).wf(),
{
    let after = m.keep(id, hdr, state);
    assert forall|other: QueryId| #[trigger] after.has(other) implies after.rooted(
        other,
        after.query(other).hdr.root,
    ) by {
        if other@ != id@ {
            assert(m.has(other));
        }
    }
    assert forall|i: int| 0 <= i < after.events.len() implies after.event_wf(
        #[trigger] after.events[i],
    ) by {
        assert(m.event_wf(m.events[i]));
        assert(event_id(m.events[i]) != id);
    }
}

/// Emitting that a query is complete keeps the invariant, if the query is not in progress and no
/// event is about it.
pub proof fn lemma_complete_wf(
    m: ManagerView,
    id: QueryId,
    ty: QueryType,
    res: Result<(), Cid>,
)
    requires
        m.wf(),
        !m.has(id),
        m.silent(id),
        id@ < m.next_id,
    ensures
        m.emit(QueryEvent::Complete(id, ty, res)).wf(),
{
    let event = QueryEvent::Complete(id, ty, res);
    let after = m.emit(event);
    assert(after.roots_wf()) by {
        assert forall|other: QueryId| #[trigger] after.has(other) implies after.rooted(
            other,
            after.query(other).hdr.root,
        ) by {
            assert(m.has(other));
        }
    }
    assert forall|i: int| 0 <= i < after.events.len() implies after.event_wf(
        #[trigger] after.events[i],
    ) by {
        if i < m.events.len() {
            assert(m.event_wf(m.events[i]));
        }
    }
    assert forall|i: int, j: int| 0 <= i < j < after.events.len() implies ManagerView::in_order(
        #[trigger] after.events[i],
        #[trigger] after.events[j],
    ) by {
        assert(event_id(m.events[i]) != id);
        if j < m.events.len() {
            assert(ManagerView::in_order(m.events[i], m.events[j]));
        }
    }
}

/// Starting a subquery of a query keeps the invariant, if its root is that of the query.
pub proof fn lemma_start_wf(
    m: ManagerView,
    root: QueryId,
    parent: QueryId,
    cid: Cid,
    req: Request,
)
    requires
        m.wf(),
        m.next_id < u64::MAX,
        parent@ < m.next_id,
        m.has(parent) ==> root == m.query(parent).hdr.root,
        request_cid(req) == cid,
    ensures
        m.start(root, Some(parent), cid, req).wf(),
        m.extended_by(m.start(root, Some(parent), cid, req)),
        m.rooted(parent, root) ==> m.start(root, Some(parent), cid, req).rooted(parent, root),
{
    let after = m.start(root, Some(parent), cid, req);
    let id = m.fresh();
    assert(after.queries_wf());
    assert forall|other: QueryId| #[trigger] after.has(other) implies after.rooted(
        other,
        after.query(other).hdr.root,
    ) by {
        if other@ != id@ {
            assert(m.has(other));
            assert(m.rooted(other, m.query(other).hdr.root));
        } else {
            assert(other == id);
        }
    }
    assert forall|i: int| 0 <= i < after.events.len() implies after.event_wf(
        #[trigger] after.events[i],
    ) by {
        if i < m.events.len() {
            assert(m.event_wf(m.events[i]));
        }
    }
    assert forall|i: int, j: int| 0 <= i < j < after.events.len() implies ManagerView::in_order(
        #[trigger] after.events[i],
        #[trigger] after.events[j],
    ) by {
        assert(m.event_wf(m.events[i]));
        if j < m.events.len() {
            assert(ManagerView::in_order(m.events[i], m.events[j]));
        }
    }
}

/// Taking an id keeps the invariant.
pub proof fn lemma_allocate_wf(m: ManagerView)
    requires
        m.wf(),
        m.next_id < u64::MAX,
    ensures
        m.allocate().wf(),
        m.extended_by(m.allocate()),
        !m.has(m.fresh()),
        m.allocate().silent(m.fresh()),
        forall|root: QueryId| #[trigger] m.allocate().rooted(m.fresh(), root),
{
    let after = m.allocate();
    assert forall|other: QueryId| #[trigger] after.has(other) implies after.rooted(
        other,
        after.query(other).hdr.root,
    ) by {
        assert(m.has(other));
    }
    assert forall|i: int| 0 <= i < after.events.len() implies {
        &&& after.event_wf(#[trigger] after.events[i])
        &&& event_id(after.events[i]) != m.fresh()
    } by {
        assert(m.event_wf(m.events[i]));
    }
}

/// Asking peers on behalf of a query keeps the invariant.
pub proof fn lemma_ask_wf(
    m: ManagerView,
    state: GetView,
    root: QueryId,
    parent: QueryId,
    cid: Cid,
    peers: Seq<PeerId>,
)
    requires
        m.wf(),
        m.next_id + peers.len() <= u64::MAX,
        parent@ < m.next_id,
        m.has(parent) ==> root == m.query(parent).hdr.root,
    ensures
        ({
            let after = m.ask_peers(root, parent, cid, peers, state.block is Some);
            &&& after.wf()
            &&& m.extended_by(after)
            &&& m.rooted(parent, root) ==> after.rooted(parent, root)
        }),
    decreases peers.len(),
{
    if peers.len() == 0 {
        assert(peers =~= Seq::empty());
        lemma_ask_nobody(m, state, root, parent, cid, state.block is Some);
    } else {
        let fewer = peers.drop_last();
        let peer = peers.last();
        assert(fewer.push(peer) =~= peers);
        lemma_ask_wf(m, state, root, parent, cid, fewer);
        lemma_ask_one_more(m, state, root, parent, cid, fewer, peer);
        let asked = m.ask_peers(root, parent, cid, fewer, state.block is Some);
        assert(asked.has(parent) == m.has(parent));
        if state.asking(m.next_id, fewer.len()).block is None {
            lemma_start_wf(asked, root, parent, cid, Request::Block(peer, cid));
        } else {
            lemma_start_wf(asked, root, parent, cid, Request::Have(peer, cid));
        }
        lemma_extended_twice(
            m,
            asked,
            m.ask_peers(root, parent, cid, peers, state.block is Some),
        );
    }
}

/// Starting a get query keeps the invariant.
pub proof fn lemma_get_wf(
    m: ManagerView,
    parent: Option<QueryId>,
    cid: Cid,
    initial: Seq<PeerId>,
)
    requires
        m.wf(),
        m.get(parent, cid, initial).fits(),
    ensures
        m.get(parent, cid, initial).wf(),
        m.extended_by(m.get(parent, cid, initial)),
        forall|id: QueryId, root: QueryId|
            id@ < m.next_id && m.rooted(id, root) ==> #[trigger] m.get(
                parent,
                cid,
                initial,
            ).rooted(id, root),
{
    let id = m.fresh();
    let root = match parent {
        Some(parent) => parent,
        None => id,
    };
    let taken = m.allocate();
    let after = m.get(parent, cid, initial);
    let hdr = Header { id, root, parent, cid };
    let state = GetView::new().asking(taken.next_id, initial.len());
    lemma_allocate_wf(m);
    let asked = if initial.len() == 0 {
        lemma_start_wf(taken, root, id, cid, Request::Providers(cid));
        taken.start(root, Some(id), cid, Request::Providers(cid))
    } else {
        lemma_ask_wf(taken, GetView::new(), root, id, cid, initial);
        taken.ask_peers(root, id, cid, initial, false)
    };
    lemma_extended_silent(taken, asked, id);
    assert(state.wf(asked.next_id));
    assert(taken.rooted(id, root));
    lemma_keep_wf(asked, id, hdr, StateView::Get(state));
    assert forall|other: QueryId, r: QueryId|
        other@ < m.next_id && m.rooted(other, r) implies #[trigger] after.rooted(other, r) by {
        assert forall|k: u64| #[trigger]
            after.queries.contains_key(k) && after.queries[k].state is Leaf
                && after.queries[k].hdr.parent == Some(other) implies after.queries[k].hdr.root
            == r by {
            if m.queries.contains_key(k) {
                assert(taken.queries.contains_key(k));
            }
        }
    }
}

/// Starting get queries keeps the invariant.
pub proof fn lemma_get_each_wf(
    m: ManagerView,
    parent: QueryId,
    cids: Seq<Cid>,
    initial: Seq<PeerId>,
)
    requires
        m.wf(),
        m.get_each(parent, cids, initial).fits(),
    ensures
        m.get_each(parent, cids, initial).wf(),
        m.extended_by(m.get_each(parent, cids, initial)),
        forall|id: QueryId, root: QueryId|
            id@ < m.next_id && m.rooted(id, root) ==> #[trigger] m.get_each(
                parent,
                cids,
                initial,
            ).rooted(id, root),
        forall|k: u64| #[trigger]
            m.ids_of_gets(parent, cids, initial).contains(k) ==> {
                let after = m.get_each(parent, cids, initial);
                &&& m.next_id <= k < after.next_id
                &&& after.queries.contains_key(k)
                &&& after.queries[k].state is Get
                &&& after.queries[k].hdr.parent == Some(parent)
            },
    decreases cids.len(),
{
    if cids.len() > 0 {
        let fewer = cids.drop_last();
        let before = m.get_each(parent, fewer, initial);
        lemma_get_each_takes_ids(m, parent, cids, initial, fewer.len() as int);
        assert(cids.take(fewer.len() as int) =~= fewer);
        lemma_get_each_wf(m, parent, fewer, initial);
        lemma_get_wf(before, Some(parent), cids.last(), initial);
        let after = m.get_each(parent, cids, initial);
        lemma_extended_twice(m, before, after);
        assert forall|k: u64| #[trigger]
            m.ids_of_gets(parent, cids, initial).contains(k) implies {
            &&& m.next_id <= k < after.next_id
            &&& after.queries.contains_key(k)
            &&& after.queries[k].state is Get
            &&& after.queries[k].hdr.parent == Some(parent)
        } by {
            if k != before.fresh()@ {
                assert(m.ids_of_gets(parent, fewer, initial).contains(k));
                assert(before.queries.contains_key(k));
            }
        }
    }
}

/// Starting a sync query keeps the invariant.
pub proof fn lemma_sync_wf(m: ManagerView, cid: Cid, missing: Seq<Cid>)
    requires
        m.wf(),
        m.sync(cid, missing).fits(),
    ensures
        m.sync(cid, missing).wf(),
        m.extended_by(m.sync(cid, missing)),
{
    let id = m.fresh();
    let taken = m.allocate();
    let nobody = Seq::<PeerId>::empty();
    let hdr = Header { id, root: id, parent: None, cid };
    lemma_get_each_takes_ids(taken, id, missing, nobody, 0);
    lemma_allocate_wf(m);
    lemma_no_ids_of_gets(taken, id, missing, nobody);
    let started = if missing.len() == 0 {
        lemma_start_wf(taken, id, id, cid, Request::MissingBlocks(cid));
        taken.start(id, Some(id), cid, Request::MissingBlocks(cid))
    } else {
        lemma_get_each_wf(taken, id, missing, nobody);
        taken.get_each(id, missing, nobody)
    };
    lemma_extended_silent(taken, started, id);
    assert(taken.rooted(id, id));
    let state = m.sync(cid, missing).query(id).state;
    if missing.len() == 0 {
        assert(state->Sync_0.children.contains_key(taken.fresh()@));
    }
    lemma_keep_wf(started, id, hdr, state);
}

/// The end of a get query that was forgotten keeps the invariant.
pub proof fn lemma_recv_get_wf(m: ManagerView, query: Header, providers: Seq<PeerId>)
    requires
        m.wf(),
        !m.has(query.id),
        m.silent(query.id),
        query.id@ < m.next_id,
        m.recv_get(query, providers).fits(),
    ensures
        m.recv_get(query, providers).wf(),
{
    match query.parent {
        Some(id) => {
            let rest = m.forget(id);
            lemma_forget_wf(m, id);
            if m.sync_state(id) is Some {
                let parent = m.query(id).hdr;
                assert(parent.id == id);
                lemma_silent(m, id);
                assert(rest.silent(id));
                if providers.len() == 0 {
                    lemma_complete_wf(rest, id, QueryType::Sync, Err(query.cid));
                } else {
                    let req = Request::MissingBlocks(query.cid);
                    let started = rest.start(id, Some(id), query.cid, req);
                    assert(m.rooted(id, id));
                    assert(rest.rooted(id, id));
                    lemma_start_wf(rest, id, id, query.cid, req);
                    lemma_extended_silent(rest, started, id);
                    let state = m.recv_get(query, providers).query(id).state;
                    assert(state->Sync_0.children.contains_key(rest.fresh()@));
                    lemma_keep_wf(started, id, parent, state);
                }
            }
        },
        None => {
            let res = if providers.len() == 0 {
                Err(query.cid)
            } else {
                Ok(())
            };
            lemma_complete_wf(m, query.id, QueryType::Get, res);
        },
    }
}

/// The answer to a have query keeps the invariant.
pub proof fn lemma_recv_have_wf(m: ManagerView, query: Header, peer: PeerId, have: bool)
    requires
        m.wf(),
        query.parent is Some,
        m.recv_have(query, peer, have).fits(),
    ensures
        m.recv_have(query, peer, have).wf(),
{
    let id = query.parent->0;
    let rest = m.forget(id);
    lemma_forget_wf(m, id);
    if let Some(before) = m.get_state(id) {
        let parent = m.query(id).hdr;
        let root = parent.root;
        assert(parent.id == id);
        lemma_silent(m, id);
        assert(rest.silent(id));
        assert(m.rooted(id, root));
        assert(rest.rooted(id, root));
        let state = before.answered(query.id, peer, have);
        let after = m.recv_have(query, peer, have);
        if state.block is None && state.res.len() > 0 {
            let req = Request::Block(state.res.last(), query.cid);
            let started = rest.start(root, Some(id), query.cid, req);
            lemma_start_wf(rest, root, id, query.cid, req);
            lemma_extended_silent(rest, started, id);
            lemma_keep_wf(started, id, parent, after.query(id).state);
        } else if !state.idle() {
            lemma_keep_wf(rest, id, parent, StateView::Get(state));
        } else if state.initial {
            let req = Request::Providers(query.cid);
            let started = rest.start(root, Some(id), query.cid, req);
            lemma_start_wf(rest, root, id, query.cid, req);
            lemma_extended_silent(rest, started, id);
            lemma_keep_wf(started, id, parent, StateView::Get(state));
        } else {
            lemma_recv_get_wf(rest, parent, Seq::empty());
        }
    }
}

/// The answer to a block query keeps the invariant.
pub proof fn lemma_recv_block_wf(m: ManagerView, query: Header, peer: PeerId, block: bool)
    requires
        m.wf(),
        query.parent is Some,
        m.recv_block(query, peer, block).fits(),
    ensures
        m.recv_block(query, peer, block).wf(),
{
    if block {
        let id = query.parent->0;
        let rest = m.forget(id);
        lemma_forget_wf(m, id);
        if let Some(before) = m.get_state(id) {
            assert(m.query(id).hdr.id == id);
            lemma_silent(m, id);
            assert(rest.silent(id));
            lemma_recv_get_wf(rest, m.query(id).hdr, before.res.push(peer));
        }
    } else {
        lemma_recv_have_wf(m, query, peer, false);
    }
}

/// The answer to a providers query keeps the invariant.
pub proof fn lemma_recv_providers_wf(m: ManagerView, query: Header, peers: Seq<PeerId>)
    requires
        m.wf(),
        query.parent is Some,
        m.recv_providers(query, peers).fits(),
    ensures
        m.recv_providers(query, peers).wf(),
{
    let id = query.parent->0;
    let rest = m.forget(id);
    lemma_forget_wf(m, id);
    if let Some(before) = m.get_state(id) {
        let parent = m.query(id).hdr;
        let root = parent.root;
        assert(parent.id == id);
        lemma_silent(m, id);
        assert(rest.silent(id));
        assert(m.rooted(id, root));
        assert(rest.rooted(id, root));
        let asking = (GetView { initial: false, ..before }).asking(m.next_id, peers.len());
        if asking.idle() {
            lemma_recv_get_wf(rest, parent, Seq::empty());
        } else {
            let asked = rest.ask_peers(root, id, query.cid, peers, before.block is Some);
            lemma_ask_wf(rest, before, root, id, query.cid, peers);
            lemma_extended_silent(rest, asked, id);
            assert(asking.wf(asked.next_id));
            lemma_keep_wf(asked, id, parent, StateView::Get(asking));
        }
    }
}

/// The answer to a missing blocks query keeps the invariant.
pub proof fn lemma_recv_missing_blocks_wf(m: ManagerView, query: Header, missing: Seq<Cid>)
    requires
        m.wf(),
        query.parent is Some,
        m.recv_missing_blocks(query, missing).fits(),
    ensures
        m.recv_missing_blocks(query, missing).wf(),
{
    let id = query.parent->0;
    let rest = m.forget(id);
    lemma_forget_wf(m, id);
    if let Some(before) = m.sync_state(id) {
        let parent = m.query(id).hdr;
        assert(parent.id == id);
        lemma_silent(m, id);
        assert(rest.silent(id));
        assert(m.rooted(id, id));
        assert(rest.rooted(id, id));
        let after = m.recv_missing_blocks(query, missing);
        let providers = before.providers_of(query.id);
        let state = SyncView {
            missing: before.missing + rest.ids_of_gets(id, missing, providers),
            children: before.children.remove(query.id@),
        };
        if state.missing.is_empty() && state.children.is_empty() {
            lemma_complete_wf(rest, id, QueryType::Sync, Ok(()));
        } else {
            let started = rest.get_each(id, missing, providers);
            lemma_get_each_wf(rest, id, missing, providers);
            lemma_extended_silent(rest, started, id);
            assert(state.wf(started.next_id));
            lemma_keep_wf(started, id, parent, StateView::Sync(state));
        }
    }
}

/// A response keeps the invariant.
pub proof fn lemma_inject_response_wf(m: ManagerView, id: QueryId, res: Response)
    requires
        m.wf(),
        m.answerable(id),
        m.inject_response(id, res).fits(),
    ensures
        m.inject_response(id, res).wf(),
{
    if m.has(id) {
        let query = m.query(id).hdr;
        let rest = m.forget(id);
        lemma_forget_wf(m, id);
        match res {
            Response::Have(peer, have) => lemma_recv_have_wf(rest, query, peer, have),
            Response::Block(peer, block) => lemma_recv_block_wf(rest, query, peer, block),
            Response::Providers(peers) => lemma_recv_providers_wf(rest, query, peers@),
            Response::MissingBlocks(cids) => lemma_recv_missing_blocks_wf(rest, query, cids@),
        }
    }
}

/// A manager that remembers less and holds fewer events, in the same order, keeps the invariant.
pub proof fn lemma_less_wf(m: ManagerView, less: ManagerView)
    requires
        m.wf(),
        less.next_id == m.next_id,
        forall|k: u64| #[trigger]
            less.queries.contains_key(k) ==> m.queries.contains_key(k) && less.queries[k]
                == m.queries[k],
        forall|i: int|
            0 <= i < less.events.len() ==> m.event_wf(#[trigger] less.events[i]),
        forall|i: int, j: int|
            0 <= i < j < less.events.len() ==> ManagerView::in_order(
                #[trigger] less.events[i],
                #[trigger] less.events[j],
            ),
    ensures
        less.wf(),
{
    assert forall|other: QueryId| #[trigger] less.has(other) implies less.rooted(
        other,
        less.query(other).hdr.root,
    ) by {
        assert(m.has(other));
        assert(m.rooted(other, m.query(other).hdr.root));
    }
    assert forall|i: int| 0 <= i < less.events.len() implies less.event_wf(
        #[trigger] less.events[i],
    ) by {
        assert(m.event_wf(less.events[i]));
        assert(less.has(event_id(less.events[i])) ==> m.has(event_id(less.events[i])));
    }
}

/// Events that are left after some were withdrawn are events that were there, in the same order.
pub proof fn lemma_filter_events(
    m: ManagerView,
    events: Seq<QueryEvent>,
    stays: spec_fn(QueryEvent) -> bool,
)
    requires
        forall|i: int| 0 <= i < events.len() ==> m.event_wf(#[trigger] events[i]),
        forall|i: int, j: int|
            0 <= i < j < events.len() ==> ManagerView::in_order(
                #[trigger] events[i],
                #[trigger] events[j],
            ),
    ensures
        forall|i: int|
            0 <= i < events.filter(stays).len() ==> {
                let event = #[trigger] events.filter(stays)[i];
                &&& m.event_wf(event)
                &&& stays(event)
                &&& events.contains(event)
            },
        forall|i: int, j: int|
            0 <= i < j < events.filter(stays).len() ==> ManagerView::in_order(
                #[trigger] events.filter(stays)[i],
                #[trigger] events.filter(stays)[j],
            ),
    decreases events.len(),
{
    reveal(Seq::filter);
    if events.len() > 0 {
        let fewer = events.drop_last();
        let last = events.last();
        lemma_filter_events(m, fewer, stays);
        let left = events.filter(stays);
        assert(events.contains(last));
        assert forall|i: int| 0 <= i < left.len() implies {
            let event = #[trigger] left[i];
            &&& m.event_wf(event)
            &&& stays(event)
            &&& events.contains(event)
        } by {
            if i < fewer.filter(stays).len() {
                let event = fewer.filter(stays)[i];
                let at = choose|at: int| 0 <= at < fewer.len() && fewer[at] == event;
                assert(events[at] == event);
            }
        }
        assert forall|i: int, j: int| 0 <= i < j < left.len() implies ManagerView::in_order(
            #[trigger] left[i],
            #[trigger] left[j],
        ) by {
            let event = fewer.filter(stays)[i];
            assert(left[i] == event);
            if j < fewer.filter(stays).len() {
                assert(left[j] == fewer.filter(stays)[j]);
            } else {
                let at = choose|at: int| 0 <= at < fewer.len() && fewer[at] == event;
                assert(events[at] == event);
                assert(events[events.len() - 1] == last);
            }
        }
    }
}

/// Cancelling a query keeps the invariant.
pub proof fn lemma_cancel_wf(m: ManagerView, root: QueryId)
    requires
        m.wf(),
    ensures
        m.cancel(root).wf(),
{
    if m.has(root) {
        let rest = m.forget(root);
        let stays = |event: QueryEvent| !rest.belongs_to(event, root);
        lemma_filter_events(m, m.events, stays);
        assert(rest.withdraw(root).events == m.events.filter(stays));
        lemma_less_wf(m, m.cancel(root));
    }
}

/// Cancelling a query adds no query and no event.
pub proof fn lemma_cancel_adds_nothing(m: ManagerView, root: QueryId)
    requires
        m.wf(),
    ensures
        m.cancel(root).next_id == m.next_id,
        forall|k: u64| #[trigger]
            m.cancel(root).queries.contains_key(k) ==> m.queries.contains_key(k) && m.cancel(
                root,
            ).queries[k] == m.queries[k],
        forall|i: int|
            0 <= i < m.cancel(root).events.len() ==> m.events.contains(
                #[trigger] m.cancel(root).events[i],
            ),
{
    if m.has(root) {
        let rest = m.forget(root);
        let stays = |event: QueryEvent| !rest.belongs_to(event, root);
        lemma_filter_events(m, m.events, stays);
        assert(rest.withdraw(root).events == m.events.filter(stays));
    }
}

/// Retrieving an event keeps the invariant.
pub proof fn lemma_next_wf(m: ManagerView)
    requires
        m.wf(),
    ensures
        m.next().wf(),
{
    let less = m.next();
    if m.events.len() > 0 {
        assert forall|i: int| 0 <= i < less.events.len() implies m.event_wf(
            #[trigger] less.events[i],
        ) by {
            assert(less.events[i] == m.events[i + 1]);
        }
        assert forall|i: int, j: int| 0 <= i < j < less.events.len() implies ManagerView::in_order(
            #[trigger] less.events[i],
            #[trigger] less.events[j],
        ) by {
            assert(less.events[i] == m.events[i + 1]);
            assert(less.events[j] == m.events[j + 1]);
        }
        lemma_less_wf(m, less);
    }
}

} // verus!
