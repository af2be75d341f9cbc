//! What the query manager promises over several calls.
use crate::lemmas::{
    lemma_ask_wf, lemma_filter_events, lemma_forget_wf, lemma_get_each_wf, lemma_get_wf,
    lemma_no_ids_of_gets, lemma_sync_wf,
};
use crate::model::{GetView, ManagerView, SyncView};
use crate::types::{group_query_id, Header, QueryEvent, QueryId, QueryType, Request, Response};
use crate::validity::{event_id, request_cid};
use cid::Cid;
use libp2p::PeerId;
use vstd::prelude::*;

verus! {

broadcast use group_query_id;

/// A get query has an id that no query in progress has. Its header says what it was started with,
/// and starting it changes no other query and no event.
pub proof fn law_get_starts(
    m: ManagerView,
    parent: Option<QueryId>,
    cid: Cid,
    initial: Seq<PeerId>,
)
    requires
        m.wf(),
        m.get(parent, cid, initial).fits(),
    ensures
        ({
            let id = m.fresh();
            let after = m.get(parent, cid, initial);
            &&& !m.has(id)
            &&& after.has(id)
            &&& after.query(id).hdr == Header {
                id,
                root: match parent {
                    Some(parent) => parent,
                    None => id,
                },
                parent,
                cid,
            }
            &&& after.cancels(id) == Some(QueryType::Get)
            &&& m.extended_by(after)
        }),
{
    lemma_get_wf(m, parent, cid, initial);
}

/// A sync query has an id that no query in progress has. Its header says what it was started
/// with, and starting it changes no other query and no event.
pub proof fn law_sync_starts(m: ManagerView, cid: Cid, missing: Seq<Cid>)
    requires
        m.wf(),
        m.sync(cid, missing).fits(),
    ensures
        ({
            let id = m.fresh();
            let after = m.sync(cid, missing);
            &&& !m.has(id)
            &&& after.has(id)
            &&& after.query(id).hdr == Header { id, root: id, parent: None, cid }
            &&& after.cancels(id) == Some(QueryType::Sync)
            &&& m.extended_by(after)
        }),
{
    lemma_sync_wf(m, cid, missing);
}

/// A get query asks its initial peers first: the first one for the block, all others whether they
/// have it. It asks for providers only if there are no initial peers.
pub proof fn law_initial_peers_first(
    m: ManagerView,
    parent: Option<QueryId>,
    cid: Cid,
    initial: Seq<PeerId>,
)
    ensures
        ({
            let after = m.get(parent, cid, initial);
            let asked = m.next_id + 1;
            if initial.len() == 0 {
                after.events == m.events.push(
                    QueryEvent::Request(QueryId::of(asked), Request::Providers(cid)),
                )
            } else {
                &&& after.events.len() == m.events.len() + initial.len()
                &&& forall|i: int|
                    0 <= i < initial.len() ==> #[trigger] after.events[m.events.len() + i]
                        == QueryEvent::Request(
                        QueryId::of((asked + i) as nat),
                        if i == 0 {
                            Request::Block(initial[i], cid)
                        } else {
                            Request::Have(initial[i], cid)
                        },
                    )
            }
        }),
{
}

/// What a have or block query in progress, once it is answered, leaves the get query with: the
/// state, if the answered query is a subquery of a get query.
pub open spec fn left_with(
    m: ManagerView,
    id: QueryId,
    peer: PeerId,
    have: bool,
) -> Option<GetView> {
    if m.has(id) && m.query(id).hdr.parent is Some {
        match m.forget(id).get_state(m.query(id).hdr.parent->0) {
            Some(state) => Some(state.answered(id, peer, have)),
            None => None,
        }
    } else {
        None
    }
}

/// A peer that is known to have the block is asked for it as soon as no other peer is being asked
/// for it: if a block query fails, the peer that answered last is asked.
pub proof fn law_spare_peer_is_asked(m: ManagerView, id: QueryId, peer: PeerId)
    requires
        m.wf(),
        left_with(m, id, peer, false) matches Some(state) && state.block is None && state.res.len()
            > 0,
    ensures
        ({
            let cid = m.query(id).hdr.cid;
            let spare = left_with(m, id, peer, false)->0.res.last();
            let after = m.inject_response(id, Response::Block(peer, false));
            after.events == m.events.push(
                QueryEvent::Request(m.fresh(), Request::Block(spare, cid)),
            )
        }),
{
}

/// Is the event a request for the providers of a block?
pub open spec fn asks_for_providers(event: QueryEvent) -> bool {
    event matches QueryEvent::Request(_, req) && req is Providers
}

/// After an answer to a have or block query, providers are asked for exactly if no other query is
/// in progress, no peer is known to have the block, and the providers were not reported before.
pub proof fn law_providers_last(
    m: ManagerView,
    id: QueryId,
    peer: PeerId,
    have: bool,
    res: Response,
)
    requires
        m.wf(),
        m.answerable(id),
        res == Response::Have(peer, have) || (!have && res == Response::Block(peer, false)),
    ensures
        ({
            let after = m.inject_response(id, res);
            let asks = exists|i: int|
                m.events.len() <= i < after.events.len() && asks_for_providers(
                    #[trigger] after.events[i],
                );
            asks <==> (left_with(m, id, peer, have) matches Some(state) && state.idle()
                && state.initial)
        }),
{
    let after = m.inject_response(id, res);
    if left_with(m, id, peer, have) matches Some(state) && state.idle() && state.initial {
        let i = m.events.len() as int;
        assert(asks_for_providers(after.events[i]));
    }
}

/// A get query whose providers were reported remembers it for as long as it goes on, whatever
/// response comes.
pub proof fn law_providers_stay_reported(m: ManagerView, id: QueryId, res: Response, get: QueryId)
    requires
        m.wf(),
        m.answerable(id),
        m.inject_response(id, res).fits(),
        m.get_state(get) matches Some(state) && !state.initial,
    ensures
        m.inject_response(id, res).get_state(get) matches Some(state) ==> !state.initial,
{
    if m.has(id) {
        let query = m.query(id).hdr;
        let rest = m.forget(id);
        let parent_id = query.parent->0;
        let base = rest.forget(parent_id);
        lemma_forget_wf(m, id);
        lemma_forget_wf(rest, parent_id);
        assert(m.query(get).hdr.id == get);
        if rest.has(parent_id) {
            assert(rest.query(parent_id).hdr.id == parent_id);
        }
        if let Response::MissingBlocks(cids) = res {
            if let Some(before) = rest.sync_state(parent_id) {
                let providers = before.providers_of(id);
                let missing = before.missing + base.ids_of_gets(parent_id, cids@, providers);
                if !(missing.is_empty() && before.children.remove(id@).is_empty()) {
                    lemma_get_each_wf(base, parent_id, cids@, providers);
                    assert(base.queries.contains_key(get@) || get == parent_id || get == id);
                }
            }
        }
    }
}

/// The events that a response led to are requests of new subqueries, or else one event says that
/// a query is complete. That query was in progress before and is not afterwards, it is part of no
/// other query, and it is of the type that the event names.
pub open spec fn steps_to(m: ManagerView, after: ManagerView) -> bool {
    let n = m.events.len();
    &&& n <= after.events.len()
    &&& forall|i: int| 0 <= i < n ==> #[trigger] after.events[i] == m.events[i]
    &&& {
        ||| forall|i: int|
            n <= i < after.events.len() ==> {
                &&& #[trigger] after.events[i] is Request
                &&& m.next_id <= event_id(after.events[i])@ < after.next_id
            }
        ||| {
            &&& after.events.len() == n + 1
            &&& after.events[n as int] matches QueryEvent::Complete(id, ty, _)
            &&& m.has(id)
            &&& !after.has(id)
            &&& m.query(id).hdr.parent is None
            &&& ty is Get ==> m.get_state(id) is Some
            &&& ty is Sync ==> m.sync_state(id) is Some
        }
    }
}

/// The queries in progress are some that were before, and new ones.
pub open spec fn takes_no_old_id(m: ManagerView, after: ManagerView) -> bool {
    &&& m.next_id <= after.next_id
    &&& forall|k: u64| #[trigger]
        after.queries.contains_key(k) ==> m.queries.contains_key(k) || m.next_id <= k
            < after.next_id
}

proof fn lemma_recv_get_steps(m: ManagerView, query: Header, providers: Seq<PeerId>)
    requires
        m.wf(),
        !m.has(query.id),
        query.id@ < m.next_id,
        m.recv_get(query, providers).fits(),
    ensures
        ({
            let after = m.recv_get(query, providers);
            &&& takes_no_old_id(m, after)
            &&& query.parent is Some ==> steps_to(m, after)
            &&& query.parent is None ==> {
                &&& after.queries == m.queries
                &&& after.events.drop_last() == m.events
                &&& after.events.len() == m.events.len() + 1
                &&& after.events.last() matches QueryEvent::Complete(id, QueryType::Get, _)
                &&& id == query.id
            }
        }),
{
    let after = m.recv_get(query, providers);
    if let Some(id) = query.parent {
        if m.sync_state(id) is Some {
            assert(m.query(id).hdr.id == id);
        }
    } else {
        assert(after.events.drop_last() =~= m.events);
    }
}

/// A query is answered once: it is no longer in progress after a response. The response brings no
/// old query back, leaves the events that were there, and completes one query at most.
pub proof fn law_response_steps(m: ManagerView, id: QueryId, res: Response)
    requires
        m.wf(),
        m.answerable(id),
        m.inject_response(id, res).fits(),
    ensures
        !m.inject_response(id, res).has(id),
        takes_no_old_id(m, m.inject_response(id, res)),
        steps_to(m, m.inject_response(id, res)),
{
    if m.has(id) {
        let query = m.query(id).hdr;
        let rest = m.forget(id);
        lemma_forget_wf(m, id);
        let parent_id = query.parent->0;
        let base = rest.forget(parent_id);
        lemma_forget_wf(rest, parent_id);
        if rest.has(parent_id) {
            let parent = rest.query(parent_id).hdr;
            assert(parent.id == parent_id);
            match res {
                Response::Have(peer, have) => {
                    if let Some(before) = rest.get_state(parent_id) {
                        let state = before.answered(id, peer, have);
                        if state.idle() && !state.initial {
                            lemma_recv_get_steps(base, parent, Seq::empty());
                        }
                    }
                },
                Response::Block(peer, block) => {
                    if let Some(before) = rest.get_state(parent_id) {
                        if block {
                            lemma_recv_get_steps(base, parent, before.res.push(peer));
                        } else {
                            let state = before.answered(id, peer, false);
                            if state.idle() && !state.initial {
                                lemma_recv_get_steps(base, parent, Seq::empty());
                            }
                        }
                    }
                },
                Response::Providers(peers) => {
                    if let Some(before) = rest.get_state(parent_id) {
                        let asking = (GetView { initial: false, ..before }).asking(
                            rest.next_id,
                            peers@.len(),
                        );
                        if asking.idle() {
                            lemma_recv_get_steps(base, parent, Seq::empty());
                        } else {
                            lemma_ask_wf(
                                base,
                                before,
                                parent.root,
                                parent_id,
                                query.cid,
                                peers@,
                            );
                        }
                    }
                },
                Response::MissingBlocks(cids) => {
                    if let Some(before) = rest.sync_state(parent_id) {
                        let providers = before.providers_of(id);
                        let missing = before.missing + base.ids_of_gets(
                            parent_id,
                            cids@,
                            providers,
                        );
                        if !(missing.is_empty() && before.children.remove(id@).is_empty()) {
                            lemma_get_each_wf(base, parent_id, cids@, providers);
                        }
                    }
                },
            }
        }
    }
}

/// A second response to the same query changes nothing.
pub proof fn law_answered_once(m: ManagerView, id: QueryId, res: Response, again: Response)
    requires
        m.wf(),
        m.answerable(id),
        m.inject_response(id, res).fits(),
    ensures
        m.inject_response(id, res).inject_response(id, again) == m.inject_response(id, res),
{
    law_response_steps(m, id, res);
}

/// A query that is over stays over: an id that was taken and is not in progress is never in
/// progress again, whatever happens next.
pub proof fn law_over_is_over(
    m: ManagerView,
    over: QueryId,
    id: QueryId,
    res: Response,
    parent: Option<QueryId>,
    cid: Cid,
    initial: Seq<PeerId>,
    missing: Seq<Cid>,
)
    requires
        m.wf(),
        over@ < m.next_id,
        !m.has(over),
    ensures
        m.get(parent, cid, initial).fits() ==> !m.get(parent, cid, initial).has(over),
        m.sync(cid, missing).fits() ==> !m.sync(cid, missing).has(over),
        m.answerable(id) && m.inject_response(id, res).fits() ==> !m.inject_response(
            id,
            res,
        ).has(over),
        !m.cancel(id).has(over),
        !m.next().has(over),
{
    if m.get(parent, cid, initial).fits() {
        lemma_get_wf(m, parent, cid, initial);
    }
    if m.sync(cid, missing).fits() {
        lemma_sync_wf(m, cid, missing);
    }
    if m.answerable(id) && m.inject_response(id, res).fits() {
        law_response_steps(m, id, res);
    }
}

/// No query completes twice: a query that a response completes was in progress, and no event said
/// before that it was complete.
pub proof fn law_completes_once(m: ManagerView, id: QueryId, res: Response, i: int, j: int)
    requires
        m.wf(),
        m.answerable(id),
        m.inject_response(id, res).fits(),
        0 <= i < m.events.len() <= j < m.inject_response(id, res).events.len(),
        m.events[i] is Complete,
        m.inject_response(id, res).events[j] is Complete,
    ensures
        m.has(event_id(m.inject_response(id, res).events[j])),
        event_id(m.events[i]) != event_id(m.inject_response(id, res).events[j]),
{
    law_response_steps(m, id, res);
    assert(m.event_wf(m.events[i]));
}

/// Nothing but the answered query is in progress for the get query, no peer is known to have the
/// block, and its providers were reported.
pub open spec fn nowhere_left(m: ManagerView, get: QueryId, id: QueryId, res: Response) -> bool {
    &&& m.get_state(get) matches Some(state)
    &&& forall|k: u64| #[trigger] state.have.contains(k) ==> k == id@
    &&& state.block is None || state.block == Some(id)
    &&& state.res.len() == 0
    &&& !state.initial || (res matches Response::Providers(peers) && peers@.len() == 0)
}

/// A get query that is not part of a sync query completes with success exactly if its block was
/// received.
pub proof fn law_get_succeeds(m: ManagerView, id: QueryId, res: Response, get: QueryId)
    requires
        m.wf(),
        m.has(id),
        m.query(id).state is Leaf,
        m.query(id).hdr.parent == Some(get),
        m.get_state(get) is Some,
        m.query(get).hdr.parent is None,
        m.inject_response(id, res).fits(),
    ensures
        ({
            let after = m.inject_response(id, res);
            let success = QueryEvent::Complete(get, QueryType::Get, Ok(()));
            if res matches Response::Block(_, received) && received {
                &&& after.events == m.events.push(success)
                &&& !after.has(get)
            } else {
                forall|i: int|
                    m.events.len() <= i < after.events.len() ==> #[trigger] after.events[i]
                        != success
            }
        }),
{
    assert(m.query(get).hdr.id == get);
    law_response_steps(m, id, res);
}

/// The response that answers a subquery leaves the get query with nothing in progress and nobody
/// left to ask.
spec fn left_idle(state: GetView, next_id: nat, id: QueryId, res: Response) -> bool {
    match res {
        Response::Have(peer, have) => state.answered(id, peer, have).idle(),
        Response::Block(peer, _) => state.answered(id, peer, false).idle(),
        Response::Providers(peers) => state.asking(next_id, peers@.len()).idle(),
        Response::MissingBlocks(_) => false,
    }
}

/// A get query that a response leaves idle was waiting for no have query but the answered one.
proof fn lemma_no_other_have_query(state: GetView, next_id: nat, id: QueryId, res: Response)
    requires
        left_idle(state, next_id, id, res),
    ensures
        forall|k: u64| #[trigger] state.have.contains(k) ==> k == id@,
{
    assert forall|k: u64| #[trigger] state.have.contains(k) implies k == id@ by {
        match res {
            Response::Providers(peers) => {
                assert(state.asking(next_id, peers@.len()).have.contains(k));
            },
            _ => {
                assert(k != id@ ==> state.have.remove(id@).contains(k));
            },
        }
    }
}

/// A get query that is not part of a sync query fails only if there is nowhere left to get the
/// block from, and says which block was not found.
pub proof fn law_get_fails(
    m: ManagerView,
    id: QueryId,
    res: Response,
    i: int,
    get: QueryId,
    cid: Cid,
)
    requires
        m.wf(),
        m.answerable(id),
        m.inject_response(id, res).fits(),
        m.events.len() <= i < m.inject_response(id, res).events.len(),
        m.inject_response(id, res).events[i] == QueryEvent::Complete(
            get,
            QueryType::Get,
            Err(cid),
        ),
    ensures
        m.query(id).hdr.parent == Some(get),
        m.query(get).hdr.cid == cid,
        nowhere_left(m, get, id, res),
{
    law_response_steps(m, id, res);
    let query = m.query(id).hdr;
    let rest = m.forget(id);
    let parent_id = query.parent->0;
    if rest.has(parent_id) {
        assert(m.query(parent_id).hdr.id == parent_id);
    }
    let state = m.get_state(get)->0;
    lemma_no_other_have_query(state, m.next_id, id, res);
}

/// The response answers what the subquery of a get query asked for: a have or block query whether
/// a peer has the block or sent it, any other one which peers provide it.
pub open spec fn answers_get(m: ManagerView, get: QueryId, id: QueryId, res: Response) -> bool {
    let asks_peer = m.get_state(get) matches Some(state) && (state.have.contains(id@)
        || state.block == Some(id));
    match res {
        Response::Have(_, _) => asks_peer,
        Response::Block(_, _) => asks_peer,
        Response::Providers(_) => !asks_peer,
        Response::MissingBlocks(_) => false,
    }
}

/// The response names no peer that has the block, and does not bring it.
pub open spec fn finds_nothing(res: Response) -> bool {
    match res {
        Response::Have(_, have) => !have,
        Response::Block(_, received) => !received,
        Response::Providers(peers) => peers@.len() == 0,
        Response::MissingBlocks(_) => false,
    }
}

/// A response that finds nothing when there is nowhere left leaves the get query idle.
proof fn lemma_nothing_left(m: ManagerView, id: QueryId, res: Response, get: QueryId)
    requires
        finds_nothing(res),
        nowhere_left(m, get, id, res),
        answers_get(m, get, id, res),
    ensures
        left_idle(m.get_state(get)->0, m.next_id, id, res),
{
    let state = m.get_state(get)->0;
    match res {
        Response::Providers(peers) => {
            let asking = state.asking(m.next_id, 0);
            assert forall|k: u64| !asking.have.contains(k) by {
                assert(state.have.contains(k) ==> k == id@);
            }
            assert(asking.have =~= Set::empty());
        },
        _ => {
            assert(state.have.remove(id@) =~= Set::empty());
        },
    }
}

/// A get query that is not part of a sync query fails when a response finds nothing and there is
/// nowhere left to get the block from.
pub proof fn law_get_gives_up(m: ManagerView, id: QueryId, res: Response, get: QueryId)
    requires
        m.wf(),
        m.has(id),
        m.query(id).state is Leaf,
        m.query(id).hdr.parent == Some(get),
        m.get_state(get) is Some,
        m.query(get).hdr.parent is None,
        answers_get(m, get, id, res),
        finds_nothing(res),
        nowhere_left(m, get, id, res),
    ensures
        m.inject_response(id, res).events == m.events.push(
            QueryEvent::Complete(get, QueryType::Get, Err(m.query(get).hdr.cid)),
        ),
        !m.inject_response(id, res).has(get),
{
    assert(m.query(get).hdr.id == get);
    lemma_nothing_left(m, id, res, get);
}

/// A sync query fails when a response finds nothing and there is nowhere left to get one of its
/// blocks from.
pub proof fn law_sync_gives_up(
    m: ManagerView,
    id: QueryId,
    res: Response,
    get: QueryId,
    sync: QueryId,
)
    requires
        m.wf(),
        m.has(id),
        m.query(id).state is Leaf,
        m.query(id).hdr.parent == Some(get),
        m.get_state(get) is Some,
        m.query(get).hdr.parent == Some(sync),
        m.sync_state(sync) is Some,
        answers_get(m, get, id, res),
        finds_nothing(res),
        nowhere_left(m, get, id, res),
    ensures
        m.inject_response(id, res).events == m.events.push(
            QueryEvent::Complete(sync, QueryType::Sync, Err(m.query(get).hdr.cid)),
        ),
        !m.inject_response(id, res).has(get),
        !m.inject_response(id, res).has(sync),
{
    assert(m.query(get).hdr.id == get);
    assert(m.query(sync).hdr.id == sync);
    lemma_nothing_left(m, id, res, get);
}

/// When a block that a sync query asked for is received, the blocks below it are looked up, and
/// the peers that provided it are remembered for them.
pub proof fn law_sync_goes_deeper(
    m: ManagerView,
    id: QueryId,
    peer: PeerId,
    get: QueryId,
    sync: QueryId,
)
    requires
        m.wf(),
        m.has(id),
        m.query(id).state is Leaf,
        m.query(id).hdr.parent == Some(get),
        m.get_state(get) is Some,
        m.query(get).hdr.parent == Some(sync),
        m.sync_state(sync) is Some,
        m.next_id < u64::MAX,
    ensures
        ({
            let after = m.inject_response(id, Response::Block(peer, true));
            let cid = m.query(get).hdr.cid;
            &&& after.events == m.events.push(
                QueryEvent::Request(m.fresh(), Request::MissingBlocks(cid)),
            )
            &&& !after.has(get)
            &&& after.sync_state(sync) == Some(
                SyncView {
                    missing: m.sync_state(sync)->0.missing.remove(get@),
                    children: m.sync_state(sync)->0.children.insert(
                        m.fresh()@,
                        m.get_state(get)->0.res.push(peer),
                    ),
                },
            )
        }),
{
    assert(m.query(get).hdr.id == get);
    assert(m.query(sync).hdr.id == sync);
}

/// A sync query completes with success exactly if a lookup of missing blocks finds none, no other
/// lookup is in progress and no block is being retrieved.
pub proof fn law_sync_succeeds(m: ManagerView, id: QueryId, res: Response, sync: QueryId)
    requires
        m.wf(),
        m.has(id),
        m.query(id).state is Leaf,
        m.query(id).hdr.parent == Some(sync),
        m.sync_state(sync) is Some,
        m.inject_response(id, res).fits(),
    ensures
        ({
            let after = m.inject_response(id, res);
            let state = m.sync_state(sync)->0;
            let success = QueryEvent::Complete(sync, QueryType::Sync, Ok(()));
            let done = {
                &&& res matches Response::MissingBlocks(cids)
                &&& cids@.len() == 0
                &&& state.missing.is_empty()
                &&& forall|k: u64| #[trigger] state.children.contains_key(k) ==> k == id@
            };
            if done {
                &&& after.events == m.events.push(success)
                &&& !after.has(sync)
            } else {
                forall|i: int|
                    m.events.len() <= i < after.events.len() ==> #[trigger] after.events[i]
                        != success
            }
        }),
{
    assert(m.query(sync).hdr.id == sync);
    law_response_steps(m, id, res);
    let state = m.sync_state(sync)->0;
    if let Response::MissingBlocks(cids) = res {
        let base = m.forget(id).forget(sync);
        let providers = state.providers_of(id);
        lemma_no_ids_of_gets(base, sync, cids@, providers);
        let ids = base.ids_of_gets(sync, cids@, providers);
        let rest = state.children.remove(id@);
        assert((state.missing + ids).is_empty() ==> ids =~= Set::empty() && state.missing
            =~= Set::empty());
        assert(state.missing.is_empty() && ids.is_empty() ==> state.missing + ids =~= Set::empty());
        assert(rest.is_empty() <==> forall|k: u64| #[trigger]
            state.children.contains_key(k) ==> k == id@) by {
            if rest.is_empty() {
                assert forall|k: u64| #[trigger] state.children.contains_key(k) implies k
                    == id@ by {
                    assert(k != id@ ==> rest.dom().contains(k));
                }
            } else if forall|k: u64| #[trigger] state.children.contains_key(k) ==> k == id@ {
                assert(rest.dom() =~= Set::empty());
            }
        }
    }
}

/// A sync query fails only if there is nowhere left to get one of its blocks from, and says which
/// one.
pub proof fn law_sync_fails(
    m: ManagerView,
    id: QueryId,
    res: Response,
    i: int,
    sync: QueryId,
    cid: Cid,
)
    requires
        m.wf(),
        m.answerable(id),
        m.inject_response(id, res).fits(),
        m.events.len() <= i < m.inject_response(id, res).events.len(),
        m.inject_response(id, res).events[i] == QueryEvent::Complete(
            sync,
            QueryType::Sync,
            Err(cid),
        ),
    ensures
        ({
            let get = m.query(id).hdr.parent->0;
            &&& m.query(get).hdr.parent == Some(sync)
            &&& m.query(get).hdr.cid == cid
            &&& nowhere_left(m, get, id, res)
        }),
{
    law_response_steps(m, id, res);
    let query = m.query(id).hdr;
    let rest = m.forget(id);
    let get = query.parent->0;
    if rest.has(get) {
        assert(m.query(get).hdr.id == get);
    }
    if rest.get_state(get) is Some {
        let above = rest.query(get).hdr.parent->0;
        if rest.forget(get).has(above) {
            assert(m.query(above).hdr.id == above);
        }
    }
    let state = m.get_state(get)->0;
    lemma_no_other_have_query(state, m.next_id, id, res);
}

/// Cancelling ends a query and, if it is a sync query, the get queries that it waits for: they are
/// no longer in progress, and no request under it is left among the events. Every other query and
/// event stays, and cancelling it again does nothing.
pub proof fn law_cancel_ends(m: ManagerView, root: QueryId)
    requires
        m.wf(),
        m.cancels(root) is Some,
    ensures
        ({
            let after = m.cancel(root);
            let ends = |k: u64|
                k == root@ || (m.sync_state(root) matches Some(state) && state.missing.contains(k));
            &&& !after.has(root)
            &&& forall|k: u64| #[trigger]
                after.queries.contains_key(k) <==> m.queries.contains_key(k) && !ends(k)
            &&& forall|k: u64| #[trigger]
                after.queries.contains_key(k) ==> after.queries[k] == m.queries[k]
            &&& forall|i: int|
                0 <= i < after.events.len() ==> {
                    &&& m.events.contains(#[trigger] after.events[i])
                    &&& !after.belongs_to(after.events[i], root)
                }
            &&& forall|event: QueryEvent|
                m.events.contains(event) && !m.belongs_to(event, root)
                    ==> #[trigger] after.events.contains(event)
            &&& after.cancels(root) is None
            &&& after.cancel(root) == after
        }),
{
    let after = m.cancel(root);
    let rest = m.forget(root);
    let stays = |event: QueryEvent| !rest.belongs_to(event, root);
    lemma_filter_events(m, m.events, stays);
    assert(after.events == m.events.filter(stays));
    assert forall|event: QueryEvent|
        m.events.contains(event) && !m.belongs_to(event, root) implies #[trigger]
    after.events.contains(event) by {
        let i = choose|i: int| 0 <= i < m.events.len() && m.events[i] == event;
        m.events.lemma_filter_contains(stays, i);
    }
}

/// A response to a subquery whose query is not in progress is dropped.
pub proof fn law_orphan_is_dropped(m: ManagerView, id: QueryId, res: Response)
    requires
        m.has(id),
        m.query(id).hdr.parent is Some,
        !m.has(m.query(id).hdr.parent->0),
    ensures
        m.inject_response(id, res) == m.forget(id),
{
    let rest = m.forget(id);
    assert(rest.forget(m.query(id).hdr.parent->0).queries =~= rest.queries);
}

/// Right after a query is cancelled, a response to one of its subqueries, or to a subquery of one
/// of the get queries that it was waiting for, is dropped.
pub proof fn law_cancel_orphans(m: ManagerView, root: QueryId, id: QueryId, res: Response)
    requires
        m.wf(),
        m.cancels(root) is Some,
        m.cancel(root).has(id),
        m.cancel(root).query(id).hdr.parent matches Some(parent) && (parent == root || (
        m.sync_state(root) matches Some(state) && state.missing.contains(parent@))),
    ensures
        m.cancel(root).inject_response(id, res) == m.cancel(root).forget(id),
{
    law_orphan_is_dropped(m.cancel(root), id, res);
}

/// Ids that are not in progress are ignored.
pub proof fn law_unknown_is_ignored(m: ManagerView, id: QueryId, res: Response)
    requires
        !m.queries.contains_key(id@),
    ensures
        m.inject_response(id, res) == m,
        m.cancel(id) == m,
        m.cancels(id) is None,
{
}

/// A request that is retrieved can be answered: its query is in progress unless it was answered
/// already, and then it is a subquery about the block of the request.
pub proof fn law_request_is_answerable(m: ManagerView, id: QueryId, req: Request)
    requires
        m.wf(),
        m.events.len() > 0,
        m.events[0] == QueryEvent::Request(id, req),
    ensures
        m.next().answerable(id),
        m.next().has(id) ==> {
            &&& m.query(id).state is Leaf
            &&& m.query(id).hdr.cid == request_cid(req)
        },
{
    assert(m.event_wf(m.events[0]));
}

} // verus!
