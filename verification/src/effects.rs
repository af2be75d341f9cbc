//! What each operation does to the queries in progress and the events, number by number and event
//! by event. Together these laws leave nothing open: they say of every query, old or new, whether
//! it is in progress afterwards and what it remembers, and they list the events that are added.
use crate::lemmas::{lemma_forget_wf, lemma_get_each_wf, lemma_no_ids_of_gets};
use crate::model::{GetView, ManagerView, QueryView, StateView, SyncView};
use crate::types::{group_query_id, Header, QueryEvent, QueryId, QueryType, Request, Response};
use cid::Cid;
use libp2p::PeerId;
use vstd::prelude::*;

verus! {

broadcast use group_query_id;

/// Each query is found by the number of its id, which was taken, and a sync query is the root of
/// itself.
pub open spec fn tidy(m: ManagerView) -> bool {
    &&& m.next_id <= u64::MAX
    &&& forall|k: u64| #[trigger]
        m.queries.contains_key(k) ==> {
            &&& m.queries[k].hdr.id@ == k
            &&& k < m.next_id
            &&& m.queries[k].state is Sync ==> m.queries[k].hdr.root@ == k
        }
}

/// Queries with old numbers are as they were, apart from those with the given numbers.
pub open spec fn spares(m: ManagerView, after: ManagerView, touched: Set<u64>) -> bool {
    forall|k: u64|
        #![trigger after.queries.contains_key(k)]
        #![trigger m.queries.contains_key(k)]
        k < m.next_id && !touched.contains(k) ==> {
            &&& after.queries.contains_key(k) <==> m.queries.contains_key(k)
            &&& m.queries.contains_key(k) ==> after.queries[k] == m.queries[k]
        }
}

/// Exactly so many ids were taken, and all of them are in progress.
pub open spec fn takes(m: ManagerView, after: ManagerView, count: nat) -> bool {
    &&& after.next_id == m.next_id + count
    &&& forall|k: u64|
        m.next_id <= k ==> (#[trigger] after.queries.contains_key(k) <==> k < after.next_id)
}

/// Exactly these events were added.
pub open spec fn emits(m: ManagerView, after: ManagerView, events: Seq<QueryEvent>) -> bool {
    after.events =~= m.events + events
}

/// Under the number there is a subquery in progress that was made for the query `parent`.
pub open spec fn subquery_at(
    m: ManagerView,
    n: nat,
    root: QueryId,
    parent: QueryId,
    cid: Cid,
) -> bool {
    &&& m.queries.contains_key(n as u64)
    &&& m.queries[n as u64] == QueryView {
        hdr: Header { id: QueryId::of(n), root, parent: Some(parent), cid },
        state: StateView::Leaf,
    }
}

/// How many requests a get query starts with.
pub open spec fn starts_with(initial: Seq<PeerId>) -> nat {
    if initial.len() == 0 {
        1
    } else {
        initial.len()
    }
}

/// The request number `j` that a get query starts with.
pub open spec fn first_request(cid: Cid, initial: Seq<PeerId>, j: int) -> Request {
    if initial.len() == 0 {
        Request::Providers(cid)
    } else if j == 0 {
        Request::Block(initial[0], cid)
    } else {
        Request::Have(initial[j], cid)
    }
}

/// Under the number there is a get query that has just been started: the providers of its block
/// were not reported, it waits for a block query under the next number if it has an initial peer,
/// and for have queries under the numbers after that, one for each other initial peer.
pub open spec fn get_at(
    m: ManagerView,
    n: nat,
    root: QueryId,
    parent: Option<QueryId>,
    cid: Cid,
    initial: Seq<PeerId>,
) -> bool {
    &&& m.queries.contains_key(n as u64)
    &&& m.queries[n as u64].hdr == Header { id: QueryId::of(n), root, parent, cid }
    &&& m.queries[n as u64].state matches StateView::Get(state)
    &&& state.initial
    &&& state.res.len() == 0
    &&& initial.len() == 0 ==> state.block is None
    &&& initial.len() > 0 ==> state.block == Some(QueryId::of(n + 1))
    &&& forall|k: u64| #[trigger] state.have.contains(k) <==> n + 2 <= k < n + 1 + initial.len()
}

/// The root of a get query: the query that it is part of, or itself.
pub open spec fn root_for(parent: Option<QueryId>, id: QueryId) -> QueryId {
    match parent {
        Some(parent) => parent,
        None => id,
    }
}

/// The invariant makes a manager tidy.
pub proof fn law_wf_is_tidy(m: ManagerView)
    requires
        m.wf(),
    ensures
        tidy(m),
{
}

/// A manager that was never used knows no query, has no event and starts counting at zero.
pub proof fn law_new_is_blank()
    ensures
        ManagerView::new().next_id == 0,
        ManagerView::new().events.len() == 0,
        forall|k: u64| !(#[trigger] ManagerView::new().queries.contains_key(k)),
        tidy(ManagerView::new()),
{
}

/// The next id has the number that is next.
pub proof fn law_ids_are_counted(m: ManagerView)
    requires
        m.next_id <= u64::MAX,
    ensures
        m.fresh()@ == m.next_id,
{
}

/// A get query takes one id for itself and one for each request that it starts with. It asks its
/// first initial peer for the block and the others whether they have it, or, without initial
/// peers, who provides the block. The providers count as not reported, whoever it was started for.
pub proof fn law_get_does(
    m: ManagerView,
    parent: Option<QueryId>,
    cid: Cid,
    initial: Seq<PeerId>,
)
    requires
        tidy(m),
        m.next_id + 1 + starts_with(initial) <= u64::MAX,
    ensures
        ({
            let after = m.get(parent, cid, initial);
            let id = QueryId::of(m.next_id);
            let root = root_for(parent, id);
            &&& tidy(after)
            &&& takes(m, after, 1 + starts_with(initial))
            &&& spares(m, after, Set::empty())
            &&& get_at(after, m.next_id, root, parent, cid, initial)
            &&& forall|j: int|
                0 <= j < starts_with(initial) ==> #[trigger] subquery_at(
                    after,
                    (m.next_id + 1 + j) as nat,
                    root,
                    id,
                    cid,
                )
            &&& emits(
                m,
                after,
                Seq::new(
                    starts_with(initial),
                    |j: int|
                        QueryEvent::Request(
                            QueryId::of((m.next_id + 1 + j) as nat),
                            first_request(cid, initial, j),
                        ),
                ),
            )
        }),
{
    let after = m.get(parent, cid, initial);
    let events = Seq::new(
        starts_with(initial),
        |j: int|
            QueryEvent::Request(
                QueryId::of((m.next_id + 1 + j) as nat),
                first_request(cid, initial, j),
            ),
    );
    assert(after.events =~= m.events + events);
}

/// The number of the get query for block number `i`, if the first of them has the number `first`.
pub open spec fn get_number(first: nat, i: int, initial: Seq<PeerId>) -> nat {
    (first + i * (1 + starts_with(initial))) as nat
}

/// The get query for block number `i` comes before those for the blocks after it.
proof fn lemma_get_numbers(first: nat, i: int, n: int, initial: Seq<PeerId>)
    requires
        0 <= i < n,
    ensures
        first <= get_number(first, i, initial),
        get_number(first, i, initial) + 1 + starts_with(initial) == get_number(
            first,
            i + 1,
            initial,
        ),
        get_number(first, i + 1, initial) <= get_number(first, n, initial),
        0 <= i * starts_with(initial),
        i * starts_with(initial) + starts_with(initial) == (i + 1) * starts_with(initial),
        (i + 1) * starts_with(initial) <= n * starts_with(initial),
{
    let w = starts_with(initial) as int;
    assert(i * (1 + w) + (1 + w) == (i + 1) * (1 + w)) by (nonlinear_arith);
    assert(i * w + w == (i + 1) * w) by (nonlinear_arith);
    assert(0 <= i * (1 + w) && 0 <= i * w) by (nonlinear_arith)
        requires
            0 <= i,
            0 <= w,
    ;
    assert((i + 1) * (1 + w) <= n * (1 + w) && (i + 1) * w <= n * w) by (nonlinear_arith)
        requires
            i + 1 <= n,
            0 <= w,
    ;
}

/// Get queries for blocks take their ids and emit their requests one after the other.
proof fn lemma_get_each_does(
    m: ManagerView,
    parent: QueryId,
    cids: Seq<Cid>,
    initial: Seq<PeerId>,
)
    requires
        tidy(m),
        get_number(m.next_id, cids.len() as int, initial) <= u64::MAX,
    ensures
        ({
            let after = m.get_each(parent, cids, initial);
            &&& tidy(after)
            &&& after.next_id == get_number(m.next_id, cids.len() as int, initial)
            &&& takes(m, after, (after.next_id - m.next_id) as nat)
            &&& spares(m, after, Set::empty())
            &&& after.events.len() == m.events.len() + cids.len() * starts_with(initial)
            &&& forall|x: int|
                0 <= x < m.events.len() ==> #[trigger] after.events[x] == m.events[x]
        }),
    decreases cids.len(),
{
    if cids.len() > 0 {
        let fewer = cids.drop_last();
        let before = m.get_each(parent, fewer, initial);
        let after = m.get_each(parent, cids, initial);
        lemma_get_numbers(m.next_id, fewer.len() as int, cids.len() as int, initial);
        lemma_get_each_does(m, parent, fewer, initial);
        law_get_does(before, Some(parent), cids.last(), initial);
        assert forall|x: int| 0 <= x < m.events.len() implies #[trigger] after.events[x]
            == m.events[x] by {
            assert(after.events[x] == before.events[x]);
        }
    }
}

/// The get query for block number `i` is a get query for that block, and its subquery number `j`
/// makes the request number `j` that it starts with.
proof fn lemma_get_each_row(
    m: ManagerView,
    parent: QueryId,
    cids: Seq<Cid>,
    initial: Seq<PeerId>,
    i: int,
    j: int,
)
    requires
        tidy(m),
        get_number(m.next_id, cids.len() as int, initial) <= u64::MAX,
        0 <= i < cids.len(),
        0 <= j < starts_with(initial),
    ensures
        ({
            let after = m.get_each(parent, cids, initial);
            let n = get_number(m.next_id, i, initial);
            let sub = (n + 1 + j) as nat;
            let x = m.events.len() + i * starts_with(initial) + j;
            &&& m.next_id <= n
            &&& n + 1 + starts_with(initial) <= after.next_id
            &&& m.events.len() <= x < after.events.len()
            &&& get_at(after, n, parent, Some(parent), cids[i], initial)
            &&& subquery_at(after, sub, parent, QueryId::of(n), cids[i])
            &&& after.events[x] == QueryEvent::Request(
                QueryId::of(sub),
                first_request(cids[i], initial, j),
            )
        }),
    decreases cids.len(),
{
    let fewer = cids.drop_last();
    let before = m.get_each(parent, fewer, initial);
    let after = m.get_each(parent, cids, initial);
    let n = get_number(m.next_id, i, initial);
    let x = m.events.len() + i * starts_with(initial) + j;
    lemma_get_numbers(m.next_id, fewer.len() as int, cids.len() as int, initial);
    lemma_get_numbers(m.next_id, i, cids.len() as int, initial);
    lemma_get_each_does(m, parent, fewer, initial);
    law_get_does(before, Some(parent), cids.last(), initial);
    if i < fewer.len() {
        lemma_get_numbers(m.next_id, i, fewer.len() as int, initial);
        lemma_get_each_row(m, parent, fewer, initial, i, j);
        assert(before.queries.contains_key(n as u64));
        assert(before.queries.contains_key((n + 1 + j) as u64));
        assert(after.events[x] == before.events[x]);
    } else {
        assert(subquery_at(
            after,
            (before.next_id + 1 + j) as nat,
            parent,
            QueryId::of(before.next_id),
            cids[i],
        ));
        assert(after.events[x] == (after.events.skip(before.events.len() as int))[j]);
    }
}

/// The ids of the get queries are their numbers.
proof fn lemma_ids_are_numbers(
    m: ManagerView,
    parent: QueryId,
    cids: Seq<Cid>,
    initial: Seq<PeerId>,
    k: u64,
)
    requires
        tidy(m),
        get_number(m.next_id, cids.len() as int, initial) <= u64::MAX,
    ensures
        m.ids_of_gets(parent, cids, initial).contains(k) <==> exists|i: int|
            0 <= i < cids.len() && k == #[trigger] get_number(m.next_id, i, initial),
    decreases cids.len(),
{
    if cids.len() > 0 {
        let fewer = cids.drop_last();
        lemma_get_numbers(m.next_id, fewer.len() as int, cids.len() as int, initial);
        lemma_ids_are_numbers(m, parent, fewer, initial, k);
        lemma_get_each_does(m, parent, fewer, initial);
        let last = get_number(m.next_id, fewer.len() as int, initial);
        assert(m.get_each(parent, fewer, initial).fresh()@ == last);
    }
}

/// For each of the blocks, in their order, there is a get query for the sync query, the first under
/// the number `first`, each followed by its subqueries; and the events added are the requests that
/// these get queries start with, in the same order, and nothing else.
pub open spec fn gets_blocks(
    m: ManagerView,
    after: ManagerView,
    first: nat,
    sync: QueryId,
    cids: Seq<Cid>,
    initial: Seq<PeerId>,
) -> bool {
    let w = starts_with(initial);
    &&& after.next_id == first + cids.len() * (1 + w)
    &&& after.events.len() == m.events.len() + cids.len() * w
    &&& forall|x: int| 0 <= x < m.events.len() ==> #[trigger] after.events[x] == m.events[x]
    &&& forall|i: int|
        0 <= i < cids.len() ==> get_at(
            after,
            #[trigger] get_number(first, i, initial),
            sync,
            Some(sync),
            cids[i],
            initial,
        )
    &&& forall|i: int, j: int|
        #![trigger first_request(cids[i], initial, j)]
        0 <= i < cids.len() && 0 <= j < w ==> {
            let n = get_number(first, i, initial);
            let sub = (n + 1 + j) as nat;
            &&& subquery_at(after, sub, sync, QueryId::of(n), cids[i])
            &&& after.events[m.events.len() + i * w + j] == QueryEvent::Request(
                QueryId::of(sub),
                first_request(cids[i], initial, j),
            )
        }
}

/// The get queries that were started are as described, also once the sync query is remembered.
proof fn lemma_gets_blocks(
    m: ManagerView,
    after: ManagerView,
    sync: QueryId,
    cids: Seq<Cid>,
    initial: Seq<PeerId>,
)
    requires
        tidy(m),
        sync@ < m.next_id,
        get_number(m.next_id, cids.len() as int, initial) <= u64::MAX,
        after.next_id == m.get_each(sync, cids, initial).next_id,
        after.events == m.get_each(sync, cids, initial).events,
        forall|k: u64| #[trigger]
            m.get_each(sync, cids, initial).queries.contains_key(k) && k != sync@
                ==> after.queries.contains_key(k) && after.queries[k] == m.get_each(
                sync,
                cids,
                initial,
            ).queries[k],
    ensures
        gets_blocks(m, after, m.next_id, sync, cids, initial),
{
    let w = starts_with(initial);
    let started = m.get_each(sync, cids, initial);
    lemma_get_each_does(m, sync, cids, initial);
    assert forall|i: int| 0 <= i < cids.len() implies get_at(
        after,
        #[trigger] get_number(m.next_id, i, initial),
        sync,
        Some(sync),
        cids[i],
        initial,
    ) by {
        let n = get_number(m.next_id, i, initial);
        lemma_get_each_row(m, sync, cids, initial, i, 0);
        assert(started.queries.contains_key(n as u64));
    }
    assert forall|i: int, j: int|
        #![trigger first_request(cids[i], initial, j)]
        0 <= i < cids.len() && 0 <= j < w implies {
        let n = get_number(m.next_id, i, initial);
        let sub = (n + 1 + j) as nat;
        &&& subquery_at(after, sub, sync, QueryId::of(n), cids[i])
        &&& after.events[m.events.len() + i * w + j] == QueryEvent::Request(
            QueryId::of(sub),
            first_request(cids[i], initial, j),
        )
    } by {
        let n = get_number(m.next_id, i, initial);
        lemma_get_each_row(m, sync, cids, initial, i, j);
        assert(started.queries.contains_key((n + 1 + j) as u64));
    }
}

/// A sync query takes one id for itself. It gets each of the missing blocks, in their order, and
/// waits for exactly those get queries; without missing blocks it looks them up, and waits for
/// that. Nothing else changes.
pub proof fn law_sync_does(m: ManagerView, cid: Cid, missing: Seq<Cid>)
    requires
        tidy(m),
        missing.len() == 0 ==> m.next_id + 2 <= u64::MAX,
        m.next_id + 1 + 2 * missing.len() <= u64::MAX,
    ensures
        ({
            let after = m.sync(cid, missing);
            let id = QueryId::of(m.next_id);
            let first = m.next_id + 1;
            let nobody = Seq::<PeerId>::empty();
            &&& tidy(after)
            &&& spares(m, after, Set::empty())
            &&& after.queries.contains_key(id@)
            &&& after.queries[id@].hdr == Header { id, root: id, parent: None, cid }
            &&& after.queries[id@].state matches StateView::Sync(state)
            &&& if missing.len() == 0 {
                &&& takes(m, after, 2)
                &&& emits(
                    m,
                    after,
                    seq![QueryEvent::Request(QueryId::of(first), Request::MissingBlocks(cid))],
                )
                &&& subquery_at(after, first, id, id, cid)
                &&& forall|k: u64| !(#[trigger] state.missing.contains(k))
                &&& forall|k: u64| #[trigger] state.children.contains_key(k) <==> k == first
                &&& state.children[first as u64].len() == 0
            } else {
                &&& takes(m, after, 1 + 2 * missing.len())
                &&& gets_blocks(m, after, first, id, missing, nobody)
                &&& forall|k: u64| #[trigger]
                    state.missing.contains(k) <==> exists|i: int|
                        0 <= i < missing.len() && k == #[trigger] get_number(first, i, nobody)
                &&& forall|k: u64| !(#[trigger] state.children.contains_key(k))
            }
        }),
{
    let after = m.sync(cid, missing);
    let id = QueryId::of(m.next_id);
    let nobody = Seq::<PeerId>::empty();
    let taken = m.allocate();
    let w = starts_with(nobody);
    assert(tidy(taken));
    assert(missing.len() * (1 + w) == 2 * missing.len()) by (nonlinear_arith)
        requires
            w == 1,
    ;
    if missing.len() == 0 {
        assert(after.events =~= m.events + seq![
            QueryEvent::Request(QueryId::of(taken.next_id), Request::MissingBlocks(cid)),
        ]);
    } else {
        lemma_get_each_does(taken, id, missing, nobody);
        lemma_gets_blocks(taken, after, id, missing, nobody);
        let state = after.queries[id@].state->Sync_0;
        assert forall|k: u64| #[trigger]
            state.missing.contains(k) <==> exists|i: int|
                0 <= i < missing.len() && k == #[trigger] get_number(taken.next_id, i, nobody) by {
            lemma_ids_are_numbers(taken, id, missing, nobody, k);
        }
    }
}

/// The queries with the given numbers are no longer in progress, and all other old ones are as they
/// were.
pub open spec fn ends(m: ManagerView, after: ManagerView, over: Set<u64>) -> bool {
    &&& spares(m, after, over)
    &&& forall|k: u64| over.contains(k) ==> !(#[trigger] after.queries.contains_key(k))
}

/// The query `id` is in progress, and the query that waits for it has the id `p`.
pub open spec fn waited_for(m: ManagerView, id: QueryId, p: QueryId) -> bool {
    m.queries.contains_key(id@) && m.queries[id@].hdr.parent == Some(p)
}

/// The query is a get query in progress in the given state.
pub open spec fn is_get(m: ManagerView, id: QueryId, state: GetView) -> bool {
    m.queries.contains_key(id@) && m.queries[id@].state == StateView::Get(state)
}

/// The query is a sync query in progress in the given state.
pub open spec fn is_sync(m: ManagerView, id: QueryId, state: SyncView) -> bool {
    m.queries.contains_key(id@) && m.queries[id@].state == StateView::Sync(state)
}

/// The get query `p` goes on after the answer to its subquery `id`, for which it does not wait any
/// longer.
pub open spec fn get_goes_on(
    m: ManagerView,
    after: ManagerView,
    id: QueryId,
    p: QueryId,
    state: GetView,
    block: Option<QueryId>,
    res: Seq<PeerId>,
) -> bool {
    &&& after.queries.contains_key(p@)
    &&& after.queries[p@].hdr == m.queries[p@].hdr
    &&& after.queries[p@].state matches StateView::Get(now)
    &&& now.initial == state.initial
    &&& now.block == block
    &&& now.res =~= res
    &&& forall|k: u64| #[trigger] now.have.contains(k) <==> state.have.contains(k) && k != id@
}

/// The get query `p` is over after the answer to its subquery `id`: the peers in `found` have the
/// block, and if there are none it was not found.
///
/// A get query that is part of nothing says so. A sync query in progress that it is part of fails
/// with the block that was not found, or else looks up what is missing below the block, waits for
/// that, and remembers the peers. Whatever else it was part of is forgotten.
pub open spec fn get_is_over(
    m: ManagerView,
    after: ManagerView,
    id: QueryId,
    p: QueryId,
    found: Seq<PeerId>,
) -> bool {
    let cid = m.queries[p@].hdr.cid;
    match m.queries[p@].hdr.parent {
        None => {
            let res = if found.len() == 0 {
                Err(cid)
            } else {
                Ok(())
            };
            &&& takes(m, after, 0)
            &&& ends(m, after, set![id@, p@])
            &&& emits(m, after, seq![QueryEvent::Complete(p, QueryType::Get, res)])
        },
        Some(s) => if s != id && s != p && m.queries.contains_key(s@)
            && m.queries[s@].state is Sync {
            if found.len() == 0 {
                &&& takes(m, after, 0)
                &&& ends(m, after, set![id@, p@, s@])
                &&& emits(m, after, seq![QueryEvent::Complete(s, QueryType::Sync, Err(cid))])
            } else {
                let old = m.queries[s@].state->Sync_0;
                &&& takes(m, after, 1)
                &&& spares(m, after, set![id@, p@, s@])
                &&& !after.queries.contains_key(id@)
                &&& !after.queries.contains_key(p@)
                &&& subquery_at(after, m.next_id, s, s, cid)
                &&& emits(
                    m,
                    after,
                    seq![
                        QueryEvent::Request(QueryId::of(m.next_id), Request::MissingBlocks(cid)),
                    ],
                )
                &&& after.queries.contains_key(s@)
                &&& after.queries[s@].hdr == m.queries[s@].hdr
                &&& after.queries[s@].state matches StateView::Sync(now)
                &&& forall|k: u64| #[trigger]
                    now.missing.contains(k) <==> old.missing.contains(k) && k != p@
                &&& now.children =~= old.children.insert(m.next_id as u64, found)
            }
        } else {
            &&& takes(m, after, 0)
            &&& ends(m, after, set![id@, p@, s@])
            &&& emits(m, after, Seq::empty())
        },
    }
}

/// A response to a query that nothing in progress waits for, or that a query waits for which has
/// no use for a response of that kind, ends both and says nothing.
pub proof fn law_misfit_does(m: ManagerView, id: QueryId, p: QueryId, res: Response)
    requires
        tidy(m),
        waited_for(m, id, p),
        p != id && m.queries.contains_key(p@) ==> if res is MissingBlocks {
            !(m.queries[p@].state is Sync)
        } else {
            !(m.queries[p@].state is Get)
        },
    ensures
        takes(m, m.inject_response(id, res), 0),
        ends(m, m.inject_response(id, res), set![id@, p@]),
        emits(m, m.inject_response(id, res), Seq::empty()),
{
}

/// A peer answered whether it has the block, or did not send it.
///
/// If it has the block it joins the spare peers. As long as another peer is being asked for the
/// block the get query just waits on. Otherwise the spare peer that came last is asked for it.
/// Without a spare peer the get query waits for the other peers that were asked, then asks for
/// providers, and once those were reported the block was not found.
pub proof fn law_have_does(
    m: ManagerView,
    id: QueryId,
    p: QueryId,
    state: GetView,
    peer: PeerId,
    have: bool,
    res: Response,
)
    requires
        tidy(m),
        waited_for(m, id, p),
        p != id,
        is_get(m, p, state),
        res == Response::Have(peer, have) || (!have && res == Response::Block(peer, false)),
    ensures
        ({
            let after = m.inject_response(id, res);
            let root = m.queries[p@].hdr.root;
            let cid = m.queries[id@].hdr.cid;
            let new = QueryId::of(m.next_id);
            let busy = state.block is Some && state.block != Some(id);
            let spare = if have {
                state.res.push(peer)
            } else {
                state.res
            };
            let others = exists|k: u64| #[trigger] state.have.contains(k) && k != id@;
            let asks = |req: Request|
                {
                    &&& takes(m, after, 1)
                    &&& subquery_at(after, m.next_id, root, p, cid)
                    &&& emits(m, after, seq![QueryEvent::Request(new, req)])
                };
            if !busy && spare.len() == 0 && !others && !state.initial {
                get_is_over(m, after, id, p, Seq::empty())
            } else {
                &&& spares(m, after, set![id@, p@])
                &&& !after.queries.contains_key(id@)
                &&& if busy {
                    &&& takes(m, after, 0)
                    &&& emits(m, after, Seq::empty())
                    &&& get_goes_on(m, after, id, p, state, state.block, spare)
                } else if spare.len() > 0 {
                    &&& asks(Request::Block(spare.last(), cid))
                    &&& get_goes_on(m, after, id, p, state, Some(new), spare.drop_last())
                } else if others {
                    &&& takes(m, after, 0)
                    &&& emits(m, after, Seq::empty())
                    &&& get_goes_on(m, after, id, p, state, None, Seq::empty())
                } else {
                    &&& asks(Request::Providers(cid))
                    &&& get_goes_on(m, after, id, p, state, None, Seq::empty())
                }
            }
        }),
{
    let after = m.inject_response(id, res);
    let now = state.answered(id, peer, have);
    assert(m.queries[p@].hdr.id == p);
    assert(m.queries[id@].hdr.id == id);
    if let Some(s) = m.queries[p@].hdr.parent {
        assert(m.queries.contains_key(s@) ==> m.queries[s@].hdr.id == s);
    }
    if forall|k: u64| #[trigger] state.have.contains(k) ==> k == id@ {
        assert(now.have =~= Set::empty());
    } else {
        let k = choose|k: u64| #[trigger] state.have.contains(k) && k != id@;
        assert(now.have.contains(k));
    }
    assert(now.res.len() == 0 ==> now.res =~= Seq::empty());
}

/// A peer sent the block: the get query is over, and the peer has the block as do all spare peers.
pub proof fn law_received_does(
    m: ManagerView,
    id: QueryId,
    p: QueryId,
    state: GetView,
    peer: PeerId,
)
    requires
        tidy(m),
        waited_for(m, id, p),
        p != id,
        is_get(m, p, state),
    ensures
        get_is_over(
            m,
            m.inject_response(id, Response::Block(peer, true)),
            id,
            p,
            state.res.push(peer),
        ),
{
    assert(m.queries[p@].hdr.id == p);
    if let Some(s) = m.queries[p@].hdr.parent {
        assert(m.queries.contains_key(s@) ==> m.queries[s@].hdr.id == s);
    }
}

/// The providers of the block were reported: every one of them is asked, in their order, the first
/// one for the block unless a peer is being asked for it, all others whether they have it. The get
/// query remembers that the providers were reported. If nobody was or is being asked, the block was
/// not found.
pub proof fn law_providers_does(
    m: ManagerView,
    id: QueryId,
    p: QueryId,
    state: GetView,
    peers: Vec<PeerId>,
)
    requires
        tidy(m),
        m.next_id + peers@.len() <= u64::MAX,
        waited_for(m, id, p),
        p != id,
        is_get(m, p, state),
    ensures
        ({
            let after = m.inject_response(id, Response::Providers(peers));
            let root = m.queries[p@].hdr.root;
            let cid = m.queries[id@].hdr.cid;
            let count = peers@.len();
            let nobody = {
                &&& count == 0
                &&& state.block is None
                &&& state.res.len() == 0
                &&& forall|k: u64| !(#[trigger] state.have.contains(k))
            };
            if nobody {
                get_is_over(m, after, id, p, Seq::empty())
            } else {
                &&& takes(m, after, count)
                &&& spares(m, after, set![id@, p@])
                &&& !after.queries.contains_key(id@)
                &&& forall|i: int|
                    0 <= i < count ==> #[trigger] subquery_at(
                        after,
                        (m.next_id + i) as nat,
                        root,
                        p,
                        cid,
                    )
                &&& emits(
                    m,
                    after,
                    Seq::new(
                        count,
                        |i: int|
                            QueryEvent::Request(
                                QueryId::of((m.next_id + i) as nat),
                                if i == 0 && state.block is None {
                                    Request::Block(peers@[i], cid)
                                } else {
                                    Request::Have(peers@[i], cid)
                                },
                            ),
                    ),
                )
                &&& after.queries.contains_key(p@)
                &&& after.queries[p@].hdr == m.queries[p@].hdr
                &&& after.queries[p@].state matches StateView::Get(now)
                &&& !now.initial
                &&& now.res == state.res
                &&& now.block == if state.block is None && count > 0 {
                    Some(QueryId::of(m.next_id))
                } else {
                    state.block
                }
                &&& forall|k: u64| #[trigger]
                    now.have.contains(k) <==> state.have.contains(k) || (m.next_id <= k
                        < m.next_id + count && (state.block is Some || k != m.next_id))
            }
        }),
{
    let after = m.inject_response(id, Response::Providers(peers));
    let asking = (GetView { initial: false, ..state }).asking(m.next_id, peers@.len());
    assert(m.queries[p@].hdr.id == p);
    if let Some(s) = m.queries[p@].hdr.parent {
        assert(m.queries.contains_key(s@) ==> m.queries[s@].hdr.id == s);
    }
    if peers@.len() > 0 {
        assert(asking.block is Some);
        assert(!asking.idle());
    } else {
        assert(asking.have =~= state.have);
        if forall|k: u64| !(#[trigger] state.have.contains(k)) {
            assert(state.have =~= Set::empty());
        }
    }
}

/// A sync query waits for nothing after an answer exactly if it waited for nothing else before and
/// starts nothing.
proof fn lemma_waits_for_nothing(state: SyncView, id: QueryId, ids: Set<u64>)
    ensures
        (state.missing + ids).is_empty() && state.children.remove(id@).is_empty() <==> {
            &&& forall|k: u64| !(#[trigger] ids.contains(k))
            &&& forall|k: u64| !(#[trigger] state.missing.contains(k))
            &&& forall|k: u64| #[trigger] state.children.contains_key(k) ==> k == id@
        },
{
    let missing = state.missing + ids;
    let children = state.children.remove(id@);
    if missing.is_empty() && children.is_empty() {
        assert forall|k: u64| !(#[trigger] ids.contains(k)) by {
            assert(!missing.contains(k));
        }
        assert forall|k: u64| !(#[trigger] state.missing.contains(k)) by {
            assert(!missing.contains(k));
        }
        assert forall|k: u64| #[trigger] state.children.contains_key(k) implies k == id@ by {
            assert(!children.dom().contains(k));
        }
    } else if !missing.is_empty() {
        let k = choose|k: u64| #[trigger] missing.contains(k);
        assert(missing.contains(k)) by {
            assert(!(missing =~= Set::empty()));
        }
        assert(ids.contains(k) || state.missing.contains(k));
    } else {
        assert(!(children.dom() =~= Set::empty()));
        let k = choose|k: u64| #[trigger] children.dom().contains(k);
        assert(state.children.contains_key(k) && k != id@);
    }
}

/// It was looked up which blocks are missing below a block: the sync query gets every one of them,
/// in their order, each first from the peers that provided the block above, and waits for exactly
/// those get queries besides what it waited for before. If nothing is missing and it waits for
/// nothing else, it completes. Nothing else changes.
#[verifier::spinoff_prover]
pub proof fn law_missing_blocks_does(
    m: ManagerView,
    id: QueryId,
    p: QueryId,
    state: SyncView,
    cids: Vec<Cid>,
    providers: Seq<PeerId>,
)
    requires
        tidy(m),
        waited_for(m, id, p),
        p != id,
        is_sync(m, p, state),
        state.children.contains_key(id@) ==> providers == state.children[id@],
        !state.children.contains_key(id@) ==> providers == Seq::<PeerId>::empty(),
        get_number(m.next_id, cids@.len() as int, providers) <= u64::MAX,
    ensures
        ({
            let after = m.inject_response(id, Response::MissingBlocks(cids));
            let nothing = {
                &&& cids@.len() == 0
                &&& forall|k: u64| !(#[trigger] state.missing.contains(k))
                &&& forall|k: u64| #[trigger] state.children.contains_key(k) ==> k == id@
            };
            if nothing {
                &&& takes(m, after, 0)
                &&& ends(m, after, set![id@, p@])
                &&& emits(m, after, seq![QueryEvent::Complete(p, QueryType::Sync, Ok(()))])
            } else {
                &&& takes(m, after, cids@.len() * (1 + starts_with(providers)))
                &&& spares(m, after, set![id@, p@])
                &&& !after.queries.contains_key(id@)
                &&& gets_blocks(m, after, m.next_id, p, cids@, providers)
                &&& after.queries.contains_key(p@)
                &&& after.queries[p@].hdr == m.queries[p@].hdr
                &&& after.queries[p@].state matches StateView::Sync(now)
                &&& forall|k: u64| #[trigger]
                    now.missing.contains(k) <==> state.missing.contains(k) || exists|i: int|
                        0 <= i < cids@.len() && k == #[trigger] get_number(
                            m.next_id,
                            i,
                            providers,
                        )
                &&& forall|k: u64| #[trigger]
                    now.children.contains_key(k) <==> state.children.contains_key(k) && k != id@
                &&& forall|k: u64| #[trigger]
                    now.children.contains_key(k) ==> now.children[k] == state.children[k]
            }
        }),
{
    let after = m.inject_response(id, Response::MissingBlocks(cids));
    let base = m.forget(id).forget(p);
    let started = base.get_each(p, cids@, providers);
    let ids = base.ids_of_gets(p, cids@, providers);
    assert(m.queries[p@].hdr.id == p && m.queries[p@].hdr.root == p);
    assert(m.queries[id@].hdr.id == id);
    assert(tidy(base));
    assert(state.providers_of(id) == providers);
    lemma_no_ids_of_gets(base, p, cids@, providers);
    lemma_waits_for_nothing(state, id, ids);
    if ids.is_empty() {
        assert forall|k: u64| !(#[trigger] ids.contains(k)) by {}
    } else {
        assert(!(ids =~= Set::empty()));
    }
    let now = SyncView {
        missing: state.missing + ids,
        children: state.children.remove(id@),
    };
    if now.missing.is_empty() && now.children.is_empty() {
        assert(after == base.emit(QueryEvent::Complete(p, QueryType::Sync, Ok(()))));
        assert(ends(m, after, set![id@, p@]));
    } else {
        assert(after == started.keep(p, m.queries[p@].hdr, StateView::Sync(now)));
        lemma_get_each_does(base, p, cids@, providers);
        lemma_gets_blocks(base, after, p, cids@, providers);
        assert(takes(m, after, cids@.len() * (1 + starts_with(providers))));
        assert(spares(m, after, set![id@, p@]));
        assert forall|k: u64| #[trigger]
            now.missing.contains(k) <==> state.missing.contains(k) || exists|i: int|
                0 <= i < cids@.len() && k == #[trigger] get_number(m.next_id, i, providers) by {
            lemma_ids_are_numbers(base, p, cids@, providers, k);
        }
    }
}

/// Cancelling ends a get query, or a sync query with the get queries that it waits for. Every
/// request of a query in progress under it is withdrawn, whatever it asks for, and the other events
/// stay in their order. A subquery is not cancelled, and every query goes on.
pub proof fn law_cancel_does(m: ManagerView, root: QueryId)
    requires
        m.queries.contains_key(root@),
    ensures
        ({
            let after = m.cancel(root);
            let under = |event: QueryEvent|
                {
                    &&& event matches QueryEvent::Request(id, _)
                    &&& id != root
                    &&& m.queries.contains_key(id@)
                    &&& m.queries[id@].hdr.root == root
                };
            &&& after.next_id == m.next_id
            &&& after.events == m.events.filter(|event: QueryEvent| !under(event))
            &&& forall|i: int|
                0 <= i < after.events.len() ==> !under(#[trigger] after.events[i])
                    && m.events.contains(after.events[i])
            &&& forall|event: QueryEvent| #[trigger]
                m.events.contains(event) && !under(event) ==> after.events.contains(event)
            &&& forall|k: u64| #[trigger]
                after.queries.contains_key(k) <==> {
                    &&& m.queries.contains_key(k)
                    &&& match m.queries[root@].state {
                        StateView::Leaf => true,
                        StateView::Get(_) => k != root@,
                        StateView::Sync(state) => k != root@ && !state.missing.contains(k),
                    }
                }
            &&& forall|k: u64| #[trigger]
                after.queries.contains_key(k) ==> after.queries[k] == m.queries[k]
            &&& m.cancels(root) == match m.queries[root@].state {
                StateView::Leaf => None,
                StateView::Get(_) => Some(QueryType::Get),
                StateView::Sync(_) => Some(QueryType::Sync),
            }
        }),
{
    let after = m.cancel(root);
    let under = |event: QueryEvent|
        {
            &&& event matches QueryEvent::Request(id, _)
            &&& id != root
            &&& m.queries.contains_key(id@)
            &&& m.queries[id@].hdr.root == root
        };
    let stays = |event: QueryEvent| !under(event);
    let rest = m.forget(root);
    assert(stays =~= (|event: QueryEvent| !rest.belongs_to(event, root)));
    assert(after.events == m.events.filter(stays));
    assert forall|i: int| 0 <= i < after.events.len() implies !under(#[trigger] after.events[i])
        && m.events.contains(after.events[i]) by {
        m.events.lemma_filter_pred(stays, i);
        m.events.lemma_filter_contains_rev(stays, after.events[i]);
    }
    assert forall|event: QueryEvent| #[trigger]
        m.events.contains(event) && !under(event) implies after.events.contains(event) by {
        let i = choose|i: int| 0 <= i < m.events.len() && m.events[i] == event;
        m.events.lemma_filter_contains(stays, i);
    }
}

/// Retrieving an event takes the oldest one away and changes nothing else.
pub proof fn law_next_does(m: ManagerView)
    ensures
        m.next().next_id == m.next_id,
        m.next().queries == m.queries,
        m.events.len() == 0 ==> m.next().events.len() == 0,
        m.events.len() > 0 ==> m.events == seq![m.events[0]] + m.next().events,
{
    if m.events.len() > 0 {
        assert(m.events =~= seq![m.events[0]] + m.next().events);
    }
}

/// A peer that says that it has the block is made use of: if no other peer is being asked for the
/// block, this peer is asked at once and that is all that is said; otherwise nothing is said and it
/// is the spare peer to be asked next. Either way the get query stays in progress.
pub proof fn law_willing_peer_is_used(
    m: ManagerView,
    id: QueryId,
    p: QueryId,
    state: GetView,
    peer: PeerId,
)
    requires
        tidy(m),
        waited_for(m, id, p),
        p != id,
        is_get(m, p, state),
    ensures
        ({
            let after = m.inject_response(id, Response::Have(peer, true));
            let cid = m.queries[id@].hdr.cid;
            let new = QueryId::of(m.next_id);
            &&& after.queries.contains_key(p@)
            &&& after.queries[p@].state matches StateView::Get(now)
            &&& if state.block is None || state.block == Some(id) {
                &&& after.events == m.events.push(
                    QueryEvent::Request(new, Request::Block(peer, cid)),
                )
                &&& now.block == Some(new)
                &&& now.res == state.res
            } else {
                &&& after.events == m.events
                &&& now.block == state.block
                &&& now.res == state.res.push(peer)
            }
        }),
{
    law_have_does(m, id, p, state, peer, true, Response::Have(peer, true));
    let after = m.inject_response(id, Response::Have(peer, true));
    if state.block is None || state.block == Some(id) {
        assert(state.res.push(peer).drop_last() =~= state.res);
        let event = QueryEvent::Request(
            QueryId::of(m.next_id),
            Request::Block(peer, m.queries[id@].hdr.cid),
        );
        assert(m.events + seq![event] =~= m.events.push(event));
    } else {
        assert(after.events =~= m.events);
    }
}

/// For a get query to count its providers as reported, they have to be: only a report of providers
/// to one of its own subqueries makes it so.
pub proof fn law_only_a_report_reports(
    m: ManagerView,
    id: QueryId,
    p: QueryId,
    res: Response,
    k: u64,
)
    requires
        m.wf(),
        waited_for(m, id, p),
        m.inject_response(id, res).fits(),
        m.queries.contains_key(k),
        m.queries[k].state matches StateView::Get(before) && before.initial,
        m.inject_response(id, res).queries.contains_key(k),
    ensures
        m.inject_response(id, res).queries[k].state matches StateView::Get(now) && (now.initial || (
        res is Providers && k == p@)),
{
    law_wf_is_tidy(m);
    let after = m.inject_response(id, res);
    let base = m.forget(id).forget(p);
    assert(k < m.next_id);
    if let Some(s) = m.queries[p@].hdr.parent {
        assert(m.queries.contains_key(s@) ==> m.queries[s@].hdr.id == s);
    }
    if let Response::MissingBlocks(cids) = res {
        if p != id && m.queries.contains_key(p@) && m.queries[p@].state is Sync {
            let state = m.queries[p@].state->Sync_0;
            let providers = state.providers_of(id);
            lemma_forget_wf(m, id);
            lemma_forget_wf(m.forget(id), p);
            assert(m.queries[p@].hdr.root == p);
            if after.queries.contains_key(p@) {
                lemma_get_each_wf(base, p, cids@, providers);
                assert(k != p@ && k != id@ ==> base.queries.contains_key(k));
            }
        }
    }
}

} // verus!
