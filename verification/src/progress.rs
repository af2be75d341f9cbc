//! No query is left without anything to wait for: as long as the responses answer what was asked
//! for, below every get or sync query in progress there is a subquery in progress.
use crate::laws::{answers_get, law_orphan_is_dropped, law_response_steps, takes_no_old_id};
use crate::lemmas::{
    lemma_allocate_wf, lemma_forget_wf, lemma_get_each_takes_ids, lemma_get_each_wf, lemma_get_wf,
    lemma_no_ids_of_gets, lemma_sync_wf,
};
use crate::model::{GetView, ManagerView, StateView};
use crate::types::{group_query_id, Header, QueryId, Response};
use cid::Cid;
use libp2p::PeerId;
use vstd::prelude::*;

verus! {

broadcast use group_query_id;

impl ManagerView {
    /// Is a subquery of the query in progress under the number?
    pub open spec fn is_sub(self, k: u64, parent: QueryId) -> bool {
        &&& self.queries.contains_key(k)
        &&& self.queries[k].state is Leaf
        &&& self.queries[k].hdr.parent == Some(parent)
    }

    /// Is a get query for the sync query in progress under the number?
    pub open spec fn is_get_for(self, k: u64, parent: QueryId) -> bool {
        &&& self.queries.contains_key(k)
        &&& self.queries[k].state is Get
        &&& self.queries[k].hdr.parent == Some(parent)
    }

    /// The parent of a subquery, if it is in progress, is not a subquery itself; that of a get query
    /// is a sync query.
    pub open spec fn is_placed(self, id: QueryId) -> bool {
        self.query(id).hdr.parent matches Some(parent) ==> match self.query(id).state {
            StateView::Leaf => self.has(parent) ==> !(self.query(parent).state is Leaf),
            StateView::Get(_) => {
                &&& parent@ < self.next_id
                &&& self.has(parent) ==> self.query(parent).state is Sync
            },
            StateView::Sync(_) => true,
        }
    }

    /// What the query waits for is in progress. A get query waits for its block and have queries,
    /// and if there are none, for another subquery, which asks for providers. A sync query waits
    /// for its get and missing blocks queries.
    pub open spec fn attends(self, id: QueryId) -> bool {
        &&& self.is_placed(id)
        &&& match self.query(id).state {
            StateView::Leaf => true,
            StateView::Get(state) => {
                &&& state.block matches Some(block) ==> self.is_sub(block@, id)
                &&& forall|k: u64| #[trigger] state.have.contains(k) ==> self.is_sub(k, id)
                &&& state.idle() ==> exists|k: u64| #[trigger] self.is_sub(k, id)
            },
            StateView::Sync(state) => {
                &&& forall|k: u64| #[trigger] state.missing.contains(k) ==> self.is_get_for(k, id)
                &&& forall|k: u64| #[trigger] state.children.contains_key(k) ==> self.is_sub(k, id)
            },
        }
    }

    /// What any query waits for is in progress.
    pub open spec fn attended(self) -> bool {
        forall|id: QueryId| #[trigger] self.has(id) ==> self.attends(id)
    }

    /// The response answers what the query asked for.
    pub open spec fn answered_by(self, id: QueryId, res: Response) -> bool {
        self.has(id) ==> {
            &&& self.query(id).state is Leaf
            &&& self.query(id).hdr.parent matches Some(parent)
            &&& self.get_state(parent) is Some ==> answers_get(self, parent, id, res)
            &&& self.sync_state(parent) matches Some(state) ==> res is MissingBlocks
                && state.children.contains_key(id@)
        }
    }
}

/// A query is attended to if it was before, and all that it waited for is still in progress.
proof fn lemma_still_attends(m: ManagerView, after: ManagerView, id: QueryId)
    requires
        m.attends(id),
        after.is_placed(id),
        after.query(id) == m.query(id),
        forall|k: u64| #[trigger] m.is_sub(k, id) ==> after.is_sub(k, id),
        forall|k: u64| #[trigger] m.is_get_for(k, id) ==> after.is_get_for(k, id),
    ensures
        after.attends(id),
{
    if let StateView::Get(state) = m.query(id).state {
        if state.idle() {
            let k = choose|k: u64| #[trigger] m.is_sub(k, id);
            assert(after.is_sub(k, id));
        }
    }
}

/// A query that was attended to still is after other queries were started.
proof fn lemma_extended_attends(m: ManagerView, after: ManagerView, id: QueryId)
    requires
        m.wf(),
        m.extended_by(after),
        m.has(id),
        m.attends(id),
    ensures
        after.attends(id),
{
    assert(after.query(id) == m.query(id));
    assert forall|k: u64, parent: QueryId| #[trigger] m.is_sub(k, parent) implies after.is_sub(
        k,
        parent,
    ) by {
        assert(m.queries.contains_key(k));
    }
    assert forall|k: u64, parent: QueryId| #[trigger] m.is_get_for(k, parent) implies after.is_get_for(
        k,
        parent,
    ) by {
        assert(m.queries.contains_key(k));
    }
    lemma_still_attends(m, after, id);
}

/// A query that is attended to still is after another query is remembered.
proof fn lemma_keep_attends(
    m: ManagerView,
    kept: QueryId,
    hdr: Header,
    state: StateView,
    id: QueryId,
)
    requires
        !m.has(kept),
        m.has(id),
        m.attends(id),
        !(state is Leaf),
        state is Sync || !m.is_get_for(id@, kept),
    ensures
        m.keep(kept, hdr, state).attends(id),
{
    let after = m.keep(kept, hdr, state);
    assert(after.query(id) == m.query(id));
    assert forall|k: u64, parent: QueryId| #[trigger] m.is_sub(k, parent) implies after.is_sub(
        k,
        parent,
    ) by {}
    assert forall|k: u64, parent: QueryId| #[trigger] m.is_get_for(k, parent) implies after.is_get_for(
        k,
        parent,
    ) by {}
    lemma_still_attends(m, after, id);
}

/// Starting a get query keeps every query attended to, if it is part of nothing or of a sync query.
pub proof fn law_get_is_attended(
    m: ManagerView,
    parent: Option<QueryId>,
    cid: Cid,
    initial: Seq<PeerId>,
)
    requires
        m.wf(),
        m.attended(),
        parent matches Some(parent) ==> parent@ < m.next_id && (m.has(parent) ==> m.query(
            parent,
        ).state is Sync),
        m.get(parent, cid, initial).fits(),
    ensures
        m.get(parent, cid, initial).attended(),
{
    let after = m.get(parent, cid, initial);
    lemma_get_wf(m, parent, cid, initial);
    assert forall|q: QueryId| #[trigger] after.has(q) implies after.attends(q) by {
        if m.has(q) {
            lemma_extended_attends(m, after, q);
        } else {
            lemma_get_attends_new(m, parent, cid, initial, q);
        }
    }
}

/// What a get query starts is attended to.
proof fn lemma_get_attends_new(
    m: ManagerView,
    parent: Option<QueryId>,
    cid: Cid,
    initial: Seq<PeerId>,
    q: QueryId,
)
    requires
        m.wf(),
        parent matches Some(parent) ==> parent@ < m.next_id && (m.has(parent) ==> m.query(
            parent,
        ).state is Sync),
        m.get(parent, cid, initial).fits(),
        m.get(parent, cid, initial).has(q),
        !m.has(q),
    ensures
        m.get(parent, cid, initial).attends(q),
{
    let after = m.get(parent, cid, initial);
    let id = m.fresh();
    if q == id {
        let state = after.get_state(id)->0;
        assert forall|k: u64| m.next_id < k < after.next_id implies after.is_sub(k, id) by {}
        if state.idle() {
            assert(initial.len() == 0);
            assert(after.is_sub(m.allocate().fresh()@, id));
        }
    }
}

/// What the get queries for a sync query start is attended to.
proof fn lemma_get_each_attends_new(
    m: ManagerView,
    parent: QueryId,
    cids: Seq<Cid>,
    initial: Seq<PeerId>,
    q: QueryId,
)
    requires
        m.wf(),
        parent@ < m.next_id,
        !m.has(parent),
        m.get_each(parent, cids, initial).fits(),
        m.get_each(parent, cids, initial).has(q),
        !m.has(q),
    ensures
        m.get_each(parent, cids, initial).attends(q),
    decreases cids.len(),
{
    if cids.len() > 0 {
        let fewer = cids.drop_last();
        let before = m.get_each(parent, fewer, initial);
        lemma_get_each_takes_ids(m, parent, cids, initial, fewer.len() as int);
        assert(cids.take(fewer.len() as int) =~= fewer);
        lemma_get_each_wf(m, parent, fewer, initial);
        lemma_get_wf(before, Some(parent), cids.last(), initial);
        assert(!before.has(parent));
        if before.has(q) {
            lemma_get_each_attends_new(m, parent, fewer, initial, q);
            lemma_extended_attends(before, m.get_each(parent, cids, initial), q);
        } else {
            lemma_get_attends_new(before, Some(parent), cids.last(), initial, q);
        }
    }
}

/// Starting a sync query keeps every query attended to.
pub proof fn law_sync_is_attended(m: ManagerView, cid: Cid, missing: Seq<Cid>)
    requires
        m.wf(),
        m.attended(),
        m.sync(cid, missing).fits(),
    ensures
        m.sync(cid, missing).attended(),
{
    let after = m.sync(cid, missing);
    let id = m.fresh();
    let taken = m.allocate();
    let nobody = Seq::<PeerId>::empty();
    lemma_sync_wf(m, cid, missing);
    lemma_get_each_takes_ids(taken, id, missing, nobody, 0);
    lemma_allocate_wf(m);
    lemma_no_ids_of_gets(taken, id, missing, nobody);
    if missing.len() > 0 {
        lemma_get_each_wf(taken, id, missing, nobody);
    }
    assert forall|q: QueryId| #[trigger] after.has(q) implies after.attends(q) by {
        if m.has(q) {
            lemma_extended_attends(m, after, q);
        } else if q@ != id@ && missing.len() > 0 {
            let started = taken.get_each(id, missing, nobody);
            lemma_get_each_attends_new(taken, id, missing, nobody, q);
            lemma_keep_attends(started, id, after.query(id).hdr, after.query(id).state, q);
        } else if q@ == id@ {
            assert(q == id);
        }
    }
}

/// A manager that was never used has no query to attend to.
pub proof fn law_new_is_attended()
    ensures
        ManagerView::new().attended(),
{
}

/// Retrieving an event keeps every query attended to.
pub proof fn law_next_is_attended(m: ManagerView)
    requires
        m.attended(),
    ensures
        m.next().attended(),
{
    assert forall|q: QueryId| #[trigger] m.next().has(q) implies m.next().attends(q) by {
        lemma_same_attends(m, m.next(), q);
    }
}

/// What a query waits for depends on the queries alone.
proof fn lemma_same_attends(m: ManagerView, after: ManagerView, id: QueryId)
    requires
        after.queries == m.queries,
        after.next_id == m.next_id,
        m.has(id),
        m.attended(),
    ensures
        after.attends(id),
{
    assert(m.attends(id));
    assert forall|k: u64| #[trigger] m.is_sub(k, id) implies after.is_sub(k, id) by {}
}

/// Cancelling a query that no sync query waits for keeps every other query attended to.
pub proof fn law_cancel_is_attended(m: ManagerView, root: QueryId)
    requires
        m.wf(),
        m.attended(),
        m.has(root) ==> (m.query(root).hdr.parent matches Some(parent) ==> !m.has(parent)),
    ensures
        m.cancel(root).attended(),
{
    let after = m.cancel(root);
    if m.cancels(root) is Some {
        assert(m.attends(root));
        assert forall|q: QueryId| #[trigger] after.has(q) implies after.attends(q) by {
            assert(m.has(q));
            assert(m.attends(q));
            assert(after.query(q) == m.query(q));
            assert forall|k: u64| #[trigger] m.is_sub(k, q) implies after.is_sub(k, q) by {}
            assert forall|k: u64| #[trigger] m.is_get_for(k, q) implies after.is_get_for(k, q) by {}
            lemma_still_attends(m, after, q);
        }
    } else {
        assert(after.queries =~= m.queries);
        assert forall|q: QueryId| #[trigger] after.has(q) implies after.attends(q) by {
            lemma_same_attends(m, after, q);
        }
    }
}

/// The query with the number is not the one that was answered, its parent `p`, or the query that
/// `p` is part of.
spec fn bystander(m: ManagerView, id: QueryId, p: QueryId, k: u64) -> bool {
    &&& m.queries.contains_key(k)
    &&& k != id@
    &&& k != p@
    &&& m.has(p) ==> (m.query(p).hdr.parent matches Some(s) ==> k != s@)
}

/// A step changed the query in no more than its state, and it is attended to.
spec fn goes_on(m: ManagerView, after: ManagerView, id: QueryId) -> bool {
    after.has(id) ==> {
        &&& m.has(id)
        &&& after.query(id).hdr == m.query(id).hdr
        &&& after.query(id).state is Get <==> m.query(id).state is Get
        &&& after.query(id).state is Sync <==> m.query(id).state is Sync
        &&& after.attends(id)
    }
}

/// Every query is attended to after a subquery `id` of `p` was answered, if `p`, the query that
/// it is part of, and all new queries are.
proof fn lemma_step_attends(m: ManagerView, after: ManagerView, id: QueryId, p: QueryId)
    requires
        m.wf(),
        m.attended(),
        m.is_sub(id@, p),
        takes_no_old_id(m, after),
        !after.has(id),
        forall|k: u64| #[trigger]
            m.queries.contains_key(k) && bystander(m, id, p, k) ==> after.queries.contains_key(k)
                && after.queries[k] == m.queries[k],
        goes_on(m, after, p),
        m.has(p) ==> (m.query(p).hdr.parent matches Some(s) ==> goes_on(m, after, s)),
        forall|q: QueryId| #[trigger] after.has(q) && !m.has(q) ==> after.attends(q),
    ensures
        after.attended(),
{
    assert(m.has(id));
    assert(m.attends(id));
    assert(m.has(p) ==> m.attends(p));
    let s = m.query(p).hdr.parent;
    assert forall|q: QueryId| #[trigger] after.has(q) implies after.attends(q) by {
        if m.has(q) && q@ != p@ && !(m.has(p) && s is Some && q@ == s->0@) {
            assert(m.attends(q));
            assert(bystander(m, id, p, q@));
            assert(after.query(q) == m.query(q));
            assert forall|k: u64| #[trigger] m.is_sub(k, q) implies after.is_sub(k, q) by {
                assert(bystander(m, id, p, k));
            }
            assert forall|k: u64| #[trigger] m.is_get_for(k, q) implies after.is_get_for(k, q) by {
                assert(bystander(m, id, p, k));
            }
            if let Some(above) = m.query(q).hdr.parent {
                if after.has(above) {
                    assert(m.has(above));
                    assert(m.queries.contains_key(q@));
                    assert(bystander(m, id, p, above@) || above == p || Some(above) == s);
                }
            }
            lemma_still_attends(m, after, q);
        } else if m.has(q) {
            assert(q == p || Some(q) == s);
        }
    }
}

/// The sync query that a get query is part of is attended to while the get query goes on.
proof fn lemma_above_goes_on(m: ManagerView, after: ManagerView, id: QueryId, p: QueryId)
    requires
        m.wf(),
        m.attended(),
        m.is_sub(id@, p),
        m.get_state(p) is Some,
        takes_no_old_id(m, after),
        forall|k: u64| #[trigger]
            m.queries.contains_key(k) && k != id@ && k != p@ ==> after.queries.contains_key(k)
                && after.queries[k] == m.queries[k],
        after.has(p),
        goes_on(m, after, p),
    ensures
        m.query(p).hdr.parent matches Some(s) ==> goes_on(m, after, s),
{
    assert(m.has(p));
    assert(m.attends(p));
    if let Some(s) = m.query(p).hdr.parent {
        if after.has(s) {
            assert(m.has(s));
            assert(m.attends(s));
            assert(after.query(s) == m.query(s));
            let state = m.sync_state(s)->0;
            assert forall|k: u64| #[trigger] state.missing.contains(k) implies after.is_get_for(
                k,
                s,
            ) by {
                assert(m.is_get_for(k, s));
            }
            assert forall|k: u64| #[trigger] state.children.contains_key(k) implies after.is_sub(
                k,
                s,
            ) by {
                assert(m.is_sub(k, s));
            }
        }
    }
}

/// The end of a get query keeps every other query attended to.
proof fn lemma_get_end_attends(
    m: ManagerView,
    after: ManagerView,
    id: QueryId,
    p: QueryId,
    providers: Seq<PeerId>,
)
    requires
        m.wf(),
        m.attended(),
        m.is_sub(id@, p),
        m.get_state(p) is Some,
        after == m.forget(id).forget(p).recv_get(m.query(p).hdr, providers),
        after.fits(),
        takes_no_old_id(m, after),
        !after.has(id),
    ensures
        after.attended(),
{
    assert(m.has(p));
    assert(m.attends(p));
    assert(m.query(p).hdr.id == p);
    if let Some(s) = m.query(p).hdr.parent {
        if m.has(s) {
            let state = m.sync_state(s)->0;
            assert(m.attends(s));
            assert(m.query(s).hdr.id == s);
            if providers.len() > 0 {
                assert(after.is_sub(m.fresh()@, s));
                assert forall|k: u64| #[trigger] state.missing.contains(k) && k
                    != p@ implies after.is_get_for(k, s) by {
                    assert(m.is_get_for(k, s));
                }
                assert forall|k: u64| #[trigger] state.children.contains_key(k) implies after.is_sub(
                    k,
                    s,
                ) by {
                    assert(m.is_sub(k, s));
                }
                assert(after.attends(s));
            }
        }
    }
    lemma_step_attends(m, after, id, p);
}

/// The answer to a have query or to a failed block query keeps every query attended to.
proof fn lemma_have_attends(m: ManagerView, id: QueryId, p: QueryId, peer: PeerId, have: bool)
    requires
        m.wf(),
        m.attended(),
        m.is_sub(id@, p),
        m.get_state(p) is Some,
        m.forget(id).recv_have(m.query(id).hdr, peer, have).fits(),
        takes_no_old_id(m, m.forget(id).recv_have(m.query(id).hdr, peer, have)),
        !m.forget(id).recv_have(m.query(id).hdr, peer, have).has(id),
    ensures
        m.forget(id).recv_have(m.query(id).hdr, peer, have).attended(),
{
    let after = m.forget(id).recv_have(m.query(id).hdr, peer, have);
    let before = m.get_state(p)->0;
    let state = before.answered(id, peer, have);
    assert(m.query(id).hdr.id == id);
    assert(m.query(p).hdr.id == p);
    assert(m.has(p));
    assert(m.attends(p));
    if state.idle() && !state.initial {
        lemma_get_end_attends(m, after, id, p, Seq::empty());
    } else {
        assert forall|k: u64| #[trigger] state.have.contains(k) implies after.is_sub(k, p) by {
            assert(m.is_sub(k, p));
        }
        if let Some(block) = state.block {
            assert(m.is_sub(block@, p));
        }
        if state.block is None && (state.res.len() > 0 || state.idle()) {
            assert(after.is_sub(m.fresh()@, p));
        }
        assert(after.attends(p));
        lemma_above_goes_on(m, after, id, p);
        lemma_step_attends(m, after, id, p);
    }
}

/// The answer to a providers query keeps every query attended to.
proof fn lemma_providers_attends(m: ManagerView, id: QueryId, p: QueryId, peers: Seq<PeerId>)
    requires
        m.wf(),
        m.attended(),
        m.is_sub(id@, p),
        m.get_state(p) matches Some(state) && !state.have.contains(id@) && state.block != Some(id),
        m.forget(id).recv_providers(m.query(id).hdr, peers).fits(),
        takes_no_old_id(m, m.forget(id).recv_providers(m.query(id).hdr, peers)),
        !m.forget(id).recv_providers(m.query(id).hdr, peers).has(id),
    ensures
        m.forget(id).recv_providers(m.query(id).hdr, peers).attended(),
{
    let after = m.forget(id).recv_providers(m.query(id).hdr, peers);
    let before = m.get_state(p)->0;
    let asking = (GetView { initial: false, ..before }).asking(m.next_id, peers.len());
    assert(m.query(p).hdr.id == p);
    assert(m.has(p));
    assert(m.attends(p));
    if asking.idle() {
        lemma_get_end_attends(m, after, id, p, Seq::empty());
    } else {
        assert forall|k: u64| #[trigger] asking.have.contains(k) implies after.is_sub(k, p) by {
            if before.have.contains(k) {
                assert(m.is_sub(k, p));
            }
        }
        if let Some(block) = before.block {
            assert(m.is_sub(block@, p));
        }
        assert(after.attends(p));
        lemma_above_goes_on(m, after, id, p);
        lemma_step_attends(m, after, id, p);
    }
}

/// The answer to a missing blocks query keeps every query attended to.
proof fn lemma_missing_blocks_attends(m: ManagerView, id: QueryId, p: QueryId, missing: Seq<Cid>)
    requires
        m.wf(),
        m.attended(),
        m.is_sub(id@, p),
        m.sync_state(p) matches Some(state) && state.children.contains_key(id@),
        m.forget(id).recv_missing_blocks(m.query(id).hdr, missing).fits(),
        takes_no_old_id(m, m.forget(id).recv_missing_blocks(m.query(id).hdr, missing)),
        !m.forget(id).recv_missing_blocks(m.query(id).hdr, missing).has(id),
    ensures
        m.forget(id).recv_missing_blocks(m.query(id).hdr, missing).attended(),
{
    let after = m.forget(id).recv_missing_blocks(m.query(id).hdr, missing);
    let before = m.sync_state(p)->0;
    let providers = before.providers_of(id);
    let base = m.forget(id).forget(p);
    assert(m.query(id).hdr.id == id);
    assert(m.query(p).hdr.id == p);
    assert(m.has(p));
    assert(m.attends(p));
    lemma_forget_wf(m, id);
    lemma_forget_wf(m.forget(id), p);
    if after.has(p) {
        let started = base.get_each(p, missing, providers);
        let state = after.sync_state(p)->0;
        lemma_get_each_wf(base, p, missing, providers);
        assert forall|k: u64| #[trigger] state.missing.contains(k) implies after.is_get_for(
            k,
            p,
        ) by {
            if before.missing.contains(k) {
                assert(m.is_get_for(k, p));
                assert(base.queries.contains_key(k));
            } else {
                assert(base.ids_of_gets(p, missing, providers).contains(k));
            }
        }
        assert forall|k: u64| #[trigger] state.children.contains_key(k) implies after.is_sub(
            k,
            p,
        ) by {
            assert(before.children.contains_key(k));
            assert(m.is_sub(k, p));
            assert(base.queries.contains_key(k));
        }
        assert(after.attends(p));
        assert forall|q: QueryId| #[trigger] after.has(q) && !m.has(q) implies after.attends(q) by {
            lemma_get_each_attends_new(base, p, missing, providers, q);
            lemma_keep_attends(started, p, after.query(p).hdr, after.query(p).state, q);
        }
        assert forall|k: u64| #[trigger]
            m.queries.contains_key(k) && bystander(m, id, p, k) implies after.queries.contains_key(k)
            && after.queries[k] == m.queries[k] by {
            assert(base.queries.contains_key(k));
        }
    }
    lemma_step_attends(m, after, id, p);
}

/// A response that answers what the query asked for keeps every query attended to.
pub proof fn law_response_is_attended(m: ManagerView, id: QueryId, res: Response)
    requires
        m.wf(),
        m.attended(),
        m.answered_by(id, res),
        m.inject_response(id, res).fits(),
    ensures
        m.inject_response(id, res).attended(),
{
    let after = m.inject_response(id, res);
    if m.has(id) {
        let p = m.query(id).hdr.parent->0;
        law_response_steps(m, id, res);
        assert(m.attends(id));
        assert(m.query(id).hdr.id == id);
        assert(m.is_sub(id@, p));
        if m.get_state(p) is Some {
            assert(m.query(p).hdr.id == p);
            match res {
                Response::Have(peer, have) => lemma_have_attends(m, id, p, peer, have),
                Response::Block(peer, received) => {
                    if received {
                        let providers = m.get_state(p)->0.res.push(peer);
                        lemma_get_end_attends(m, after, id, p, providers);
                    } else {
                        lemma_have_attends(m, id, p, peer, false);
                    }
                },
                Response::Providers(peers) => lemma_providers_attends(m, id, p, peers@),
                Response::MissingBlocks(_) => {},
            }
        } else if m.sync_state(p) is Some {
            lemma_missing_blocks_attends(m, id, p, res->MissingBlocks_0@);
        } else {
            law_orphan_is_dropped(m, id, res);
            lemma_step_attends(m, after, id, p);
        }
    }
}

/// Is the number that of a subquery in progress, of the query or of a get query for it?
pub open spec fn below(m: ManagerView, k: u64, id: QueryId) -> bool {
    ||| m.is_sub(k, id)
    ||| exists|get: QueryId| #[trigger] m.is_get_for(get@, id) && m.is_sub(k, get)
}

/// A get or sync query in progress waits for something: there is a subquery in progress below it.
pub proof fn law_waits_for_something(m: ManagerView, id: QueryId)
    requires
        m.wf(),
        m.attended(),
        m.has(id),
        !(m.query(id).state is Leaf),
    ensures
        exists|k: u64| #[trigger] below(m, k, id),
{
    assert(m.attends(id));
    match m.query(id).state {
        StateView::Leaf => {},
        StateView::Get(_) => {
            let k = lemma_get_waits(m, id);
            assert(below(m, k, id));
        },
        StateView::Sync(state) => {
            if state.missing.is_empty() {
                assert(!(state.children.dom() =~= Set::empty()));
                let k = choose|k: u64| #[trigger] state.children.contains_key(k);
                assert(m.is_sub(k, id));
                assert(below(m, k, id));
            } else {
                let g = choose|g: u64| #[trigger] state.missing.contains(g);
                assert(m.is_get_for(g, id));
                let get = QueryId::of(g as nat);
                assert(get@ == g);
                let k = lemma_get_waits(m, get);
                assert(m.is_get_for(get@, id) && m.is_sub(k, get));
                assert(below(m, k, id));
            }
        },
    }
}

/// A get query in progress waits for one of its subqueries.
proof fn lemma_get_waits(m: ManagerView, get: QueryId) -> (k: u64)
    requires
        m.wf(),
        m.attended(),
        m.get_state(get) is Some,
    ensures
        m.is_sub(k, get),
{
    let state = m.get_state(get)->0;
    assert(m.has(get));
    assert(m.attends(get));
    if let Some(block) = state.block {
        block@
    } else if state.idle() {
        choose|k: u64| #[trigger] m.is_sub(k, get)
    } else {
        let k = choose|k: u64| #[trigger] state.have.contains(k);
        assert(m.is_sub(k, get));
        k
    }
}

} // verus!
