//! A cancelled query is over for good: whatever happens later, nothing is heard of it any more.
use crate::laws::{law_cancel_ends, law_orphan_is_dropped, law_response_steps};
use crate::lemmas::{
    lemma_allocate_wf, lemma_cancel_adds_nothing, lemma_get_each_takes_ids, lemma_get_each_wf,
    lemma_get_wf, lemma_sync_wf,
};
use crate::model::{ManagerView, StateView};
use crate::steps::{lemma_answered_into, lemma_get_each_adds};
use crate::types::{group_query_id, QueryId, Response};
use crate::validity::event_id;
use cid::Cid;
use libp2p::PeerId;
use vstd::prelude::*;

verus! {

broadcast use group_query_id;

impl ManagerView {
    /// The parent of a subquery is not a subquery itself. The parent of a get query, if it is in
    /// progress, is a sync query that waits for the get query.
    pub open spec fn has_kin(self, k: u64) -> bool {
        match self.queries[k].state {
            StateView::Leaf => self.queries[k].hdr.parent matches Some(p) ==> self.has(p) ==> !(
            self.query(p).state is Leaf),
            StateView::Get(_) => self.queries[k].hdr.parent matches Some(p) ==> {
                &&& p@ < self.next_id
                &&& self.has(p) ==> (self.sync_state(p) matches Some(state)
                    && state.missing.contains(k))
            },
            StateView::Sync(_) => true,
        }
    }

    /// No get query in progress is part of a query in progress that does not know of it.
    pub open spec fn adopted(self) -> bool {
        forall|k: u64| #[trigger] self.queries.contains_key(k) ==> self.has_kin(k)
    }

    /// A get query with the parent is one that no other query has to know of.
    pub open spec fn on_its_own(self, parent: Option<QueryId>) -> bool {
        parent matches Some(p) ==> p@ < self.next_id && !self.has(p)
    }

    /// The query was in progress once and is no more, nor is any get query that is part of it, and
    /// no event says that it is complete.
    pub open spec fn cancelled(self, root: QueryId) -> bool {
        &&& root@ < self.next_id
        &&& !self.has(root)
        &&& forall|k: u64| #[trigger]
            self.queries.contains_key(k) && self.queries[k].state is Get
                ==> self.queries[k].hdr.parent != Some(root)
        &&& forall|i: int|
            0 <= i < self.events.len() && #[trigger] self.events[i] is Complete ==> event_id(
                self.events[i],
            ) != root
    }
}

/// A query keeps its kin when other queries are started.
proof fn lemma_extended_has_kin(m: ManagerView, after: ManagerView, k: u64)
    requires
        m.wf(),
        m.extended_by(after),
        m.queries.contains_key(k),
        m.has_kin(k),
    ensures
        after.has_kin(k),
{
    if let Some(p) = m.queries[k].hdr.parent {
        if m.has(p) {
            assert(m.queries.contains_key(p@));
        }
    }
}

/// What a sync query starts has its kin.
proof fn lemma_sync_adds(m: ManagerView, cid: Cid, missing: Seq<Cid>, k: u64)
    requires
        m.wf(),
        m.sync(cid, missing).fits(),
        m.sync(cid, missing).queries.contains_key(k),
        !m.queries.contains_key(k),
    ensures
        m.sync(cid, missing).has_kin(k),
        m.sync(cid, missing).queries[k].state is Get ==> m.sync(
            cid,
            missing,
        ).queries[k].hdr.parent == Some(m.fresh()),
{
    let id = m.fresh();
    let taken = m.allocate();
    let nobody = Seq::<PeerId>::empty();
    lemma_get_each_takes_ids(taken, id, missing, nobody, 0);
    lemma_allocate_wf(m);
    if missing.len() > 0 && k != id@ {
        lemma_get_each_wf(taken, id, missing, nobody);
        lemma_get_each_adds(taken, id, missing, nobody, k);
    }
}

/// A manager that was never used holds no get query.
pub proof fn law_new_is_adopted()
    ensures
        ManagerView::new().adopted(),
{
}

/// Every operation keeps the get queries known to the sync queries that they are part of, as long
/// as callers start no get query as a part of a query in progress.
pub proof fn law_adopted_is_kept(
    m: ManagerView,
    id: QueryId,
    res: Response,
    parent: Option<QueryId>,
    cid: Cid,
    initial: Seq<PeerId>,
    missing: Seq<Cid>,
)
    requires
        m.wf(),
        m.adopted(),
    ensures
        m.on_its_own(parent) && m.get(parent, cid, initial).fits() ==> m.get(
            parent,
            cid,
            initial,
        ).adopted(),
        m.sync(cid, missing).fits() ==> m.sync(cid, missing).adopted(),
        m.answerable(id) && m.inject_response(id, res).fits() ==> m.inject_response(
            id,
            res,
        ).adopted(),
        m.cancel(id).adopted(),
        m.next().adopted(),
{
    let get = m.get(parent, cid, initial);
    if m.on_its_own(parent) && get.fits() {
        lemma_get_wf(m, parent, cid, initial);
        assert forall|k: u64| #[trigger] get.queries.contains_key(k) implies get.has_kin(k) by {
            if m.queries.contains_key(k) {
                lemma_extended_has_kin(m, get, k);
            } else if let Some(p) = parent {
                assert(get.has(p) ==> get.queries.contains_key(p@));
            }
        }
    }
    let sync = m.sync(cid, missing);
    if sync.fits() {
        lemma_sync_wf(m, cid, missing);
        assert forall|k: u64| #[trigger] sync.queries.contains_key(k) implies sync.has_kin(k) by {
            if m.queries.contains_key(k) {
                lemma_extended_has_kin(m, sync, k);
            } else {
                lemma_sync_adds(m, cid, missing, k);
            }
        }
    }
    let heard = m.inject_response(id, res);
    if m.has(id) && m.answerable(id) && heard.fits() {
        lemma_answered_into(m, id, res);
        assert forall|k: u64| #[trigger] heard.queries.contains_key(k) implies heard.has_kin(k) by {
            if let Some(p) = heard.queries[k].hdr.parent {
                if heard.has(p) {
                    assert(heard.queries.contains_key(p@));
                    assert(m.queries.contains_key(k) ==> m.has_kin(k));
                }
            }
        }
    }
    lemma_cancel_adds_nothing(m, id);
    lemma_fewer_are_adopted(m, m.cancel(id));
    lemma_fewer_are_adopted(m, m.next());
}

/// Forgetting queries leaves the other ones their kin.
proof fn lemma_fewer_are_adopted(m: ManagerView, less: ManagerView)
    requires
        m.adopted(),
        less.next_id == m.next_id,
        forall|k: u64| #[trigger]
            less.queries.contains_key(k) ==> m.queries.contains_key(k) && less.queries[k]
                == m.queries[k],
    ensures
        less.adopted(),
{
    assert forall|k: u64| #[trigger] less.queries.contains_key(k) implies less.has_kin(k) by {
        assert(m.has_kin(k));
        if let Some(p) = less.queries[k].hdr.parent {
            if less.has(p) {
                assert(less.queries.contains_key(p@));
            }
        }
    }
}

/// Cancelling a query ends it and every get query that is part of it, and no event says that it is
/// complete.
pub proof fn law_cancel_is_complete(m: ManagerView, root: QueryId)
    requires
        m.wf(),
        m.adopted(),
        m.cancels(root) is Some,
    ensures
        m.cancel(root).cancelled(root),
{
    let after = m.cancel(root);
    law_cancel_ends(m, root);
    lemma_cancel_adds_nothing(m, root);
    assert forall|k: u64| #[trigger]
        after.queries.contains_key(k) && after.queries[k].state is Get implies after.queries[k].hdr.parent
        != Some(root) by {
        assert(m.queries.contains_key(k));
        assert(m.has_kin(k));
    }
    assert forall|i: int|
        0 <= i < after.events.len() && #[trigger] after.events[i] is Complete implies event_id(
        after.events[i],
    ) != root by {
        let at = choose|at: int| 0 <= at < m.events.len() && m.events[at] == after.events[i];
        assert(m.event_wf(m.events[at]));
    }
}

/// A cancelled query stays cancelled, whatever happens later, as long as callers start no get
/// query as a part of it: it is never in progress again, nor is any get query that is part of it,
/// and no event ever says that it is complete.
pub proof fn law_cancelled_stays_cancelled(
    m: ManagerView,
    root: QueryId,
    id: QueryId,
    res: Response,
    parent: Option<QueryId>,
    cid: Cid,
    initial: Seq<PeerId>,
    missing: Seq<Cid>,
)
    requires
        m.wf(),
        m.cancelled(root),
    ensures
        parent != Some(root) && m.get(parent, cid, initial).fits() ==> m.get(
            parent,
            cid,
            initial,
        ).cancelled(root),
        m.sync(cid, missing).fits() ==> m.sync(cid, missing).cancelled(root),
        m.answerable(id) && m.inject_response(id, res).fits() ==> m.inject_response(
            id,
            res,
        ).cancelled(root),
        m.cancel(id).cancelled(root),
        m.next().cancelled(root),
{
    let get = m.get(parent, cid, initial);
    if parent != Some(root) && get.fits() {
        lemma_get_wf(m, parent, cid, initial);
        lemma_extended_cancelled(m, get, root);
    }
    let sync = m.sync(cid, missing);
    if sync.fits() {
        lemma_sync_wf(m, cid, missing);
        assert forall|k: u64| #[trigger]
            sync.queries.contains_key(k) && !m.queries.contains_key(k) && sync.queries[k].state
                is Get implies sync.queries[k].hdr.parent != Some(root) by {
            lemma_sync_adds(m, cid, missing, k);
        }
        lemma_extended_cancelled(m, sync, root);
    }
    let heard = m.inject_response(id, res);
    if m.has(id) && m.answerable(id) && heard.fits() {
        lemma_answered_into(m, id, res);
        law_response_steps(m, id, res);
    }
    let less = m.cancel(id);
    lemma_cancel_adds_nothing(m, id);
    assert forall|i: int|
        0 <= i < less.events.len() && #[trigger] less.events[i] is Complete implies event_id(
        less.events[i],
    ) != root by {
        let at = choose|at: int| 0 <= at < m.events.len() && m.events[at] == less.events[i];
        assert(m.events[at] is Complete);
    }
}

/// Starting queries leaves a query cancelled, if none of the new ones is a get query that is part
/// of it.
proof fn lemma_extended_cancelled(m: ManagerView, after: ManagerView, root: QueryId)
    requires
        m.cancelled(root),
        m.extended_by(after),
        forall|k: u64| #[trigger]
            after.queries.contains_key(k) && !m.queries.contains_key(k) && after.queries[k].state
                is Get ==> after.queries[k].hdr.parent != Some(root),
    ensures
        after.cancelled(root),
{
    assert forall|k: u64| #[trigger]
        after.queries.contains_key(k) && after.queries[k].state is Get implies after.queries[k].hdr.parent
        != Some(root) by {
        assert(m.queries.contains_key(k) ==> after.queries[k] == m.queries[k]);
    }
    assert forall|i: int|
        0 <= i < after.events.len() && #[trigger] after.events[i] is Complete implies event_id(
        after.events[i],
    ) != root by {
        assert(i < m.events.len());
        assert(after.events[i] == m.events[i]);
    }
}

/// A cancelled query says nothing more: a response to any subquery under it, its own or one of a
/// get query that was part of it, is dropped, however much later it comes. No event is added, and
/// no other query changes.
pub proof fn law_cancelled_is_silent(m: ManagerView, root: QueryId, id: QueryId, res: Response)
    requires
        m.wf(),
        m.adopted(),
        m.cancelled(root),
        m.has(id),
        m.query(id).state is Leaf,
        m.query(id).hdr.parent == Some(root) || m.query(id).hdr.root == root,
    ensures
        m.inject_response(id, res) == m.forget(id),
        m.inject_response(id, res).events == m.events,
{
    let p = m.query(id).hdr.parent->0;
    assert(m.has_kin(id@));
    if m.has(p) {
        assert(m.rooted(p, m.query(p).hdr.root));
        assert(m.queries.contains_key(p@));
        assert(m.query(p).hdr.id == p);
    }
    law_orphan_is_dropped(m, id, res);
}

} // verus!
