//! How the queries in progress before and after a response relate.
use crate::laws::{law_response_steps, takes_no_old_id};
use crate::lemmas::{
    lemma_forget_wf, lemma_get_each_takes_ids, lemma_get_each_wf, lemma_get_wf,
};
use crate::model::{ManagerView, StateView};
use crate::types::{group_query_id, QueryId, Response};
use cid::Cid;
use libp2p::PeerId;
use vstd::prelude::*;

verus! {

broadcast use group_query_id;

/// The query `k` is the same one before and after the query `id` was answered. It waits for the
/// same old subqueries, apart from the answered one, and for the same get queries, apart from
/// those that are over.
pub open spec fn carries_on(m: ManagerView, after: ManagerView, id: QueryId, k: u64) -> bool {
    &&& after.queries[k].hdr == m.queries[k].hdr
    &&& match (m.queries[k].state, after.queries[k].state) {
        (StateView::Leaf, StateView::Leaf) => true,
        (StateView::Get(old), StateView::Get(new)) => {
            &&& forall|j: u64| #![trigger new.have.contains(j)]
                j < m.next_id && j != id@ ==> (new.have.contains(j) <==> old.have.contains(j))
            &&& old.block matches Some(block) ==> block != id ==> new.block == old.block
            &&& new.block matches Some(block) ==> block@ < m.next_id ==> new.block == old.block
        },
        (StateView::Sync(old), StateView::Sync(new)) => {
            &&& forall|j: u64| #![trigger new.children.contains_key(j)]
                j < m.next_id && j != id@ ==> (new.children.contains_key(j)
                    <==> old.children.contains_key(j))
            &&& forall|j: u64| #[trigger]
                old.missing.contains(j) && after.queries.contains_key(j) ==> new.missing.contains(j)
        },
        _ => false,
    }
}

/// The new query `k` is a subquery of a get or sync query in progress, or a get query that a sync
/// query in progress waits for. A subquery of a get query is about the block of that get query, or
/// about that of the answered query `id` if it was one of the same get query.
pub open spec fn joins(m: ManagerView, after: ManagerView, id: QueryId, k: u64) -> bool {
    let parent = after.queries[k].hdr.parent;
    let cid = after.queries[k].hdr.cid;
    match after.queries[k].state {
        StateView::Leaf => {
            &&& parent matches Some(p)
            &&& after.has(p)
            &&& !(after.query(p).state is Leaf)
            &&& after.query(p).state is Get ==> cid == after.query(p).hdr.cid || (m.query(
                id,
            ).hdr.parent == parent && cid == m.query(id).hdr.cid)
        },
        StateView::Get(_) => parent matches Some(p) && m.sync_state(p) is Some && (
        after.sync_state(p) matches Some(state) && state.missing.contains(k)),
        StateView::Sync(_) => false,
    }
}

/// Every query after the query `id` was answered is one of before that carries on, or a new one
/// that joins it.
pub open spec fn answered_into(m: ManagerView, after: ManagerView, id: QueryId) -> bool {
    &&& takes_no_old_id(m, after)
    &&& !after.has(id)
    &&& forall|k: u64| #[trigger]
        after.queries.contains_key(k) ==> if m.queries.contains_key(k) {
            carries_on(m, after, id, k)
        } else {
            joins(m, after, id, k)
        }
}

/// The get queries for a sync query, and their subqueries, are all that starting them adds.
pub proof fn lemma_get_each_adds(
    m: ManagerView,
    parent: QueryId,
    cids: Seq<Cid>,
    initial: Seq<PeerId>,
    k: u64,
)
    requires
        m.wf(),
        m.get_each(parent, cids, initial).fits(),
        m.get_each(parent, cids, initial).queries.contains_key(k),
        !m.queries.contains_key(k),
    ensures
        ({
            let after = m.get_each(parent, cids, initial);
            let above = after.queries[k].hdr.parent;
            match after.queries[k].state {
                StateView::Leaf => {
                    &&& above matches Some(get)
                    &&& m.next_id <= get@
                    &&& after.get_state(get) is Some
                    &&& after.query(get).hdr.cid == after.queries[k].hdr.cid
                },
                StateView::Get(_) => above == Some(parent) && m.ids_of_gets(
                    parent,
                    cids,
                    initial,
                ).contains(k),
                StateView::Sync(_) => false,
            }
        }),
    decreases cids.len(),
{
    if cids.len() > 0 {
        let fewer = cids.drop_last();
        let before = m.get_each(parent, fewer, initial);
        lemma_get_each_takes_ids(m, parent, cids, initial, fewer.len() as int);
        assert(cids.take(fewer.len() as int) =~= fewer);
        lemma_get_each_wf(m, parent, fewer, initial);
        lemma_get_wf(before, Some(parent), cids.last(), initial);
        if before.queries.contains_key(k) {
            lemma_get_each_adds(m, parent, fewer, initial, k);
            if let Some(get) = before.queries[k].hdr.parent {
                assert(before.get_state(get) is Some ==> before.queries.contains_key(get@));
            }
        }
    }
}

/// A response makes of the queries in progress some that carry on and some that join them.
pub proof fn lemma_answered_into(m: ManagerView, id: QueryId, res: Response)
    requires
        m.wf(),
        m.has(id),
        m.answerable(id),
        m.inject_response(id, res).fits(),
    ensures
        answered_into(m, m.inject_response(id, res), id),
{
    let after = m.inject_response(id, res);
    let query = m.query(id).hdr;
    let rest = m.forget(id);
    let p = query.parent->0;
    let base = rest.forget(p);
    law_response_steps(m, id, res);
    lemma_forget_wf(m, id);
    lemma_forget_wf(rest, p);
    assert(query.id == id);
    if rest.has(p) {
        let parent = rest.query(p).hdr;
        assert(parent.id == p);
        if let Some(s) = parent.parent {
            if base.has(s) {
                assert(m.query(s).hdr.id == s);
            }
        }
        match res {
            Response::MissingBlocks(cids) => {
                if let Some(before) = rest.sync_state(p) {
                    if after.has(p) {
                        let providers = before.providers_of(id);
                        lemma_get_each_wf(base, p, cids@, providers);
                        assert forall|k: u64| #[trigger]
                            after.queries.contains_key(k) && !m.queries.contains_key(k) implies joins(
                            m,
                            after,
                            id,
                            k,
                        ) by {
                            lemma_get_each_adds(base, p, cids@, providers, k);
                        }
                        assert forall|k: u64| #[trigger]
                            after.queries.contains_key(k) && m.queries.contains_key(
                                k,
                            ) implies carries_on(m, after, id, k) by {
                            if k != p@ {
                                assert(base.queries.contains_key(k));
                            }
                        }
                    }
                }
            },
            _ => {},
        }
    }
}

} // verus!
