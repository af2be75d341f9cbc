use bitswap_query::{QueryEvent, QueryId, QueryManager, QueryType, Request, Response};
use cid::Cid;
use libp2p::PeerId;

fn gen_peers(n: usize) -> Vec<PeerId> {
    let mut peers = Vec::with_capacity(n);
    for _ in 0..n {
        peers.push(PeerId::random());
    }
    peers
}

fn assert_request(event: Option<QueryEvent>, req: Request) -> QueryId {
    if let Some(QueryEvent::Request(id, req2)) = event {
        assert_eq!(req2, req);
        id
    } else {
        panic!("{:?} is not a request", event);
    }
}

fn assert_complete(event: Option<QueryEvent>, id: QueryId, ty: QueryType, res: Result<(), Cid>) {
    if let Some(QueryEvent::Complete(id2, ty2, res2)) = event {
        assert_eq!(id, id2);
        assert_eq!(ty, ty2);
        assert_eq!(res, res2);
    } else {
        panic!("{:?} is not a complete event", event);
    }
}

fn gen_cids(n: u64) -> Vec<Cid> {
    let mut cids = Vec::new();
    for codec in 1..n + 1 {
        cids.push(Cid::new_v1(codec, *Cid::default().hash()));
    }
    cids
}

#[test]
fn sync_without_missing_blocks_looks_them_up() {
    let mut mgr = QueryManager::default();
    let cid = Cid::default();
    let id = mgr.sync(cid, std::iter::empty());
    let id1 = assert_request(mgr.next(), Request::MissingBlocks(cid));
    assert!(mgr.next().is_none());
    let hdr = mgr.query_info(id).unwrap();
    assert_eq!((hdr.id, hdr.root, hdr.parent, hdr.cid), (id, id, None, cid));
    mgr.inject_response(id1, Response::MissingBlocks(vec![]));
    assert_complete(mgr.next(), id, QueryType::Sync, Ok(()));
    assert!(mgr.query_info(id).is_none());
}

#[test]
fn sync_gets_each_missing_block() {
    let mut mgr = QueryManager::default();
    let cid = Cid::default();
    let cids = gen_cids(2);
    let id = mgr.sync(cid, cids.iter().copied());
    let id1 = assert_request(mgr.next(), Request::Providers(cids[0]));
    let id2 = assert_request(mgr.next(), Request::Providers(cids[1]));
    assert!(mgr.next().is_none());
    let get = mgr.query_info(id1).unwrap().parent.unwrap();
    let hdr = mgr.query_info(get).unwrap();
    assert_eq!((hdr.id, hdr.root, hdr.parent, hdr.cid), (get, id, Some(id), cids[0]));
    assert_eq!(mgr.query_info(id2).unwrap().root, id);
}

#[test]
fn sync_goes_deeper_and_asks_the_peers_that_provided_the_block_above() {
    let mut mgr = QueryManager::default();
    let peers = gen_peers(2);
    let cid = Cid::default();
    let cids = gen_cids(2);
    let id = mgr.sync(cid, std::iter::once(cids[0]));

    let id1 = assert_request(mgr.next(), Request::Providers(cids[0]));
    mgr.inject_response(id1, Response::Providers(peers.clone()));
    let id1 = assert_request(mgr.next(), Request::Block(peers[0], cids[0]));
    let id2 = assert_request(mgr.next(), Request::Have(peers[1], cids[0]));
    mgr.inject_response(id2, Response::Have(peers[1], true));
    mgr.inject_response(id1, Response::Block(peers[0], true));

    let id1 = assert_request(mgr.next(), Request::MissingBlocks(cids[0]));
    assert!(mgr.next().is_none());
    mgr.inject_response(id1, Response::MissingBlocks(vec![cids[1]]));
    let id1 = assert_request(mgr.next(), Request::Block(peers[1], cids[1]));
    assert_request(mgr.next(), Request::Have(peers[0], cids[1]));
    mgr.inject_response(id1, Response::Block(peers[1], true));

    let id1 = assert_request(mgr.next(), Request::MissingBlocks(cids[1]));
    mgr.inject_response(id1, Response::MissingBlocks(vec![]));
    assert_complete(mgr.next(), id, QueryType::Sync, Ok(()));
    assert!(mgr.next().is_none());
}

#[test]
fn sync_waits_for_every_block() {
    let mut mgr = QueryManager::default();
    let peers = gen_peers(1);
    let cid = Cid::default();
    let cids = gen_cids(2);
    let id = mgr.sync(cid, cids.iter().copied());
    let id1 = assert_request(mgr.next(), Request::Providers(cids[0]));
    let id2 = assert_request(mgr.next(), Request::Providers(cids[1]));
    mgr.inject_response(id1, Response::Providers(peers.clone()));
    let id1 = assert_request(mgr.next(), Request::Block(peers[0], cids[0]));
    mgr.inject_response(id1, Response::Block(peers[0], true));
    let id1 = assert_request(mgr.next(), Request::MissingBlocks(cids[0]));
    mgr.inject_response(id1, Response::MissingBlocks(vec![]));
    assert!(mgr.next().is_none());
    mgr.inject_response(id2, Response::Providers(peers.clone()));
    let id2 = assert_request(mgr.next(), Request::Block(peers[0], cids[1]));
    mgr.inject_response(id2, Response::Block(peers[0], true));
    let id2 = assert_request(mgr.next(), Request::MissingBlocks(cids[1]));
    mgr.inject_response(id2, Response::MissingBlocks(vec![]));
    assert_complete(mgr.next(), id, QueryType::Sync, Ok(()));
}

#[test]
fn sync_fails_with_the_block_that_was_not_found() {
    let mut mgr = QueryManager::default();
    let cid = Cid::default();
    let cids = gen_cids(2);
    let id = mgr.sync(cid, cids.iter().copied());
    let id1 = assert_request(mgr.next(), Request::Providers(cids[0]));
    let id2 = assert_request(mgr.next(), Request::Providers(cids[1]));
    mgr.inject_response(id2, Response::Providers(vec![]));
    assert_complete(mgr.next(), id, QueryType::Sync, Err(cids[1]));
    assert!(mgr.query_info(id).is_none());
    mgr.inject_response(id1, Response::Providers(vec![]));
    assert!(mgr.next().is_none());
}

#[test]
fn same_block_twice_is_got_twice() {
    let mut mgr = QueryManager::default();
    let cid = Cid::default();
    let cids = gen_cids(1);
    mgr.sync(cid, vec![cids[0], cids[0]].into_iter());
    let id1 = assert_request(mgr.next(), Request::Providers(cids[0]));
    let id2 = assert_request(mgr.next(), Request::Providers(cids[0]));
    assert_ne!(id1, id2);
    assert!(mgr.next().is_none());
}

#[test]
fn answer_of_another_kind_ends_the_sync_query_without_an_event() {
    let mut mgr = QueryManager::default();
    let peers = gen_peers(1);
    let cid = Cid::default();
    let id = mgr.sync(cid, std::iter::empty());
    let id1 = assert_request(mgr.next(), Request::MissingBlocks(cid));
    mgr.inject_response(id1, Response::Block(peers[0], true));
    assert!(mgr.next().is_none());
    assert!(mgr.query_info(id).is_none());
}

#[test]
fn cancelling_a_get_query_withdraws_its_requests() {
    let mut mgr = QueryManager::default();
    let peers = gen_peers(3);
    let cid = Cid::default();
    let id = mgr.get(None, cid, peers[..2].iter().copied());
    let other = mgr.get(None, cid, std::iter::once(peers[2]));
    let id1 = assert_request(mgr.next(), Request::Block(peers[0], cid));
    assert_eq!(mgr.cancel(id), Some(QueryType::Get));
    assert!(mgr.query_info(id).is_none());
    let id2 = assert_request(mgr.next(), Request::Block(peers[2], cid));
    assert!(mgr.next().is_none());
    assert_eq!(mgr.cancel(id), None);
    mgr.inject_response(id1, Response::Block(peers[0], true));
    assert!(mgr.next().is_none());
    mgr.inject_response(id2, Response::Block(peers[2], true));
    assert_complete(mgr.next(), other, QueryType::Get, Ok(()));
}

#[test]
fn cancelling_a_sync_query_ends_its_get_queries() {
    let mut mgr = QueryManager::default();
    let peers = gen_peers(1);
    let cid = Cid::default();
    let cids = gen_cids(2);
    let id = mgr.sync(cid, cids.iter().copied());
    let id1 = assert_request(mgr.next(), Request::Providers(cids[0]));
    let get = mgr.query_info(id1).unwrap().parent.unwrap();
    assert_eq!(mgr.cancel(id), Some(QueryType::Sync));
    assert!(mgr.next().is_none());
    assert!(mgr.query_info(id).is_none());
    assert!(mgr.query_info(get).is_none());
    mgr.inject_response(id1, Response::Providers(peers.clone()));
    assert!(mgr.next().is_none());
    assert_eq!(mgr.cancel(id), None);
}

#[test]
fn subquery_cannot_be_cancelled() {
    let mut mgr = QueryManager::default();
    let peers = gen_peers(1);
    let cid = Cid::default();
    let id = mgr.get(None, cid, peers.iter().copied());
    let id1 = assert_request(mgr.next(), Request::Block(peers[0], cid));
    assert_eq!(mgr.cancel(id1), None);
    assert!(mgr.query_info(id1).is_some());
    mgr.inject_response(id1, Response::Block(peers[0], true));
    assert_complete(mgr.next(), id, QueryType::Get, Ok(()));
}

#[test]
fn cancelling_keeps_results_that_wait_to_be_retrieved() {
    let mut mgr = QueryManager::default();
    let peers = gen_peers(1);
    let cid = Cid::default();
    let done = mgr.get(None, cid, peers.iter().copied());
    let id1 = assert_request(mgr.next(), Request::Block(peers[0], cid));
    mgr.inject_response(id1, Response::Block(peers[0], true));
    let id = mgr.get(None, cid, peers.iter().copied());
    assert_eq!(mgr.cancel(id), Some(QueryType::Get));
    assert_complete(mgr.next(), done, QueryType::Get, Ok(()));
    assert!(mgr.next().is_none());
}

#[test]
fn unknown_ids_are_ignored() {
    let mut other = QueryManager::default();
    let cid = Cid::default();
    let id = other.get(None, cid, std::iter::empty());
    let mut mgr = QueryManager::default();
    assert_eq!(mgr.cancel(id), None);
    assert!(mgr.query_info(id).is_none());
    mgr.inject_response(id, Response::Providers(vec![]));
    assert!(mgr.next().is_none());
}

#[test]
fn cancelled_sync_query_stays_silent_whatever_happens_later() {
    let mut mgr = QueryManager::default();
    let peers = gen_peers(2);
    let cid = Cid::default();
    let cids = gen_cids(3);
    let id = mgr.sync(cid, cids[..2].iter().copied());
    let id1 = assert_request(mgr.next(), Request::Providers(cids[0]));
    let id2 = assert_request(mgr.next(), Request::Providers(cids[1]));
    mgr.inject_response(id1, Response::Providers(peers[..1].to_vec()));
    let id1 = assert_request(mgr.next(), Request::Block(peers[0], cids[0]));
    mgr.inject_response(id1, Response::Block(peers[0], true));
    let id1 = assert_request(mgr.next(), Request::MissingBlocks(cids[0]));
    assert_eq!(mgr.cancel(id), Some(QueryType::Sync));

    let other = mgr.get(None, cids[2], std::iter::once(peers[1]));
    let id3 = assert_request(mgr.next(), Request::Block(peers[1], cids[2]));
    mgr.inject_response(id2, Response::Providers(peers.clone()));
    assert!(mgr.next().is_none());
    mgr.inject_response(id1, Response::MissingBlocks(vec![cids[1]]));
    assert!(mgr.next().is_none());
    mgr.inject_response(id3, Response::Block(peers[1], true));
    assert_complete(mgr.next(), other, QueryType::Get, Ok(()));
    assert!(mgr.next().is_none());
    assert!(mgr.query_info(id).is_none());
}

#[test]
fn get_query_of_a_sync_query_completes_without_an_event_of_its_own() {
    let mut mgr = QueryManager::default();
    let peers = gen_peers(1);
    let cid = Cid::default();
    let cids = gen_cids(1);
    let id = mgr.sync(cid, cids.iter().copied());
    let id1 = assert_request(mgr.next(), Request::Providers(cids[0]));
    let get = mgr.query_info(id1).unwrap().parent.unwrap();
    mgr.inject_response(id1, Response::Providers(peers.clone()));
    let id1 = assert_request(mgr.next(), Request::Block(peers[0], cids[0]));
    mgr.inject_response(id1, Response::Block(peers[0], true));
    assert!(mgr.query_info(get).is_none());
    let id1 = assert_request(mgr.next(), Request::MissingBlocks(cids[0]));
    assert!(mgr.next().is_none());
    mgr.inject_response(id1, Response::MissingBlocks(vec![]));
    assert_complete(mgr.next(), id, QueryType::Sync, Ok(()));
}

#[test]
fn request_made_earlier_is_answered_after_other_queries_moved_on() {
    let mut mgr = QueryManager::default();
    let peers = gen_peers(3);
    let cid = Cid::default();
    let id = mgr.get(None, cid, peers[..2].iter().copied());
    let id1 = assert_request(mgr.next(), Request::Block(peers[0], cid));
    let id2 = assert_request(mgr.next(), Request::Have(peers[1], cid));
    let other = mgr.sync(cid, std::iter::empty());
    let id3 = assert_request(mgr.next(), Request::MissingBlocks(cid));
    mgr.inject_response(id3, Response::MissingBlocks(vec![]));
    assert_complete(mgr.next(), other, QueryType::Sync, Ok(()));
    mgr.inject_response(id1, Response::Have(peers[0], false));
    assert!(mgr.next().is_none());
    mgr.inject_response(id2, Response::Have(peers[1], true));
    let id2 = assert_request(mgr.next(), Request::Block(peers[1], cid));
    mgr.inject_response(id2, Response::Block(peers[1], true));
    assert_complete(mgr.next(), id, QueryType::Get, Ok(()));
}
