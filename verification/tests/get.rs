use bitswap_query::{QueryEvent, QueryId, QueryManager, QueryType, Request, Response};
use cid::Cid;
use libp2p::PeerId;

fn gen_peers(n: usize) -> Vec<PeerId> {
    let mut peers = Vec::with_capacity(n);
    for _ in 0..n {
        peers.push(PeerId::random());
    }
    peers
}

fn assert_request(event: Option<QueryEvent>, req: Request) -> QueryId {
    if let Some(QueryEvent::Request(id, req2)) = event {
        assert_eq!(req2, req);
        id
    } else {
        panic!("{:?} is not a request", event);
    }
}

fn assert_complete(event: Option<QueryEvent>, id: QueryId, ty: QueryType, res: Result<(), Cid>) {
    if let Some(QueryEvent::Complete(id2, ty2, res2)) = event {
        assert_eq!(id, id2);
        assert_eq!(ty, ty2);
        assert_eq!(res, res2);
    } else {
        panic!("{:?} is not a complete event", event);
    }
}

#[test]
fn test_get_query_block_not_found() {
    let mut mgr = QueryManager::default();
    let initial_set = gen_peers(3);
    let provider_set = gen_peers(3);
    let cid = Cid::default();

    let id = mgr.get(None, cid, initial_set.iter().copied());

    let id1 = assert_request(mgr.next(), Request::Block(initial_set[0], cid));
    let id2 = assert_request(mgr.next(), Request::Have(initial_set[1], cid));
    let id3 = assert_request(mgr.next(), Request::Have(initial_set[2], cid));

    mgr.inject_response(id1, Response::Have(initial_set[0], false));
    mgr.inject_response(id2, Response::Have(initial_set[1], false));
    mgr.inject_response(id3, Response::Have(initial_set[2], false));

    let id1 = assert_request(mgr.next(), Request::Providers(cid));
    mgr.inject_response(id1, Response::Providers(provider_set.clone()));

    let id1 = assert_request(mgr.next(), Request::Block(provider_set[0], cid));
    let id2 = assert_request(mgr.next(), Request::Have(provider_set[1], cid));
    let id3 = assert_request(mgr.next(), Request::Have(provider_set[2], cid));

    mgr.inject_response(id1, Response::Have(provider_set[0], false));
    mgr.inject_response(id2, Response::Have(provider_set[1], false));
    mgr.inject_response(id3, Response::Have(provider_set[2], false));

    assert_complete(mgr.next(), id, QueryType::Get, Err(cid));
}

#[test]
fn test_cid_query_block_initial_set() {
    let mut mgr = QueryManager::default();
    let initial_set = gen_peers(3);
    let cid = Cid::default();

    let id = mgr.get(None, cid, initial_set.iter().copied());

    let id1 = assert_request(mgr.next(), Request::Block(initial_set[0], cid));
    let id2 = assert_request(mgr.next(), Request::Have(initial_set[1], cid));
    let id3 = assert_request(mgr.next(), Request::Have(initial_set[2], cid));

    mgr.inject_response(id1, Response::Block(initial_set[0], true));
    mgr.inject_response(id2, Response::Have(initial_set[1], false));
    mgr.inject_response(id3, Response::Have(initial_set[2], false));

    assert_complete(mgr.next(), id, QueryType::Get, Ok(()));
}

#[test]
fn test_get_query_block_provider_set() {
    let mut mgr = QueryManager::default();
    let initial_set = gen_peers(3);
    let provider_set = gen_peers(3);
    let cid = Cid::default();

    let id = mgr.get(None, cid, initial_set.iter().copied());

    let id1 = assert_request(mgr.next(), Request::Block(initial_set[0], cid));
    let id2 = assert_request(mgr.next(), Request::Have(initial_set[1], cid));
    let id3 = assert_request(mgr.next(), Request::Have(initial_set[2], cid));

    mgr.inject_response(id1, Response::Have(initial_set[0], false));
    mgr.inject_response(id2, Response::Have(initial_set[1], false));
    mgr.inject_response(id3, Response::Have(initial_set[2], false));

    let id1 = assert_request(mgr.next(), Request::Providers(cid));
    mgr.inject_response(id1, Response::Providers(provider_set.clone()));

    let id1 = assert_request(mgr.next(), Request::Block(provider_set[0], cid));
    let id2 = assert_request(mgr.next(), Request::Have(provider_set[1], cid));
    let id3 = assert_request(mgr.next(), Request::Have(provider_set[2], cid));

    mgr.inject_response(id1, Response::Block(provider_set[0], true));
    mgr.inject_response(id2, Response::Have(provider_set[1], false));
    mgr.inject_response(id3, Response::Have(provider_set[2], false));

    assert_complete(mgr.next(), id, QueryType::Get, Ok(()));
}

#[test]
fn test_get_query_gets_from_spare_if_block_request_fails() {
    let mut mgr = QueryManager::default();
    let initial_set = gen_peers(3);
    let cid = Cid::default();

    let id = mgr.get(None, cid, initial_set.iter().copied());

    let id1 = assert_request(mgr.next(), Request::Block(initial_set[0], cid));
    let id2 = assert_request(mgr.next(), Request::Have(initial_set[1], cid));
    let id3 = assert_request(mgr.next(), Request::Have(initial_set[2], cid));

    mgr.inject_response(id1, Response::Block(initial_set[0], false));
    mgr.inject_response(id2, Response::Have(initial_set[1], true));
    mgr.inject_response(id3, Response::Have(initial_set[2], false));

    let id1 = assert_request(mgr.next(), Request::Block(initial_set[1], cid));
    mgr.inject_response(id1, Response::Block(initial_set[1], true));

    assert_complete(mgr.next(), id, QueryType::Get, Ok(()));
}

#[test]
fn test_get_query_gets_from_spare_if_block_request_fails_after_have_is_received() {
    let mut mgr = QueryManager::default();
    let initial_set = gen_peers(3);
    let cid = Cid::default();

    let id = mgr.get(None, cid, initial_set.iter().copied());

    let id1 = assert_request(mgr.next(), Request::Block(initial_set[0], cid));
    let id2 = assert_request(mgr.next(), Request::Have(initial_set[1], cid));
    let id3 = assert_request(mgr.next(), Request::Have(initial_set[2], cid));

    mgr.inject_response(id1, Response::Block(initial_set[0], false));
    mgr.inject_response(id2, Response::Have(initial_set[1], true));
    mgr.inject_response(id3, Response::Have(initial_set[2], true));

    let id1 = assert_request(mgr.next(), Request::Block(initial_set[1], cid));
    mgr.inject_response(id1, Response::Block(initial_set[1], false));

    let id1 = assert_request(mgr.next(), Request::Block(initial_set[2], cid));
    mgr.inject_response(id1, Response::Block(initial_set[2], true));

    assert_complete(mgr.next(), id, QueryType::Get, Ok(()));
}

#[test]
fn starts_empty() {
    let mut mgr = QueryManager::default();
    assert!(mgr.next().is_none());
}

#[test]
fn first_peer_is_asked_for_the_block_and_the_others_whether_they_have_it() {
    let mut mgr = QueryManager::default();
    let peers = gen_peers(2);
    let cid = Cid::default();
    let id = mgr.get(None, cid, peers.iter().copied());
    let id1 = assert_request(mgr.next(), Request::Block(peers[0], cid));
    let id2 = assert_request(mgr.next(), Request::Have(peers[1], cid));
    assert!(mgr.next().is_none());
    assert_eq!(id.to_string(), "0");
    assert_eq!(id1.to_string(), "1");
    assert_eq!(id2.to_string(), "2");
    assert!(id < id1 && id1 < id2);
}

#[test]
fn providers_are_asked_for_at_once_without_initial_peers() {
    let mut mgr = QueryManager::default();
    let cid = Cid::default();
    let id = mgr.get(None, cid, std::iter::empty());
    let id1 = assert_request(mgr.next(), Request::Providers(cid));
    assert!(mgr.next().is_none());
    mgr.inject_response(id1, Response::Providers(vec![]));
    assert_complete(mgr.next(), id, QueryType::Get, Err(cid));
    assert!(mgr.next().is_none());
    assert!(mgr.query_info(id).is_none());
}

#[test]
fn headers_say_what_a_query_was_started_with() {
    let mut mgr = QueryManager::default();
    let peers = gen_peers(1);
    let cid = Cid::default();
    let id = mgr.get(None, cid, peers.iter().copied());
    let id1 = assert_request(mgr.next(), Request::Block(peers[0], cid));

    let hdr = mgr.query_info(id).unwrap();
    assert_eq!((hdr.id, hdr.root, hdr.parent, hdr.cid), (id, id, None, cid));
    let hdr = mgr.query_info(id1).unwrap();
    assert_eq!((hdr.id, hdr.root, hdr.parent, hdr.cid), (id1, id, Some(id), cid));

    let below = mgr.get(Some(id), cid, std::iter::empty());
    let hdr = mgr.query_info(below).unwrap();
    assert_eq!((hdr.id, hdr.root, hdr.parent, hdr.cid), (below, id, Some(id), cid));
}

#[test]
fn providers_wait_for_the_last_answer() {
    let mut mgr = QueryManager::default();
    let peers = gen_peers(2);
    let cid = Cid::default();
    mgr.get(None, cid, peers.iter().copied());
    let id1 = assert_request(mgr.next(), Request::Block(peers[0], cid));
    let id2 = assert_request(mgr.next(), Request::Have(peers[1], cid));
    mgr.inject_response(id1, Response::Block(peers[0], false));
    assert!(mgr.next().is_none());
    mgr.inject_response(id2, Response::Have(peers[1], false));
    assert_request(mgr.next(), Request::Providers(cid));
    assert!(mgr.next().is_none());
}

#[test]
fn spare_peer_that_answered_last_is_asked_first() {
    let mut mgr = QueryManager::default();
    let peers = gen_peers(3);
    let cid = Cid::default();
    let id = mgr.get(None, cid, peers.iter().copied());
    let id1 = assert_request(mgr.next(), Request::Block(peers[0], cid));
    let id2 = assert_request(mgr.next(), Request::Have(peers[1], cid));
    let id3 = assert_request(mgr.next(), Request::Have(peers[2], cid));
    mgr.inject_response(id2, Response::Have(peers[1], true));
    mgr.inject_response(id3, Response::Have(peers[2], true));
    assert!(mgr.next().is_none());
    mgr.inject_response(id1, Response::Block(peers[0], false));
    let id1 = assert_request(mgr.next(), Request::Block(peers[2], cid));
    mgr.inject_response(id1, Response::Block(peers[2], false));
    let id1 = assert_request(mgr.next(), Request::Block(peers[1], cid));
    mgr.inject_response(id1, Response::Block(peers[1], true));
    assert_complete(mgr.next(), id, QueryType::Get, Ok(()));
}

#[test]
fn providers_are_asked_for_once() {
    let mut mgr = QueryManager::default();
    let peers = gen_peers(1);
    let cid = Cid::default();
    let id = mgr.get(None, cid, std::iter::empty());
    let id1 = assert_request(mgr.next(), Request::Providers(cid));
    mgr.inject_response(id1, Response::Providers(peers.clone()));
    let id1 = assert_request(mgr.next(), Request::Block(peers[0], cid));
    mgr.inject_response(id1, Response::Block(peers[0], false));
    assert_complete(mgr.next(), id, QueryType::Get, Err(cid));
    assert!(mgr.next().is_none());
}

#[test]
fn second_answer_to_a_query_is_ignored() {
    let mut mgr = QueryManager::default();
    let peers = gen_peers(1);
    let cid = Cid::default();
    let id = mgr.get(None, cid, peers.iter().copied());
    let id1 = assert_request(mgr.next(), Request::Block(peers[0], cid));
    mgr.inject_response(id1, Response::Block(peers[0], true));
    mgr.inject_response(id1, Response::Block(peers[0], true));
    assert_complete(mgr.next(), id, QueryType::Get, Ok(()));
    assert!(mgr.next().is_none());
    assert_eq!(mgr.cancel(id), None);
}

#[test]
fn answers_after_completion_change_nothing() {
    let mut mgr = QueryManager::default();
    let peers = gen_peers(2);
    let cid = Cid::default();
    let id = mgr.get(None, cid, peers.iter().copied());
    let id1 = assert_request(mgr.next(), Request::Block(peers[0], cid));
    let id2 = assert_request(mgr.next(), Request::Have(peers[1], cid));
    mgr.inject_response(id1, Response::Block(peers[0], true));
    assert_complete(mgr.next(), id, QueryType::Get, Ok(()));
    assert!(mgr.query_info(id2).is_some());
    mgr.inject_response(id2, Response::Have(peers[1], true));
    assert!(mgr.next().is_none());
    assert!(mgr.query_info(id2).is_none());
}

#[test]
fn answer_of_another_kind_ends_the_get_query_without_an_event() {
    let mut mgr = QueryManager::default();
    let peers = gen_peers(1);
    let cid = Cid::default();
    let id = mgr.get(None, cid, peers.iter().copied());
    let id1 = assert_request(mgr.next(), Request::Block(peers[0], cid));
    mgr.inject_response(id1, Response::MissingBlocks(vec![cid]));
    assert!(mgr.next().is_none());
    assert!(mgr.query_info(id).is_none());
}

#[test]
fn queries_do_not_disturb_each_other() {
    let mut mgr = QueryManager::default();
    let peers = gen_peers(2);
    let cid = Cid::default();
    let first = mgr.get(None, cid, std::iter::once(peers[0]));
    let second = mgr.get(None, cid, std::iter::once(peers[1]));
    let id1 = assert_request(mgr.next(), Request::Block(peers[0], cid));
    let id2 = assert_request(mgr.next(), Request::Block(peers[1], cid));
    mgr.inject_response(id2, Response::Block(peers[1], true));
    assert_complete(mgr.next(), second, QueryType::Get, Ok(()));
    assert!(mgr.query_info(first).is_some());
    mgr.inject_response(id1, Response::Block(peers[0], true));
    assert_complete(mgr.next(), first, QueryType::Get, Ok(()));
}
