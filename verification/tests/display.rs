use bitswap_query::{QueryManager, Request, Response};
use cid::Cid;
use libp2p::PeerId;

#[test]
fn ids_read_as_their_number() {
    let mut mgr = QueryManager::default();
    let cid = Cid::default();
    for i in 0u64..600 {
        // Each get query takes an id for itself and one for its request.
        let id = mgr.get(None, cid, std::iter::empty());
        assert_eq!(id.to_string(), format!("{}", 2 * i));
    }
}

#[test]
fn requests_read_as_what_they_ask_for() {
    let peer = PeerId::random();
    let cid = Cid::default();
    assert_eq!(Request::Have(peer, cid).to_string(), "have");
    assert_eq!(Request::Block(peer, cid).to_string(), "block");
    assert_eq!(Request::Providers(cid).to_string(), "providers");
    assert_eq!(Request::MissingBlocks(cid).to_string(), "missing-blocks");
}

#[test]
fn responses_read_as_a_short_answer() {
    let peer = PeerId::random();
    let cid = Cid::default();
    assert_eq!(Response::Have(peer, true).to_string(), "have true");
    assert_eq!(Response::Have(peer, false).to_string(), "have false");
    assert_eq!(Response::Block(peer, true).to_string(), "block true");
    assert_eq!(Response::Block(peer, false).to_string(), "block false");
    assert_eq!(Response::Providers(vec![]).to_string(), "providers 0");
    assert_eq!(Response::Providers(vec![peer; 12]).to_string(), "providers 12");
    assert_eq!(Response::MissingBlocks(vec![cid; 9]).to_string(), "missing-blocks 9");
    assert_eq!(Response::MissingBlocks(vec![cid; 305]).to_string(), "missing-blocks 305");
}
