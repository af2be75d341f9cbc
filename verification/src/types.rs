//! The vocabulary of the query manager: identifiers, requests, responses and events.
use cid::Cid;
use libp2p::PeerId;
use vstd::prelude::*;

verus! {

/// Query id.
#[derive(Clone, Copy, Debug, Eq, Hash, Ord, PartialEq, PartialOrd, Structural)]
pub struct QueryId(u64);

impl View for QueryId {
    type V = u64;

    closed spec fn view(&self) -> u64 {
        self.0
    }
}

impl QueryId {
    /// The id with the number `n`. Every id has a number that fits in 64 bits.
    pub closed spec fn of(n: nat) -> QueryId {
        QueryId(n as u64)
    }

    /// The id with the number `n`.
    pub(crate) fn from_number(n: u64) -> (id: QueryId)
        ensures
            id == QueryId::of(n as nat),
            id@ == n,
    {
        QueryId(n)
    }

    /// The number of the id.
    pub(crate) fn number(self) -> (n: u64)
        ensures
            n == self@,
    {
        self.0
    }
}

/// The id made of a number has that number.
pub broadcast proof fn lemma_number_of_id(n: nat)
    requires
        n <= u64::MAX,
    ensures
        (#[trigger] QueryId::of(n))@ == n,
{
}

/// An id is determined by its number.
pub broadcast proof fn lemma_id_of_number(id: QueryId)
    ensures
        QueryId::of((#[trigger] id@) as nat) == id,
{
}

pub broadcast group group_query_id {
    lemma_number_of_id,
    lemma_id_of_number,
}

/// Query type.
#[derive(Clone, Copy, Debug, Eq, PartialEq, Structural)]
pub enum QueryType {
    Get,
    Sync,
}

/// Request.
#[derive(Debug, Eq, PartialEq)]
pub enum Request {
    /// Have query.
    Have(PeerId, Cid),
    /// Block query.
    Block(PeerId, Cid),
    /// Providers query.
    Providers(Cid),
    /// Missing blocks query.
    MissingBlocks(Cid),
}

/// Response.
#[derive(Debug)]
pub enum Response {
    /// Have query.
    Have(PeerId, bool),
    /// Block query.
    Block(PeerId, bool),
    /// Providers query.
    Providers(Vec<PeerId>),
    /// Missing blocks query.
    MissingBlocks(Vec<Cid>),
}

/// Event emitted by a query.
#[derive(Debug)]
pub enum QueryEvent {
    /// A subquery to run.
    Request(QueryId, Request),
    /// Complete event.
    Complete(QueryId, QueryType, Result<(), Cid>),
}

#[derive(Clone, Copy, Debug)]
pub struct Header {
    /// Query id.
    pub id: QueryId,
    /// Root query id.
    pub root: QueryId,
    /// Parent.
    pub parent: Option<QueryId>,
    /// Cid.
    pub cid: Cid,
}

} // verus!
