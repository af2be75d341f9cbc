# bitswap_query

The queries of a bitswap node as a verified state machine: it locates and retrieves blocks, and
dags of blocks, from peers.

`QueryManager` does no input or output. `get` and `sync` start queries and `cancel` ends them.
`next` hands out the requests to be sent and the results; `inject_response` takes what came back.

- `src/types.rs`: ids, requests, responses, events and headers.
- `src/manager.rs`: the manager. The contract of each operation is an equation over its model.
- `src/model.rs`: what each operation and each response makes of the manager.
- `src/validity.rs`: the invariant that every operation keeps.
- `src/laws.rs`: what holds over several calls.
- `src/cancellation.rs`: nothing is heard of a cancelled query any more.
- `src/progress.rs`: every query in progress waits for a subquery in progress.
- `src/requests.rs`: which responses answer a request.
- `src/lemmas.rs`, `src/steps.rs`: the proofs that the invariant is kept, and how the queries before
  and after a response relate.
- `src/display.rs`: how ids, requests and responses read as text.
- `src/external.rs`: everything that is taken on trust, which is the FNV hash tables. Peer and
  content identifiers are handed on as they came.

Three limits are required of the caller. The ids that are taken must fit in 64 bits. A response must
be one to a query that another query waits for, as every request that `next` hands out is. The
iterators that `get` and `sync` take must end, and obey the laws that `vstd` states of iterators.
