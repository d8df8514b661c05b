# cowchat_server

The rules of the Cowchat chat server, written in Verus and proved against
their contracts: room membership and turn-taking, room tombstones, reconnect
stashes and their replay buffers, votes and leader elections, tasks, rate
limits and signup throttling, room access and invite redemption, API keys,
webhook filtering, target checks, signing and delivery retries, session
admission and disconnect cleanup, and the decisions made when the server
claims its listener socket.

Layout:

- `src/` is the verified library. Each module states its types' views and
  well-formedness as spec functions, gives every public function a contract
  over those views, and proves the laws that relate several operations as
  public proof functions (`lemma_*`).
- `tests/` runs the library on concrete values.
- `app/` is the I/O around the library: key files, the instance lock and the
  listener sockets, SQLite persistence, the NDJSON and WebSocket front ends,
  and the webhook delivery worker. It acts on what the library decides and
  holds no rules of its own.

Random numbers (`rand`, `uuid`), SHA-256 (`sha2`), HMAC-SHA256 (`hmac`) and
base64 (`base64`) are called from the library through small trusted wrappers
whose contracts say what those crates document.
