# miracle

A server for a tree of named directories and resources, spoken to over
WebSocket with MessagePack messages.

- `src/` is the verified library:
  - `model.rs`: the tree (`Resource`, `Directory`, `Node`), its lookups by
    path, in-place changes and listings (`DirectoryTree`), with the laws that
    relate them;
  - `state.rs`: the shared tree and the operations that requests perform on
    it (insert, remove, get, list), with their laws;
  - `handler.rs`: the request a client's MessagePack message carries, what
    that request does to the tree and to the client's streams, what it is
    answered, and which work it leaves for the connection (notifications,
    starting and stopping streams);
  - `client_handler.rs`: the acknowledging handler's decisions;
  - `value.rs`: the MessagePack value type, the conversions into it, and the
    few facts about it that the library relies on.
- `app/` holds the program: argument handling, the WebSocket connection,
  MessagePack encoding of answers, the shared locks and the stream tasks.
- `tests/` runs the library on concrete trees and requests.
