# websmq

A publish/subscribe message broker over WebSockets, with its core verified
in Verus.

- `src/protocol.rs`: the binary wire format (two header bytes holding the
  message type and the topic length, the UTF-8 topic, the payload), with
  decoding, encoding and the proofs that each undoes the other.
- `src/topic_tree.rs`: the tree of topic paths in which the broker records
  subscriptions, specified as a map from paths to sets of clients.
- `src/registry.rs`: the broker's record of each client's topics, kept in
  agreement with the topic tree, and the decisions taken on each incoming
  message (subscribe, unsubscribe, declare a last will, forget a client,
  forward a publication to the other subscribers, send a last will on
  disconnect), with the subscription count stated for each.
- `src/frame.rs`: the kinds of WebSocket message that broker and client
  tell apart, and what a client makes of each.
- `src/payload.rs`: the payload text conversion of the command line client.
- `src/address.rs`: the broker URL a client connects to (parsed by `url`).
- `app/`: the unverified network side (tokio, tokio-tungstenite) and the
  command line programs: `websmq server` and
  `websmq client <address> [topic...]`.
