//! A small publish/subscribe message broker protocol over WebSockets:
//! the binary wire format of its messages, the payload text conversion of
//! its command line client, the broker address a client connects to, the
//! topic tree in which the broker keeps its subscriptions, and the registry
//! of clients, subscriptions and last wills that decides what to forward.
pub mod address;
pub mod frame;
pub mod payload;
pub mod protocol;
pub mod topic_tree;
pub mod registry;
