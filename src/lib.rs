//! A client library for a ship's channel protocol and Graph Store: index
//! paths, node contents, the node tree and its builder, subscriptions, and
//! the message-id discipline and framing of channel actions.

/// Channels: message ids, action framing, event delivery.
pub mod channel;
/// Index paths: segments, ancestry, the grouped-decimal form, `@da` dates.
pub mod codec;
/// Links of collections.
pub mod collections;
/// Node contents: typed items, their wire form and their text.
pub mod contents;
/// Errors.
pub mod error;
/// Nodes, graphs, their wire form and the tree builder.
pub mod graph;
/// Graph Store actions and new nodes.
pub mod graphstore;
/// JSON documents as plain values.
pub mod json;
/// Messages with their authors.
pub mod messaging;
/// Notes of notebooks and comments.
pub mod note;
/// Notebook indices.
pub mod notebook;
/// The builder rebuilds what it built.
pub mod rebuild;
/// Subscriptions and their queues of facts.
pub mod subscription;
/// Decimal numerals and text helpers.
pub mod text;
