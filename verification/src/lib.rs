use vstd::prelude::*;

pub mod addr;
pub mod closest_nodes_iter;
pub mod dbus_service;
pub mod distance;
pub mod kademlia;
pub mod kbucket;
pub mod kbuckets;
pub mod message;
pub mod node;
pub mod peer;
pub mod proto_pinboard;
pub mod semaphore;
pub mod server;
pub mod storage;
pub mod utils;

verus! {

/// The failures the node core can report (peripheral I/O errors stay at the edge).
#[derive(Clone, Copy, PartialEq, Eq, Structural, Debug)]
pub enum Error {
    /// A value handed to `put` or `store` is longer than `MAX_VALUE_LEN`.
    ValueTooLong,
    /// A peer claims the local node's own id.
    InvalidPeerId,
    /// A frame could not be decoded.
    MalformedMessage,
    /// A request ran out of time; synthetic and internal.
    Timeout,
    /// The address is not globally routable, so the peer is refused.
    AddressUnusable,
    /// The target bucket is full; the caller runs the eviction path.
    BucketFull,
}

} // verus!
