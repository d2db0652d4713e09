//! A Kademlia-style routing table: contacts sorted into buckets by the
//! XOR distance between their identifier and the local one.

pub mod bucket;
pub mod closest;
pub mod distance;
pub mod laws;
pub mod peer_id;
pub mod table;

pub use bucket::{Bucket, KBucket, Node, UpdateOutcome, MAX_NODES_PER_BUCKET};
pub use closest::{insert_self, sort_by_distance};
pub use distance::bucket_num;
pub use peer_id::PeerId;
pub use distance::KBucketsPeerId;
pub use table::{BucketsIter, KBucketsTable};
