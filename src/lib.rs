//! Content-addressed data: the IPLD data model, its canonical DAG-CBOR
//! encoding, multihashes and content identifiers (CIDs), and a bridge that
//! maps structured application values into and out of the data model.

use vstd::prelude::*;

pub mod bridge;
pub mod cid;
pub mod dag_cbor;
pub mod error;
pub mod ipld;
pub mod multihash;
pub mod unsigned_varint;

pub use bridge::de::from_ipld;
pub use bridge::ser::to_ipld;
pub use bridge::{SerdeError, Shape, Value, Width};
pub use cid::{Cid, CidView};
pub use dag_cbor::{deserialize, serialize};
pub use error::DecodeError;
pub use ipld::{Ipld, IpldView};
pub use multihash::{HashAlgorithm, Multihash, MultihashView};
pub use unsigned_varint::{from_varint, to_varint, varint_read_u64};
