//! Wire codec, sequence arithmetic, metrics, index spaces, records,
//! ticks and manifest bookkeeping of the qaul distance-vector routing
//! protocol.

pub mod codec;
pub mod metric;
pub mod seq;
pub mod sphere;
pub mod keyed;
pub mod manifest;
pub mod error;
pub mod identity;
pub mod propagation;
pub mod index;
pub mod receive;
pub mod delegation;
pub mod lookup;
pub mod pull;
pub mod expiry;
pub mod profile;
pub mod mapping;
pub mod admission;
pub mod management;
pub mod table;
pub mod mirror;
pub mod dictionary;
pub mod indexes;
pub mod records;
pub mod tick;
pub mod inbound;
