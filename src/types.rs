use vstd::prelude::*;

use crate::fixed::Fixed;

verus! {

/// A price, in units of `SCALE`.
pub type Price = Fixed;

/// A quantity, in units of `SCALE`.
pub type Quantity = Fixed;

/// A 128-bit order identifier: the value of a UUID.
pub type OrderId = u128;

/// A wall-clock instant; the book carries it and never reads it.
pub type Timestamp = std::time::SystemTime;

/// `std::time::SystemTime`, carried through as an opaque value.
#[verifier::external_type_specification]
#[verifier::external_body]
pub struct ExSystemTime(std::time::SystemTime);

/// Relies on `SystemTime::now`: the current wall-clock time, of which nothing is known.
pub assume_specification[ std::time::SystemTime::now ]() -> std::time::SystemTime;

/// Relies on `SystemTime`'s `Clone`, which copies the value (the type is `Copy`).
pub assume_specification[ <std::time::SystemTime as Clone>::clone ](t: &std::time::SystemTime) -> (r: std::time::SystemTime)
    ensures
        r == *t,
;

/// Side of the book an order stands on.
#[derive(Clone, Copy, Debug, PartialEq, Eq, Structural, Hash)]
pub enum Side {
    Ask,
    Bid,
}

impl Side {
    pub open spec fn spec_opposite(self) -> Side {
        match self {
            Side::Ask => Side::Bid,
            Side::Bid => Side::Ask,
        }
    }

    /// The other side.
    pub fn opposite(&self) -> (r: Side)
        ensures
            r == self.spec_opposite(),
            r != *self,
            r.spec_opposite() == *self,
    {
        match self {
            Side::Ask => Side::Bid,
            Side::Bid => Side::Ask,
        }
    }
}

/// The current time.
pub fn timestamp() -> Timestamp {
    std::time::SystemTime::now()
}

/// Name for the version-5 UUID (namespace DNS) of a byte string, as a `u128`.
pub uninterp spec fn uuid_v5_dns(name: Seq<u8>) -> u128;

/// A fresh time-ordered identifier for a user order.
/// Relies on `uuid::Uuid::now_v7` and `Uuid::as_u128`: the value depends on the
/// clock and a counter; every one carries version 7 and the RFC 4122 variant.
#[verifier::external_body]
pub fn create_order_id() -> (r: OrderId)
    ensures
        (r >> 76u128) & 0xfu128 == 7,
        (r >> 62u128) & 0x3u128 == 2,
{
    uuid::Uuid::now_v7().as_u128()
}

/// The deterministic identifier derived from `bytes`.
/// Relies on `uuid::Uuid::new_v5` in the DNS namespace and `Uuid::as_u128`: the
/// result is a function of the bytes alone.
#[verifier::external_body]
pub fn create_id_from_bytes(bytes: &[u8]) -> (r: OrderId)
    ensures
        r == uuid_v5_dns(bytes@),
{
    uuid::Uuid::new_v5(&uuid::Uuid::NAMESPACE_DNS, bytes).as_u128()
}

} // verus!
