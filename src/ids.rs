use std::marker::PhantomData;
use vstd::prelude::*;

verus! {

/// A kind of node or record that carries an identifier.
pub trait EntityType {
    fn display_name() -> &'static str;
}

/// The kind of a thinker's identifier.
pub struct ThinkerKind;

/// The kind of a fork's identifier.
pub struct ForkKind;

/// The kind of a token's identifier.
pub struct TokenKind;

impl EntityType for ThinkerKind {
    fn display_name() -> &'static str {
        "Thinker"
    }
}

impl EntityType for ForkKind {
    fn display_name() -> &'static str {
        "Fork"
    }
}

impl EntityType for TokenKind {
    fn display_name() -> &'static str {
        "Token"
    }
}

pub type ThinkerId = Id<ThinkerKind>;

pub type ForkId = Id<ForkKind>;

pub type TokenId = Id<TokenKind>;

/// Where a node listens: an IP address (an IPv4 address is held in the low
/// 32 bits) and a UDP port.
#[derive(Clone, Copy, Debug, PartialEq, Eq, Structural)]
pub struct Endpoint {
    pub ip: u128,
    pub port: u16,
    pub v6: bool,
}

/// A 128-bit identifier of an entity of kind `T`; identifiers are ordered
/// as unsigned integers, which is their byte-lexicographic order.
pub struct Id<T> {
    pub value: u128,
    pub _kind: PhantomData<T>,
}

impl<T> Clone for Id<T> {
    fn clone(&self) -> (r: Self)
        ensures
            r == *self,
    {
        Id { value: self.value, _kind: PhantomData }
    }
}

impl<T> Copy for Id<T> {
}

impl<T> PartialEq for Id<T> {
    fn eq(&self, other: &Self) -> (r: bool) {
        self.value == other.value
    }
}

impl<T> vstd::std_specs::cmp::PartialEqSpecImpl for Id<T> {
    open spec fn obeys_eq_spec() -> bool {
        true
    }

    open spec fn eq_spec(&self, other: &Self) -> bool {
        self.value == other.value
    }
}

impl<T> Eq for Id<T> {
}

/// Relies on uuid::Uuid::new_v4 and Uuid::as_u128: a random version-4 UUID,
/// whose version nibble is 4 and whose variant bits are `10`.
#[verifier::external_body]
fn random_uuid() -> (r: u128)
    ensures
        r & 0xF000_C000_0000_0000_0000u128 == 0x4000_8000_0000_0000_0000u128,
{
    uuid::Uuid::new_v4().as_u128()
}

impl<T> Id<T> {
    /// A fresh random identifier.
    pub fn random() -> (r: Self)
        ensures
            r.value & 0xF000_C000_0000_0000_0000u128 == 0x4000_8000_0000_0000_0000u128,
    {
        Id { value: random_uuid(), _kind: PhantomData }
    }

    pub fn from_value(value: u128) -> (r: Self)
        ensures
            r.value == value,
    {
        Id { value, _kind: PhantomData }
    }
}

} // verus!
