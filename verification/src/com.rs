//! Components: the values that entities hold.
//!
//! A store holds components of one Rust type. `Comp` is the sum of the
//! component types of the simulation; floating-point fields are held as their
//! bit patterns, which is what they are hashed and compared by.

use crate::utils::{hash_bytes, hash_of_bytes, HashMe};
use vstd::prelude::*;

verus! {

/// The number of a component type.
pub type TypeIdNum = u64;

/// A value that an entity can hold. `type_id` tells which component type a
/// value belongs to.
pub trait Component: HashMe + Clone + Sized {
    /// The component type of the value.
    spec fn type_spec(&self) -> TypeIdNum;

    fn type_id(&self) -> (t: TypeIdNum)
        ensures
            t == self.type_spec(),
    ;

    /// The key under which a secondary index files the value.
    spec fn index_spec(&self) -> u32;

    fn index_key(&self) -> (k: u32)
        ensures
            k == self.index_spec(),
    ;
}

/// A component type with its number.
pub trait ComponentType {
    /// The number of the component type.
    spec fn type_num() -> TypeIdNum;

    fn type_number() -> (t: TypeIdNum)
        ensures
            t == Self::type_num(),
    ;
}

/// The number of the component type `T`.
pub fn gett<T: ComponentType>() -> (t: TypeIdNum)
    ensures
        t == T::type_num(),
{
    T::type_number()
}

/// The four bytes of `x`, lowest first.
pub open spec fn bytes_of_u32(x: u32) -> Seq<u8> {
    seq![
        (x % 256) as u8,
        ((x / 256) % 256) as u8,
        ((x / 65536) % 256) as u8,
        ((x / 16777216) % 256) as u8,
    ]
}

/// The eight bytes of `x`, lowest first.
pub open spec fn bytes_of_u64(x: u64) -> Seq<u8> {
    bytes_of_u32((x % 4294967296) as u32) + bytes_of_u32((x / 4294967296) as u32)
}

/// Appends the four bytes of `x`, lowest first.
fn push_u32(bytes: &mut Vec<u8>, x: u32)
    ensures
        final(bytes)@ == old(bytes)@ + bytes_of_u32(x),
{
    bytes.push((x % 256) as u8);
    bytes.push(((x / 256) % 256) as u8);
    bytes.push(((x / 65536) % 256) as u8);
    bytes.push(((x / 16777216) % 256) as u8);
    proof {
        assert(bytes@ =~= old(bytes)@ + bytes_of_u32(x));
    }
}

/// Appends the eight bytes of `x`, lowest first.
fn push_u64(bytes: &mut Vec<u8>, x: u64)
    ensures
        final(bytes)@ == old(bytes)@ + bytes_of_u64(x),
{
    push_u32(bytes, (x % 4294967296) as u32);
    push_u32(bytes, (x / 4294967296) as u32);
    proof {
        assert(bytes@ =~= old(bytes)@ + bytes_of_u64(x));
    }
}

/// A position on the map. The fields are the bit patterns of the two
/// coordinates.
#[derive(Clone, Copy, Debug, PartialEq, Eq, Structural)]
pub struct PositionComp {
    pub x: u32,
    pub y: u32,
}

/// A velocity. The fields are the bit patterns of its two coordinates.
#[derive(Clone, Copy, Debug, PartialEq, Eq, Structural)]
pub struct VelocityComp {
    pub x: u32,
    pub y: u32,
}

/// An acceleration. The fields are the bit patterns of its two coordinates.
#[derive(Clone, Copy, Debug, PartialEq, Eq, Structural)]
pub struct AccelerationComp {
    pub x: u32,
    pub y: u32,
}

/// A colour. The field is the bit pattern of its blue share.
#[derive(Clone, Copy, Debug, PartialEq, Eq, Structural)]
pub struct ColorComp {
    pub blue: u32,
}

/// The team that a unit fights for.
#[derive(Clone, Copy, Debug, PartialEq, Eq, Structural)]
pub struct TeamComp {
    pub team: usize,
}

/// What a shooter waits before it shoots again. The field is the bit pattern
/// of the time.
#[derive(Clone, Copy, Debug, PartialEq, Eq, Structural)]
pub struct ShooterComp {
    pub cooldown: u32,
}

/// What a projectile has left to live. The field is the bit pattern of the
/// time.
#[derive(Clone, Copy, Debug, PartialEq, Eq, Structural)]
pub struct TimedLifeComp {
    pub time_left: u32,
}

/// The universe that an entity lives in.
#[derive(Clone, Copy, Debug, PartialEq, Eq, Structural)]
pub struct UniverseComp {
    pub universe_id: usize,
}

/// An image, as bytes.
#[derive(Debug, PartialEq, Eq)]
pub struct BlobComp {
    pub blob: Vec<u8>,
}

impl Clone for BlobComp {
    fn clone(&self) -> (copy: BlobComp)
        ensures
            copy.blob@ == self.blob@,
    {
        BlobComp { blob: self.blob.clone() }
    }
}

pub const POSITION: TypeIdNum = 1;

pub const VELOCITY: TypeIdNum = 2;

pub const ACCELERATION: TypeIdNum = 3;

pub const COLOR: TypeIdNum = 4;

pub const TEAM: TypeIdNum = 5;

pub const SHOOTER: TypeIdNum = 6;

pub const TIMED_LIFE: TypeIdNum = 7;

pub const UNIVERSE: TypeIdNum = 8;

pub const BLOB: TypeIdNum = 9;

impl ComponentType for PositionComp {
    open spec fn type_num() -> TypeIdNum {
        POSITION
    }

    fn type_number() -> (t: TypeIdNum) {
        POSITION
    }
}

impl ComponentType for VelocityComp {
    open spec fn type_num() -> TypeIdNum {
        VELOCITY
    }

    fn type_number() -> (t: TypeIdNum) {
        VELOCITY
    }
}

impl ComponentType for AccelerationComp {
    open spec fn type_num() -> TypeIdNum {
        ACCELERATION
    }

    fn type_number() -> (t: TypeIdNum) {
        ACCELERATION
    }
}

impl ComponentType for ColorComp {
    open spec fn type_num() -> TypeIdNum {
        COLOR
    }

    fn type_number() -> (t: TypeIdNum) {
        COLOR
    }
}

impl ComponentType for TeamComp {
    open spec fn type_num() -> TypeIdNum {
        TEAM
    }

    fn type_number() -> (t: TypeIdNum) {
        TEAM
    }
}

impl ComponentType for ShooterComp {
    open spec fn type_num() -> TypeIdNum {
        SHOOTER
    }

    fn type_number() -> (t: TypeIdNum) {
        SHOOTER
    }
}

impl ComponentType for TimedLifeComp {
    open spec fn type_num() -> TypeIdNum {
        TIMED_LIFE
    }

    fn type_number() -> (t: TypeIdNum) {
        TIMED_LIFE
    }
}

impl ComponentType for UniverseComp {
    open spec fn type_num() -> TypeIdNum {
        UNIVERSE
    }

    fn type_number() -> (t: TypeIdNum) {
        UNIVERSE
    }
}

impl ComponentType for BlobComp {
    open spec fn type_num() -> TypeIdNum {
        BLOB
    }

    fn type_number() -> (t: TypeIdNum) {
        BLOB
    }
}

/// A component of any of the component types.
#[derive(Debug, PartialEq, Eq)]
pub enum Comp {
    Position(PositionComp),
    Velocity(VelocityComp),
    Acceleration(AccelerationComp),
    Color(ColorComp),
    Team(TeamComp),
    Shooter(ShooterComp),
    TimedLife(TimedLifeComp),
    Universe(UniverseComp),
    Blob(BlobComp),
}

impl Comp {
    /// The bytes that stand for the value among the values of its type: the
    /// bytes of its fields, lowest byte first, or the bytes of an image.
    pub open spec fn encoding(self) -> Seq<u8> {
        match self {
            Comp::Position(c) => bytes_of_u32(c.x) + bytes_of_u32(c.y),
            Comp::Velocity(c) => bytes_of_u32(c.x) + bytes_of_u32(c.y),
            Comp::Acceleration(c) => bytes_of_u32(c.x) + bytes_of_u32(c.y),
            Comp::Color(c) => bytes_of_u32(c.blue),
            Comp::Team(c) => bytes_of_u64(c.team as u64),
            Comp::Shooter(c) => bytes_of_u32(c.cooldown),
            Comp::TimedLife(c) => bytes_of_u32(c.time_left),
            Comp::Universe(c) => bytes_of_u64(c.universe_id as u64),
            Comp::Blob(c) => c.blob@,
        }
    }

    /// The number that the first four bytes of `bytes` spell, lowest byte
    /// first, or zero where there are fewer than four.
    pub open spec fn first_word(bytes: Seq<u8>) -> u32 {
        if bytes.len() < 4 {
            0
        } else {
            (bytes[0] + bytes[1] * 256 + bytes[2] * 65536 + bytes[3] * 16777216) as u32
        }
    }

    /// The bytes that stand for the value among the values of its type.
    pub fn encode(&self) -> (bytes: Vec<u8>)
        ensures
            bytes@ == self.encoding(),
    {
        let mut bytes: Vec<u8> = Vec::new();
        match self {
            Comp::Position(c) => {
                push_u32(&mut bytes, c.x);
                push_u32(&mut bytes, c.y);
            },
            Comp::Velocity(c) => {
                push_u32(&mut bytes, c.x);
                push_u32(&mut bytes, c.y);
            },
            Comp::Acceleration(c) => {
                push_u32(&mut bytes, c.x);
                push_u32(&mut bytes, c.y);
            },
            Comp::Color(c) => {
                push_u32(&mut bytes, c.blue);
            },
            Comp::Team(c) => {
                push_u64(&mut bytes, c.team as u64);
            },
            Comp::Shooter(c) => {
                push_u32(&mut bytes, c.cooldown);
            },
            Comp::TimedLife(c) => {
                push_u32(&mut bytes, c.time_left);
            },
            Comp::Universe(c) => {
                push_u64(&mut bytes, c.universe_id as u64);
            },
            Comp::Blob(c) => {
                bytes = c.blob.clone();
            },
        }
        proof {
            assert(bytes@ =~= self.encoding());
        }
        bytes
    }
}

impl Clone for Comp {
    fn clone(&self) -> (copy: Comp)
        ensures
            copy.type_spec() == self.type_spec(),
            copy.encoding() == self.encoding(),
    {
        match self {
            Comp::Position(c) => Comp::Position(*c),
            Comp::Velocity(c) => Comp::Velocity(*c),
            Comp::Acceleration(c) => Comp::Acceleration(*c),
            Comp::Color(c) => Comp::Color(*c),
            Comp::Team(c) => Comp::Team(*c),
            Comp::Shooter(c) => Comp::Shooter(*c),
            Comp::TimedLife(c) => Comp::TimedLife(*c),
            Comp::Universe(c) => Comp::Universe(*c),
            Comp::Blob(c) => Comp::Blob(c.clone()),
        }
    }
}

impl HashMe for Comp {
    open spec fn hash_spec(&self) -> u64 {
        hash_of_bytes(self.encoding())
    }

    fn hash_me(&self) -> (h: u64) {
        let bytes = self.encode();
        hash_bytes(bytes.as_slice())
    }
}

impl Component for Comp {
    open spec fn type_spec(&self) -> TypeIdNum {
        match self {
            Comp::Position(_) => POSITION,
            Comp::Velocity(_) => VELOCITY,
            Comp::Acceleration(_) => ACCELERATION,
            Comp::Color(_) => COLOR,
            Comp::Team(_) => TEAM,
            Comp::Shooter(_) => SHOOTER,
            Comp::TimedLife(_) => TIMED_LIFE,
            Comp::Universe(_) => UNIVERSE,
            Comp::Blob(_) => BLOB,
        }
    }

    fn type_id(&self) -> (t: TypeIdNum) {
        match self {
            Comp::Position(_) => POSITION,
            Comp::Velocity(_) => VELOCITY,
            Comp::Acceleration(_) => ACCELERATION,
            Comp::Color(_) => COLOR,
            Comp::Team(_) => TEAM,
            Comp::Shooter(_) => SHOOTER,
            Comp::TimedLife(_) => TIMED_LIFE,
            Comp::Universe(_) => UNIVERSE,
            Comp::Blob(_) => BLOB,
        }
    }

    open spec fn index_spec(&self) -> u32 {
        Comp::first_word(self.encoding())
    }

    fn index_key(&self) -> (k: u32) {
        let bytes = self.encode();
        if bytes.len() < 4 {
            0
        } else {
            let word: u64 = bytes[0] as u64 + bytes[1] as u64 * 256 + bytes[2] as u64 * 65536
                + bytes[3] as u64 * 16777216;
            word as u32
        }
    }
}

} // verus!
