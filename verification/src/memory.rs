//! What the searches ask of the two processes and of the system, and the answers.
use vstd::prelude::*;

use crate::error::Error;
use crate::region;
use crate::region::{Region, KERN_SUCCESS};
use crate::script::Script;

verus! {

/// The kernel's code for a failure without a closer reason.
pub const KERN_FAILURE: i32 = 5;

/// A question to the outside. Reads and writes without further mention go to the process that
/// is attached to.
#[derive(Clone, Copy, Debug, PartialEq, Eq, Structural)]
pub enum Query {
    /// Make a Metal layer that is never shown, and say where it is.
    NewLayer,
    /// Switch the display sync of that layer.
    SetSync { on: bool },
    /// Is the display sync of that layer on?
    SyncEnabled,
    /// Read from this very process.
    ReadSelf { addr: u64, len: u64 },
    /// Attach to a process.
    Attach { pid: i32 },
    /// Where does the process keep the list of its images?
    DyldInfo,
    /// Which regions does the process have?
    Regions,
    /// Read from the process.
    Read { addr: u64, len: u64 },
    /// Is the number with these bits a frame interval? That is: positive, finite, and the
    /// inverse of a frame rate from 20 to 1000 that is whole to within a twentieth.
    IsInterval { bits: u64 },
    /// Write eight bytes, least significant first.
    WriteWord { addr: u64, word: u64 },
    /// Write one byte.
    WriteByte { addr: u64, byte: u8 },
}

/// A Metal layer of this process.
#[derive(Clone, Copy, Debug, PartialEq, Eq, Structural)]
pub struct Layer {
    /// Its address.
    pub object: u64,
    /// The address of its class.
    pub class: u64,
    /// Which bits of an object's first word name its class.
    pub mask: u64,
    /// How many bytes an object of its class has.
    pub size: u64,
}

/// An answer. What comes back in place of the kind that the question calls for counts as a
/// failure.
pub enum Answer {
    /// It is done.
    Done,
    /// Yes or no.
    Flag(bool),
    /// The kernel's code.
    Status(i32),
    /// The kernel's code, and an address where that is success.
    Address { status: i32, addr: u64 },
    /// The kernel's code, and the bytes that were read.
    Bytes { status: i32, data: Vec<u8> },
    /// A layer.
    Layer(Layer),
    /// Regions, in the order of a walk.
    Regions(Vec<Region>),
}

/// An answer as a mathematical value.
pub enum Reply {
    Done,
    Flag(bool),
    Status(i32),
    Address { status: i32, addr: u64 },
    Bytes { status: i32, data: Seq<u8> },
    Layer(Layer),
    Regions(Seq<Region>),
}

/// A search that puts [`Query`] values to the outside.
pub type Search<R> = Script<Query, Reply, R>;

/// The questions that write nothing to the process.
pub open spec fn harmless() -> spec_fn(Query) -> bool {
    |query: Query| !(query is WriteWord || query is WriteByte)
}

impl View for Answer {
    type V = Reply;

    open spec fn view(&self) -> Reply {
        match *self {
            Answer::Done => Reply::Done,
            Answer::Flag(b) => Reply::Flag(b),
            Answer::Status(s) => Reply::Status(s),
            Answer::Address { status, addr } => Reply::Address { status, addr },
            Answer::Bytes { status, data } => Reply::Bytes { status, data: data@ },
            Answer::Layer(layer) => Reply::Layer(layer),
            Answer::Regions(regions) => Reply::Regions(regions@),
        }
    }
}

impl Reply {
    /// The bytes of a read of `len` bytes, or the kernel's code where it failed. A read that
    /// gives another number of bytes has failed.
    pub open spec fn bytes(self, len: u64) -> Result<Seq<u8>, i32> {
        match self {
            Reply::Bytes { status, data } => if status == KERN_SUCCESS && data.len() == len {
                Ok(data)
            } else {
                Err(status)
            },
            _ => Err(KERN_FAILURE),
        }
    }

    /// Yes or no.
    pub open spec fn flag(self) -> bool {
        self == Reply::Flag(true)
    }

    /// The kernel's code.
    pub open spec fn status(self) -> i32 {
        match self {
            Reply::Status(status) => status,
            _ => KERN_FAILURE,
        }
    }

    /// What a write comes to: it is done where the kernel's code is success, and else it has
    /// failed with that code.
    pub open spec fn written(self) -> Result<(), Error> {
        if self.status() == KERN_SUCCESS {
            Ok(())
        } else {
            Err(Error::Write(self.status()))
        }
    }

    /// The address, where there is one.
    pub open spec fn address(self) -> Option<u64> {
        match self {
            Reply::Address { status, addr } => if status == KERN_SUCCESS {
                Some(addr)
            } else {
                None
            },
            _ => None,
        }
    }

    /// The layer.
    pub open spec fn layer(self) -> Layer {
        match self {
            Reply::Layer(layer) => layer,
            _ => Layer { object: 0, class: 0, mask: 0, size: 0 },
        }
    }

    /// The regions.
    pub open spec fn regions(self) -> Seq<Region> {
        match self {
            Reply::Regions(regions) => regions,
            _ => Seq::empty(),
        }
    }
}

impl Answer {
    /// The bytes of a read of `len` bytes.
    pub fn bytes(self, len: u64) -> (data: Result<Vec<u8>, i32>)
        ensures
            match data {
                Ok(data) => self@.bytes(len) == Ok::<Seq<u8>, i32>(data@) && data@.len() == len,
                Err(status) => self@.bytes(len) == Err::<Seq<u8>, i32>(status),
            },
    {
        match self {
            Answer::Bytes { status, data } => if status == KERN_SUCCESS && data.len() as u64
                == len {
                Ok(data)
            } else {
                Err(status)
            },
            _ => Err(KERN_FAILURE),
        }
    }

    /// Yes or no.
    pub fn flag(self) -> (b: bool)
        ensures
            b == self@.flag(),
    {
        match self {
            Answer::Flag(b) => b,
            _ => false,
        }
    }

    /// The kernel's code.
    pub fn status(self) -> (status: i32)
        ensures
            status == self@.status(),
    {
        match self {
            Answer::Status(status) => status,
            _ => KERN_FAILURE,
        }
    }

    /// What a write comes to.
    pub fn written(self) -> (result: Result<(), Error>)
        ensures
            result == self@.written(),
    {
        let status: i32 = self.status();
        if status == KERN_SUCCESS {
            Ok(())
        } else {
            Err(Error::Write(status))
        }
    }

    /// The address, where there is one.
    pub fn address(self) -> (addr: Option<u64>)
        ensures
            addr == self@.address(),
    {
        match self {
            Answer::Address { status, addr } => if status == KERN_SUCCESS {
                Some(addr)
            } else {
                None
            },
            _ => None,
        }
    }

    /// The layer.
    pub fn layer(self) -> (layer: Layer)
        ensures
            layer == self@.layer(),
    {
        match self {
            Answer::Layer(layer) => layer,
            _ => Layer { object: 0, class: 0, mask: 0, size: 0 },
        }
    }

    /// The regions.
    pub fn regions(self) -> (regions: Vec<Region>)
        ensures
            regions@ == self@.regions(),
    {
        match self {
            Answer::Regions(regions) => regions,
            _ => {
                let none: Vec<Region> = Vec::new();
                assert(none@ =~= Seq::empty());
                none
            },
        }
    }
}

/// The `len` bytes at `addr` of a memory.
pub open spec fn window(mem: spec_fn(u64) -> u8, addr: u64, len: nat) -> Seq<u8> {
    Seq::new(len, |i: int| mem(region::offset(addr, i)))
}

/// A process whose memory holds these bytes and never changes. A read at an address succeeds
/// where `readable` says so.
pub open spec fn patchy(mem: spec_fn(u64) -> u8, readable: spec_fn(u64) -> bool) -> spec_fn(
    Query,
) -> Reply {
    |query: Query|
        match query {
            Query::Read { addr, len } => if readable(addr) {
                Reply::Bytes { status: KERN_SUCCESS, data: window(mem, addr, len as nat) }
            } else {
                Reply::Bytes { status: KERN_FAILURE, data: Seq::empty() }
            },
            _ => Reply::Done,
        }
}

/// A read has succeeded exactly where the kernel says zero and all the bytes are there; else the
/// kernel's code is told. A write has succeeded exactly where the kernel says zero, and else its
/// code is told.
pub proof fn reads_and_writes_succeed_with_zero(reply: Reply, len: u64, data: Seq<u8>, code: i32)
    ensures
        reply.bytes(len) == Ok::<Seq<u8>, i32>(data) <==> reply == (Reply::Bytes {
            status: 0,
            data,
        }) && data.len() == len,
        reply == (Reply::Bytes { status: code, data }) && (code != 0 || data.len() != len)
            ==> reply.bytes(len) == Err::<Seq<u8>, i32>(code),
        !(reply is Bytes) ==> reply.bytes(len) == Err::<Seq<u8>, i32>(5),
        !(reply is Status) ==> reply.status() == 5,
        reply.written() is Ok <==> reply == Reply::Status(0),
        reply == Reply::Status(code) && code != 0 ==> reply.written() == Err::<(), Error>(
            Error::Write(code),
        ),
        reply == Reply::Status(code) ==> reply.status() == code,
        reply.status() == 0 <==> reply == Reply::Status(0),
{
}

/// The other answers are what they hold.
pub proof fn answers_are_what_they_hold(
    reply: Reply,
    addr: u64,
    layer: Layer,
    regions: Seq<Region>,
)
    ensures
        reply.flag() <==> reply == Reply::Flag(true),
        reply.address() == Some(addr) <==> reply == (Reply::Address { status: 0, addr }),
        Reply::Layer(layer).layer() == layer,
        Reply::Regions(regions).regions() == regions,
        !(reply is Layer) ==> reply.layer() == (Layer { object: 0, class: 0, mask: 0, size: 0 }),
        !(reply is Regions) ==> reply.regions().len() == 0,
{
}

/// The two questions that write are not harmless, and all others are.
pub proof fn all_but_writes_are_harmless(query: Query)
    ensures
        harmless()(query) <==> match query {
            Query::WriteWord { addr, word } => false,
            Query::WriteByte { addr, byte } => false,
            _ => true,
        },
{
}

} // verus!
