//! The declarations a network is built from. Entities refer to one another by
//! their index in the network builder's lists.
use vstd::prelude::*;

use crate::types::Primitive;

verus! {

/// One entry of a declared enum; without a value it takes the previous entry's
/// value plus one (zero for the first entry).
#[derive(Debug, Clone)]
pub struct EnumEntryDecl {
    pub name: String,
    pub value: Option<u64>,
}

#[derive(Debug, Clone)]
pub struct EnumDecl {
    pub name: String,
    pub description: Option<String>,
    pub entries: Vec<EnumEntryDecl>,
}

/// One attribute of a declared struct, with its type descriptor.
#[derive(Debug, Clone)]
pub struct AttributeDecl {
    pub name: String,
    pub ty: String,
}

#[derive(Debug, Clone)]
pub struct StructDecl {
    pub name: String,
    pub description: Option<String>,
    pub attributes: Vec<AttributeDecl>,
}

#[derive(Debug, Clone)]
pub enum TypeDecl {
    Enum(EnumDecl),
    Struct(StructDecl),
}

impl TypeDecl {
    pub open spec fn spec_name(&self) -> Seq<char> {
        match self {
            TypeDecl::Enum(e) => e.name@,
            TypeDecl::Struct(s) => s.name@,
        }
    }

    pub fn name(&self) -> (r: &String)
        ensures
            r@ == self.spec_name(),
    {
        match self {
            TypeDecl::Enum(e) => &e.name,
            TypeDecl::Struct(s) => &s.name,
        }
    }
}

#[derive(Debug, Clone)]
pub struct BusDecl {
    pub name: String,
    pub baudrate: Option<u32>,
}

/// A message identifier as declared: concrete, or a placeholder for any free id.
#[derive(Debug, Clone, Copy, PartialEq, Eq, Structural)]
pub enum MessageIdTemplate {
    StdId(u32),
    ExtId(u32),
    AnyStd,
    AnyExt,
    AnyAny,
}

/// A signal of a raw-signal message format.
#[derive(Debug, Clone)]
pub struct SignalDecl {
    pub name: String,
    pub kind: Primitive,
}

/// A field of a typed message format: a type descriptor and a field name.
#[derive(Debug, Clone)]
pub struct FieldDecl {
    pub ty: String,
    pub name: String,
}

#[derive(Debug, Clone)]
pub enum MessageFormat {
    Empty,
    Signals(Vec<SignalDecl>),
    Types(Vec<FieldDecl>),
}

#[derive(Debug, Clone)]
pub struct MessageDecl {
    pub name: String,
    pub description: Option<String>,
    pub id: MessageIdTemplate,
    /// Index of the bus the message is sent on, if chosen.
    pub bus: Option<usize>,
    pub format: MessageFormat,
    /// The expected interval between two frames, in milliseconds.
    pub expected_interval_ms: Option<u64>,
}

#[derive(Debug, Clone, Copy, PartialEq, Eq, Structural)]
pub enum Access {
    Const,
    ReadOnly,
    WriteOnly,
    ReadWrite,
}

#[derive(Debug, Clone)]
pub struct ObjectEntryDecl {
    pub name: String,
    pub description: Option<String>,
    pub unit: Option<String>,
    pub ty: String,
    pub access: Access,
}

/// A request/response pair of messages (indices into the network's messages).
#[derive(Debug, Clone)]
pub struct CommandDecl {
    pub name: String,
    pub description: Option<String>,
    pub request: usize,
    pub response: usize,
}

/// A stream a node publishes: its message and, position by position, the
/// node's own object entries.
#[derive(Debug, Clone)]
pub struct TxStreamDecl {
    pub name: String,
    pub description: Option<String>,
    pub message: usize,
    pub entries: Vec<usize>,
}

/// A subscription to another node's stream: `(position, local object entry)` pairs.
#[derive(Debug, Clone)]
pub struct RxStreamDecl {
    pub publisher: usize,
    pub stream: usize,
    pub mapping: Vec<(usize, usize)>,
}

#[derive(Debug, Clone)]
pub struct NodeDecl {
    pub name: String,
    pub description: Option<String>,
    pub rx_messages: Vec<usize>,
    pub tx_messages: Vec<usize>,
    pub commands: Vec<CommandDecl>,
    /// Request messages of commands that other nodes own.
    pub extern_commands: Vec<usize>,
    pub object_entries: Vec<ObjectEntryDecl>,
    pub tx_streams: Vec<TxStreamDecl>,
    pub rx_streams: Vec<RxStreamDecl>,
    pub buses: Vec<usize>,
}

} // verus!
