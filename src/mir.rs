//! The mid-level model: every object fully defaulted and checked.

use vstd::prelude::*;
use crate::ast::{Access, BaseType, BitOrder, ByteOrder, WordBoundary};

verus! {

/// An integer type that addresses of registers, commands or buffers can have.
#[derive(Debug, Clone, Copy, PartialEq, Eq, Structural)]
pub enum Integer {
    U8,
    U16,
    U32,
    U64,
    U128,
    I8,
    I16,
    I32,
    I64,
    I128,
}

/// The global settings, with the defaults filled in.
#[derive(Debug, Clone, PartialEq, Eq)]
pub struct GlobalConfig {
    pub default_register_access: Access,
    pub default_field_access: Access,
    pub default_buffer_access: Access,
    pub default_byte_order: ByteOrder,
    pub default_bit_order: BitOrder,
    pub register_address_type: Option<Integer>,
    pub command_address_type: Option<Integer>,
    pub buffer_address_type: Option<Integer>,
    pub name_word_boundaries: Option<Vec<WordBoundary>>,
    pub defmt_feature: Option<String>,
}

#[derive(Debug, PartialEq, Eq)]
pub struct Device {
    pub global_config: GlobalConfig,
    pub objects: Vec<Object>,
}

#[derive(Debug, PartialEq, Eq)]
pub enum Object {
    Block(Block),
    Register(Register),
    Command(Command),
    Buffer(Buffer),
    Ref(RefObject),
}

#[derive(Debug, Clone, Copy, PartialEq, Eq, Structural)]
pub struct Repeat {
    pub count: u64,
    pub stride: u64,
}

#[derive(Debug, PartialEq, Eq)]
pub struct Block {
    pub cfg_attr: Option<String>,
    pub description: String,
    pub name: String,
    pub address_offset: u64,
    pub repeat: Option<Repeat>,
    pub objects: Vec<Object>,
}

/// The value a register holds after reset: one integer, laid out in the
/// register's byte order, or its bytes.
#[derive(Debug, Clone, PartialEq, Eq)]
pub enum ResetValue {
    Integer(u64),
    Array(Vec<u8>),
}

#[derive(Debug, Clone, PartialEq, Eq)]
pub struct Register {
    pub cfg_attr: Option<String>,
    pub description: String,
    pub name: String,
    pub access: Access,
    pub byte_order: ByteOrder,
    pub bit_order: BitOrder,
    pub allow_bit_overlap: bool,
    pub allow_address_overlap: bool,
    pub address: u64,
    pub size_bits: u64,
    pub reset_value: Option<ResetValue>,
    pub repeat: Option<Repeat>,
    pub fields: Vec<Field>,
}

#[derive(Debug, Clone, PartialEq, Eq)]
pub struct Command {
    pub cfg_attr: Option<String>,
    pub description: String,
    pub name: String,
    pub address: u64,
    pub byte_order: ByteOrder,
    pub bit_order: BitOrder,
    pub allow_bit_overlap: bool,
    pub allow_address_overlap: bool,
    pub size_bits_in: u64,
    pub size_bits_out: u64,
    pub repeat: Option<Repeat>,
    pub in_fields: Vec<Field>,
    pub out_fields: Vec<Field>,
}

#[derive(Debug, Clone, PartialEq, Eq)]
pub struct Buffer {
    pub cfg_attr: Option<String>,
    pub description: String,
    pub name: String,
    pub access: Access,
    pub address: u64,
}

/// The bits `[start, end)` of an object; a one-bit `bool` field written as a
/// single position has `start == end`.
#[derive(Debug, Clone, Copy, PartialEq, Eq, Structural)]
pub struct BitRange {
    pub start: u64,
    pub end: u64,
}

#[derive(Debug, Clone, PartialEq, Eq)]
pub struct Field {
    pub cfg_attr: Option<String>,
    pub description: String,
    pub name: String,
    pub access: Access,
    pub base_type: BaseType,
    pub field_conversion: Option<FieldConversion>,
    pub field_address: BitRange,
}

#[derive(Debug, Clone, PartialEq, Eq)]
pub enum FieldConversion {
    /// The path of an existing type, without white space.
    Direct { target: String, use_try: bool },
    Enum { name: String, variants: Vec<EnumVariant>, use_try: bool },
}

#[derive(Debug, Clone, PartialEq, Eq)]
pub struct EnumVariant {
    pub cfg_attr: Option<String>,
    pub description: String,
    pub name: String,
    pub value: EnumValue,
}

#[derive(Debug, Clone, Copy, PartialEq, Eq, Structural)]
pub enum EnumValue {
    Unspecified,
    Specified(u64),
    Default,
    CatchAll,
}

/// `ref Name = <object>`: the object named in the override, with the
/// properties that the override sets.
#[derive(Debug, PartialEq, Eq)]
pub struct RefObject {
    pub cfg_attr: Option<String>,
    pub description: String,
    pub name: String,
    pub object_override: ObjectOverride,
}

#[derive(Debug, PartialEq, Eq)]
pub enum ObjectOverride {
    Block(BlockOverride),
    Register(RegisterOverride),
    Command(CommandOverride),
    Buffer(BufferOverride),
}

#[derive(Debug, Clone, PartialEq, Eq)]
pub struct BlockOverride {
    pub name: String,
    pub address_offset: Option<u64>,
    pub repeat: Option<Repeat>,
}

#[derive(Debug, Clone, PartialEq, Eq)]
pub struct RegisterOverride {
    pub name: String,
    pub access: Option<Access>,
    pub address: Option<u64>,
    pub reset_value: Option<ResetValue>,
    pub repeat: Option<Repeat>,
}

#[derive(Debug, Clone, PartialEq, Eq)]
pub struct CommandOverride {
    pub name: String,
    pub address: Option<u64>,
    pub byte_order: Option<ByteOrder>,
    pub bit_order: Option<BitOrder>,
    pub size_bits_in: Option<u64>,
    pub size_bits_out: Option<u64>,
    pub repeat: Option<Repeat>,
    pub in_fields: Option<Vec<Field>>,
    pub out_fields: Option<Vec<Field>>,
}

#[derive(Debug, Clone, PartialEq, Eq)]
pub struct BufferOverride {
    pub name: String,
    pub access: Option<Access>,
    pub address: Option<u64>,
}

/// The bits a range occupies: a single position stands for one bit.
pub open spec fn range_end(b: BitRange) -> nat {
    if b.start == b.end {
        (b.end + 1) as nat
    } else {
        b.end as nat
    }
}

/// Two ranges share a bit.
pub open spec fn ranges_overlap(a: BitRange, b: BitRange) -> bool {
    a.start < range_end(b) && b.start < range_end(a)
}

pub open spec fn span_start(f: Field) -> nat {
    f.field_address.start as nat
}

pub open spec fn span_end(f: Field) -> nat {
    range_end(f.field_address)
}

pub open spec fn overlap(f: Field, g: Field) -> bool {
    ranges_overlap(f.field_address, g.field_address)
}

/// No two fields share a bit.
pub open spec fn fields_disjoint(fs: Seq<Field>) -> bool {
    forall|i: int, j: int| 0 <= i < j < fs.len() ==> !overlap(#[trigger] fs[i], #[trigger] fs[j])
}

} // verus!
