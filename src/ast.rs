//! The syntax tree that the parser produces.

use vstd::prelude::*;

verus! {

/// Who may read and who may write a register, field or buffer.
#[derive(Debug, Clone, Copy, PartialEq, Eq, Structural)]
pub enum Access {
    RW,
    RO,
    WO,
}

/// Which byte of a multi-byte value holds its low-order bits.
#[derive(Debug, Clone, Copy, PartialEq, Eq, Structural)]
pub enum ByteOrder {
    LE,
    BE,
}

/// Whether bit index 0 of a byte is its least or its most significant bit.
#[derive(Debug, Clone, Copy, PartialEq, Eq, Structural)]
pub enum BitOrder {
    LSB0,
    MSB0,
}

/// The raw type of a field before any conversion.
#[derive(Debug, Clone, Copy, PartialEq, Eq, Structural)]
pub enum BaseType {
    Bool,
    Uint,
    Int,
}

impl BaseType {
    /// Returns `true` if the base type is `Bool`.
    pub fn is_bool(&self) -> (r: bool)
        ensures
            r == (*self == BaseType::Bool),
    {
        match self {
            BaseType::Bool => true,
            _ => false,
        }
    }
}

/// The whole description of a device.
#[derive(Debug, PartialEq, Eq)]
pub struct Device {
    pub global_config_list: GlobalConfigList,
    pub object_list: ObjectList,
}

/// The entries of the `config { ... }` block, in the order written.
#[derive(Debug, Clone, PartialEq, Eq)]
pub struct GlobalConfigList {
    pub configs: Vec<GlobalConfig>,
}

/// A place where the identifier of an object is split into words.
#[derive(Debug, Clone, Copy, PartialEq, Eq, Structural)]
pub enum WordBoundary {
    Hyphen,
    Underscore,
    Space,
    LowerUpper,
    UpperLower,
    DigitUpper,
    UpperDigit,
    DigitLower,
    LowerDigit,
    Acronym,
}

/// One `type Key = Value;` entry of the `config` block.
#[derive(Debug, Clone, PartialEq, Eq)]
pub enum GlobalConfig {
    DefaultRegisterAccess(Access),
    DefaultFieldAccess(Access),
    DefaultBufferAccess(Access),
    DefaultByteOrder(ByteOrder),
    DefaultBitOrder(BitOrder),
    RegisterAddressType(String),
    CommandAddressType(String),
    BufferAddressType(String),
    NameWordBoundaries(Vec<WordBoundary>),
    DefmtFeature(String),
}

/// A comma separated list of objects.
#[derive(Debug, PartialEq, Eq)]
pub struct ObjectList {
    pub objects: Vec<Object>,
}

#[derive(Debug, PartialEq, Eq)]
pub enum Object {
    Block(Block),
    Register(Register),
    Command(Command),
    Buffer(Buffer),
    Ref(RefObject),
}

/// `ref Name = <object>`: an alias of another object with some of its
/// properties replaced.
#[derive(Debug, PartialEq, Eq)]
pub struct RefObject {
    pub attribute_list: AttributeList,
    pub identifier: String,
    pub object: Box<Object>,
}

/// The documentation and `cfg` attributes in front of an item.
#[derive(Debug, Clone, PartialEq, Eq, Default)]
pub struct AttributeList {
    pub attributes: Vec<Attribute>,
}

impl AttributeList {
    pub fn new() -> (r: AttributeList)
        ensures
            r.attributes@.len() == 0,
    {
        AttributeList { attributes: Vec::new() }
    }
}

/// A documentation line, or the condition of a `cfg` attribute.
#[derive(Debug, Clone, PartialEq, Eq)]
pub enum Attribute {
    Doc(String),
    Cfg(String),
}

#[derive(Debug, PartialEq, Eq)]
pub struct Block {
    pub attribute_list: AttributeList,
    pub identifier: String,
    pub block_item_list: BlockItemList,
    pub object_list: ObjectList,
}

#[derive(Debug, Clone, PartialEq, Eq)]
pub struct BlockItemList {
    pub block_items: Vec<BlockItem>,
}

#[derive(Debug, Clone, PartialEq, Eq)]
pub enum BlockItem {
    AddressOffset(u64),
    Repeat(Repeat),
}

#[derive(Debug, Clone, PartialEq, Eq)]
pub struct Register {
    pub attribute_list: AttributeList,
    pub identifier: String,
    pub register_item_list: RegisterItemList,
    pub field_list: FieldList,
}

#[derive(Debug, Clone, PartialEq, Eq, Default)]
pub struct RegisterItemList {
    pub register_items: Vec<RegisterItem>,
}

impl RegisterItemList {
    pub fn new() -> (r: RegisterItemList)
        ensures
            r.register_items@.len() == 0,
    {
        RegisterItemList { register_items: Vec::new() }
    }
}

#[derive(Debug, Clone, PartialEq, Eq)]
pub enum RegisterItem {
    Access(Access),
    ByteOrder(ByteOrder),
    BitOrder(BitOrder),
    Address(u64),
    SizeBits(u64),
    ResetValueInt(u64),
    ResetValueArray(Vec<u8>),
    Repeat(Repeat),
    AllowBitOverlap(bool),
    AllowAddressOverlap(bool),
}

#[derive(Debug, Clone, PartialEq, Eq, Default)]
pub struct FieldList {
    pub fields: Vec<Field>,
}

impl FieldList {
    pub fn new() -> (r: FieldList)
        ensures
            r.fields@.len() == 0,
    {
        FieldList { fields: Vec::new() }
    }
}

/// `name: [access] base_type [as conversion] = address`
#[derive(Debug, Clone, PartialEq, Eq)]
pub struct Field {
    pub attribute_list: AttributeList,
    pub identifier: String,
    pub access: Option<Access>,
    pub base_type: BaseType,
    pub conversion: Option<Conversion>,
    pub field_address: FieldAddress,
}

#[derive(Debug, Clone, PartialEq, Eq)]
pub enum Conversion {
    /// Reinterpret the raw value as an existing type, named by its path.
    Direct { path: String, use_try: bool },
    /// Convert to an enum declared in place.
    Enum { identifier: String, enum_variant_list: EnumVariantList, use_try: bool },
}

#[derive(Debug, Clone, PartialEq, Eq)]
pub struct EnumVariantList {
    pub variants: Vec<EnumVariant>,
}

#[derive(Debug, Clone, PartialEq, Eq)]
pub struct EnumVariant {
    pub attribute_list: AttributeList,
    pub identifier: String,
    pub enum_value: Option<EnumValue>,
}

#[derive(Debug, Clone, PartialEq, Eq)]
pub enum EnumValue {
    Specified(u64),
    Default,
    CatchAll,
}

/// Where a field sits: a single bit, `start..end` or `start..=end`.
#[derive(Debug, Clone, PartialEq, Eq)]
pub enum FieldAddress {
    Integer(u64),
    Range { start: u64, end: u64 },
    RangeInclusive { start: u64, end: u64 },
}

#[derive(Debug, Clone, PartialEq, Eq)]
pub struct Command {
    pub attribute_list: AttributeList,
    pub identifier: String,
    pub value: Option<CommandValue>,
}

#[derive(Debug, Clone, PartialEq, Eq)]
pub enum CommandValue {
    /// `command Name = address`
    Basic(u64),
    /// `command Name { items in { fields } out { fields } }`
    Extended {
        command_item_list: CommandItemList,
        in_field_list: Option<FieldList>,
        out_field_list: Option<FieldList>,
    },
}

#[derive(Debug, Clone, PartialEq, Eq)]
pub struct CommandItemList {
    pub items: Vec<CommandItem>,
}

#[derive(Debug, Clone, PartialEq, Eq)]
pub enum CommandItem {
    ByteOrder(ByteOrder),
    BitOrder(BitOrder),
    Address(u64),
    SizeBitsIn(u64),
    SizeBitsOut(u64),
    Repeat(Repeat),
    AllowBitOverlap(bool),
    AllowAddressOverlap(bool),
}

/// `REPEAT = { count: .., stride: .. };`
#[derive(Debug, Clone, PartialEq, Eq)]
pub struct Repeat {
    pub count: RepeatCount,
    pub stride: u64,
}

#[derive(Debug, Clone, PartialEq, Eq)]
pub enum RepeatCount {
    Value(u64),
    Conversion(Conversion),
}

#[derive(Debug, Clone, PartialEq, Eq)]
pub struct Buffer {
    pub attribute_list: AttributeList,
    pub identifier: String,
    pub access: Option<Access>,
    pub address: Option<u64>,
}

/// Which kind of entry a register item is; the two forms of a reset value
/// are one kind.
pub open spec fn register_item_kind(item: RegisterItem) -> nat {
    match item {
        RegisterItem::Access(_) => 0,
        RegisterItem::ByteOrder(_) => 1,
        RegisterItem::BitOrder(_) => 2,
        RegisterItem::Address(_) => 3,
        RegisterItem::SizeBits(_) => 4,
        RegisterItem::ResetValueInt(_) => 5,
        RegisterItem::ResetValueArray(_) => 5,
        RegisterItem::Repeat(_) => 6,
        RegisterItem::AllowBitOverlap(_) => 7,
        RegisterItem::AllowAddressOverlap(_) => 8,
    }
}

pub open spec fn command_item_kind(item: CommandItem) -> nat {
    match item {
        CommandItem::ByteOrder(_) => 0,
        CommandItem::BitOrder(_) => 1,
        CommandItem::Address(_) => 2,
        CommandItem::SizeBitsIn(_) => 3,
        CommandItem::SizeBitsOut(_) => 4,
        CommandItem::Repeat(_) => 5,
        CommandItem::AllowBitOverlap(_) => 6,
        CommandItem::AllowAddressOverlap(_) => 7,
    }
}

pub open spec fn block_item_kind(item: BlockItem) -> nat {
    match item {
        BlockItem::AddressOffset(_) => 0,
        BlockItem::Repeat(_) => 1,
    }
}

/// No two register items are of the same kind.
pub open spec fn register_items_unique(items: Seq<RegisterItem>) -> bool {
    forall|i: int, j: int|
        0 <= i < j < items.len() ==> register_item_kind(#[trigger] items[i]) != register_item_kind(
            #[trigger] items[j],
        )
}

pub open spec fn command_items_unique(items: Seq<CommandItem>) -> bool {
    forall|i: int, j: int|
        0 <= i < j < items.len() ==> command_item_kind(#[trigger] items[i]) != command_item_kind(
            #[trigger] items[j],
        )
}

pub open spec fn block_items_unique(items: Seq<BlockItem>) -> bool {
    forall|i: int, j: int|
        0 <= i < j < items.len() ==> block_item_kind(#[trigger] items[i]) != block_item_kind(
            #[trigger] items[j],
        )
}

} // verus!
