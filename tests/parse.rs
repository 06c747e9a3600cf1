use device_driver_generation::ast::{
    Access, Attribute, AttributeList, BaseType, BitOrder, Block, BlockItem, BlockItemList, Buffer,
    ByteOrder, Command, CommandItem, CommandItemList, CommandValue, Conversion, Device, EnumValue,
    EnumVariant, EnumVariantList, Field, FieldAddress, FieldList, GlobalConfig, GlobalConfigList,
    Object, ObjectList, RefObject, Register, RegisterItem, RegisterItemList, Repeat, RepeatCount,
    WordBoundary,
};

fn s(text: &str) -> String {
    text.to_string()
}

#[test]
fn parse_access() {
    assert_eq!(Access::parse_str("RW").unwrap(), Access::RW);
    assert_eq!(Access::parse_str("ReadWrite").unwrap(), Access::RW);
    assert_eq!(Access::parse_str("RO").unwrap(), Access::RO);
    assert_eq!(Access::parse_str("ReadOnly").unwrap(), Access::RO);
    assert_eq!(Access::parse_str("WO").unwrap(), Access::WO);
    assert_eq!(Access::parse_str("WriteOnly").unwrap(), Access::WO);

    assert_eq!(
        Access::parse_str("ABCD").unwrap_err().message,
        "expected one of: `ReadWrite`, `RW`, `ReadOnly`, `RO`, `WriteOnly`, `WO`"
    );
}

#[test]
fn parse_byte_order() {
    assert_eq!(ByteOrder::parse_str("LE").unwrap(), ByteOrder::LE);
    assert_eq!(ByteOrder::parse_str("BE").unwrap(), ByteOrder::BE);

    assert_eq!(ByteOrder::parse_str("ABCD").unwrap_err().message, "expected `LE` or `BE`");
}

#[test]
fn parse_bit_order() {
    assert_eq!(BitOrder::parse_str("LSB0").unwrap(), BitOrder::LSB0);
    assert_eq!(BitOrder::parse_str("MSB0").unwrap(), BitOrder::MSB0);

    assert_eq!(BitOrder::parse_str("ABCD").unwrap_err().message, "expected `LSB0` or `MSB0`");
}

#[test]
fn parse_base_type() {
    assert_eq!(BaseType::parse_str("bool").unwrap(), BaseType::Bool);
    assert_eq!(BaseType::parse_str("uint").unwrap(), BaseType::Uint);
    assert_eq!(BaseType::parse_str("int").unwrap(), BaseType::Int);

    assert_eq!(
        BaseType::parse_str("ABCD").unwrap_err().message,
        "expected one of: `bool`, `uint`, `int`"
    );
}

#[test]
fn parse_enum_value() {
    assert_eq!(EnumValue::parse_str("55").unwrap(), EnumValue::Specified(55));
    assert_eq!(EnumValue::parse_str("default").unwrap(), EnumValue::Default);
    assert_eq!(EnumValue::parse_str("catch_all").unwrap(), EnumValue::CatchAll);

    assert_eq!(
        EnumValue::parse_str("ABCD").unwrap_err().message,
        "Specifier not recognized. Must be an integer literal, `default` or `catch_all`"
    );
}

#[test]
fn parse_repeat() {
    assert_eq!(
        Repeat::parse_str("REPEAT = { count: 55, stride: 0x123, };").unwrap(),
        Repeat { count: RepeatCount::Value(55), stride: 0x123 }
    );
    assert_eq!(
        Repeat::parse_str("REPEAT = { count: 55, stride: 0x123 };").unwrap(),
        Repeat { count: RepeatCount::Value(55), stride: 0x123 }
    );

    assert_eq!(Repeat::parse_str("ABCD").unwrap_err().message, "expected `REPEAT`");
    assert_eq!(
        Repeat::parse_str("REPEAT = { count: 55 stride: 0x123 };").unwrap_err().message,
        "expected `,`"
    );
    assert_eq!(
        Repeat::parse_str("REPEAT = ").unwrap_err().message,
        "unexpected end of input, expected curly braces"
    );

    assert_eq!(
        Repeat::parse_str("REPEAT = { count: usize as enum R { A, B }, stride: 0x123 };").unwrap(),
        Repeat {
            count: RepeatCount::Conversion(Conversion::Enum {
                identifier: s("R"),
                enum_variant_list: EnumVariantList {
                    variants: vec![
                        EnumVariant {
                            attribute_list: AttributeList::default(),
                            identifier: s("A"),
                            enum_value: None
                        },
                        EnumVariant {
                            attribute_list: AttributeList::default(),
                            identifier: s("B"),
                            enum_value: None
                        }
                    ]
                },
                use_try: false
            }),
            stride: 0x123
        }
    );

    assert_eq!(
        Repeat::parse_str("REPEAT = { count: usize as Foo, stride: 0x123 };").unwrap(),
        Repeat {
            count: RepeatCount::Conversion(Conversion::Direct { path: s("Foo"), use_try: false }),
            stride: 0x123
        }
    );
}

#[test]
fn parse_command_item_list() {
    assert_eq!(CommandItemList::parse_str("").unwrap(), CommandItemList { items: vec![] });

    assert_eq!(
        CommandItemList::parse_str("type ByteOrder = LE;").unwrap(),
        CommandItemList { items: vec![CommandItem::ByteOrder(ByteOrder::LE)] }
    );

    assert_eq!(
        CommandItemList::parse_str("type BitOrder = LSB0;\nconst ADDRESS = 123;").unwrap(),
        CommandItemList {
            items: vec![CommandItem::BitOrder(BitOrder::LSB0), CommandItem::Address(123)]
        }
    );

    assert_eq!(
        CommandItemList::parse_str(
            "const SIZE_BITS_IN = 16;\nconst SIZE_BITS_OUT = 32;\nconst REPEAT = { count: 2, stride: 2 };"
        )
        .unwrap(),
        CommandItemList {
            items: vec![
                CommandItem::SizeBitsIn(16),
                CommandItem::SizeBitsOut(32),
                CommandItem::Repeat(Repeat { count: RepeatCount::Value(2), stride: 2 })
            ]
        }
    );

    assert_eq!(
        CommandItemList::parse_str("const ABC = 16;").unwrap_err().message,
        "expected one of: `ADDRESS`, `SIZE_BITS_IN`, `SIZE_BITS_OUT`, `REPEAT`, `ALLOW_BIT_OVERLAP`, `ALLOW_ADDRESS_OVERLAP`"
    );

    assert_eq!(
        CommandItemList::parse_str("type ABC = 16;").unwrap_err().message,
        "expected `ByteOrder` or `BitOrder`"
    );

    assert_eq!(
        CommandItemList::parse_str("type ByteOrder = LE; type ByteOrder = LE;").unwrap_err().message,
        "duplicate item found"
    );
}

#[test]
fn parse_field_address() {
    assert_eq!(FieldAddress::parse_str("55").unwrap(), FieldAddress::Integer(55));
    assert_eq!(
        FieldAddress::parse_str("55..=0x123").unwrap(),
        FieldAddress::RangeInclusive { start: 55, end: 0x123 }
    );
    assert_eq!(
        FieldAddress::parse_str("55..0x123").unwrap(),
        FieldAddress::Range { start: 55, end: 0x123 }
    );

    assert_eq!(FieldAddress::parse_str("ABCD").unwrap_err().message, "expected integer literal");
}

#[test]
fn parse_buffer() {
    assert_eq!(
        Buffer::parse_str("buffer TestBuffer = 0x123").unwrap(),
        Buffer {
            attribute_list: AttributeList::new(),
            identifier: s("TestBuffer"),
            access: None,
            address: Some(0x123),
        }
    );

    assert_eq!(
        Buffer::parse_str("buffer TestBuffer").unwrap(),
        Buffer {
            attribute_list: AttributeList::new(),
            identifier: s("TestBuffer"),
            access: None,
            address: None,
        }
    );

    assert_eq!(
        Buffer::parse_str("buffer TestBuffer: WO").unwrap(),
        Buffer {
            attribute_list: AttributeList::new(),
            identifier: s("TestBuffer"),
            access: Some(Access::WO),
            address: None,
        }
    );

    assert_eq!(
        Buffer::parse_str("buffer TestBuffer =").unwrap_err().message,
        "unexpected end of input, expected integer literal"
    );

    assert_eq!(
        Buffer::parse_str("/// A test buffer\nbuffer TestBuffer: RO = 0x123").unwrap(),
        Buffer {
            attribute_list: AttributeList { attributes: vec![Attribute::Doc(s(" A test buffer"))] },
            identifier: s("TestBuffer"),
            access: Some(Access::RO),
            address: Some(0x123),
        }
    );
}

#[test]
fn parse_field() {
    assert_eq!(
        Field::parse_str("TestField: ReadOnly int = 0x123").unwrap(),
        Field {
            attribute_list: AttributeList::new(),
            identifier: s("TestField"),
            access: Some(Access::RO),
            base_type: BaseType::Int,
            conversion: None,
            field_address: FieldAddress::Integer(0x123)
        }
    );

    assert_eq!(
        Field::parse_str("ExsitingType: RW uint as crate::module::foo::Bar = 0x1234").unwrap(),
        Field {
            attribute_list: AttributeList::new(),
            identifier: s("ExsitingType"),
            access: Some(Access::RW),
            base_type: BaseType::Uint,
            conversion: Some(Conversion::Direct {
                path: s("crate::module::foo::Bar"),
                use_try: false,
            }),
            field_address: FieldAddress::Integer(0x1234)
        }
    );

    assert_eq!(
        Field::parse_str("ExsitingType: RW uint as try crate::module::foo::Bar = 0x1234").unwrap(),
        Field {
            attribute_list: AttributeList::new(),
            identifier: s("ExsitingType"),
            access: Some(Access::RW),
            base_type: BaseType::Uint,
            conversion: Some(Conversion::Direct {
                path: s("crate::module::foo::Bar"),
                use_try: true,
            }),
            field_address: FieldAddress::Integer(0x1234)
        }
    );

    assert_eq!(
        Field::parse_str("ExsitingType: RW uint as enum crate::module::foo::Bar = 0x1234")
            .unwrap_err()
            .message,
        "expected identifier, found keyword `crate`"
    );

    assert_eq!(
        Field::parse_str("ExsitingType: RW uint as enum Bar { } = 0x1234").unwrap(),
        Field {
            attribute_list: AttributeList::new(),
            identifier: s("ExsitingType"),
            access: Some(Access::RW),
            base_type: BaseType::Uint,
            conversion: Some(Conversion::Enum {
                identifier: s("Bar"),
                enum_variant_list: EnumVariantList { variants: Vec::new() },
                use_try: false,
            }),
            field_address: FieldAddress::Integer(0x1234)
        }
    );
}

#[test]
fn parse_enum_variant_list() {
    assert_eq!(
        EnumVariantList::parse_str("A, B = 0xFF,\n/// This is C\nC = default, D = catch_all")
            .unwrap(),
        EnumVariantList {
            variants: vec![
                EnumVariant {
                    attribute_list: AttributeList::new(),
                    identifier: s("A"),
                    enum_value: None
                },
                EnumVariant {
                    attribute_list: AttributeList::new(),
                    identifier: s("B"),
                    enum_value: Some(EnumValue::Specified(0xFF))
                },
                EnumVariant {
                    attribute_list: AttributeList { attributes: vec![Attribute::Doc(s(" This is C"))] },
                    identifier: s("C"),
                    enum_value: Some(EnumValue::Default)
                },
                EnumVariant {
                    attribute_list: AttributeList::new(),
                    identifier: s("D"),
                    enum_value: Some(EnumValue::CatchAll)
                },
            ]
        }
    );
}

#[test]
fn parse_command() {
    assert_eq!(
        Command::parse_str("/// A command!\n#[cfg(feature = \"std\")]\ncommand Foo = 5").unwrap(),
        Command {
            attribute_list: AttributeList {
                attributes: vec![
                    Attribute::Doc(s(" A command!")),
                    Attribute::Cfg(s("feature = \"std\"")),
                ]
            },
            identifier: s("Foo"),
            value: Some(CommandValue::Basic(5)),
        }
    );
    assert_eq!(
        Command::parse_str("command Bar { type BitOrder = LSB0; }").unwrap(),
        Command {
            attribute_list: AttributeList::new(),
            identifier: s("Bar"),
            value: Some(CommandValue::Extended {
                command_item_list: CommandItemList {
                    items: vec![CommandItem::BitOrder(BitOrder::LSB0)]
                },
                in_field_list: None,
                out_field_list: None
            }),
        }
    );

    assert_eq!(
        Command::parse_str("command Bar { in { } }").unwrap(),
        Command {
            attribute_list: AttributeList::new(),
            identifier: s("Bar"),
            value: Some(CommandValue::Extended {
                command_item_list: CommandItemList { items: vec![] },
                in_field_list: Some(FieldList { fields: vec![] }),
                out_field_list: None
            }),
        }
    );

    assert_eq!(
        Command::parse_str("command Bar { in { }, out { }, }").unwrap(),
        Command {
            attribute_list: AttributeList::new(),
            identifier: s("Bar"),
            value: Some(CommandValue::Extended {
                command_item_list: CommandItemList { items: vec![] },
                in_field_list: Some(FieldList { fields: vec![] }),
                out_field_list: Some(FieldList { fields: vec![] })
            }),
        }
    );

    assert_eq!(
        Command::parse_str("command Bar { out { foo: bool = 0 } }").unwrap(),
        Command {
            attribute_list: AttributeList::new(),
            identifier: s("Bar"),
            value: Some(CommandValue::Extended {
                command_item_list: CommandItemList { items: vec![] },
                in_field_list: None,
                out_field_list: Some(FieldList {
                    fields: vec![Field {
                        attribute_list: AttributeList::new(),
                        identifier: s("foo"),
                        access: None,
                        base_type: BaseType::Bool,
                        conversion: None,
                        field_address: FieldAddress::Integer(0)
                    }]
                })
            }),
        }
    );

    assert_eq!(
        Command::parse_str("command Bar { in { }, out { }, more stuff! }").unwrap_err().message,
        "Did not expect any more tokens"
    );

    assert_eq!(
        Command::parse_str("command Bar").unwrap(),
        Command { attribute_list: AttributeList::new(), identifier: s("Bar"), value: None }
    );
}

#[test]
fn parse_register_item_list() {
    assert_eq!(
        RegisterItemList::parse_str("").unwrap(),
        RegisterItemList { register_items: vec![] }
    );

    assert_eq!(
        RegisterItemList::parse_str("type Access = RW;").unwrap(),
        RegisterItemList { register_items: vec![RegisterItem::Access(Access::RW)] }
    );

    assert_eq!(
        RegisterItemList::parse_str("type Access = RW").unwrap_err().message,
        "expected `;`"
    );

    assert_eq!(
        RegisterItemList::parse_str("type ByteOrder = LE;\ntype BitOrder = LSB0;").unwrap(),
        RegisterItemList {
            register_items: vec![
                RegisterItem::ByteOrder(ByteOrder::LE),
                RegisterItem::BitOrder(BitOrder::LSB0)
            ]
        }
    );

    assert_eq!(
        RegisterItemList::parse_str("const RST_VALUE = 5;").unwrap_err().message,
        "expected one of: `ADDRESS`, `SIZE_BITS`, `RESET_VALUE`, `REPEAT`, `ALLOW_BIT_OVERLAP`, `ALLOW_ADDRESS_OVERLAP`"
    );

    assert_eq!(
        RegisterItemList::parse_str("type BT_ORDR = LSB0;").unwrap_err().message,
        "expected one of: `Access`, `ByteOrder`, `BitOrder`"
    );

    assert_eq!(
        RegisterItemList::parse_str(
            "const ADDRESS = 0x123;\nconst SIZE_BITS = 16;\nconst RESET_VALUE = 0xFFFF;"
        )
        .unwrap(),
        RegisterItemList {
            register_items: vec![
                RegisterItem::Address(0x123),
                RegisterItem::SizeBits(16),
                RegisterItem::ResetValueInt(0xFFFF)
            ]
        }
    );

    assert_eq!(
        RegisterItemList::parse_str("const RESET_VALUE = [0, 1, 2, 0x30];").unwrap(),
        RegisterItemList { register_items: vec![RegisterItem::ResetValueArray(vec![0, 1, 2, 0x30])] }
    );

    assert_eq!(
        RegisterItemList::parse_str("const RESET_VALUE = [0, 1, 2, 0x300];").unwrap_err().message,
        "number too large to fit in target type"
    );

    assert_eq!(
        RegisterItemList::parse_str("const REPEAT = { count: 0, stride: 0 };").unwrap(),
        RegisterItemList {
            register_items: vec![RegisterItem::Repeat(Repeat {
                count: RepeatCount::Value(0),
                stride: 0
            })]
        }
    );

    assert_eq!(
        RegisterItemList::parse_str("const RRRRRESET_VALUE = [0, 1, 2, 0x30];").unwrap_err().message,
        "expected one of: `ADDRESS`, `SIZE_BITS`, `RESET_VALUE`, `REPEAT`, `ALLOW_BIT_OVERLAP`, `ALLOW_ADDRESS_OVERLAP`"
    );

    assert_eq!(
        RegisterItemList::parse_str("const RESET_VALUE = ;").unwrap_err().message,
        "expected integer literal or square brackets"
    );

    assert_eq!(
        RegisterItemList::parse_str("type Access = RW; type Access = RW;").unwrap_err().message,
        "duplicate item found"
    );
}

#[test]
fn parse_attribute_list() {
    assert_eq!(
        AttributeList::parse_str("#[custom]").unwrap_err().message,
        "Unsupported attribute 'custom'. Only `doc` and `cfg` attributes are allowed"
    );
    assert_eq!(AttributeList::parse_str("#[doc(bla)]").unwrap_err().message, "expected `=`");
    assert_eq!(
        AttributeList::parse_str("#[doc = 1]").unwrap_err().message,
        "Invalid doc attribute format"
    );
}

#[test]
fn parse_ref_object() {
    assert_eq!(
        RefObject::parse_str("ref MyRef = command MyOriginal").unwrap(),
        RefObject {
            attribute_list: AttributeList::new(),
            identifier: s("MyRef"),
            object: Box::new(Object::Command(Command {
                attribute_list: AttributeList::new(),
                identifier: s("MyOriginal"),
                value: None
            }))
        }
    );

    assert_eq!(
        RefObject::parse_str("/// Hi!\nref MyRef = command MyOriginal").unwrap(),
        RefObject {
            attribute_list: AttributeList { attributes: vec![Attribute::Doc(s(" Hi!"))] },
            identifier: s("MyRef"),
            object: Box::new(Object::Command(Command {
                attribute_list: AttributeList::new(),
                identifier: s("MyOriginal"),
                value: None
            }))
        }
    );
}

#[test]
fn parse_register() {
    assert_eq!(
        Register::parse_str("register Foo { }").unwrap(),
        Register {
            attribute_list: AttributeList::new(),
            identifier: s("Foo"),
            field_list: FieldList::new(),
            register_item_list: RegisterItemList::new(),
        }
    );

    assert_eq!(
        Register::parse_str("register Foo").unwrap_err().message,
        "unexpected end of input, expected curly braces"
    );

    assert_eq!(
        Register::parse_str(
            "/// Hello!\nregister Foo { type Access = RW; TestField: ReadWrite int = 0x123, }"
        )
        .unwrap(),
        Register {
            attribute_list: AttributeList { attributes: vec![Attribute::Doc(s(" Hello!"))] },
            identifier: s("Foo"),
            register_item_list: RegisterItemList {
                register_items: vec![RegisterItem::Access(Access::RW)]
            },
            field_list: FieldList {
                fields: vec![Field {
                    attribute_list: AttributeList::new(),
                    identifier: s("TestField"),
                    access: Some(Access::RW),
                    base_type: BaseType::Int,
                    conversion: None,
                    field_address: FieldAddress::Integer(0x123)
                }]
            },
        }
    );
}

#[test]
fn parse_block_item_list() {
    assert_eq!(BlockItemList::parse_str("").unwrap(), BlockItemList { block_items: vec![] });

    assert_eq!(
        BlockItemList::parse_str("const ADDRESS_OFFSET = 2;").unwrap(),
        BlockItemList { block_items: vec![BlockItem::AddressOffset(2)] }
    );

    assert_eq!(
        BlockItemList::parse_str("const ADDRESS_OFFSET = 2; const REPEAT = { count: 0, stride: 0 };")
            .unwrap(),
        BlockItemList {
            block_items: vec![
                BlockItem::AddressOffset(2),
                BlockItem::Repeat(Repeat { count: RepeatCount::Value(0), stride: 0 })
            ]
        }
    );

    assert_eq!(
        BlockItemList::parse_str("const ADDRESS = 2;").unwrap_err().message,
        "Invalid value. Must be an `ADDRESS_OFFSET` or `REPEAT`"
    );

    assert_eq!(
        BlockItemList::parse_str("const ADDRESS_OFFSET = 2; const ADDRESS_OFFSET = 2;")
            .unwrap_err()
            .message,
        "duplicate item found"
    );
}

#[test]
fn parse_block() {
    assert_eq!(
        Block::parse_str("block MyBlock {}").unwrap(),
        Block {
            attribute_list: AttributeList::new(),
            identifier: s("MyBlock"),
            block_item_list: BlockItemList { block_items: vec![] },
            object_list: ObjectList { objects: vec![] },
        }
    );

    assert_eq!(
        Block::parse_str(
            "/// Hi there\nblock MyBlock { const ADDRESS_OFFSET = 5; command A = 5, buffer B = 6 }"
        )
        .unwrap(),
        Block {
            attribute_list: AttributeList { attributes: vec![Attribute::Doc(s(" Hi there"))] },
            identifier: s("MyBlock"),
            block_item_list: BlockItemList { block_items: vec![BlockItem::AddressOffset(5)] },
            object_list: ObjectList {
                objects: vec![
                    Object::Command(Command {
                        attribute_list: AttributeList::new(),
                        identifier: s("A"),
                        value: Some(CommandValue::Basic(5))
                    }),
                    Object::Buffer(Buffer {
                        attribute_list: AttributeList::new(),
                        identifier: s("B"),
                        access: None,
                        address: Some(6)
                    })
                ]
            }
        }
    );
}

#[test]
fn parse_global_config_list() {
    assert_eq!(GlobalConfigList::parse_str("").unwrap(), GlobalConfigList { configs: vec![] });

    assert_eq!(
        GlobalConfigList::parse_str("config { }").unwrap(),
        GlobalConfigList { configs: vec![] }
    );

    assert_eq!(
        GlobalConfigList::parse_str("config { type DefaultRegisterAccess = RW }")
            .unwrap_err()
            .message,
        "expected `;`"
    );

    assert_eq!(
        GlobalConfigList::parse_str("config { type DefaultRegisterAccess = RW; }").unwrap(),
        GlobalConfigList { configs: vec![GlobalConfig::DefaultRegisterAccess(Access::RW)] }
    );

    assert_eq!(
        GlobalConfigList::parse_str(
            "config { type DefaultBufferAccess = RO; type DefaultFieldAccess = RW; }"
        )
        .unwrap(),
        GlobalConfigList {
            configs: vec![
                GlobalConfig::DefaultBufferAccess(Access::RO),
                GlobalConfig::DefaultFieldAccess(Access::RW)
            ]
        }
    );

    assert_eq!(
        GlobalConfigList::parse_str(
            "config { type DefaultByteOrder = LE; type DefaultBitOrder = LSB0; type NameWordBoundaries = \"aA:1B\"; }"
        )
        .unwrap(),
        GlobalConfigList {
            configs: vec![
                GlobalConfig::DefaultByteOrder(ByteOrder::LE),
                GlobalConfig::DefaultBitOrder(BitOrder::LSB0),
                GlobalConfig::NameWordBoundaries(vec![
                    WordBoundary::LowerUpper,
                    WordBoundary::DigitUpper
                ])
            ]
        }
    );

    assert_eq!(
        GlobalConfigList::parse_str("config { type NameWordBoundaries = [DigitLower, Hyphen]; }")
            .unwrap(),
        GlobalConfigList {
            configs: vec![GlobalConfig::NameWordBoundaries(vec![
                WordBoundary::DigitLower,
                WordBoundary::Hyphen
            ])]
        }
    );

    assert_eq!(
        GlobalConfigList::parse_str("config { type NameWordBoundaries = 5; }").unwrap_err().message,
        "Expected an array of boundaries or a string"
    );

    assert_eq!(
        GlobalConfigList::parse_str("config { type NameWordBoundaries = [lol]; }")
            .unwrap_err()
            .message,
        "`lol` is not a valid boundary name. One of the following was expected: [Hyphen, Underscore, Space, LowerUpper, UpperLower, DigitUpper, UpperDigit, DigitLower, LowerDigit, Acronym]"
    );

    assert_eq!(
        GlobalConfigList::parse_str(
            "config { type RegisterAddressType = u8; type CommandAddressType = u16; type BufferAddressType = u32; }"
        )
        .unwrap(),
        GlobalConfigList {
            configs: vec![
                GlobalConfig::RegisterAddressType(s("u8")),
                GlobalConfig::CommandAddressType(s("u16")),
                GlobalConfig::BufferAddressType(s("u32"))
            ]
        }
    );

    assert_eq!(
        GlobalConfigList::parse_str("config { type DefaultRegisterAccesssss = RW; }")
            .unwrap_err()
            .message,
        "expected one of: `DefaultRegisterAccess`, `DefaultFieldAccess`, `DefaultBufferAccess`, `DefaultByteOrder`, `DefaultBitOrder`, `RegisterAddressType`, `CommandAddressType`, `BufferAddressType`, `NameWordBoundaries`, `DefmtFeature`"
    );
}

#[test]
fn parse_object() {
    assert_eq!(
        Object::parse_str("config { }").unwrap_err().message,
        "expected one of: `block`, `register`, `command`, `buffer`, `ref`"
    );

    assert_eq!(
        Object::parse_str("block Foo {}").unwrap(),
        Object::Block(Block {
            attribute_list: AttributeList::new(),
            identifier: s("Foo"),
            block_item_list: BlockItemList { block_items: vec![] },
            object_list: ObjectList { objects: vec![] }
        }),
    );

    assert_eq!(
        Object::parse_str("register Foo {}").unwrap(),
        Object::Register(Register {
            attribute_list: AttributeList::new(),
            identifier: s("Foo"),
            register_item_list: RegisterItemList { register_items: vec![] },
            field_list: FieldList { fields: vec![] }
        }),
    );

    assert_eq!(
        Object::parse_str("command Foo").unwrap(),
        Object::Command(Command {
            attribute_list: AttributeList::new(),
            identifier: s("Foo"),
            value: None,
        }),
    );

    assert_eq!(
        Object::parse_str("buffer Foo").unwrap(),
        Object::Buffer(Buffer {
            attribute_list: AttributeList::new(),
            identifier: s("Foo"),
            access: None,
            address: None,
        }),
    );

    assert_eq!(
        Object::parse_str("ref Foo2 = buffer Foo").unwrap(),
        Object::Ref(RefObject {
            attribute_list: AttributeList::new(),
            identifier: s("Foo2"),
            object: Box::new(Object::Buffer(Buffer {
                attribute_list: AttributeList::new(),
                identifier: s("Foo"),
                access: None,
                address: None,
            }))
        }),
    );

    assert_eq!(
        Object::parse_str("/// Comment!\nbuffer Foo").unwrap(),
        Object::Buffer(Buffer {
            attribute_list: AttributeList { attributes: vec![Attribute::Doc(s(" Comment!"))] },
            identifier: s("Foo"),
            access: None,
            address: None,
        }),
    );
}

#[test]
fn parse_device() {
    assert_eq!(
        Device::parse_str("").unwrap(),
        Device {
            global_config_list: GlobalConfigList { configs: vec![] },
            object_list: ObjectList { objects: vec![] }
        }
    );

    assert_eq!(
        Device::parse_str("config { type DefaultRegisterAccess = RW; }").unwrap(),
        Device {
            global_config_list: GlobalConfigList {
                configs: vec![GlobalConfig::DefaultRegisterAccess(Access::RW)]
            },
            object_list: ObjectList { objects: vec![] }
        }
    );

    assert_eq!(
        Device::parse_str("buffer Foo").unwrap(),
        Device {
            global_config_list: GlobalConfigList { configs: vec![] },
            object_list: ObjectList {
                objects: vec![Object::Buffer(Buffer {
                    attribute_list: AttributeList::new(),
                    identifier: s("Foo"),
                    access: None,
                    address: None,
                })]
            }
        }
    );

    assert_eq!(
        Device::parse_str("config { type DefaultRegisterAccess = RW; }\nbuffer Foo").unwrap(),
        Device {
            global_config_list: GlobalConfigList {
                configs: vec![GlobalConfig::DefaultRegisterAccess(Access::RW)]
            },
            object_list: ObjectList {
                objects: vec![Object::Buffer(Buffer {
                    attribute_list: AttributeList::new(),
                    identifier: s("Foo"),
                    access: None,
                    address: None,
                })]
            }
        }
    );
}

#[test]
fn attribute_eq() {
    let doc1 = Attribute::Doc(String::from("some doc"));
    let doc2 = Attribute::Doc(String::from("some doc"));
    assert_eq!(doc1, doc2);

    let doc3 = Attribute::Doc(String::from("different doc"));
    assert_ne!(doc1, doc3);

    let cfg1 = Attribute::Cfg(String::from("some cfg"));
    let cfg2 = Attribute::Cfg(String::from("some cfg"));
    assert_eq!(cfg1, cfg2);

    let cfg3 = Attribute::Cfg(String::from("different cfg"));
    assert_ne!(cfg1, cfg3);

    assert_ne!(doc1, cfg1);
}

#[test]
fn test() {
    println!("testing testing");
}

#[test]
fn string_escapes_are_decoded() {
    assert_eq!(
        AttributeList::parse_str("#[doc = \"say \\\"hi\\\" \\\\ now\\nnext\"]").unwrap(),
        AttributeList { attributes: vec![Attribute::Doc(s("say \"hi\" \\ now\nnext"))] }
    );
}

#[test]
fn config_block_keeps_order() {
    let list = GlobalConfigList::parse_str(
        "config { type DefaultBitOrder = MSB0; type DefmtFeature = \"defmt\"; type DefaultFieldAccess = RO; }",
    )
    .unwrap();
    assert_eq!(
        list.configs,
        vec![
            GlobalConfig::DefaultBitOrder(BitOrder::MSB0),
            GlobalConfig::DefmtFeature(s("defmt")),
            GlobalConfig::DefaultFieldAccess(Access::RO)
        ]
    );
}
