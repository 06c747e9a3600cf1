use device_driver_generation::ast::{Access, BaseType, BitOrder, ByteOrder, Device};
use device_driver_generation::mir;
use device_driver_generation::resolve::{transform, TransformErrorKind};

fn resolve(text: &str) -> Result<mir::Device, device_driver_generation::resolve::TransformError> {
    transform(&Device::parse_str(text).unwrap())
}

#[test]
fn no_double_global_settings() {
    let err = resolve("config { type DefaultRegisterAccess = RW; type DefaultRegisterAccess = RW; }")
        .unwrap_err();
    assert_eq!(err.message, "Duplicate global config found: `DefaultRegisterAccess(RW)`");
    assert_eq!(err.kind, TransformErrorKind::DuplicateGlobalConfig);
}

#[test]
fn global_settings_correct() {
    let device = resolve(
        "config {
            type DefaultRegisterAccess = RO;
            type DefaultFieldAccess = RW;
            type DefaultBufferAccess = WO;
            type DefaultByteOrder = LE;
            type DefaultBitOrder = MSB0;
            type RegisterAddressType = i8;
            type CommandAddressType = u128;
            type BufferAddressType = u32;
        }",
    )
    .unwrap();

    assert_eq!(
        device.global_config,
        mir::GlobalConfig {
            default_register_access: Access::RO,
            default_field_access: Access::RW,
            default_buffer_access: Access::WO,
            default_byte_order: ByteOrder::LE,
            default_bit_order: BitOrder::MSB0,
            register_address_type: Some(mir::Integer::I8),
            command_address_type: Some(mir::Integer::U128),
            buffer_address_type: Some(mir::Integer::U32),
            name_word_boundaries: None,
            defmt_feature: None,
        }
    );
}

#[test]
fn buffer() {
    assert_eq!(
        resolve(
            "
            /// Hello world!
            #[cfg(feature = \"foo\")]
            /// This should be in order!
            buffer Foo: RO = 5
            ",
        )
        .unwrap()
        .objects,
        vec![mir::Object::Buffer(mir::Buffer {
            cfg_attr: Some("feature = \"foo\"".into()),
            description: " Hello world!\n This should be in order!".into(),
            name: "Foo".into(),
            access: Access::RO,
            address: 5,
        })]
    );

    assert_eq!(
        resolve("buffer Foo").unwrap_err().message,
        "Buffer `Foo` must have an address"
    );
}

#[test]
fn command() {
    assert_eq!(resolve("command Foo").unwrap_err().message, "Command `Foo` must have a value");

    assert_eq!(resolve("command Foo {}").unwrap_err().message, "Command `Foo` must have an address");

    assert_eq!(
        resolve(
            "
            /// Hello world!
            #[cfg(feature = \"foo\")]
            /// This should be in order!
            command Foo = 5
            ",
        )
        .unwrap()
        .objects,
        vec![mir::Object::Command(mir::Command {
            cfg_attr: Some("feature = \"foo\"".into()),
            description: " Hello world!\n This should be in order!".into(),
            name: "Foo".into(),
            address: 5,
            byte_order: ByteOrder::LE,
            bit_order: BitOrder::LSB0,
            allow_bit_overlap: false,
            allow_address_overlap: false,
            size_bits_in: 0,
            size_bits_out: 0,
            repeat: None,
            in_fields: vec![],
            out_fields: vec![],
        })]
    );

    assert_eq!(
        resolve(
            "
            config {
                type DefaultByteOrder = LE;
                type DefaultFieldAccess = RO;
            }
            command Bar {
                const SIZE_BITS_IN = 32;
                const SIZE_BITS_OUT = 16;
                const REPEAT = {
                    count: 4,
                    stride: 0x10,
                };
                const ADDRESS = 10;

                in {
                    /// Hello!
                    #[cfg(bla)]
                    val: WO bool = 0,
                    foo: uint as crate::my_mod::MyStruct = 1..=5,
                }
                out {
                    val: int as enum Val {
                        One,
                        /// Two!
                        Two = 2,
                        Three = default,
                        #[cfg(yes)]
                        Four = catch_all,
                    } = 0..16,
                }
            }
            ",
        )
        .unwrap()
        .objects,
        vec![mir::Object::Command(mir::Command {
            cfg_attr: None,
            description: Default::default(),
            name: "Bar".into(),
            address: 10,
            byte_order: ByteOrder::LE,
            bit_order: BitOrder::LSB0,
            allow_bit_overlap: false,
            allow_address_overlap: false,
            size_bits_in: 32,
            size_bits_out: 16,
            repeat: Some(mir::Repeat { count: 4, stride: 16 }),
            in_fields: vec![
                mir::Field {
                    cfg_attr: Some("bla".into()),
                    description: " Hello!".into(),
                    name: "val".into(),
                    access: Access::WO,
                    base_type: BaseType::Bool,
                    field_conversion: None,
                    field_address: mir::BitRange { start: 0, end: 0 },
                },
                mir::Field {
                    cfg_attr: None,
                    description: Default::default(),
                    name: "foo".into(),
                    access: Access::RO,
                    base_type: BaseType::Uint,
                    field_conversion: Some(mir::FieldConversion::Direct {
                        target: "crate::my_mod::MyStruct".into(),
                        use_try: false,
                    }),
                    field_address: mir::BitRange { start: 1, end: 6 },
                }
            ],
            out_fields: vec![mir::Field {
                cfg_attr: None,
                description: Default::default(),
                name: "val".into(),
                access: Access::RO,
                base_type: BaseType::Int,
                field_conversion: Some(mir::FieldConversion::Enum {
                    name: "Val".into(),
                    variants: vec![
                        mir::EnumVariant {
                            cfg_attr: None,
                            description: Default::default(),
                            name: "One".into(),
                            value: mir::EnumValue::Unspecified,
                        },
                        mir::EnumVariant {
                            cfg_attr: None,
                            description: " Two!".into(),
                            name: "Two".into(),
                            value: mir::EnumValue::Specified(2),
                        },
                        mir::EnumVariant {
                            cfg_attr: None,
                            description: Default::default(),
                            name: "Three".into(),
                            value: mir::EnumValue::Default,
                        },
                        mir::EnumVariant {
                            cfg_attr: Some("yes".into()),
                            description: Default::default(),
                            name: "Four".into(),
                            value: mir::EnumValue::CatchAll,
                        }
                    ],
                    use_try: false,
                }),
                field_address: mir::BitRange { start: 0, end: 16 },
            }]
        })]
    );

    assert_eq!(
        resolve(
            "
            command Foo {
                const ADDRESS = 0;

                in {
                    val: int = 0,
                }
            }
            ",
        )
        .unwrap_err()
        .message,
        "Field `val` has a non-bool base type and must specify the start and the end address"
    );

    assert_eq!(
        resolve(
            "
            config {
                type DefaultByteOrder = LE;
                type DefaultBitOrder = MSB0;
            }
            command Bar {
                type ByteOrder = BE;
                type BitOrder = LSB0;
                const ADDRESS = 10;

                in {
                    val: bool = 0,
                }
            }
            ",
        )
        .unwrap()
        .objects,
        vec![mir::Object::Command(mir::Command {
            cfg_attr: None,
            description: Default::default(),
            name: "Bar".into(),
            address: 10,
            byte_order: ByteOrder::BE,
            bit_order: BitOrder::LSB0,
            allow_bit_overlap: false,
            allow_address_overlap: false,
            size_bits_in: 0,
            size_bits_out: 0,
            repeat: None,
            in_fields: vec![mir::Field {
                cfg_attr: None,
                description: Default::default(),
                name: "val".into(),
                access: Access::RW,
                base_type: BaseType::Bool,
                field_conversion: None,
                field_address: mir::BitRange { start: 0, end: 0 },
            }],
            out_fields: vec![]
        })]
    );
}

#[test]
fn max_one_cfg_attr() {
    assert_eq!(
        resolve("buffer Foo = 5").unwrap().objects,
        vec![mir::Object::Buffer(mir::Buffer {
            cfg_attr: None,
            description: "".into(),
            name: "Foo".into(),
            access: Access::RW,
            address: 5,
        })]
    );
    assert_eq!(
        resolve("#[cfg(foo)]\nbuffer Foo = 5").unwrap().objects,
        vec![mir::Object::Buffer(mir::Buffer {
            cfg_attr: Some("foo".into()),
            description: "".into(),
            name: "Foo".into(),
            access: Access::RW,
            address: 5,
        })]
    );
    assert_eq!(
        resolve("#[cfg(foo)]\n#[cfg(too_many)]\nbuffer Foo = 5").unwrap_err().message,
        "Only one cfg attribute is allowed, but 2 are found"
    );
}

#[test]
fn duplicate_config_of_other_kinds() {
    let err = resolve("config { type DefaultByteOrder = LE; type DefaultBitOrder = LSB0; type DefaultByteOrder = BE; }")
        .unwrap_err();
    assert_eq!(err.kind, TransformErrorKind::DuplicateGlobalConfig);
    assert_eq!(err.message, "Duplicate global config found: `DefaultByteOrder(LE)`");
}

#[test]
fn not_an_integer_type() {
    let err = resolve("config { type RegisterAddressType = usize; }").unwrap_err();
    assert_eq!(err.kind, TransformErrorKind::NotAnIntegerType);
    assert_eq!(err.subject, "usize");
}

#[test]
fn ref_to_ref_rejected() {
    let err = resolve("ref A = ref B = buffer C").unwrap_err();
    assert_eq!(err.kind, TransformErrorKind::RefToRef);
    assert_eq!(err.message, "Ref `A` cannot ref another ref object");
}

#[test]
fn register_needs_address_and_size() {
    let err = resolve("register R { const SIZE_BITS = 8; }").unwrap_err();
    assert_eq!(err.kind, TransformErrorKind::MissingAddress);
    assert_eq!(err.subject, "R");
    let err = resolve("register R { const ADDRESS = 1; }").unwrap_err();
    assert_eq!(err.kind, TransformErrorKind::MissingSize);
}

#[test]
fn register_defaults_and_items() {
    let device = resolve(
        "config { type DefaultRegisterAccess = RO; type DefaultBitOrder = MSB0; }
        register R { type ByteOrder = BE; const ADDRESS = 3; const SIZE_BITS = 12; const RESET_VALUE = [1, 2]; x: uint = 0..=11, }",
    )
    .unwrap();
    match &device.objects[0] {
        mir::Object::Register(r) => {
            assert_eq!(r.access, Access::RO);
            assert_eq!(r.byte_order, ByteOrder::BE);
            assert_eq!(r.bit_order, BitOrder::MSB0);
            assert_eq!(r.address, 3);
            assert_eq!(r.size_bits, 12);
            assert_eq!(r.reset_value, Some(mir::ResetValue::Array(vec![1, 2])));
            assert_eq!(r.fields[0].field_address, mir::BitRange { start: 0, end: 12 });
        }
        other => panic!("expected a register, got {:?}", other),
    }
}

#[test]
fn reset_array_must_match_size() {
    let err = resolve("register R { const ADDRESS = 3; const SIZE_BITS = 12; const RESET_VALUE = [1, 2, 3]; }")
        .unwrap_err();
    assert_eq!(err.kind, TransformErrorKind::InvalidResetValue);
}

#[test]
fn empty_field_range_rejected() {
    let err = resolve("register R { const ADDRESS = 3; const SIZE_BITS = 12; x: uint = 5..5, }").unwrap_err();
    assert_eq!(err.kind, TransformErrorKind::EmptyFieldRange);
    assert_eq!(err.subject, "x");
}

#[test]
fn repeat_needs_positive_count() {
    let err = resolve("register R { const ADDRESS = 3; const SIZE_BITS = 8; const REPEAT = { count: 0, stride: 1 }; }")
        .unwrap_err();
    assert_eq!(err.kind, TransformErrorKind::InvalidRepeat);
}

#[test]
fn block_offsets_and_nesting() {
    let device = resolve("block B { const ADDRESS_OFFSET = 0x10; buffer X = 1, block C { buffer Y = 2 } }").unwrap();
    match &device.objects[0] {
        mir::Object::Block(b) => {
            assert_eq!(b.address_offset, 0x10);
            assert_eq!(b.objects.len(), 2);
        }
        other => panic!("expected a block, got {:?}", other),
    }
}

#[test]
fn ref_command_override() {
    let device = resolve("command A = 5, ref B = command A { type ByteOrder = BE; const SIZE_BITS_IN = 8; }").unwrap();
    match &device.objects[1] {
        mir::Object::Ref(r) => {
            assert_eq!(r.name, "B");
            match &r.object_override {
                mir::ObjectOverride::Command(c) => {
                    assert_eq!(c.name, "A");
                    assert_eq!(c.address, None);
                    assert_eq!(c.byte_order, Some(ByteOrder::BE));
                    assert_eq!(c.size_bits_in, Some(8));
                    assert_eq!(c.size_bits_out, None);
                }
                other => panic!("expected a command override, got {:?}", other),
            }
        }
        other => panic!("expected a ref, got {:?}", other),
    }
}

#[test]
fn one_default_and_one_catch_all_per_enum() {
    let two_defaults = "command C { const ADDRESS = 1; in { f: uint as enum E { A = default, B = default } = 0..2, } }";
    let err = resolve(two_defaults).unwrap_err();
    assert_eq!(err.kind, TransformErrorKind::DuplicateEnumMarker);
    let two_catch_alls = "command C { const ADDRESS = 1; in { f: uint as enum E { A = catch_all, B = catch_all } = 0..2, } }";
    assert_eq!(resolve(two_catch_alls).unwrap_err().kind, TransformErrorKind::DuplicateEnumMarker);
    let one_each = "command C { const ADDRESS = 1; in { f: uint as enum E { A = default, B = catch_all, C } = 0..2, } }";
    assert!(resolve(one_each).is_ok());
}

#[test]
fn overlapping_fields_rejected_by_resolver() {
    let err = resolve("register R { const ADDRESS = 0; const SIZE_BITS = 16; a: uint = 0..8, b: uint = 7..9, }").unwrap_err();
    assert_eq!(err.kind, TransformErrorKind::FieldOverlap);
    assert_eq!(err.message, "Register `R` has fields that share bits");
    let device = resolve(
        "register R { const ADDRESS = 0; const SIZE_BITS = 16; const ALLOW_BIT_OVERLAP = true; a: uint = 0..8, b: uint = 7..9, }",
    )
    .unwrap();
    match &device.objects[0] {
        mir::Object::Register(r) => assert_eq!(r.fields.len(), 2),
        other => panic!("expected a register, got {:?}", other),
    }
}

#[test]
fn register_override_with_only_a_reset_value() {
    let device = resolve("ref R = register Base { const RESET_VALUE = [1, 2]; }").unwrap();
    match &device.objects[0] {
        mir::Object::Ref(r) => match &r.object_override {
            mir::ObjectOverride::Register(o) => {
                assert_eq!(o.name, "Base");
                assert_eq!(o.reset_value, Some(mir::ResetValue::Array(vec![1, 2])));
                assert_eq!(o.access, None);
                assert_eq!(o.address, None);
                assert_eq!(o.repeat, None);
            }
            other => panic!("unexpected {:?}", other),
        },
        other => panic!("unexpected {:?}", other),
    }
}
