use device_driver_generation::ast::{Access, BaseType, BitOrder, ByteOrder};
use device_driver_generation::convert::{has_getter, has_modify, has_setter, instance_addresses, match_variant};
use device_driver_generation::interface::{Bit, RegisterError, RegisterInterface};
use device_driver_generation::mir::{EnumValue, EnumVariant, Repeat};
use device_driver_generation::resolve::TransformErrorKind;
use device_driver_generation::layout::{
    compile, CompileError, FieldSet, LayoutErrorKind, LayoutField, RefReset, RegisterValue,
};

const REGIMES: [(ByteOrder, BitOrder); 4] = [
    (ByteOrder::LE, BitOrder::LSB0),
    (ByteOrder::LE, BitOrder::MSB0),
    (ByteOrder::BE, BitOrder::LSB0),
    (ByteOrder::BE, BitOrder::MSB0),
];

pub struct DeviceInterface {
    device_memory: [u8; 128],
}

impl DeviceInterface {
    pub const fn new() -> Self {
        Self { device_memory: [0; 128] }
    }
}

impl RegisterInterface for DeviceInterface {
    type Address = u8;
    type InterfaceError = ();

    fn read_register(&mut self, address: u8, value: &mut [u8]) -> Result<(), ()> {
        value.copy_from_slice(&self.device_memory[address as usize..][..value.len()]);
        Ok(())
    }

    fn write_register(&mut self, address: u8, value: &[u8]) -> Result<(), ()> {
        self.device_memory[address as usize..][..value.len()].copy_from_slice(value);
        Ok(())
    }
}

fn read(dev: &mut DeviceInterface, fs: &FieldSet) -> RegisterValue {
    let mut r = RegisterValue::new(fs);
    dev.read_register(0, &mut r.bits).unwrap();
    r
}

#[test]
fn test_basic_read_modify_write() {
    let layout = compile(
        "config {
            type RegisterAddressType = u8;
            type DefaultByteOrder = LE;
        }
        /// This is the Foo register
        register Foo {
            const ADDRESS = 0;
            const SIZE_BITS = 24;

            /// This is a bool!
            value0: bool = 0..1,
            value1: uint = 1..16,
            value2: int = 16..24,
        }",
    )
    .unwrap();
    let fs = &layout.field_sets[0];
    assert_eq!(fs.byte_order, ByteOrder::LE);
    assert_eq!(fs.bit_order, BitOrder::LSB0);
    let mut device = DeviceInterface::new();

    let mut w = RegisterValue::new(fs);
    w.write_uint(1, 16, 12345);
    device.write_register(0, &w.bits).unwrap();
    let reg = read(&mut device, fs);

    assert_eq!(reg.read_bool(0), false);
    assert_eq!(reg.read_uint(1, 16), 12345u64);
    assert_eq!(reg.read_int(16, 24), 0i64);

    let mut m = read(&mut device, fs);
    m.write_bool(0, true);
    m.write_int(16, 24, -1);
    device.write_register(0, &m.bits).unwrap();

    let reg = read(&mut device, fs);
    assert_eq!(reg.read_bool(0), true);
    assert_eq!(reg.read_uint(1, 16), 12345u64);
    assert_eq!(reg.read_int(16, 24), -1);
}

#[test]
fn field_set_correct() {
    let layout = compile(
        "config { type DefaultByteOrder = BE; }
        /// Hiya!
        register MyRegister {
            const ADDRESS = 0;
            const SIZE_BITS = 20;
            const RESET_VALUE = [1, 2, 3];
            /// Hiya again!
            my_field: RW uint as enum FieldEnum { A, B } = 0..4,
            my_field2: WO int = 4..16,
        },
        ref MyRef = register MyRegister { const RESET_VALUE = [0, 1, 2]; }",
    )
    .unwrap();

    assert_eq!(
        layout.field_sets,
        vec![FieldSet {
            name: "MyRegister".into(),
            byte_order: ByteOrder::BE,
            bit_order: BitOrder::LSB0,
            size_bits: 20,
            reset_value: vec![1, 2, 3],
            ref_reset_overrides: vec![RefReset {
                ref_name: "MyRef".into(),
                constructor: "new_as_my_ref".into(),
                reset_value: vec![0, 1, 2],
            }],
            fields: vec![
                LayoutField {
                    name: "my_field".into(),
                    access: Access::RW,
                    base_type: BaseType::Uint,
                    start: 0,
                    end: 4,
                },
                LayoutField {
                    name: "my_field2".into(),
                    access: Access::WO,
                    base_type: BaseType::Int,
                    start: 4,
                    end: 16,
                },
            ],
        }]
    );
}

#[test]
fn round_trip_in_every_regime() {
    for (bo, bto) in REGIMES {
        for &(start, end) in &[(0usize, 1usize), (3, 17), (0, 32), (5, 13), (0, 64), (7, 71)] {
            let width = end - start;
            let max = if width == 64 { u64::MAX } else { (1u64 << width) - 1 };
            for v in [0, 1, max / 3, max] {
                let mut r = RegisterValue::zeroed(9, bo, bto);
                r.write_uint(start, end, v);
                assert_eq!(r.read_uint(start, end), v, "{:?} {:?} {}..{}", bo, bto, start, end);
            }
        }
    }
}

#[test]
fn store_keeps_other_bits() {
    for (bo, bto) in REGIMES {
        let mut r = RegisterValue::zeroed(4, bo, bto);
        r.bits = vec![0xA5, 0x5A, 0xFF, 0x00];
        let before = r.clone();
        r.write_uint(5, 19, 0x2AAA);
        for i in 0..32 {
            if i < 5 || i >= 19 {
                assert_eq!(r.read_bool(i), before.read_bool(i), "bit {} {:?} {:?}", i, bo, bto);
            }
        }
        assert_eq!(r.read_uint(5, 19), 0x2AAA);
    }
}

#[test]
fn signed_round_trip() {
    for (bo, bto) in REGIMES {
        let mut r = RegisterValue::zeroed(2, bo, bto);
        r.write_int(3, 7, -1);
        assert_eq!(r.read_int(3, 7), -1);
        assert_eq!(r.read_uint(3, 7), 15);
        for v in -8i64..8 {
            r.write_int(3, 7, v);
            assert_eq!(r.read_int(3, 7), v);
        }
    }
    let mut r = RegisterValue::zeroed(8, ByteOrder::LE, BitOrder::LSB0);
    r.write_int(0, 64, i64::MIN);
    assert_eq!(r.read_int(0, 64), i64::MIN);
}

#[test]
fn regimes_place_bits_where_documented() {
    let mut r = RegisterValue::zeroed(2, ByteOrder::LE, BitOrder::LSB0);
    r.write_bool(0, true);
    assert_eq!(r.bits, vec![0x01, 0x00]);
    let mut r = RegisterValue::zeroed(2, ByteOrder::LE, BitOrder::MSB0);
    r.write_bool(0, true);
    assert_eq!(r.bits, vec![0x80, 0x00]);
    let mut r = RegisterValue::zeroed(2, ByteOrder::BE, BitOrder::LSB0);
    r.write_bool(0, true);
    assert_eq!(r.bits, vec![0x00, 0x01]);
    let mut r = RegisterValue::zeroed(2, ByteOrder::BE, BitOrder::MSB0);
    r.write_bool(0, true);
    assert_eq!(r.bits, vec![0x00, 0x80]);
    let mut r = RegisterValue::zeroed(2, ByteOrder::LE, BitOrder::LSB0);
    r.write_uint(4, 12, 0xAB);
    assert_eq!(r.bits, vec![0xB0, 0x0A]);
}

const OVERLAPPING: &str = "register R { const ADDRESS = 0; const SIZE_BITS = 16; a: uint = 0..8, b: uint = 4..12, }";

#[test]
fn overlap_rejected_without_flag() {
    match compile(OVERLAPPING) {
        Err(CompileError::Transform(e)) => {
            assert_eq!(e.kind, TransformErrorKind::FieldOverlap);
            assert_eq!(e.subject, "R");
        }
        other => panic!("expected an overlap error, got {:?}", other),
    }
    let allowed = "register R { const ADDRESS = 0; const SIZE_BITS = 16; const ALLOW_BIT_OVERLAP = true; a: uint = 0..8, b: uint = 4..12, }";
    assert!(compile(allowed).is_ok());
    let single_bits = "register R { const ADDRESS = 0; const SIZE_BITS = 8; a: bool = 3, b: bool = 4, c: uint = 5..8, }";
    assert!(compile(single_bits).is_ok());
    let same_bit = "register R { const ADDRESS = 0; const SIZE_BITS = 8; a: bool = 3, b: bool = 3, }";
    assert!(matches!(compile(same_bit), Err(CompileError::Transform(_))));
}

#[test]
fn field_outside_or_too_wide() {
    match compile("register R { const ADDRESS = 0; const SIZE_BITS = 8; a: uint = 4..9, }") {
        Err(CompileError::Layout(e)) => assert_eq!(e.kind, LayoutErrorKind::FieldOutOfRange),
        other => panic!("unexpected {:?}", other),
    }
    match compile("register R { const ADDRESS = 0; const SIZE_BITS = 80; a: uint = 0..65, }") {
        Err(CompileError::Layout(e)) => assert_eq!(e.kind, LayoutErrorKind::FieldTooWide),
        other => panic!("unexpected {:?}", other),
    }
}

#[test]
fn ref_overriding_reset_value() {
    let layout = compile(
        "register Base { const ADDRESS = 4; const SIZE_BITS = 16; const RESET_VALUE = 0x1234; type Access = RO; x: uint = 0..16, },
        ref Other = register Base { const RESET_VALUE = 0x5678; }",
    )
    .unwrap();
    assert_eq!(layout.field_sets.len(), 1);
    let fs = &layout.field_sets[0];
    assert_eq!(fs.reset_value, vec![0x34, 0x12]);
    assert_eq!(
        fs.ref_reset_overrides,
        vec![RefReset {
            ref_name: "Other".into(),
            constructor: "new_as_other".into(),
            reset_value: vec![0x78, 0x56],
        }]
    );
    let base = &layout.registers[0];
    let other = &layout.registers[1];
    assert_eq!(other.name, "Other");
    assert_eq!(other.field_set, "Base");
    assert_eq!(other.address, base.address);
    assert_eq!(other.access, base.access);
    assert_eq!(other.repeat, base.repeat);
    assert_eq!(other.reset_value, vec![0x78, 0x56]);
    assert_eq!(base.reset_value, vec![0x34, 0x12]);
}

#[test]
fn ref_overriding_address_keeps_reset() {
    let layout = compile(
        "register Base { const ADDRESS = 4; const SIZE_BITS = 8; const RESET_VALUE = 7; },
        ref Moved = register Base { const ADDRESS = 9; }",
    )
    .unwrap();
    assert!(layout.field_sets[0].ref_reset_overrides.is_empty());
    assert_eq!(layout.registers[1].address, 9);
    assert_eq!(layout.registers[1].reset_value, vec![7]);
}

#[test]
fn ref_to_unknown_register() {
    match compile("ref Moved = register Nowhere { const ADDRESS = 9; }") {
        Err(CompileError::Layout(e)) => assert_eq!(e.kind, LayoutErrorKind::UnknownRefTarget),
        other => panic!("unexpected {:?}", other),
    }
}

#[test]
fn reset_value_in_byte_order() {
    let le = compile("register R { const ADDRESS = 0; const SIZE_BITS = 24; const RESET_VALUE = 0x010203; }").unwrap();
    assert_eq!(le.field_sets[0].reset_value, vec![3, 2, 1]);
    let be = compile("register R { type ByteOrder = BE; const ADDRESS = 0; const SIZE_BITS = 24; const RESET_VALUE = 0x010203; }")
        .unwrap();
    assert_eq!(be.field_sets[0].reset_value, vec![1, 2, 3]);
    let none = compile("register R { const ADDRESS = 0; const SIZE_BITS = 12; }").unwrap();
    assert_eq!(none.field_sets[0].reset_value, vec![0, 0]);
    match compile("register R { const ADDRESS = 0; const SIZE_BITS = 8; const RESET_VALUE = 0x100; }") {
        Err(CompileError::Layout(e)) => assert_eq!(e.kind, LayoutErrorKind::ResetValueTooLarge),
        other => panic!("unexpected {:?}", other),
    }
}

#[test]
fn command_field_sets() {
    let layout = compile(
        "command C { const ADDRESS = 1; const SIZE_BITS_IN = 9; const SIZE_BITS_OUT = 8; in { a: uint = 0..9, } out { b: bool = 7, } }",
    )
    .unwrap();
    assert_eq!(layout.field_sets.len(), 2);
    assert_eq!(layout.field_sets[0].name, "CFieldsIn");
    assert_eq!(layout.field_sets[0].reset_value, vec![0, 0]);
    assert_eq!(layout.field_sets[1].name, "CFieldsOut");
    assert_eq!(layout.field_sets[1].fields[0].start, 7);
    assert_eq!(layout.field_sets[1].fields[0].end, 8);
}

#[test]
fn compile_is_deterministic() {
    let text = "config { type DefaultByteOrder = BE; }
        register A { const ADDRESS = 0; const SIZE_BITS = 12; const RESET_VALUE = 0xABC; x: int = 0..12, },
        ref B = register A { const RESET_VALUE = 1; },
        block K { register C { const ADDRESS = 2; const SIZE_BITS = 8; y: bool = 0, } }";
    let first = compile(text).unwrap();
    let second = compile(text).unwrap();
    assert_eq!(first, second);
    assert_eq!(first.field_sets.len(), 2);
}

#[test]
fn compile_reports_each_stage() {
    assert!(matches!(compile("register {"), Err(CompileError::Parse(_))));
    assert!(matches!(compile("buffer B"), Err(CompileError::Transform(_))));
    let err = compile("config { type DefaultRegisterAccess = RW; type DefaultRegisterAccess = RW; }").unwrap_err();
    assert_eq!(err.message(), "Duplicate global config found: `DefaultRegisterAccess(RW)`");
}

#[test]
fn bits_and_errors() {
    assert_eq!(Bit::from_bool(true), Bit::_1);
    assert!(!Bit::_0.is_set());
    let e: RegisterError<()> = RegisterError::HardwareError(());
    assert_ne!(e, RegisterError::InvalidValue);
}

fn variant(name: &str, value: EnumValue) -> EnumVariant {
    EnumVariant {
        cfg_attr: None,
        description: String::new(),
        name: name.into(),
        value,
    }
}

#[test]
fn enum_variants_match_raw_values() {
    let vs = vec![
        variant("One", EnumValue::Unspecified),
        variant("Two", EnumValue::Specified(2)),
        variant("Three", EnumValue::Unspecified),
        variant("Other", EnumValue::Default),
        variant("Rest", EnumValue::CatchAll),
    ];
    assert_eq!(match_variant(0, &vs), Some(0));
    assert_eq!(match_variant(2, &vs), Some(1));
    assert_eq!(match_variant(3, &vs), Some(2));
    assert_eq!(match_variant(1, &vs), Some(3));
    assert_eq!(match_variant(99, &vs), Some(3));

    let catch_only = vec![variant("A", EnumValue::Specified(5)), variant("Rest", EnumValue::CatchAll)];
    assert_eq!(match_variant(5, &catch_only), Some(0));
    assert_eq!(match_variant(6, &catch_only), Some(1));

    let strict = vec![variant("A", EnumValue::Unspecified), variant("B", EnumValue::Unspecified)];
    assert_eq!(match_variant(1, &strict), Some(1));
    assert_eq!(match_variant(2, &strict), None);
}

#[test]
fn read_enum_from_register() {
    let vs = vec![
        variant("Idle", EnumValue::Unspecified),
        variant("Run", EnumValue::Unspecified),
        variant("Stop", EnumValue::Specified(3)),
    ];
    let mut r = RegisterValue::zeroed(1, ByteOrder::LE, BitOrder::MSB0);
    r.write_uint(2, 4, 3);
    assert_eq!(r.read_enum(2, 4, &vs), Some(2));
    r.write_uint(2, 4, 2);
    assert_eq!(r.read_enum(2, 4, &vs), None);
}

#[test]
fn repeated_instances() {
    assert_eq!(instance_addresses(0x10, Repeat { count: 4, stride: 0x10 }), Some(vec![0x10, 0x20, 0x30, 0x40]));
    assert_eq!(instance_addresses(7, Repeat { count: 0, stride: 3 }), Some(vec![]));
    assert_eq!(instance_addresses(u64::MAX - 1, Repeat { count: 2, stride: 1 }), Some(vec![u64::MAX - 1, u64::MAX]));
    assert_eq!(instance_addresses(u64::MAX - 1, Repeat { count: 3, stride: 1 }), None);
    assert_eq!(instance_addresses(0, Repeat { count: 3, stride: u64::MAX }), None);
}

#[test]
fn access_gates_accessors() {
    assert!(has_getter(Access::RW) && has_setter(Access::RW) && has_modify(Access::RW));
    assert!(has_getter(Access::RO) && !has_setter(Access::RO) && !has_modify(Access::RO));
    assert!(!has_getter(Access::WO) && has_setter(Access::WO) && !has_modify(Access::WO));
}

#[test]
fn block_addresses_are_relative() {
    let layout = compile(
        "register Top { const ADDRESS = 1; const SIZE_BITS = 8; },
        block B { const ADDRESS_OFFSET = 0x100; register Inner { const ADDRESS = 2; const SIZE_BITS = 8; } },
        ref Alias = register Inner { const ADDRESS = 5; }",
    )
    .unwrap();
    assert_eq!(layout.registers.len(), 3);
    assert_eq!(layout.registers[0].address, 1);
    assert_eq!(layout.registers[1].name, "Inner");
    assert_eq!(layout.registers[1].address, 0x102);
    assert_eq!(layout.registers[2].name, "Alias");
    assert_eq!(layout.registers[2].field_set, "Inner");
    assert_eq!(layout.registers[2].address, 5);
}

#[test]
fn block_address_overflow() {
    match compile(
        "block B { const ADDRESS_OFFSET = 0xFFFFFFFFFFFFFFFF; register R { const ADDRESS = 2; const SIZE_BITS = 8; } }",
    ) {
        Err(CompileError::Layout(e)) => assert_eq!(e.kind, LayoutErrorKind::AddressOverflow),
        other => panic!("unexpected {:?}", other),
    }
}

#[test]
fn refs_need_their_targets() {
    match compile("ref A = command Missing { const ADDRESS = 1; }") {
        Err(CompileError::Layout(e)) => {
            assert_eq!(e.kind, LayoutErrorKind::UnknownRefTarget);
            assert_eq!(e.subject, "Missing");
        }
        other => panic!("unexpected {:?}", other),
    }
    assert!(compile("command C = 1, ref A = command C { const ADDRESS = 2; }").is_ok());
    assert!(compile("buffer B = 1, ref A = buffer B = 2").is_ok());
}
