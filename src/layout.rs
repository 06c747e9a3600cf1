//! The layout engine: byte sizes, reset values and field positions of every
//! register and command, and the reading and writing of field values.

use vstd::prelude::*;
use crate::ast::{Access, BaseType, BitOrder, ByteOrder};
use crate::bits::{
    bit_at, bits_value, get_bit, in_buffer, load_bits, load_signed, set_bit, sign_extend, store_bits,
    store_signed, stored, two_pow, twos_complement,
};
use crate::casing::{snake_case, snake_case_of};
use crate::convert::{enum_match, match_variant};
use crate::lexer::{text_eq, ParseError};
use crate::mir;
use crate::mir::{fields_disjoint, overlap, span_end, span_start};
use crate::parser::Src;
use crate::resolve::{
    configs_unique, device_ok, device_resolved, size_bytes, transform, TransformError,
    TransformErrorKind,
};

verus! {

#[derive(Debug, Clone, Copy, PartialEq, Eq, Structural)]
pub enum LayoutErrorKind {
    FieldOutOfRange,
    FieldTooWide,
    FieldOverlap,
    ResetValueTooLarge,
    ResetValueSize,
    UnknownRefTarget,
    AddressOverflow,
}

#[derive(Debug, Clone, PartialEq, Eq)]
pub struct LayoutError {
    pub kind: LayoutErrorKind,
    pub subject: String,
    pub message: String,
}

fn layout_error(kind: LayoutErrorKind, subject: &String, message: &str) -> (r: LayoutError)
    ensures
        r.kind == kind,
        r.subject == subject,
{
    LayoutError {
        kind,
        subject: subject.clone(),
        message: String::from_str(message).concat(": `").concat(subject.as_str()).concat("`"),
    }
}

/// A field placed in its object: the bits `[start, end)`.
#[derive(Debug, Clone, PartialEq, Eq)]
pub struct LayoutField {
    pub name: String,
    pub access: Access,
    pub base_type: BaseType,
    pub start: u64,
    pub end: u64,
}

/// A constructor that loads the reset value of a ref.
#[derive(Debug, Clone, PartialEq, Eq)]
pub struct RefReset {
    pub ref_name: String,
    pub constructor: String,
    pub reset_value: Vec<u8>,
}

/// The layout of a register, or of one direction of a command.
#[derive(Debug, Clone, PartialEq, Eq)]
pub struct FieldSet {
    pub name: String,
    pub byte_order: ByteOrder,
    pub bit_order: BitOrder,
    pub size_bits: u64,
    pub reset_value: Vec<u8>,
    pub ref_reset_overrides: Vec<RefReset>,
    pub fields: Vec<LayoutField>,
}

/// A register as a device exposes it: its own, or a ref to it with some
/// properties replaced. Its fields are those of the field set `field_set`.
#[derive(Debug, Clone, PartialEq, Eq)]
pub struct RegisterInstance {
    pub name: String,
    pub field_set: String,
    pub address: u64,
    pub access: Access,
    pub repeat: Option<mir::Repeat>,
    pub reset_value: Vec<u8>,
}

/// Everything the emitter needs.
#[derive(Debug, Clone, PartialEq, Eq)]
pub struct Layout {
    pub field_sets: Vec<FieldSet>,
    pub registers: Vec<RegisterInstance>,
}

// ---------------------------------------------------------------------------
// Sizes and reset values

/// The number of bytes that hold `size_bits` bits.
pub fn size_bytes_of(size_bits: u64) -> (r: u64)
    ensures
        r == size_bytes(size_bits as nat),
{
    size_bits / 8 + if size_bits % 8 == 0 {
        0
    } else {
        1
    }
}

/// Byte `k` of `v`, counted from the least significant one.
pub open spec fn value_byte(v: u64, k: nat) -> u8 {
    if k < 8 {
        (v >> (8 * k) as u64) as u8
    } else {
        0
    }
}

/// `v` fits in `n` bytes.
pub open spec fn fits_bytes(v: u64, n: nat) -> bool {
    n >= 8 || (v >> (8 * n) as u64) == 0
}

/// Which byte of the value the byte at `p` of an `n`-byte buffer holds.
pub open spec fn byte_rank(n: nat, p: nat, byte_order: ByteOrder) -> nat {
    match byte_order {
        ByteOrder::LE => p,
        ByteOrder::BE => (n - 1 - p) as nat,
    }
}

/// The `n` bytes of `v` in the given byte order.
pub fn reset_bytes(v: u64, n: u64, byte_order: ByteOrder, subject: &String) -> (r: Result<
    Vec<u8>,
    LayoutError,
>)
    ensures
        r is Ok <==> fits_bytes(v, n as nat),
        r matches Ok(b) ==> b@.len() == n && forall|p: int|
            0 <= p < n ==> #[trigger] b@[p] == value_byte(v, byte_rank(n as nat, p as nat, byte_order)),
        r matches Err(e) ==> e.kind == LayoutErrorKind::ResetValueTooLarge,
{
    if n < 8 && (v >> (8 * n)) != 0 {
        return Err(layout_error(LayoutErrorKind::ResetValueTooLarge, subject, "reset value does not fit"));
    }
    let mut out: Vec<u8> = Vec::new();
    let mut p: u64 = 0;
    while p < n
        invariant
            p <= n,
            out@.len() == p,
            forall|q: int|
                0 <= q < p ==> #[trigger] out@[q] == value_byte(
                    v,
                    byte_rank(n as nat, q as nat, byte_order),
                ),
        decreases n - p,
    {
        let k = match byte_order {
            ByteOrder::LE => p,
            ByteOrder::BE => n - 1 - p,
        };
        let b: u8 = if k < 8 {
            (v >> (8 * k)) as u8
        } else {
            0
        };
        out.push(b);
        p = p + 1;
    }
    Ok(out)
}

fn copy_bytes(v: &Vec<u8>) -> (r: Vec<u8>)
    ensures
        r@ == v@,
{
    let mut out: Vec<u8> = Vec::new();
    let mut i: usize = 0;
    while i < v.len()
        invariant
            i <= v@.len(),
            out@ == v@.subrange(0, i as int),
        decreases v@.len() - i,
    {
        out.push(v[i]);
        i = i + 1;
    }
    assert(out@ =~= v@);
    out
}

/// The reset bytes of an object of `n` bytes: zeros, the bytes of an integer
/// in the byte order, or the bytes given.
pub open spec fn reset_spec(reset: Option<mir::ResetValue>, n: nat, byte_order: ByteOrder) -> Option<Seq<u8>> {
    match reset {
        None => Some(Seq::new(n, |p: int| 0u8)),
        Some(mir::ResetValue::Integer(v)) => if fits_bytes(v, n) {
            Some(Seq::new(n, |p: int| value_byte(v, byte_rank(n, p as nat, byte_order))))
        } else {
            None
        },
        Some(mir::ResetValue::Array(a)) => if a@.len() == n {
            Some(a@)
        } else {
            None
        },
    }
}

/// Materializes a reset value for an object of `n` bytes.
pub fn reset_value_bytes(
    reset: &Option<mir::ResetValue>,
    n: u64,
    byte_order: ByteOrder,
    subject: &String,
) -> (r: Result<Vec<u8>, LayoutError>)
    ensures
        r is Ok <==> reset_spec(*reset, n as nat, byte_order) is Some,
        r matches Ok(b) ==> Some(b@) == reset_spec(*reset, n as nat, byte_order),
{
    match reset {
        None => {
            let mut out: Vec<u8> = Vec::new();
            let mut p: u64 = 0;
            while p < n
                invariant
                    p <= n,
                    out@.len() == p,
                    forall|q: int| 0 <= q < p ==> #[trigger] out@[q] == 0u8,
                decreases n - p,
            {
                out.push(0u8);
                p = p + 1;
            }
            assert(out@ =~= Seq::new(n as nat, |p: int| 0u8));
            Ok(out)
        },
        Some(mir::ResetValue::Integer(v)) => {
            let b = reset_bytes(*v, n, byte_order, subject)?;
            assert(b@ =~= Seq::new(
                n as nat,
                |p: int| value_byte(*v, byte_rank(n as nat, p as nat, byte_order)),
            ));
            Ok(b)
        },
        Some(mir::ResetValue::Array(a)) => {
            if a.len() as u64 != n {
                return Err(
                    layout_error(LayoutErrorKind::ResetValueSize, subject, "reset value has the wrong size"),
                );
            }
            Ok(copy_bytes(a))
        },
    }
}

// ---------------------------------------------------------------------------
// Fields

/// The field lies inside an object of `size_bits` bits and is at most 64
/// bits wide.
pub open spec fn span_fits(f: mir::Field, size_bits: nat) -> bool {
    &&& span_start(f) < span_end(f)
    &&& span_end(f) <= size_bits
    &&& span_end(f) - span_start(f) <= 64
}

pub open spec fn fields_fit(fs: Seq<mir::Field>, size_bits: nat) -> bool {
    forall|i: int| 0 <= i < fs.len() ==> span_fits(#[trigger] fs[i], size_bits)
}

/// `l` places the field `f`.
pub open spec fn placed(l: LayoutField, f: mir::Field) -> bool {
    &&& l.name == f.name
    &&& l.access == f.access
    &&& l.base_type == f.base_type
    &&& l.start == span_start(f)
    &&& l.end == span_end(f)
}

/// Places the fields of an object of `size_bits` bits. Every field must lie
/// inside the object and be at most 64 bits wide; fields may share bits only
/// when `allow_overlap` is set.
pub fn place_fields(
    fields: &Vec<mir::Field>,
    size_bits: u64,
    allow_overlap: bool,
    subject: &String,
) -> (r: Result<Vec<LayoutField>, LayoutError>)
    ensures
        r is Ok <==> fields_fit(fields@, size_bits as nat) && (allow_overlap || fields_disjoint(
            fields@,
        )),
        (fields_fit(fields@, size_bits as nat) && !allow_overlap && !fields_disjoint(fields@)) ==> (r matches Err(
            e,
        ) && e.kind == LayoutErrorKind::FieldOverlap),
        r matches Ok(ls) ==> ls@.len() == fields@.len() && forall|i: int|
            0 <= i < ls@.len() ==> placed(#[trigger] ls@[i], fields@[i]),
{
    let n = fields.len();
    let mut out: Vec<LayoutField> = Vec::new();
    let mut i: usize = 0;
    while i < n
        invariant
            n == fields@.len(),
            i <= n,
            out@.len() == i,
            forall|j: int| 0 <= j < i ==> span_fits(#[trigger] fields@[j], size_bits as nat),
            forall|j: int| 0 <= j < i ==> placed(#[trigger] out@[j], fields@[j]),
        decreases n - i,
    {
        let f = &fields[i];
        let start = f.field_address.start;
        if f.field_address.end == u64::MAX && start == u64::MAX {
            assert(!span_fits(fields@[i as int], size_bits as nat));
            return Err(layout_error(LayoutErrorKind::FieldOutOfRange, &f.name, "field lies outside its object"));
        }
        let end = if start == f.field_address.end {
            start + 1
        } else {
            f.field_address.end
        };
        if start >= end || end > size_bits {
            assert(!span_fits(fields@[i as int], size_bits as nat));
            return Err(layout_error(LayoutErrorKind::FieldOutOfRange, &f.name, "field lies outside its object"));
        }
        if end - start > 64 {
            assert(!span_fits(fields@[i as int], size_bits as nat));
            return Err(layout_error(LayoutErrorKind::FieldTooWide, &f.name, "field is wider than 64 bits"));
        }
        out.push(
            LayoutField { name: f.name.clone(), access: f.access, base_type: f.base_type, start, end },
        );
        i = i + 1;
    }
    if !allow_overlap {
        let mut a: usize = 0;
        while a < n
            invariant
                n == fields@.len(),
                out@.len() == n,
                !allow_overlap,
                forall|j: int| 0 <= j < n ==> span_fits(#[trigger] fields@[j], size_bits as nat),
                a <= n,
                forall|j: int| 0 <= j < n ==> placed(#[trigger] out@[j], fields@[j]),
                forall|x: int, y: int|
                    0 <= x < a && x < y < n ==> !overlap(#[trigger] fields@[x], #[trigger] fields@[y]),
            decreases n - a,
        {
            assert(!allow_overlap);
            let mut b: usize = a + 1;
            while b < n
                invariant
                    n == fields@.len(),
                    out@.len() == n,
                    !allow_overlap,
                    forall|j: int| 0 <= j < n ==> span_fits(#[trigger] fields@[j], size_bits as nat),
                    a < n,
                    a < b <= n,
                    forall|j: int| 0 <= j < n ==> placed(#[trigger] out@[j], fields@[j]),
                    forall|y: int| a < y < b ==> !overlap(fields@[a as int], #[trigger] fields@[y]),
                decreases n - b,
            {
                let fa = &out[a];
                let fb = &out[b];
                if fa.start < fb.end && fb.start < fa.end {
                    assert(overlap(fields@[a as int], fields@[b as int]));
                    assert(!fields_disjoint(fields@));
                    return Err(
                        layout_error(LayoutErrorKind::FieldOverlap, &fields[b].name, "fields overlap"),
                    );
                }
                b = b + 1;
            }
            a = a + 1;
        }
    }
    Ok(out)
}

// ---------------------------------------------------------------------------
// Registers and refs

/// The name of the constructor that loads a ref's reset value.
pub open spec fn ref_constructor_name(ref_name: Seq<char>) -> Seq<char> {
    "new_as_"@ + snake_case_of(ref_name)
}

/// The refs among `objects` that replace the reset value of the register
/// named `base`.
pub open spec fn resets_ref(o: mir::Object, base: Seq<char>) -> bool {
    match o {
        mir::Object::Ref(r) => match r.object_override {
            mir::ObjectOverride::Register(ov) => ov.name@ == base && ov.reset_value is Some,
            _ => false,
        },
        _ => false,
    }
}

/// The refs among `objects` that replace the reset value of the register
/// named `base`, in order.
pub open spec fn resetting_refs(objects: Seq<mir::Object>, base: Seq<char>) -> Seq<mir::RefObject>
    decreases objects.len(),
{
    if objects.len() == 0 {
        Seq::empty()
    } else {
        let rest = resetting_refs(objects.drop_last(), base);
        match objects.last() {
            mir::Object::Ref(r) => if resets_ref(objects.last(), base) {
                rest.push(r)
            } else {
                rest
            },
            _ => rest,
        }
    }
}

/// `e` is the constructor for the ref `r` of the register `base`: named
/// after the ref, loaded with the ref's reset value laid out like the base.
pub open spec fn ref_reset_of(e: RefReset, r: mir::RefObject, base: mir::Register) -> bool {
    &&& e.ref_name == r.name
    &&& e.constructor@ == ref_constructor_name(r.name@)
    &&& match r.object_override {
        mir::ObjectOverride::Register(ov) => Some(e.reset_value@) == reset_spec(
            ov.reset_value,
            size_bytes(base.size_bits as nat),
            base.byte_order,
        ),
        _ => false,
    }
}

/// The reset value that the ref `o` gives the register `base` fits it.
pub open spec fn ref_reset_fits(o: mir::Object, base: mir::Register) -> bool {
    match o {
        mir::Object::Ref(r) => match r.object_override {
            mir::ObjectOverride::Register(ov) => reset_spec(
                ov.reset_value,
                size_bytes(base.size_bits as nat),
                base.byte_order,
            ) is Some,
            _ => true,
        },
        _ => true,
    }
}

/// Every ref in `objects` that replaces the reset value of `base` gives one
/// that fits it.
pub open spec fn ref_resets_fit(objects: Seq<mir::Object>, base: mir::Register) -> bool {
    forall|i: int|
        0 <= i < objects.len() && resets_ref(#[trigger] objects[i], base.name@) ==> ref_reset_fits(
            objects[i],
            base,
        )
}

/// One constructor for every ref in `objects` that replaces the reset value
/// of the register `base`, in the order of the refs.
pub fn ref_resets(base: &mir::Register, objects: &Vec<mir::Object>) -> (r: Result<
    Vec<RefReset>,
    LayoutError,
>)
    ensures
        r is Ok <==> ref_resets_fit(objects@, *base),
        r matches Ok(v) ==> v@.len() == resetting_refs(objects@, base.name@).len() && forall|i: int|
            0 <= i < v@.len() ==> ref_reset_of(
                #[trigger] v@[i],
                resetting_refs(objects@, base.name@)[i],
                *base,
            ),
{
    let n = size_bytes_of(base.size_bits);
    let mut out: Vec<RefReset> = Vec::new();
    let mut i: usize = 0;
    assert(objects@.subrange(0, 0) =~= Seq::<mir::Object>::empty());
    while i < objects.len()
        invariant
            i <= objects@.len(),
            n == size_bytes(base.size_bits as nat),
            forall|j: int| 0 <= j < i && resets_ref(#[trigger] objects@[j], base.name@) ==> ref_reset_fits(objects@[j], *base),
            out@.len() == resetting_refs(objects@.subrange(0, i as int), base.name@).len(),
            forall|k: int|
                0 <= k < out@.len() ==> ref_reset_of(
                    #[trigger] out@[k],
                    resetting_refs(objects@.subrange(0, i as int), base.name@)[k],
                    *base,
                ),
        decreases objects@.len() - i,
    {
        assert(objects@.subrange(0, i + 1).drop_last() =~= objects@.subrange(0, i as int));
        if let mir::Object::Ref(r) = &objects[i] {
            if let mir::ObjectOverride::Register(ov) = &r.object_override {
                if text_eq(ov.name.as_str(), base.name.as_str()) {
                    if ov.reset_value.is_some() {
                        let reset_value = match reset_value_bytes(&ov.reset_value, n, base.byte_order, &r.name) {
                            Ok(b) => b,
                            Err(e) => {
                                assert(resets_ref(objects@[i as int], base.name@));
                                assert(!ref_reset_fits(objects@[i as int], *base));
                                return Err(e);
                            },
                        };
                        proof {
                            reveal_strlit("new_as_");
                        }
                        let constructor = String::from_str("new_as_").concat(
                            snake_case(r.name.as_str()).as_str(),
                        );
                        out.push(RefReset { ref_name: r.name.clone(), constructor, reset_value });
                    }
                }
            }
        }
        i = i + 1;
    }
    assert(objects@.subrange(0, objects@.len() as int) =~= objects@);
    Ok(out)
}

/// What the layout of a register fixes: the name, orders and size of the
/// register, its reset bytes, and the place of each field.
pub open spec fn field_set_for(fs: FieldSet, reg: mir::Register) -> bool {
    &&& fs.name == reg.name
    &&& fs.byte_order == reg.byte_order
    &&& fs.bit_order == reg.bit_order
    &&& fs.size_bits == reg.size_bits
    &&& Some(fs.reset_value@) == reset_spec(
        reg.reset_value,
        size_bytes(reg.size_bits as nat),
        reg.byte_order,
    )
    &&& fs.fields@.len() == reg.fields@.len()
    &&& forall|i: int| 0 <= i < fs.fields@.len() ==> placed(#[trigger] fs.fields@[i], reg.fields@[i])
}

/// Laying out the same register twice gives the same name, orders, size,
/// reset bytes and fields.
pub proof fn lemma_field_set_deterministic(reg: mir::Register, a: FieldSet, b: FieldSet)
    requires
        field_set_for(a, reg),
        field_set_for(b, reg),
    ensures
        a.name == b.name,
        a.byte_order == b.byte_order,
        a.bit_order == b.bit_order,
        a.size_bits == b.size_bits,
        a.reset_value@ == b.reset_value@,
        a.fields@ == b.fields@,
{
    assert forall|i: int| 0 <= i < a.fields@.len() implies a.fields@[i] == b.fields@[i] by {
        assert(placed(a.fields@[i], reg.fields@[i]));
        assert(placed(b.fields@[i], reg.fields@[i]));
    }
    assert(a.fields@ =~= b.fields@);
}

/// A register can be laid out: its fields fit and share no bit unless it
/// allows it, its reset value fits, and so do those its refs give it.
pub open spec fn register_layout_ok(reg: mir::Register, objects: Seq<mir::Object>) -> bool {
    &&& fields_fit(reg.fields@, reg.size_bits as nat)
    &&& (reg.allow_bit_overlap || fields_disjoint(reg.fields@))
    &&& reset_spec(reg.reset_value, size_bytes(reg.size_bits as nat), reg.byte_order) is Some
    &&& ref_resets_fit(objects, reg)
}

/// The field set of a register.
pub fn register_field_set(reg: &mir::Register, objects: &Vec<mir::Object>) -> (r: Result<
    FieldSet,
    LayoutError,
>)
    ensures
        r is Ok <==> register_layout_ok(*reg, objects@),
        r matches Ok(fs) ==> field_set_for(fs, *reg) && fs.ref_reset_overrides@.len()
            == resetting_refs(objects@, reg.name@).len() && forall|i: int|
            0 <= i < fs.ref_reset_overrides@.len() ==> ref_reset_of(
                #[trigger] fs.ref_reset_overrides@[i],
                resetting_refs(objects@, reg.name@)[i],
                *reg,
            ),
        (fields_fit(reg.fields@, reg.size_bits as nat) && !reg.allow_bit_overlap
            && !fields_disjoint(reg.fields@)) ==> r is Err,
{
    let fields = place_fields(&reg.fields, reg.size_bits, reg.allow_bit_overlap, &reg.name)?;
    let n = size_bytes_of(reg.size_bits);
    let reset_value = reset_value_bytes(&reg.reset_value, n, reg.byte_order, &reg.name)?;
    let ref_reset_overrides = ref_resets(reg, objects)?;
    Ok(
        FieldSet {
            name: reg.name.clone(),
            byte_order: reg.byte_order,
            bit_order: reg.bit_order,
            size_bits: reg.size_bits,
            reset_value,
            ref_reset_overrides,
            fields,
        },
    )
}

/// The field set of one direction of a command.
pub fn command_field_set(
    cmd: &mir::Command,
    name: String,
    size_bits: u64,
    fields: &Vec<mir::Field>,
) -> (r: Result<FieldSet, LayoutError>)
    ensures
        r is Ok <==> fields_fit(fields@, size_bits as nat) && (cmd.allow_bit_overlap
            || fields_disjoint(fields@)),
        r matches Ok(fs) ==> fs.name == name && fs.size_bits == size_bits && fs.byte_order
            == cmd.byte_order && fs.bit_order == cmd.bit_order && fs.fields@.len() == fields@.len()
            && fs.reset_value@ == Seq::new(size_bytes(size_bits as nat), |p: int| 0u8)
            && fs.ref_reset_overrides@.len() == 0 && forall|i: int|
            0 <= i < fs.fields@.len() ==> placed(#[trigger] fs.fields@[i], fields@[i]),
        (fields_fit(fields@, size_bits as nat) && !cmd.allow_bit_overlap && !fields_disjoint(fields@))
            ==> r is Err,
{
    let placed_fields = place_fields(fields, size_bits, cmd.allow_bit_overlap, &cmd.name)?;
    let n = size_bytes_of(size_bits);
    let reset_value = reset_value_bytes(&None, n, cmd.byte_order, &cmd.name)?;
    Ok(
        FieldSet {
            name,
            byte_order: cmd.byte_order,
            bit_order: cmd.bit_order,
            size_bits,
            reset_value,
            ref_reset_overrides: Vec::new(),
            fields: placed_fields,
        },
    )
}

/// `a` placed in a block that starts at `base`; an address beyond the 64-bit
/// space is an error.
pub fn offset_address(base: u64, a: u64, subject: &String) -> (r: Result<u64, LayoutError>)
    ensures
        r is Ok <==> base + a <= u64::MAX,
        r matches Ok(x) ==> x == base + a,
        r matches Err(e) ==> e.kind == LayoutErrorKind::AddressOverflow,
{
    match base.checked_add(a) {
        Some(x) => Ok(x),
        None => Err(layout_error(LayoutErrorKind::AddressOverflow, subject, "address does not fit in 64 bits")),
    }
}

/// A register as the device exposes it under its own name.
pub fn register_instance(reg: &mir::Register, reset_value: Vec<u8>) -> (r: RegisterInstance)
    ensures
        r.name == reg.name && r.field_set == reg.name && r.address == reg.address && r.access
            == reg.access && r.repeat == reg.repeat && r.reset_value == reset_value,
{
    RegisterInstance {
        name: reg.name.clone(),
        field_set: reg.name.clone(),
        address: reg.address,
        access: reg.access,
        repeat: reg.repeat,
        reset_value,
    }
}

/// A ref to a register: each property that the override sets replaces the
/// base's, every other one is the base's. The fields stay those of the base.
pub fn merge_register_ref(
    base: &mir::Register,
    base_reset: &Vec<u8>,
    ov: &mir::RegisterOverride,
    ref_name: &String,
) -> (r: Result<RegisterInstance, LayoutError>)
    requires
        base_reset@.len() == size_bytes(base.size_bits as nat),
    ensures
        r matches Ok(m) ==> {
            &&& m.name == ref_name
            &&& m.field_set == base.name
            &&& m.address == match ov.address {
                Some(a) => a,
                None => base.address,
            }
            &&& m.access == match ov.access {
                Some(a) => a,
                None => base.access,
            }
            &&& m.repeat == match ov.repeat {
                Some(x) => Some(x),
                None => base.repeat,
            }
            &&& Some(m.reset_value@) == match ov.reset_value {
                Some(_) => reset_spec(ov.reset_value, size_bytes(base.size_bits as nat), base.byte_order),
                None => Some(base_reset@),
            }
        },
        r is Ok <==> (ov.reset_value is Some ==> reset_spec(
            ov.reset_value,
            size_bytes(base.size_bits as nat),
            base.byte_order,
        ) is Some),
{
    let n = size_bytes_of(base.size_bits);
    let reset_value = match &ov.reset_value {
        Some(_) => reset_value_bytes(&ov.reset_value, n, base.byte_order, ref_name)?,
        None => copy_bytes(base_reset),
    };
    Ok(
        RegisterInstance {
            name: ref_name.clone(),
            field_set: base.name.clone(),
            address: match ov.address {
                Some(a) => a,
                None => base.address,
            },
            access: match ov.access {
                Some(a) => a,
                None => base.access,
            },
            repeat: match ov.repeat {
                Some(x) => Some(x),
                None => base.repeat,
            },
            reset_value,
        },
    )
}


/// Fields of the register share bits, though the register does not allow it.
pub open spec fn register_overlaps(reg: mir::Register) -> bool {
    &&& fields_fit(reg.fields@, reg.size_bits as nat)
    &&& !reg.allow_bit_overlap
    &&& !fields_disjoint(reg.fields@)
}

/// Every register among `objects` has a field set in `sets`, and none has
/// fields that share bits without allowing it.
pub open spec fn registers_laid_out(objects: Seq<mir::Object>, sets: Seq<FieldSet>) -> bool {
    forall|k: int|
        0 <= k < objects.len() ==> (#[trigger] objects[k] matches mir::Object::Register(reg) ==> (
        !register_overlaps(reg) && exists|j: int| 0 <= j < sets.len() && field_set_for(sets[j], reg)))
}

/// `m` is the register `reg` as exposed at a block starting at `base`.
pub open spec fn instance_of(m: RegisterInstance, reg: mir::Register, base: int) -> bool {
    &&& m.name == reg.name
    &&& m.field_set == reg.name
    &&& m.address == base + reg.address
    &&& m.access == reg.access
    &&& m.repeat == reg.repeat
}

/// The object `o`, in a block starting at `base`, has what it owes the
/// layout: a register its instance, a ref to a register an instance that
/// uses the target's field set, each direction of a command with a size its
/// field set.
pub open spec fn object_laid_out(o: mir::Object, base: int, sets: Seq<FieldSet>, regs: Seq<RegisterInstance>) -> bool {
    match o {
        mir::Object::Register(reg) => exists|j: int|
            0 <= j < regs.len() && instance_of(#[trigger] regs[j], reg, base),
        mir::Object::Ref(r) => match r.object_override {
            mir::ObjectOverride::Register(ov) => exists|j: int|
                0 <= j < regs.len() && (#[trigger] regs[j]).name == r.name && regs[j].field_set@
                    == ov.name@,
            _ => true,
        },
        mir::Object::Command(cmd) => (cmd.size_bits_in > 0 ==> exists|j: int|
            0 <= j < sets.len() && (#[trigger] sets[j]).name@ == cmd.name@ + "FieldsIn"@
                && sets[j].size_bits == cmd.size_bits_in) && (cmd.size_bits_out > 0 ==> exists|j: int|
            0 <= j < sets.len() && (#[trigger] sets[j]).name@ == cmd.name@ + "FieldsOut"@
                && sets[j].size_bits == cmd.size_bits_out),
        _ => true,
    }
}

pub open spec fn objects_laid_out(
    objects: Seq<mir::Object>,
    base: int,
    sets: Seq<FieldSet>,
    regs: Seq<RegisterInstance>,
) -> bool {
    forall|k: int| 0 <= k < objects.len() ==> object_laid_out(#[trigger] objects[k], base, sets, regs)
}

/// Growing the lists keeps what they held.
proof fn lemma_laid_out_grows(
    o: mir::Object,
    base: int,
    sets: Seq<FieldSet>,
    regs: Seq<RegisterInstance>,
    sets2: Seq<FieldSet>,
    regs2: Seq<RegisterInstance>,
)
    requires
        object_laid_out(o, base, sets, regs),
        sets.len() <= sets2.len(),
        regs.len() <= regs2.len(),
        forall|j: int| 0 <= j < sets.len() ==> #[trigger] sets2[j] == sets[j],
        forall|j: int| 0 <= j < regs.len() ==> #[trigger] regs2[j] == regs[j],
    ensures
        object_laid_out(o, base, sets2, regs2),
{
    match o {
        mir::Object::Register(reg) => {
            let j = choose|j: int| 0 <= j < regs.len() && instance_of(#[trigger] regs[j], reg, base);
            assert(regs2[j] == regs[j]);
        },
        mir::Object::Ref(r) => match r.object_override {
            mir::ObjectOverride::Register(ov) => {
                let j = choose|j: int|
                    0 <= j < regs.len() && (#[trigger] regs[j]).name == r.name && regs[j].field_set@
                        == ov.name@;
                assert(regs2[j] == regs[j]);
            },
            _ => {},
        },
        mir::Object::Command(cmd) => {
            if cmd.size_bits_in > 0 {
                let j = choose|j: int|
                    0 <= j < sets.len() && (#[trigger] sets[j]).name@ == cmd.name@ + "FieldsIn"@
                        && sets[j].size_bits == cmd.size_bits_in;
                assert(sets2[j] == sets[j]);
            }
            if cmd.size_bits_out > 0 {
                let j = choose|j: int|
                    0 <= j < sets.len() && (#[trigger] sets[j]).name@ == cmd.name@ + "FieldsOut"@
                        && sets[j].size_bits == cmd.size_bits_out;
                assert(sets2[j] == sets[j]);
            }
        },
        _ => {},
    }
}

/// The objects lay out: registers and commands have valid field sets,
/// addresses stay in the 64-bit space once offset by `base` and the blocks
/// around them, and refs name existing targets whose reset values fit.
pub open spec fn objects_layout_ok(
    objects: Seq<mir::Object>,
    all: Seq<mir::Object>,
    base: int,
    depth: nat,
) -> bool
    decreases depth, objects.len(),
{
    if objects.len() == 0 {
        true
    } else {
        let here = match objects[0] {
            mir::Object::Register(reg) => register_layout_ok(reg, all) && base + reg.address
                <= u64::MAX,
            mir::Object::Command(cmd) => (cmd.size_bits_in > 0 ==> fields_fit(
                cmd.in_fields@,
                cmd.size_bits_in as nat,
            ) && (cmd.allow_bit_overlap || fields_disjoint(cmd.in_fields@))) && (cmd.size_bits_out
                > 0 ==> fields_fit(cmd.out_fields@, cmd.size_bits_out as nat) && (cmd.allow_bit_overlap
                || fields_disjoint(cmd.out_fields@))),
            mir::Object::Block(b) => depth > 0 ==> (base + b.address_offset <= u64::MAX
                && objects_layout_ok(
                b.objects@,
                all,
                base + b.address_offset,
                (depth - 1) as nat,
            )),
            mir::Object::Ref(r) => match r.object_override {
                mir::ObjectOverride::Register(ov) => match register_found(all, ov.name@, depth) {
                    Some(t) => reset_spec(
                        t.reset_value,
                        size_bytes(t.size_bits as nat),
                        t.byte_order,
                    ) is Some && (ov.reset_value is Some ==> reset_spec(
                        ov.reset_value,
                        size_bytes(t.size_bits as nat),
                        t.byte_order,
                    ) is Some) && base + match ov.address {
                        Some(a) => a,
                        None => t.address,
                    } <= u64::MAX,
                    None => false,
                },
                mir::ObjectOverride::Command(ov) => object_found(all, ov.name@, 2, depth),
                mir::ObjectOverride::Buffer(ov) => object_found(all, ov.name@, 3, depth),
                mir::ObjectOverride::Block(ov) => object_found(all, ov.name@, 0, depth),
            },
            mir::Object::Buffer(_) => true,
        };
        here && objects_layout_ok(objects.drop_first(), all, base, depth)
    }
}

/// The field sets and register instances of a list of objects; `depth`
/// bounds how deep blocks may nest.
fn layout_objects(
    objects: &Vec<mir::Object>,
    all: &Vec<mir::Object>,
    base: u64,
    out: &mut Layout,
    depth: usize,
) -> (r: Result<(), LayoutError>)
    ensures
        final(out).field_sets@.len() >= old(out).field_sets@.len(),
        forall|j: int|
            0 <= j < old(out).field_sets@.len() ==> #[trigger] final(out).field_sets@[j] == old(
                out,
            ).field_sets@[j],
        r is Ok <==> objects_layout_ok(objects@, all@, base as int, depth as nat),
        r is Ok ==> registers_laid_out(objects@, final(out).field_sets@),
        final(out).registers@.len() >= old(out).registers@.len(),
        forall|j: int|
            0 <= j < old(out).registers@.len() ==> #[trigger] final(out).registers@[j] == old(
                out,
            ).registers@[j],
        r is Ok ==> objects_laid_out(objects@, base as int, final(out).field_sets@, final(out).registers@),
    decreases depth,
{
    let ghost entry = out.field_sets@;
    let ghost entry_regs = out.registers@;
    let mut i: usize = 0;
    assert(objects@.subrange(0, objects@.len() as int) =~= objects@);
    while i < objects.len()
        invariant
            i <= objects@.len(),
            entry == old(out).field_sets@,
            out.field_sets@.len() >= entry.len(),
            forall|j: int| 0 <= j < entry.len() ==> #[trigger] out.field_sets@[j] == entry[j],
            entry_regs == old(out).registers@,
            out.registers@.len() >= entry_regs.len(),
            forall|j: int| 0 <= j < entry_regs.len() ==> #[trigger] out.registers@[j] == entry_regs[j],
            registers_laid_out(objects@.subrange(0, i as int), out.field_sets@),
            objects_laid_out(objects@.subrange(0, i as int), base as int, out.field_sets@, out.registers@),
            objects_layout_ok(objects@, all@, base as int, depth as nat) == objects_layout_ok(
                objects@.subrange(i as int, objects@.len() as int),
                all@,
                base as int,
                depth as nat,
            ),
        decreases objects@.len() - i,
    {
        let ghost rest = objects@.subrange(i as int, objects@.len() as int);
        assert(rest.drop_first() =~= objects@.subrange(i + 1, objects@.len() as int));
        assert(rest[0] == objects@[i as int]);
        let ghost before = out.field_sets@;
        let ghost before_regs = out.registers@;
        match &objects[i] {
            mir::Object::Register(reg) => {
                let fs = register_field_set(reg, all)?;
                let reset = copy_bytes(&fs.reset_value);
                let mut instance = register_instance(reg, reset);
                instance.address = offset_address(base, reg.address, &reg.name)?;
                out.registers.push(instance);
                out.field_sets.push(fs);
                proof {
                    assert(field_set_for(out.field_sets@[before.len() as int], *reg));
                    assert(instance_of(out.registers@[before_regs.len() as int], *reg, base as int));
                }
            },
            mir::Object::Command(cmd) => {
                let ghost at_in = out.field_sets@.len() as int;
                if cmd.size_bits_in > 0 {
                    let name = cmd.name.clone().concat("FieldsIn");
                    out.field_sets.push(command_field_set(cmd, name, cmd.size_bits_in, &cmd.in_fields)?);
                }
                let ghost mid = out.field_sets@;
                if cmd.size_bits_out > 0 {
                    let name = cmd.name.clone().concat("FieldsOut");
                    out.field_sets.push(
                        command_field_set(cmd, name, cmd.size_bits_out, &cmd.out_fields)?,
                    );
                }
                proof {
                    if cmd.size_bits_in > 0 {
                        assert(out.field_sets@[at_in] == mid[at_in]);
                        assert(0 <= at_in < out.field_sets@.len() && out.field_sets@[at_in].name@
                            == cmd.name@ + "FieldsIn"@ && out.field_sets@[at_in].size_bits
                            == cmd.size_bits_in);
                    }
                    if cmd.size_bits_out > 0 {
                        let j = out.field_sets@.len() - 1;
                        assert(out.field_sets@[j].name@ == cmd.name@ + "FieldsOut"@);
                    }
                }
            },
            mir::Object::Block(b) => {
                if depth > 0 {
                    let inner = offset_address(base, b.address_offset, &b.name)?;
                    layout_objects(&b.objects, all, inner, out, depth - 1)?;
                }
            },
            mir::Object::Ref(r) => {
                match &r.object_override {
                    mir::ObjectOverride::Register(ov) => {
                        match find_register(all, &ov.name, depth) {
                            Some(target) => {
                                let n = size_bytes_of(target.size_bits);
                                let base_reset = reset_value_bytes(
                                    &target.reset_value,
                                    n,
                                    target.byte_order,
                                    &target.name,
                                )?;
                                let mut instance = merge_register_ref(target, &base_reset, ov, &r.name)?;
                                instance.address = offset_address(base, instance.address, &r.name)?;
                                out.registers.push(instance);
                                proof {
                                    lemma_register_found_name(all@, ov.name@, depth as nat);
                                    let j = before_regs.len() as int;
                                    assert(out.registers@[j].name == r.name);
                                    assert(out.registers@[j].field_set@ == ov.name@);
                                }
                            },
                            None => {
                                return Err(
                                    layout_error(
                                        LayoutErrorKind::UnknownRefTarget,
                                        &ov.name,
                                        "ref names no register",
                                    ),
                                );
                            },
                        }
                    },
                    mir::ObjectOverride::Command(ov) => {
                        if !has_object(all, &ov.name, 2, depth) {
                            return Err(
                                layout_error(LayoutErrorKind::UnknownRefTarget, &ov.name, "ref names no command"),
                            );
                        }
                    },
                    mir::ObjectOverride::Buffer(ov) => {
                        if !has_object(all, &ov.name, 3, depth) {
                            return Err(
                                layout_error(LayoutErrorKind::UnknownRefTarget, &ov.name, "ref names no buffer"),
                            );
                        }
                    },
                    mir::ObjectOverride::Block(ov) => {
                        if !has_object(all, &ov.name, 0, depth) {
                            return Err(
                                layout_error(LayoutErrorKind::UnknownRefTarget, &ov.name, "ref names no block"),
                            );
                        }
                    },
                }
            },
            mir::Object::Buffer(_) => {},
        }
        proof {
            let prev = objects@.subrange(0, i as int);
            let next = objects@.subrange(0, i + 1);
            assert forall|k: int| 0 <= k < next.len() implies object_laid_out(
                #[trigger] next[k],
                base as int,
                out.field_sets@,
                out.registers@,
            ) by {
                if k < i {
                    assert(next[k] == prev[k]);
                    assert(object_laid_out(prev[k], base as int, before, before_regs));
                    lemma_laid_out_grows(prev[k], base as int, before, before_regs, out.field_sets@, out.registers@);
                } else {
                    assert(next[k] == objects@[i as int]);
                }
            }
            assert forall|k: int| 0 <= k < next.len() implies (#[trigger] next[k] matches mir::Object::Register(
                reg,
            ) ==> (!register_overlaps(reg) && exists|j: int|
                0 <= j < out.field_sets@.len() && field_set_for(out.field_sets@[j], reg))) by {
                if k < i {
                    assert(next[k] == prev[k]);
                    if let mir::Object::Register(reg) = prev[k] {
                        let j = choose|j: int| 0 <= j < before.len() && field_set_for(before[j], reg);
                        assert(out.field_sets@[j] == before[j]);
                    }
                } else {
                    assert(next[k] == objects@[i as int]);
                    if let mir::Object::Register(reg) = next[k] {
                        assert(field_set_for(out.field_sets@[before.len() as int], reg));
                    }
                }
            }
        }
        i = i + 1;
    }
    assert(objects@.subrange(0, objects@.len() as int) =~= objects@);
    assert(objects@.subrange(objects@.len() as int, objects@.len() as int) =~= Seq::<mir::Object>::empty());
    Ok(())
}

/// The first register named `name` among `objects`, looking inside blocks
/// down to `depth` levels, in declaration order.
pub open spec fn register_found(objects: Seq<mir::Object>, name: Seq<char>, depth: nat) -> Option<
    mir::Register,
>
    decreases depth, objects.len(),
{
    if objects.len() == 0 {
        None
    } else {
        let here = match objects[0] {
            mir::Object::Register(x) => if x.name@ == name {
                Some(x)
            } else {
                None
            },
            mir::Object::Block(b) => if depth > 0 {
                register_found(b.objects@, name, (depth - 1) as nat)
            } else {
                None
            },
            _ => None,
        };
        if here is Some {
            here
        } else {
            register_found(objects.drop_first(), name, depth)
        }
    }
}

/// A register found by name has that name.
proof fn lemma_register_found_name(objects: Seq<mir::Object>, name: Seq<char>, depth: nat)
    ensures
        register_found(objects, name, depth) matches Some(x) ==> x.name@ == name,
    decreases depth, objects.len(),
{
    if objects.len() > 0 {
        match objects[0] {
            mir::Object::Block(b) => {
                if depth > 0 {
                    lemma_register_found_name(b.objects@, name, (depth - 1) as nat);
                }
            },
            _ => {},
        }
        lemma_register_found_name(objects.drop_first(), name, depth);
    }
}

/// An object of the given kind (0 block, 2 command, 3 buffer) named `name`
/// stands among `objects` or inside their blocks, down to `depth` levels.
pub open spec fn object_found(objects: Seq<mir::Object>, name: Seq<char>, kind: u8, depth: nat) -> bool
    decreases depth, objects.len(),
{
    if objects.len() == 0 {
        false
    } else {
        let here = match objects[0] {
            mir::Object::Block(b) => (kind == 0 && b.name@ == name) || (depth > 0 && object_found(
                b.objects@,
                name,
                kind,
                (depth - 1) as nat,
            )),
            mir::Object::Command(c) => kind == 2 && c.name@ == name,
            mir::Object::Buffer(b) => kind == 3 && b.name@ == name,
            _ => false,
        };
        here || object_found(objects.drop_first(), name, kind, depth)
    }
}

/// The register named `name` among `objects` or inside their blocks, down to
/// `depth` levels.
fn find_register<'a>(objects: &'a Vec<mir::Object>, name: &String, depth: usize) -> (r: Option<
    &'a mir::Register,
>)
    ensures
        r matches Some(x) ==> register_found(objects@, name@, depth as nat) == Some(*x),
        r is None ==> register_found(objects@, name@, depth as nat) is None,
    decreases depth,
{
    let mut i: usize = 0;
    assert(objects@.subrange(0, objects@.len() as int) =~= objects@);
    while i < objects.len()
        invariant
            i <= objects@.len(),
            register_found(objects@, name@, depth as nat) == register_found(
                objects@.subrange(i as int, objects@.len() as int),
                name@,
                depth as nat,
            ),
        decreases objects@.len() - i,
    {
        let ghost rest = objects@.subrange(i as int, objects@.len() as int);
        assert(rest.drop_first() =~= objects@.subrange(i + 1, objects@.len() as int));
        assert(rest[0] == objects@[i as int]);
        match &objects[i] {
            mir::Object::Register(x) => {
                if text_eq(x.name.as_str(), name.as_str()) {
                    return Some(x);
                }
            },
            mir::Object::Block(b) => {
                if depth > 0 {
                    if let Some(x) = find_register(&b.objects, name, depth - 1) {
                        return Some(x);
                    }
                }
            },
            _ => {},
        }
        i = i + 1;
    }
    None
}

/// Whether an object of the given kind (0 block, 2 command, 3 buffer) named
/// `name` stands among `objects` or inside their blocks.
fn has_object(objects: &Vec<mir::Object>, name: &String, kind: u8, depth: usize) -> (r: bool)
    ensures
        r == object_found(objects@, name@, kind, depth as nat),
    decreases depth,
{
    let mut i: usize = 0;
    assert(objects@.subrange(0, objects@.len() as int) =~= objects@);
    while i < objects.len()
        invariant
            i <= objects@.len(),
            object_found(objects@, name@, kind, depth as nat) == object_found(
                objects@.subrange(i as int, objects@.len() as int),
                name@,
                kind,
                depth as nat,
            ),
        decreases objects@.len() - i,
    {
        let ghost rest = objects@.subrange(i as int, objects@.len() as int);
        assert(rest.drop_first() =~= objects@.subrange(i + 1, objects@.len() as int));
        assert(rest[0] == objects@[i as int]);
        let found = match &objects[i] {
            mir::Object::Block(b) => {
                (kind == 0 && text_eq(b.name.as_str(), name.as_str())) || (depth > 0 && has_object(
                    &b.objects,
                    name,
                    kind,
                    depth - 1,
                ))
            },
            mir::Object::Command(c) => kind == 2 && text_eq(c.name.as_str(), name.as_str()),
            mir::Object::Buffer(b) => kind == 3 && text_eq(b.name.as_str(), name.as_str()),
            _ => false,
        };
        if found {
            return true;
        }
        i = i + 1;
    }
    assert(objects@.subrange(i as int, objects@.len() as int) =~= Seq::<mir::Object>::empty());
    false
}

/// Lays out every register and command of a resolved device. Each register
/// gets its field set; a register whose fields share bits without allowing
/// it fails the layout.
pub fn layout(device: &mir::Device) -> (r: Result<Layout, LayoutError>)
    ensures
        r is Ok <==> objects_layout_ok(device.objects@, device.objects@, 0, usize::MAX as nat),
        r matches Ok(l) ==> registers_laid_out(device.objects@, l.field_sets@),
        r matches Ok(l) ==> objects_laid_out(device.objects@, 0, l.field_sets@, l.registers@),
{
    let mut out = Layout { field_sets: Vec::new(), registers: Vec::new() };
    layout_objects(&device.objects, &device.objects, 0, &mut out, usize::MAX)?;
    Ok(out)
}

/// Why a compilation failed.
#[derive(Debug, Clone, PartialEq, Eq)]
pub enum CompileError {
    Parse(ParseError),
    Transform(TransformError),
    Layout(LayoutError),
}

impl CompileError {
    /// The message for the user.
    pub fn message(&self) -> (r: &String)
        ensures
            r == match *self {
                CompileError::Parse(e) => e.message,
                CompileError::Transform(e) => e.message,
                CompileError::Layout(e) => e.message,
            },
    {
        match self {
            CompileError::Parse(e) => &e.message,
            CompileError::Transform(e) => &e.message,
            CompileError::Layout(e) => &e.message,
        }
    }
}

/// Resolves a parsed description and lays it out.
pub fn compile_device(device: &crate::ast::Device) -> (r: Result<Layout, CompileError>)
    ensures
        !configs_unique(device.global_config_list.configs@) ==> (r matches Err(
            CompileError::Transform(e),
        ) && e.kind == TransformErrorKind::DuplicateGlobalConfig),
        r matches Ok(l) ==> exists|d: mir::Device|
            device_resolved(d, *device) && registers_laid_out(d.objects@, l.field_sets@)
                && objects_layout_ok(d.objects@, d.objects@, 0, usize::MAX as nat),
        !device_ok(*device) <==> (r matches Err(CompileError::Transform(_))),
        (r matches Err(CompileError::Layout(_))) ==> exists|d: mir::Device|
            device_resolved(d, *device) && !objects_layout_ok(d.objects@, d.objects@, 0, usize::MAX as nat),
        !(r matches Err(CompileError::Parse(_))),
{
    let resolved = match transform(device) {
        Ok(d) => d,
        Err(e) => {
            return Err(CompileError::Transform(e));
        },
    };
    match layout(&resolved) {
        Ok(l) => Ok(l),
        Err(e) => Err(CompileError::Layout(e)),
    }
}

/// Parses, resolves and lays out a description.
pub fn compile(text: &str) -> (r: Result<Layout, CompileError>)
    ensures
        r matches Ok(l) ==> exists|src: Src, a: crate::ast::Device, d: mir::Device|
            src.wf() && src.chars@ == text@ && device_resolved(d, a) && registers_laid_out(
                d.objects@,
                l.field_sets@,
            ) && objects_layout_ok(d.objects@, d.objects@, 0, usize::MAX as nat),
        (r matches Err(CompileError::Transform(_))) ==> exists|src: Src, a: crate::ast::Device|
            src.wf() && src.chars@ == text@ && !device_ok(a),
        (r matches Err(CompileError::Layout(_))) ==> exists|src: Src, a: crate::ast::Device, d: mir::Device|
            src.wf() && src.chars@ == text@ && device_resolved(d, a) && !objects_layout_ok(
                d.objects@,
                d.objects@,
                0,
                usize::MAX as nat,
            ),
{
    let src = match Src::new(text) {
        Ok(s) => s,
        Err(e) => {
            return Err(CompileError::Parse(e));
        },
    };
    let device = match crate::ast::Device::parse(&src) {
        Ok(d) => d,
        Err(e) => {
            return Err(CompileError::Parse(e));
        },
    };
    let r = compile_device(&device);
    assert(src.wf() && src.chars@ == text@);
    r
}

// ---------------------------------------------------------------------------
// Field values

/// The bytes of a register or command value, read and written field by
/// field.
#[derive(Debug, Clone, PartialEq, Eq)]
pub struct RegisterValue {
    pub bits: Vec<u8>,
    pub byte_order: ByteOrder,
    pub bit_order: BitOrder,
}

impl RegisterValue {
    /// A value loaded with the reset bytes of a field set.
    pub fn new(fs: &FieldSet) -> (r: RegisterValue)
        ensures
            r.bits@ == fs.reset_value@,
            r.byte_order == fs.byte_order,
            r.bit_order == fs.bit_order,
    {
        RegisterValue { bits: copy_bytes(&fs.reset_value), byte_order: fs.byte_order, bit_order: fs.bit_order }
    }

    /// A value of `n` zero bytes.
    pub fn zeroed(n: usize, byte_order: ByteOrder, bit_order: BitOrder) -> (r: RegisterValue)
        ensures
            r.bits@ == Seq::new(n as nat, |i: int| 0u8),
            r.byte_order == byte_order,
            r.bit_order == bit_order,
    {
        let mut bits: Vec<u8> = Vec::new();
        let mut i: usize = 0;
        while i < n
            invariant
                i <= n,
                bits@ == Seq::new(i as nat, |k: int| 0u8),
            decreases n - i,
        {
            bits.push(0u8);
            i = i + 1;
            assert(bits@ =~= Seq::new(i as nat, |k: int| 0u8));
        }
        RegisterValue { bits, byte_order, bit_order }
    }

    /// The unsigned value of the bits `[start, end)`.
    pub fn read_uint(&self, start: usize, end: usize) -> (r: u64)
        requires
            in_buffer(self.bits@, start as nat, end as nat),
            end - start <= 64,
        ensures
            r == bits_value(self.bits@, start as nat, end as nat, self.byte_order, self.bit_order),
    {
        load_bits(&self.bits, start, end, self.byte_order, self.bit_order)
    }

    /// Writes an unsigned value to the bits `[start, end)`.
    pub fn write_uint(&mut self, start: usize, end: usize, value: u64)
        requires
            in_buffer(old(self).bits@, start as nat, end as nat),
            end - start <= 64,
        ensures
            final(self).byte_order == old(self).byte_order,
            final(self).bit_order == old(self).bit_order,
            stored(
                old(self).bits@,
                final(self).bits@,
                value as nat,
                start as nat,
                end as nat,
                old(self).byte_order,
                old(self).bit_order,
            ),
    {
        store_bits(value, start, end, self.byte_order, self.bit_order, &mut self.bits);
    }

    /// The two's complement value of the bits `[start, end)`.
    pub fn read_int(&self, start: usize, end: usize) -> (r: i64)
        requires
            in_buffer(self.bits@, start as nat, end as nat),
            1 <= end - start <= 64,
        ensures
            r == sign_extend(
                bits_value(self.bits@, start as nat, end as nat, self.byte_order, self.bit_order),
                (end - start) as nat,
            ),
    {
        load_signed(&self.bits, start, end, self.byte_order, self.bit_order)
    }

    /// Writes a signed value to the bits `[start, end)`.
    pub fn write_int(&mut self, start: usize, end: usize, value: i64)
        requires
            in_buffer(old(self).bits@, start as nat, end as nat),
            1 <= end - start <= 64,
            -two_pow((end - start - 1) as nat) <= value < two_pow((end - start - 1) as nat),
        ensures
            final(self).byte_order == old(self).byte_order,
            final(self).bit_order == old(self).bit_order,
            stored(
                old(self).bits@,
                final(self).bits@,
                twos_complement(value as int, (end - start) as nat),
                start as nat,
                end as nat,
                old(self).byte_order,
                old(self).bit_order,
            ),
    {
        store_signed(value, start, end, self.byte_order, self.bit_order, &mut self.bits);
    }

    /// The enum variant that the bits `[start, end)` select; see
    /// [`enum_match`].
    pub fn read_enum(&self, start: usize, end: usize, variants: &Vec<mir::EnumVariant>) -> (r: Option<usize>)
        requires
            in_buffer(self.bits@, start as nat, end as nat),
            end - start <= 64,
        ensures
            r matches Some(i) ==> enum_match(
                variants@,
                bits_value(self.bits@, start as nat, end as nat, self.byte_order, self.bit_order),
            ) == Some(i as int),
            r is None ==> enum_match(
                variants@,
                bits_value(self.bits@, start as nat, end as nat, self.byte_order, self.bit_order),
            ) is None,
    {
        let raw = self.read_uint(start, end);
        match_variant(raw, variants)
    }

    /// The bit at `at`.
    pub fn read_bool(&self, at: usize) -> (r: bool)
        requires
            at < 8 * self.bits@.len(),
        ensures
            r == bit_at(self.bits@, at as nat, self.byte_order, self.bit_order),
    {
        get_bit(&self.bits, at, self.byte_order, self.bit_order)
    }

    /// Sets the bit at `at`.
    pub fn write_bool(&mut self, at: usize, value: bool)
        requires
            at < 8 * old(self).bits@.len(),
        ensures
            final(self).byte_order == old(self).byte_order,
            final(self).bit_order == old(self).bit_order,
            final(self).bits@.len() == old(self).bits@.len(),
            forall|j: nat|
                j < 8 * old(self).bits@.len() ==> #[trigger] bit_at(
                    final(self).bits@,
                    j,
                    old(self).byte_order,
                    old(self).bit_order,
                ) == if j == at {
                    value
                } else {
                    bit_at(old(self).bits@, j, old(self).byte_order, old(self).bit_order)
                },
    {
        set_bit(&mut self.bits, at, value, self.byte_order, self.bit_order);
    }
}

} // verus!
