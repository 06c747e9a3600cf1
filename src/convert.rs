//! How a raw field value becomes a typed one: matching an enum variant,
//! instance addresses of repeated objects, and which accessors a field gets.

use vstd::prelude::*;
use crate::ast::Access;
use crate::mir;

verus! {

/// The value that a variant without an explicit value at position `i` gets:
/// one more than the value of the variant before it, 0 for the first one.
/// `default` and `catch_all` variants take no value.
pub open spec fn implicit_value(vs: Seq<mir::EnumVariant>, i: int) -> nat
    decreases i,
{
    if i <= 0 {
        0
    } else {
        match vs[i - 1].value {
            mir::EnumValue::Specified(n) => (n + 1) as nat,
            mir::EnumValue::Unspecified => implicit_value(vs, i - 1) + 1,
            _ => implicit_value(vs, i - 1),
        }
    }
}

/// The raw value that variant `i` stands for, if any.
pub open spec fn variant_value(vs: Seq<mir::EnumVariant>, i: int) -> Option<nat> {
    match vs[i].value {
        mir::EnumValue::Specified(n) => Some(n as nat),
        mir::EnumValue::Unspecified => Some(implicit_value(vs, i)),
        _ => None,
    }
}

/// The first variant at or after `i` that stands for `raw`.
pub open spec fn first_with_value(vs: Seq<mir::EnumVariant>, raw: nat, i: int) -> Option<int>
    decreases vs.len() - i,
{
    if i < 0 || i >= vs.len() {
        None
    } else if variant_value(vs, i) == Some(raw) {
        Some(i)
    } else {
        first_with_value(vs, raw, i + 1)
    }
}

/// The first variant at or after `i` marked `marker`.
pub open spec fn first_marked(vs: Seq<mir::EnumVariant>, marker: mir::EnumValue, i: int) -> Option<int>
    decreases vs.len() - i,
{
    if i < 0 || i >= vs.len() {
        None
    } else if vs[i].value == marker {
        Some(i)
    } else {
        first_marked(vs, marker, i + 1)
    }
}

/// The variant that reading `raw` yields: the first one that stands for it;
/// failing that the `default` variant, then the `catch_all` one; failing
/// those, none (the read is an error).
pub open spec fn enum_match(vs: Seq<mir::EnumVariant>, raw: nat) -> Option<int> {
    match first_with_value(vs, raw, 0) {
        Some(i) => Some(i),
        None => match first_marked(vs, mir::EnumValue::Default, 0) {
            Some(i) => Some(i),
            None => first_marked(vs, mir::EnumValue::CatchAll, 0),
        },
    }
}

proof fn lemma_first_with_value_skip(vs: Seq<mir::EnumVariant>, raw: nat, i: int)
    requires
        0 <= i <= vs.len(),
        forall|j: int| 0 <= j < i ==> variant_value(vs, j) != Some(raw),
    ensures
        first_with_value(vs, raw, 0) == first_with_value(vs, raw, i),
    decreases i,
{
    if i > 0 {
        lemma_first_with_value_skip(vs, raw, i - 1);
    }
}

proof fn lemma_first_marked_skip(vs: Seq<mir::EnumVariant>, marker: mir::EnumValue, i: int)
    requires
        0 <= i <= vs.len(),
        forall|j: int| 0 <= j < i ==> vs[j].value != marker,
    ensures
        first_marked(vs, marker, 0) == first_marked(vs, marker, i),
    decreases i,
{
    if i > 0 {
        lemma_first_marked_skip(vs, marker, i - 1);
    }
}

fn find_marked(vs: &Vec<mir::EnumVariant>, marker: mir::EnumValue) -> (r: Option<usize>)
    ensures
        r matches Some(i) ==> first_marked(vs@, marker, 0) == Some(i as int),
        r is None ==> first_marked(vs@, marker, 0) is None,
{
    let mut i: usize = 0;
    while i < vs.len()
        invariant
            i <= vs@.len(),
            forall|j: int| 0 <= j < i ==> vs@[j].value != marker,
        decreases vs@.len() - i,
    {
        if vs[i].value == marker {
            proof {
                lemma_first_marked_skip(vs@, marker, i as int);
            }
            return Some(i);
        }
        i = i + 1;
    }
    proof {
        lemma_first_marked_skip(vs@, marker, i as int);
    }
    None
}

/// The variant that reading the raw value `raw` yields; see [`enum_match`].
pub fn match_variant(raw: u64, vs: &Vec<mir::EnumVariant>) -> (r: Option<usize>)
    ensures
        r matches Some(i) ==> enum_match(vs@, raw as nat) == Some(i as int),
        r is None ==> enum_match(vs@, raw as nat) is None,
{
    let mut next: u128 = 0;
    let mut i: usize = 0;
    while i < vs.len()
        invariant
            i <= vs@.len(),
            next == implicit_value(vs@, i as int),
            next <= u64::MAX as nat + i,
            forall|j: int| 0 <= j < i ==> variant_value(vs@, j) != Some(raw as nat),
        decreases vs@.len() - i,
    {
        let value: Option<u128> = match vs[i].value {
            mir::EnumValue::Specified(n) => Some(n as u128),
            mir::EnumValue::Unspecified => Some(next),
            _ => None,
        };
        if value == Some(raw as u128) {
            proof {
                lemma_first_with_value_skip(vs@, raw as nat, i as int);
            }
            return Some(i);
        }
        next = match vs[i].value {
            mir::EnumValue::Specified(n) => n as u128 + 1,
            mir::EnumValue::Unspecified => next + 1,
            _ => next,
        };
        i = i + 1;
    }
    proof {
        lemma_first_with_value_skip(vs@, raw as nat, i as int);
    }
    match find_marked(vs, mir::EnumValue::Default) {
        Some(d) => Some(d),
        None => find_marked(vs, mir::EnumValue::CatchAll),
    }
}

// ---------------------------------------------------------------------------
// Repeats

/// The addresses of the instances of an object at `base` repeated by
/// `repeat`: `base + i * stride` for every `i` below the count.
pub open spec fn instance_address(base: u64, repeat: mir::Repeat, i: nat) -> int {
    base + i * repeat.stride
}

/// The addresses of all instances. An address that does not fit the 64-bit
/// address space is an error.
pub fn instance_addresses(base: u64, repeat: mir::Repeat) -> (r: Option<Vec<u64>>)
    ensures
        r is Some <==> instance_address(base, repeat, (repeat.count - 1) as nat) <= u64::MAX
            || repeat.count == 0,
        r matches Some(v) ==> v@.len() == repeat.count && forall|i: int|
            0 <= i < v@.len() ==> #[trigger] v@[i] == instance_address(base, repeat, i as nat),
{
    let mut out: Vec<u64> = Vec::new();
    let mut i: u64 = 0;
    while i < repeat.count
        invariant
            i <= repeat.count,
            out@.len() == i,
            forall|k: int| 0 <= k < i ==> #[trigger] out@[k] == instance_address(base, repeat, k as nat),
            i > 0 ==> instance_address(base, repeat, (i - 1) as nat) <= u64::MAX,
        decreases repeat.count - i,
    {
        let offset = match i.checked_mul(repeat.stride) {
            Some(o) => o,
            None => {
                proof {
                    lemma_address_grows(base, repeat, i as nat, (repeat.count - 1) as nat);
                }
                return None;
            },
        };
        let a = match base.checked_add(offset) {
            Some(a) => a,
            None => {
                proof {
                    lemma_address_grows(base, repeat, i as nat, (repeat.count - 1) as nat);
                }
                return None;
            },
        };
        out.push(a);
        i = i + 1;
    }
    Some(out)
}

proof fn lemma_address_grows(base: u64, repeat: mir::Repeat, i: nat, j: nat)
    requires
        i <= j,
    ensures
        instance_address(base, repeat, i) <= instance_address(base, repeat, j),
{
    assert(i * repeat.stride <= j * repeat.stride) by (nonlinear_arith)
        requires
            i <= j,
    ;
}

// ---------------------------------------------------------------------------
// Access

pub open spec fn readable(a: Access) -> bool {
    a == Access::RW || a == Access::RO
}

pub open spec fn writable(a: Access) -> bool {
    a == Access::RW || a == Access::WO
}

/// A field gets a getter only when its access allows reading.
pub fn has_getter(a: Access) -> (r: bool)
    ensures
        r == readable(a),
{
    match a {
        Access::RW | Access::RO => true,
        Access::WO => false,
    }
}

/// A field gets a setter only when its access allows writing.
pub fn has_setter(a: Access) -> (r: bool)
    ensures
        r == writable(a),
{
    match a {
        Access::RW | Access::WO => true,
        Access::RO => false,
    }
}

/// An object offers read-modify-write only when it may be both read and
/// written.
pub fn has_modify(a: Access) -> (r: bool)
    ensures
        r == (a == Access::RW),
{
    match a {
        Access::RW => true,
        _ => false,
    }
}

} // verus!
