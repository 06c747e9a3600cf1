//! Turns the syntax tree into the mid-level model: folds the global
//! configuration, fills in defaults, checks required values and converts
//! every object.

use vstd::prelude::*;
use crate::ast;
use crate::ast::{Access, BitOrder, ByteOrder, WordBoundary};
use crate::mir;
use crate::lexer::text_eq;

verus! {

/// Which rule an input broke.
#[derive(Debug, Clone, Copy, PartialEq, Eq, Structural)]
pub enum TransformErrorKind {
    DuplicateGlobalConfig,
    NotAnIntegerType,
    TooManyCfgAttributes,
    MissingValue,
    MissingAddress,
    MissingSize,
    FieldWithoutRange,
    EmptyFieldRange,
    NumberTooLarge,
    RefToRef,
    InvalidRepeat,
    InvalidResetValue,
    DuplicateEnumMarker,
    FieldOverlap,
    TooDeeplyNested,
}

/// A resolution error: the rule broken, the name of the item that broke it,
/// and a message for the user.
#[derive(Debug, Clone, PartialEq, Eq)]
pub struct TransformError {
    pub kind: TransformErrorKind,
    pub subject: String,
    pub message: String,
}

fn error(kind: TransformErrorKind, subject: &String, message: String) -> (r: TransformError)
    ensures
        r.kind == kind,
        r.subject == subject,
        r.message == message,
{
    TransformError { kind, subject: subject.clone(), message }
}

/// `prefix`, then `name` in backquotes, then `suffix`.
pub open spec fn quoted_text(prefix: Seq<char>, name: Seq<char>, suffix: Seq<char>) -> Seq<char> {
    prefix + seq!['`'] + name + seq!['`'] + suffix
}

fn quoted(prefix: &str, name: &String, suffix: &str) -> (r: String)
    ensures
        r@ == quoted_text(prefix@, name@, suffix@),
{
    proof {
        reveal_strlit("`");
    }
    let r = String::from_str(prefix).concat("`").concat(name.as_str()).concat("`").concat(suffix);
    assert(r@ =~= quoted_text(prefix@, name@, suffix@));
    r
}

/// The digit character for `d < 10`.
pub open spec fn digit_char(d: nat) -> char {
    if d == 0 {
        '0'
    } else if d == 1 {
        '1'
    } else if d == 2 {
        '2'
    } else if d == 3 {
        '3'
    } else if d == 4 {
        '4'
    } else if d == 5 {
        '5'
    } else if d == 6 {
        '6'
    } else if d == 7 {
        '7'
    } else if d == 8 {
        '8'
    } else {
        '9'
    }
}

/// The decimal digits of `n`.
pub open spec fn decimal_text(n: nat) -> Seq<char>
    decreases n,
{
    if n < 10 {
        seq![digit_char(n)]
    } else {
        decimal_text(n / 10) + seq![digit_char(n % 10)]
    }
}

fn digit_str(d: usize) -> (r: &'static str)
    requires
        d < 10,
    ensures
        r@ == seq![digit_char(d as nat)],
{
    proof {
        reveal_strlit("0");
        reveal_strlit("1");
        reveal_strlit("2");
        reveal_strlit("3");
        reveal_strlit("4");
        reveal_strlit("5");
        reveal_strlit("6");
        reveal_strlit("7");
        reveal_strlit("8");
        reveal_strlit("9");
    }
    let r = if d == 0 {
        "0"
    } else if d == 1 {
        "1"
    } else if d == 2 {
        "2"
    } else if d == 3 {
        "3"
    } else if d == 4 {
        "4"
    } else if d == 5 {
        "5"
    } else if d == 6 {
        "6"
    } else if d == 7 {
        "7"
    } else if d == 8 {
        "8"
    } else {
        "9"
    };
    assert(r@ =~= seq![digit_char(d as nat)]);
    r
}

fn decimal(n: usize) -> (r: String)
    ensures
        r@ == decimal_text(n as nat),
    decreases n,
{
    if n < 10 {
        String::from_str(digit_str(n))
    } else {
        let r = decimal(n / 10).concat(digit_str(n % 10));
        assert(r@ =~= decimal_text(n as nat));
        r
    }
}

/// The first value that `f` finds in `s`, looking from the front.
pub open spec fn first_some<T, U>(s: Seq<T>, f: spec_fn(T) -> Option<U>) -> Option<U>
    decreases s.len(),
{
    if s.len() == 0 {
        None
    } else {
        let r = first_some(s.drop_last(), f);
        if r is Some {
            r
        } else {
            f(s.last())
        }
    }
}

pub proof fn lemma_first_some_step<T, U>(s: Seq<T>, i: int, f: spec_fn(T) -> Option<U>)
    requires
        0 <= i < s.len(),
    ensures
        first_some(s.subrange(0, i + 1), f) == if first_some(s.subrange(0, i), f) is Some {
            first_some(s.subrange(0, i), f)
        } else {
            f(s[i])
        },
{
    assert(s.subrange(0, i + 1).drop_last() =~= s.subrange(0, i));
}

// ---------------------------------------------------------------------------
// Global configuration

/// Which option a config entry sets.
pub open spec fn config_kind(c: ast::GlobalConfig) -> nat {
    match c {
        ast::GlobalConfig::DefaultRegisterAccess(_) => 0,
        ast::GlobalConfig::DefaultFieldAccess(_) => 1,
        ast::GlobalConfig::DefaultBufferAccess(_) => 2,
        ast::GlobalConfig::DefaultByteOrder(_) => 3,
        ast::GlobalConfig::DefaultBitOrder(_) => 4,
        ast::GlobalConfig::RegisterAddressType(_) => 5,
        ast::GlobalConfig::CommandAddressType(_) => 6,
        ast::GlobalConfig::BufferAddressType(_) => 7,
        ast::GlobalConfig::NameWordBoundaries(_) => 8,
        ast::GlobalConfig::DefmtFeature(_) => 9,
    }
}

/// No option is set twice.
pub open spec fn configs_unique(c: Seq<ast::GlobalConfig>) -> bool {
    forall|i: int, j: int|
        0 <= i < j < c.len() ==> config_kind(#[trigger] c[i]) != config_kind(#[trigger] c[j])
}

/// The integer type that a name spells.
pub open spec fn integer_named(w: Seq<char>) -> Option<mir::Integer> {
    if w == "u8"@ {
        Some(mir::Integer::U8)
    } else if w == "u16"@ {
        Some(mir::Integer::U16)
    } else if w == "u32"@ {
        Some(mir::Integer::U32)
    } else if w == "u64"@ {
        Some(mir::Integer::U64)
    } else if w == "u128"@ {
        Some(mir::Integer::U128)
    } else if w == "i8"@ {
        Some(mir::Integer::I8)
    } else if w == "i16"@ {
        Some(mir::Integer::I16)
    } else if w == "i32"@ {
        Some(mir::Integer::I32)
    } else if w == "i64"@ {
        Some(mir::Integer::I64)
    } else if w == "i128"@ {
        Some(mir::Integer::I128)
    } else {
        None
    }
}

/// The integer types that a config entry names are integer types.
pub open spec fn config_valid(c: ast::GlobalConfig) -> bool {
    match c {
        ast::GlobalConfig::RegisterAddressType(t) => integer_named(t@) is Some,
        ast::GlobalConfig::CommandAddressType(t) => integer_named(t@) is Some,
        ast::GlobalConfig::BufferAddressType(t) => integer_named(t@) is Some,
        _ => true,
    }
}

pub open spec fn configs_valid(c: Seq<ast::GlobalConfig>) -> bool {
    forall|i: int| 0 <= i < c.len() ==> config_valid(#[trigger] c[i])
}

pub open spec fn config_of_kind(c: Seq<ast::GlobalConfig>, k: nat) -> Option<ast::GlobalConfig> {
    first_some(c, |x: ast::GlobalConfig| if config_kind(x) == k { Some(x) } else { None })
}

/// `g` holds what the entries `c` set, and the defaults for the rest:
/// read-write access, little endian, LSB0, no address types.
pub open spec fn config_resolved(g: mir::GlobalConfig, c: Seq<ast::GlobalConfig>) -> bool {
    &&& g.default_register_access == match config_of_kind(c, 0) {
        Some(ast::GlobalConfig::DefaultRegisterAccess(a)) => a,
        _ => Access::RW,
    }
    &&& g.default_field_access == match config_of_kind(c, 1) {
        Some(ast::GlobalConfig::DefaultFieldAccess(a)) => a,
        _ => Access::RW,
    }
    &&& g.default_buffer_access == match config_of_kind(c, 2) {
        Some(ast::GlobalConfig::DefaultBufferAccess(a)) => a,
        _ => Access::RW,
    }
    &&& g.default_byte_order == match config_of_kind(c, 3) {
        Some(ast::GlobalConfig::DefaultByteOrder(o)) => o,
        _ => ByteOrder::LE,
    }
    &&& g.default_bit_order == match config_of_kind(c, 4) {
        Some(ast::GlobalConfig::DefaultBitOrder(o)) => o,
        _ => BitOrder::LSB0,
    }
    &&& g.register_address_type == match config_of_kind(c, 5) {
        Some(ast::GlobalConfig::RegisterAddressType(t)) => integer_named(t@),
        _ => None,
    }
    &&& g.command_address_type == match config_of_kind(c, 6) {
        Some(ast::GlobalConfig::CommandAddressType(t)) => integer_named(t@),
        _ => None,
    }
    &&& g.buffer_address_type == match config_of_kind(c, 7) {
        Some(ast::GlobalConfig::BufferAddressType(t)) => integer_named(t@),
        _ => None,
    }
    &&& (g.name_word_boundaries is Some <==> config_of_kind(c, 8) is Some)
    &&& (g.name_word_boundaries matches Some(b) ==> config_of_kind(c, 8) matches Some(
        ast::GlobalConfig::NameWordBoundaries(w),
    ) && b@ == w@)
    &&& g.defmt_feature == match config_of_kind(c, 9) {
        Some(ast::GlobalConfig::DefmtFeature(f)) => Some(f),
        _ => None,
    }
}

fn config_kind_of(c: &ast::GlobalConfig) -> (r: u8)
    ensures
        r == config_kind(*c),
{
    match c {
        ast::GlobalConfig::DefaultRegisterAccess(_) => 0,
        ast::GlobalConfig::DefaultFieldAccess(_) => 1,
        ast::GlobalConfig::DefaultBufferAccess(_) => 2,
        ast::GlobalConfig::DefaultByteOrder(_) => 3,
        ast::GlobalConfig::DefaultBitOrder(_) => 4,
        ast::GlobalConfig::RegisterAddressType(_) => 5,
        ast::GlobalConfig::CommandAddressType(_) => 6,
        ast::GlobalConfig::BufferAddressType(_) => 7,
        ast::GlobalConfig::NameWordBoundaries(_) => 8,
        ast::GlobalConfig::DefmtFeature(_) => 9,
    }
}

/// The text by which a duplicate entry is reported, such as
/// `DefaultRegisterAccess(RW)`.
pub open spec fn access_text_spec(a: Access) -> Seq<char> {
    match a {
        Access::RW => "RW"@,
        Access::RO => "RO"@,
        Access::WO => "WO"@,
    }
}

/// How a config entry is written in messages, such as
/// `DefaultRegisterAccess(RW)`.
pub open spec fn config_text_spec(c: ast::GlobalConfig) -> Seq<char> {
    match c {
        ast::GlobalConfig::DefaultRegisterAccess(a) => "DefaultRegisterAccess("@ + access_text_spec(a) + ")"@,
        ast::GlobalConfig::DefaultFieldAccess(a) => "DefaultFieldAccess("@ + access_text_spec(a) + ")"@,
        ast::GlobalConfig::DefaultBufferAccess(a) => "DefaultBufferAccess("@ + access_text_spec(a) + ")"@,
        ast::GlobalConfig::DefaultByteOrder(ByteOrder::LE) => "DefaultByteOrder(LE)"@,
        ast::GlobalConfig::DefaultByteOrder(ByteOrder::BE) => "DefaultByteOrder(BE)"@,
        ast::GlobalConfig::DefaultBitOrder(BitOrder::LSB0) => "DefaultBitOrder(LSB0)"@,
        ast::GlobalConfig::DefaultBitOrder(BitOrder::MSB0) => "DefaultBitOrder(MSB0)"@,
        ast::GlobalConfig::RegisterAddressType(t) => "RegisterAddressType("@ + t@ + ")"@,
        ast::GlobalConfig::CommandAddressType(t) => "CommandAddressType("@ + t@ + ")"@,
        ast::GlobalConfig::BufferAddressType(t) => "BufferAddressType("@ + t@ + ")"@,
        ast::GlobalConfig::NameWordBoundaries(_) => "NameWordBoundaries(..)"@,
        ast::GlobalConfig::DefmtFeature(f) => "DefmtFeature("@ + f@ + ")"@,
    }
}

fn config_text(c: &ast::GlobalConfig) -> (r: String)
    ensures
        r@ == config_text_spec(*c),
{
    let r = match c {
        ast::GlobalConfig::DefaultRegisterAccess(a) => String::from_str("DefaultRegisterAccess(").concat(
            access_text(*a),
        ).concat(")"),
        ast::GlobalConfig::DefaultFieldAccess(a) => String::from_str("DefaultFieldAccess(").concat(
            access_text(*a),
        ).concat(")"),
        ast::GlobalConfig::DefaultBufferAccess(a) => String::from_str("DefaultBufferAccess(").concat(
            access_text(*a),
        ).concat(")"),
        ast::GlobalConfig::DefaultByteOrder(ByteOrder::LE) => String::from_str("DefaultByteOrder(LE)"),
        ast::GlobalConfig::DefaultByteOrder(ByteOrder::BE) => String::from_str("DefaultByteOrder(BE)"),
        ast::GlobalConfig::DefaultBitOrder(BitOrder::LSB0) => String::from_str("DefaultBitOrder(LSB0)"),
        ast::GlobalConfig::DefaultBitOrder(BitOrder::MSB0) => String::from_str("DefaultBitOrder(MSB0)"),
        ast::GlobalConfig::RegisterAddressType(t) => String::from_str("RegisterAddressType(").concat(
            t.as_str(),
        ).concat(")"),
        ast::GlobalConfig::CommandAddressType(t) => String::from_str("CommandAddressType(").concat(
            t.as_str(),
        ).concat(")"),
        ast::GlobalConfig::BufferAddressType(t) => String::from_str("BufferAddressType(").concat(
            t.as_str(),
        ).concat(")"),
        ast::GlobalConfig::NameWordBoundaries(_) => String::from_str("NameWordBoundaries(..)"),
        ast::GlobalConfig::DefmtFeature(f) => String::from_str("DefmtFeature(").concat(f.as_str()).concat(
            ")",
        ),
    };
    r
}

fn access_text(a: Access) -> (r: &'static str)
    ensures
        r@ == access_text_spec(a),
{
    match a {
        Access::RW => "RW",
        Access::RO => "RO",
        Access::WO => "WO",
    }
}

/// The integer type that `name` spells.
pub fn integer_from_name(name: &String) -> (r: Option<mir::Integer>)
    ensures
        r == integer_named(name@),
{
    let s = name.as_str();
    proof {
        reveal_strlit("u8");
        reveal_strlit("u16");
        reveal_strlit("u32");
        reveal_strlit("u64");
        reveal_strlit("u128");
        reveal_strlit("i8");
        reveal_strlit("i16");
        reveal_strlit("i32");
        reveal_strlit("i64");
        reveal_strlit("i128");
    }
    if text_eq(s, "u8") {
        Some(mir::Integer::U8)
    } else if text_eq(s, "u16") {
        Some(mir::Integer::U16)
    } else if text_eq(s, "u32") {
        Some(mir::Integer::U32)
    } else if text_eq(s, "u64") {
        Some(mir::Integer::U64)
    } else if text_eq(s, "u128") {
        Some(mir::Integer::U128)
    } else if text_eq(s, "i8") {
        Some(mir::Integer::I8)
    } else if text_eq(s, "i16") {
        Some(mir::Integer::I16)
    } else if text_eq(s, "i32") {
        Some(mir::Integer::I32)
    } else if text_eq(s, "i64") {
        Some(mir::Integer::I64)
    } else if text_eq(s, "i128") {
        Some(mir::Integer::I128)
    } else {
        None
    }
}

fn copy_boundaries(v: &Vec<WordBoundary>) -> (r: Vec<WordBoundary>)
    ensures
        r@ == v@,
{
    let mut out: Vec<WordBoundary> = Vec::new();
    let mut i: usize = 0;
    while i < v.len()
        invariant
            i <= v@.len(),
            out@ == v@.subrange(0, i as int),
        decreases v@.len() - i,
    {
        out.push(v[i]);
        i = i + 1;
    }
    assert(out@ =~= v@);
    out
}

/// Entry `i` sets an option that a later entry sets again.
pub open spec fn has_later_duplicate(c: Seq<ast::GlobalConfig>, i: int) -> bool {
    exists|j: int| i < j < c.len() && config_kind(c[i]) == config_kind(c[j])
}

/// Folds the config entries into the global configuration. Setting an
/// option twice is an error, as is an address type that names no integer
/// type.
pub fn global_config(list: &ast::GlobalConfigList) -> (r: Result<mir::GlobalConfig, TransformError>)
    ensures
        r is Ok <==> configs_unique(list.configs@) && configs_valid(list.configs@),
        !configs_unique(list.configs@) ==> (r matches Err(e) && e.kind
            == TransformErrorKind::DuplicateGlobalConfig && exists|i: int|
            0 <= i < list.configs@.len() && has_later_duplicate(list.configs@, i) && (forall|h: int|
                0 <= h < i ==> !has_later_duplicate(list.configs@, h)) && e.message@ == quoted_text(
                "Duplicate global config found: "@,
                config_text_spec(list.configs@[i]),
                ""@,
            )),
        r matches Ok(g) ==> config_resolved(g, list.configs@),
{
    let c = &list.configs;
    assert(c@ == list.configs@);
    let n = c.len();
    let mut i: usize = 0;
    while i < n
        invariant
            n == c@.len(),
            c@ == list.configs@,
            i <= n,
            forall|a: int, b: int|
                0 <= a < i && a < b < n ==> config_kind(#[trigger] c@[a]) != config_kind(
                    #[trigger] c@[b],
                ),
        decreases n - i,
    {
        let mut j: usize = i + 1;
        while j < n
            invariant
                n == c@.len(),
                c@ == list.configs@,
                i < n,
                i < j <= n,
                forall|a: int, b: int|
                    0 <= a < i && a < b < n ==> config_kind(#[trigger] c@[a]) != config_kind(
                        #[trigger] c@[b],
                    ),
                forall|b: int| i < b < j ==> config_kind(c@[i as int]) != config_kind(#[trigger] c@[b]),
            decreases n - j,
        {
            if config_kind_of(&c[i]) == config_kind_of(&c[j]) {
                assert(!configs_unique(c@)) by {
                    assert(config_kind(c@[i as int]) == config_kind(c@[j as int]));
                }
                let text = quoted("Duplicate global config found: ", &config_text(&c[i]), "");
                assert(has_later_duplicate(c@, i as int));
                assert forall|h: int| 0 <= h < i implies !has_later_duplicate(c@, h) by {
                    if has_later_duplicate(c@, h) {
                        let b = choose|b: int| h < b < c@.len() && config_kind(c@[h]) == config_kind(c@[b]);
                        assert(config_kind(c@[h]) != config_kind(c@[b]));
                    }
                }
                return Err(error(TransformErrorKind::DuplicateGlobalConfig, &config_text(&c[i]), text));
            }
            j = j + 1;
        }
        i = i + 1;
    }
    assert(configs_unique(c@));
    let mut g = mir::GlobalConfig {
        default_register_access: Access::RW,
        default_field_access: Access::RW,
        default_buffer_access: Access::RW,
        default_byte_order: ByteOrder::LE,
        default_bit_order: BitOrder::LSB0,
        register_address_type: None,
        command_address_type: None,
        buffer_address_type: None,
        name_word_boundaries: None,
        defmt_feature: None,
    };
    let mut i: usize = 0;
    assert(c@.subrange(0, 0) =~= Seq::<ast::GlobalConfig>::empty());
    while i < n
        invariant
            n == c@.len(),
            i <= n,
            configs_unique(c@),
            c@ == list.configs@,
            configs_valid(c@.subrange(0, i as int)),
            config_resolved(g, c@.subrange(0, i as int)),
        decreases n - i,
    {
        let ghost prefix = c@.subrange(0, i as int);
        let ghost next = c@.subrange(0, i + 1);
        proof {
            assert forall|k: nat| #[trigger] config_of_kind(next, k) == if config_of_kind(prefix, k) is Some {
                config_of_kind(prefix, k)
            } else if config_kind(c@[i as int]) == k {
                Some(c@[i as int])
            } else {
                None
            } by {
                lemma_first_some_step(
                    c@,
                    i as int,
                    |x: ast::GlobalConfig| if config_kind(x) == k { Some(x) } else { None },
                );
            }
            assert(config_of_kind(prefix, config_kind(c@[i as int])) is None) by {
                let k = config_kind(c@[i as int]);
                lemma_config_of_kind_in(prefix, k);
                if config_of_kind(prefix, k) is Some {
                    let j = choose|j: int| 0 <= j < prefix.len() && config_kind(prefix[j]) == k;
                    assert(c@[j] == prefix[j]);
                    assert(config_kind(c@[j]) != config_kind(c@[i as int]));
                }
            }
        }
        match &c[i] {
            ast::GlobalConfig::DefaultRegisterAccess(a) => {
                g.default_register_access = *a;
            },
            ast::GlobalConfig::DefaultFieldAccess(a) => {
                g.default_field_access = *a;
            },
            ast::GlobalConfig::DefaultBufferAccess(a) => {
                g.default_buffer_access = *a;
            },
            ast::GlobalConfig::DefaultByteOrder(o) => {
                g.default_byte_order = *o;
            },
            ast::GlobalConfig::DefaultBitOrder(o) => {
                g.default_bit_order = *o;
            },
            ast::GlobalConfig::RegisterAddressType(t) => {
                let v = integer_from_name(t);
                if v.is_none() {
                    assert(!config_valid(c@[i as int]));
                    assert(!configs_valid(c@));
                    return Err(
                        error(TransformErrorKind::NotAnIntegerType, t, String::from_str("Must be an integer type")),
                    );
                }
                g.register_address_type = v;
            },
            ast::GlobalConfig::CommandAddressType(t) => {
                let v = integer_from_name(t);
                if v.is_none() {
                    assert(!config_valid(c@[i as int]));
                    assert(!configs_valid(c@));
                    return Err(
                        error(TransformErrorKind::NotAnIntegerType, t, String::from_str("Must be an integer type")),
                    );
                }
                g.command_address_type = v;
            },
            ast::GlobalConfig::BufferAddressType(t) => {
                let v = integer_from_name(t);
                if v.is_none() {
                    assert(!config_valid(c@[i as int]));
                    assert(!configs_valid(c@));
                    return Err(
                        error(TransformErrorKind::NotAnIntegerType, t, String::from_str("Must be an integer type")),
                    );
                }
                g.buffer_address_type = v;
            },
            ast::GlobalConfig::NameWordBoundaries(b) => {
                g.name_word_boundaries = Some(copy_boundaries(b));
            },
            ast::GlobalConfig::DefmtFeature(f) => {
                g.defmt_feature = Some(f.clone());
            },
        }
        proof {
            assert forall|j: int| 0 <= j < next.len() implies config_valid(#[trigger] next[j]) by {
                if j < i {
                    assert(next[j] == prefix[j]);
                }
            }
        }
        i = i + 1;
    }
    assert(c@.subrange(0, n as int) =~= c@);
    Ok(g)
}

/// An entry of kind `k` is found exactly when one is there.
pub proof fn lemma_config_of_kind_in(c: Seq<ast::GlobalConfig>, k: nat)
    ensures
        config_of_kind(c, k) is Some <==> exists|j: int| 0 <= j < c.len() && config_kind(c[j]) == k,
        config_of_kind(c, k) matches Some(x) ==> config_kind(x) == k,
    decreases c.len(),
{
    if c.len() > 0 {
        lemma_config_of_kind_in(c.drop_last(), k);
        if exists|j: int| 0 <= j < c.len() && config_kind(c[j]) == k {
            let j = choose|j: int| 0 <= j < c.len() && config_kind(c[j]) == k;
            if j < c.len() - 1 {
                assert(c.drop_last()[j] == c[j]);
            }
        }
        if exists|j: int| 0 <= j < c.drop_last().len() && config_kind(c.drop_last()[j]) == k {
            let j = choose|j: int| 0 <= j < c.drop_last().len() && config_kind(c.drop_last()[j]) == k;
            assert(c[j] == c.drop_last()[j]);
        }
    }
}


// ---------------------------------------------------------------------------
// Attributes

/// How many documentation lines there are.
pub open spec fn doc_count(a: Seq<ast::Attribute>) -> nat
    decreases a.len(),
{
    if a.len() == 0 {
        0
    } else {
        doc_count(a.drop_last()) + if a.last() is Doc {
            1nat
        } else {
            0nat
        }
    }
}

/// The documentation lines joined by line breaks, in the order written.
pub open spec fn docs_joined(a: Seq<ast::Attribute>) -> Seq<char>
    decreases a.len(),
{
    if a.len() == 0 {
        Seq::empty()
    } else {
        let rest = docs_joined(a.drop_last());
        match a.last() {
            ast::Attribute::Doc(d) => if doc_count(a.drop_last()) > 0 {
                rest + seq!['\n'] + d@
            } else {
                d@
            },
            ast::Attribute::Cfg(_) => rest,
        }
    }
}

pub open spec fn cfg_count(a: Seq<ast::Attribute>) -> nat
    decreases a.len(),
{
    if a.len() == 0 {
        0
    } else {
        cfg_count(a.drop_last()) + if a.last() is Cfg {
            1nat
        } else {
            0nat
        }
    }
}

/// The condition of the last `cfg` attribute.
pub open spec fn last_cfg(a: Seq<ast::Attribute>) -> Option<Seq<char>>
    decreases a.len(),
{
    if a.len() == 0 {
        None
    } else {
        match a.last() {
            ast::Attribute::Cfg(c) => Some(c@),
            _ => last_cfg(a.drop_last()),
        }
    }
}

/// The documentation of an item as a string, empty when it has none.
fn description_of(attrs: &ast::AttributeList) -> (r: String)
    ensures
        r@ == docs_joined(attrs.attributes@),
{
    match get_description(attrs) {
        Some(d) => d,
        None => String::new(),
    }
}

/// The documentation of an item: its doc lines joined by line breaks, or
/// nothing when that text is empty.
pub fn get_description(attrs: &ast::AttributeList) -> (r: Option<String>)
    ensures
        r is None <==> docs_joined(attrs.attributes@).len() == 0,
        r matches Some(d) ==> d@ == docs_joined(attrs.attributes@),
{
    let a = &attrs.attributes;
    let mut out = String::new();
    let mut i: usize = 0;
    proof {
        reveal_strlit("\n");
        assert(a@.subrange(0, 0) =~= Seq::<ast::Attribute>::empty());
    }
    while i < a.len()
        invariant
            a@ == attrs.attributes@,
            i <= a@.len(),
            out@ == docs_joined(a@.subrange(0, i as int)),
        decreases a@.len() - i,
    {
        let ghost prefix = a@.subrange(0, i as int);
        proof {
            assert(a@.subrange(0, i + 1).drop_last() =~= prefix);
            lemma_doc_count_zero(prefix);
        }
        assert(a@.subrange(0, i + 1).last() == a@[i as int]);
        match &a[i] {
            ast::Attribute::Doc(d) => {
                let ghost next = a@.subrange(0, i + 1);
                assert(next.drop_last() =~= prefix);
                assert(next.last() == ast::Attribute::Doc(*d));
                if has_doc(a, i) {
                    proof {
                        reveal_strlit("\n");
                    }
                    assert("\n"@ =~= seq!['\n']);
                    out.append("\n");
                    out.append(d.as_str());
                    assert(out@ =~= docs_joined(prefix) + seq!['\n'] + d@);
                } else {
                    assert(out@ =~= Seq::<char>::empty());
                    out.append(d.as_str());
                    assert(out@ =~= d@);
                }
            },
            ast::Attribute::Cfg(_) => {},
        }
        i = i + 1;
    }
    assert(a@.subrange(0, a@.len() as int) =~= a@);
    if out.unicode_len() == 0 {
        None
    } else {
        Some(out)
    }
}

/// Whether one of the first `i` attributes is a doc line.
fn has_doc(a: &Vec<ast::Attribute>, i: usize) -> (r: bool)
    requires
        i <= a@.len(),
    ensures
        r == (doc_count(a@.subrange(0, i as int)) > 0),
{
    let mut k: usize = 0;
    let mut found = false;
    assert(a@.subrange(0, 0) =~= Seq::<ast::Attribute>::empty());
    while k < i
        invariant
            k <= i <= a@.len(),
            found == (doc_count(a@.subrange(0, k as int)) > 0),
        decreases i - k,
    {
        assert(a@.subrange(0, k + 1).drop_last() =~= a@.subrange(0, k as int));
        if let ast::Attribute::Doc(_) = &a[k] {
            found = true;
        }
        k = k + 1;
    }
    found
}

proof fn lemma_doc_count_zero(a: Seq<ast::Attribute>)
    ensures
        doc_count(a) == 0 ==> docs_joined(a).len() == 0,
    decreases a.len(),
{
    if a.len() > 0 {
        lemma_doc_count_zero(a.drop_last());
    }
}

/// The condition of the item's `cfg` attribute, if it has one; two or more
/// are an error that names the item.
pub fn get_cfg_attr(attrs: &ast::AttributeList, name: &String) -> (r: Result<
    Option<String>,
    TransformError,
>)
    ensures
        cfg_count(attrs.attributes@) == 0 ==> r == Ok::<Option<String>, TransformError>(None),
        cfg_count(attrs.attributes@) == 1 ==> (r matches Ok(Some(c)) && Some(c@) == last_cfg(
            attrs.attributes@,
        )),
        cfg_count(attrs.attributes@) > 1 ==> (r matches Err(e) && e.kind
            == TransformErrorKind::TooManyCfgAttributes && e.subject == name && e.message@
            == "Only one cfg attribute is allowed, but "@ + decimal_text(cfg_count(attrs.attributes@))
            + " are found"@),
        r matches Ok(c) ==> opt_view(c) == last_cfg(attrs.attributes@),
{
    let a = &attrs.attributes;
    let mut count: usize = 0;
    let mut last: Option<String> = None;
    let mut i: usize = 0;
    assert(a@.subrange(0, 0) =~= Seq::<ast::Attribute>::empty());
    while i < a.len()
        invariant
            a@ == attrs.attributes@,
            i <= a@.len(),
            count == cfg_count(a@.subrange(0, i as int)),
            count <= i,
            last matches Some(c) ==> Some(c@) == last_cfg(a@.subrange(0, i as int)),
            last is None <==> last_cfg(a@.subrange(0, i as int)) is None,
            last is None <==> count == 0,
        decreases a@.len() - i,
    {
        assert(a@.subrange(0, i + 1).drop_last() =~= a@.subrange(0, i as int));
        match &a[i] {
            ast::Attribute::Cfg(c) => {
                count = count + 1;
                last = Some(c.clone());
            },
            ast::Attribute::Doc(_) => {},
        }
        i = i + 1;
    }
    assert(a@.subrange(0, a@.len() as int) =~= a@);
    if count > 1 {
        let msg = String::from_str("Only one cfg attribute is allowed, but ").concat(
            decimal(count).as_str(),
        ).concat(" are found");
        assert(msg@ =~= "Only one cfg attribute is allowed, but "@ + decimal_text(count as nat)
            + " are found"@);
        Err(error(TransformErrorKind::TooManyCfgAttributes, name, msg))
    } else {
        Ok(last)
    }
}

// ---------------------------------------------------------------------------
// Fields

/// The bits a field covers, if its address is well formed: a single
/// position only for a `bool`, and a range that is not empty.
pub open spec fn field_bits(f: ast::Field) -> Option<mir::BitRange> {
    match f.field_address {
        ast::FieldAddress::Integer(a) => if f.base_type == ast::BaseType::Bool {
            Some(mir::BitRange { start: a, end: a })
        } else {
            None
        },
        ast::FieldAddress::Range { start, end } => if start < end {
            Some(mir::BitRange { start, end })
        } else {
            None
        },
        ast::FieldAddress::RangeInclusive { start, end } => if start <= end && end < u64::MAX {
            Some(mir::BitRange { start, end: (end + 1) as u64 })
        } else {
            None
        },
    }
}

/// At most one variant is `default`, and at most one is `catch_all`.
pub open spec fn markers_unique(v: Seq<ast::EnumVariant>) -> bool {
    forall|i: int, j: int|
        0 <= i < j < v.len() ==> !(#[trigger] v[i].enum_value == Some(ast::EnumValue::Default)
            && #[trigger] v[j].enum_value == Some(ast::EnumValue::Default)) && !(v[i].enum_value
            == Some(ast::EnumValue::CatchAll) && v[j].enum_value == Some(ast::EnumValue::CatchAll))
}

pub open spec fn variants_valid(v: Seq<ast::EnumVariant>) -> bool {
    &&& forall|i: int| 0 <= i < v.len() ==> cfg_count(#[trigger] v[i].attribute_list.attributes@) <= 1
    &&& markers_unique(v)
}

/// The view of an optional string.
pub open spec fn opt_view(o: Option<String>) -> Option<Seq<char>> {
    match o {
        Some(s) => Some(s@),
        None => None,
    }
}

/// `cfg` and `description` are what the attributes `a` give: the condition of
/// the one `cfg` attribute, and the doc lines joined by line breaks.
pub open spec fn attrs_resolved(cfg: Option<String>, description: String, a: Seq<ast::Attribute>) -> bool {
    &&& opt_view(cfg) == last_cfg(a)
    &&& description@ == docs_joined(a)
}

/// `m` is the conversion `c`: a direct one keeps its path, an enum keeps its
/// name and its variants in order, each with its attributes and value.
pub open spec fn conversion_resolved(m: mir::FieldConversion, c: ast::Conversion) -> bool {
    match (m, c) {
        (
            mir::FieldConversion::Direct { target, use_try },
            ast::Conversion::Direct { path, use_try: t },
        ) => target == path && use_try == t,
        (
            mir::FieldConversion::Enum { name, variants, use_try },
            ast::Conversion::Enum { identifier, enum_variant_list, use_try: t },
        ) => name == identifier && use_try == t && variants@.len()
            == enum_variant_list.variants@.len() && forall|i: int|
            0 <= i < variants@.len() ==> variant_resolved(
                #[trigger] variants@[i],
                enum_variant_list.variants@[i],
            ),
        _ => false,
    }
}

pub open spec fn variant_resolved(m: mir::EnumVariant, v: ast::EnumVariant) -> bool {
    &&& m.name == v.identifier
    &&& m.value == enum_value_of(v.enum_value)
    &&& attrs_resolved(m.cfg_attr, m.description, v.attribute_list.attributes@)
}

pub open spec fn conversion_valid(c: Option<ast::Conversion>) -> bool {
    match c {
        Some(ast::Conversion::Enum { enum_variant_list, .. }) => variants_valid(
            enum_variant_list.variants@,
        ),
        _ => true,
    }
}

/// The field is well formed.
pub open spec fn field_ok(f: ast::Field) -> bool {
    &&& cfg_count(f.attribute_list.attributes@) <= 1
    &&& conversion_valid(f.conversion)
    &&& field_bits(f) is Some
}

pub open spec fn enum_value_of(v: Option<ast::EnumValue>) -> mir::EnumValue {
    match v {
        None => mir::EnumValue::Unspecified,
        Some(ast::EnumValue::Specified(n)) => mir::EnumValue::Specified(n),
        Some(ast::EnumValue::Default) => mir::EnumValue::Default,
        Some(ast::EnumValue::CatchAll) => mir::EnumValue::CatchAll,
    }
}

/// `m` is the field `f` with the defaults of `g`.
pub open spec fn field_resolved(m: mir::Field, f: ast::Field, g: mir::GlobalConfig) -> bool {
    &&& m.name == f.identifier
    &&& m.access == match f.access {
        Some(a) => a,
        None => g.default_field_access,
    }
    &&& m.base_type == f.base_type
    &&& Some(m.field_address) == field_bits(f)
    &&& match (m.field_conversion, f.conversion) {
        (None, None) => true,
        (Some(x), Some(y)) => conversion_resolved(x, y),
        _ => false,
    }
    &&& attrs_resolved(m.cfg_attr, m.description, f.attribute_list.attributes@)
}

fn transform_enum_value(v: &Option<ast::EnumValue>) -> (r: mir::EnumValue)
    ensures
        r == enum_value_of(*v),
{
    match v {
        None => mir::EnumValue::Unspecified,
        Some(ast::EnumValue::Specified(n)) => mir::EnumValue::Specified(*n),
        Some(ast::EnumValue::Default) => mir::EnumValue::Default,
        Some(ast::EnumValue::CatchAll) => mir::EnumValue::CatchAll,
    }
}

/// Converts a field conversion: a direct one keeps its path, an enum keeps
/// its variants in order.
pub fn transform_field_conversion(c: &ast::Conversion) -> (r: Result<mir::FieldConversion, TransformError>)
    ensures
        r is Ok <==> conversion_valid(Some(*c)),
        r matches Ok(m) ==> conversion_resolved(m, *c),
        (c matches ast::Conversion::Enum { enum_variant_list, .. } && !markers_unique(
            enum_variant_list.variants@,
        ) && forall|i: int|
            0 <= i < enum_variant_list.variants@.len() ==> cfg_count(
                #[trigger] enum_variant_list.variants@[i].attribute_list.attributes@,
            ) <= 1) ==> (r matches Err(e) && e.kind == TransformErrorKind::DuplicateEnumMarker),
{
    match c {
        ast::Conversion::Direct { path, use_try } => Ok(
            mir::FieldConversion::Direct { target: path.clone(), use_try: *use_try },
        ),
        ast::Conversion::Enum { identifier, enum_variant_list, use_try } => {
            let v = &enum_variant_list.variants;
            let mut variants: Vec<mir::EnumVariant> = Vec::new();
            let mut seen_default = false;
            let mut seen_catch_all = false;
            let mut i: usize = 0;
            while i < v.len()
                invariant
                    v@ == enum_variant_list.variants@,
                    conversion_valid(Some(*c)) == variants_valid(v@),
                    *c == (ast::Conversion::Enum {
                        identifier: *identifier,
                        enum_variant_list: *enum_variant_list,
                        use_try: *use_try,
                    }),
                    i <= v@.len(),
                    variants@.len() == i,
                    forall|j: int| 0 <= j < i ==> cfg_count(#[trigger] v@[j].attribute_list.attributes@) <= 1,
                    markers_unique(v@.subrange(0, i as int)),
                    seen_default <==> exists|j: int| 0 <= j < i && v@[j].enum_value == Some(ast::EnumValue::Default),
                    seen_catch_all <==> exists|j: int| 0 <= j < i && v@[j].enum_value == Some(ast::EnumValue::CatchAll),
                    forall|j: int| 0 <= j < i ==> variant_resolved(#[trigger] variants@[j], v@[j]),
                decreases v@.len() - i,
            {
                let x = &v[i];
                let cfg_attr = match get_cfg_attr(&x.attribute_list, &x.identifier) {
                    Ok(c) => c,
                    Err(e) => {
                        assert(cfg_count(v@[i as int].attribute_list.attributes@) > 1);
                        assert(!variants_valid(v@));
                        return Err(e);
                    },
                };
                let is_default = match x.enum_value {
                    Some(ast::EnumValue::Default) => true,
                    _ => false,
                };
                let is_catch_all = match x.enum_value {
                    Some(ast::EnumValue::CatchAll) => true,
                    _ => false,
                };
                if (is_default && seen_default) || (is_catch_all && seen_catch_all) {
                    proof {
                        let j = if is_default {
                            choose|j: int| 0 <= j < i && v@[j].enum_value == Some(ast::EnumValue::Default)
                        } else {
                            choose|j: int| 0 <= j < i && v@[j].enum_value == Some(ast::EnumValue::CatchAll)
                        };
                        assert(!markers_unique(v@)) by {
                            assert(v@[j].enum_value == v@[i as int].enum_value);
                        }
                        if forall|k: int| 0 <= k < v@.len() ==> cfg_count(#[trigger] v@[k].attribute_list.attributes@) <= 1 {
                        }
                    }
                    return Err(
                        error(
                            TransformErrorKind::DuplicateEnumMarker,
                            &x.identifier,
                            quoted("Enum ", identifier, " may have only one `default` and one `catch_all` variant"),
                        ),
                    );
                }
                proof {
                    let next = v@.subrange(0, i + 1);
                    assert forall|a: int, b: int| 0 <= a < b < next.len() implies !(#[trigger] next[a].enum_value
                        == Some(ast::EnumValue::Default) && #[trigger] next[b].enum_value == Some(
                        ast::EnumValue::Default)) && !(next[a].enum_value == Some(ast::EnumValue::CatchAll)
                        && next[b].enum_value == Some(ast::EnumValue::CatchAll)) by {
                        assert(next[a] == v@[a]);
                        assert(next[b] == v@[b]);
                        if b < i {
                            assert(v@.subrange(0, i as int)[a] == v@[a]);
                            assert(v@.subrange(0, i as int)[b] == v@[b]);
                        }
                    }
                }
                if is_default {
                    seen_default = true;
                }
                if is_catch_all {
                    seen_catch_all = true;
                }
                let description = description_of(&x.attribute_list);
                variants.push(
                    mir::EnumVariant {
                        cfg_attr,
                        description,
                        name: x.identifier.clone(),
                        value: transform_enum_value(&x.enum_value),
                    },
                );
                i = i + 1;
            }
            assert(v@.subrange(0, v@.len() as int) =~= v@);
            Ok(
                mir::FieldConversion::Enum {
                    name: identifier.clone(),
                    variants,
                    use_try: *use_try,
                },
            )
        },
    }
}

/// Resolves a field: its access falls back to the default field access, and
/// its address becomes a bit range.
pub fn transform_field(f: &ast::Field, g: &mir::GlobalConfig) -> (r: Result<mir::Field, TransformError>)
    ensures
        r is Ok <==> field_ok(*f),
        r matches Ok(m) ==> field_resolved(m, *f, *g),
        (cfg_count(f.attribute_list.attributes@) <= 1 && conversion_valid(f.conversion)
            && f.field_address is Integer && f.base_type != ast::BaseType::Bool) ==> (r matches Err(
            e,
        ) && e.kind == TransformErrorKind::FieldWithoutRange && e.subject == f.identifier
            && e.message@ == quoted_text(
            "Field "@,
            f.identifier@,
            " has a non-bool base type and must specify the start and the end address"@,
        )),
        (cfg_count(f.attribute_list.attributes@) <= 1 && conversion_valid(f.conversion) && !(
        f.field_address is Integer) && field_bits(*f) is None) ==> (r matches Err(e) && e.subject
            == f.identifier),
{
    let cfg_attr = get_cfg_attr(&f.attribute_list, &f.identifier)?;
    let description = description_of(&f.attribute_list);
    let field_conversion = match &f.conversion {
        Some(c) => Some(transform_field_conversion(c)?),
        None => None,
    };
    let field_address = match &f.field_address {
        ast::FieldAddress::Integer(a) => {
            if !f.base_type.is_bool() {
                return Err(
                    error(
                        TransformErrorKind::FieldWithoutRange,
                        &f.identifier,
                        quoted(
                            "Field ",
                            &f.identifier,
                            " has a non-bool base type and must specify the start and the end address",
                        ),
                    ),
                );
            }
            mir::BitRange { start: *a, end: *a }
        },
        ast::FieldAddress::Range { start, end } => {
            if *start >= *end {
                return Err(
                    error(
                        TransformErrorKind::EmptyFieldRange,
                        &f.identifier,
                        quoted("Field ", &f.identifier, " must end after its start address"),
                    ),
                );
            }
            mir::BitRange { start: *start, end: *end }
        },
        ast::FieldAddress::RangeInclusive { start, end } => {
            if *start > *end {
                return Err(
                    error(
                        TransformErrorKind::EmptyFieldRange,
                        &f.identifier,
                        quoted("Field ", &f.identifier, " must end after its start address"),
                    ),
                );
            }
            if *end == u64::MAX {
                return Err(
                    error(
                        TransformErrorKind::NumberTooLarge,
                        &f.identifier,
                        String::from_str("number too large to fit in target type"),
                    ),
                );
            }
            mir::BitRange { start: *start, end: *end + 1 }
        },
    };
    Ok(
        mir::Field {
            cfg_attr,
            description,
            name: f.identifier.clone(),
            access: match f.access {
                Some(a) => a,
                None => g.default_field_access,
            },
            base_type: f.base_type,
            field_conversion,
            field_address,
        },
    )
}

pub open spec fn fields_ok(fs: Seq<ast::Field>) -> bool {
    forall|i: int| 0 <= i < fs.len() ==> field_ok(#[trigger] fs[i])
}

pub open spec fn fields_resolved(ms: Seq<mir::Field>, fs: Seq<ast::Field>, g: mir::GlobalConfig) -> bool {
    &&& ms.len() == fs.len()
    &&& forall|i: int| 0 <= i < fs.len() ==> field_resolved(#[trigger] ms[i], fs[i], g)
}

/// Resolves every field of a list, in order.
pub fn transform_fields(fs: &Vec<ast::Field>, g: &mir::GlobalConfig) -> (r: Result<
    Vec<mir::Field>,
    TransformError,
>)
    ensures
        r is Ok <==> fields_ok(fs@),
        r matches Ok(ms) ==> fields_resolved(ms@, fs@, *g),
{
    let mut out: Vec<mir::Field> = Vec::new();
    let mut i: usize = 0;
    while i < fs.len()
        invariant
            i <= fs@.len(),
            out@.len() == i,
            forall|j: int| 0 <= j < i ==> field_ok(#[trigger] fs@[j]),
            forall|j: int| 0 <= j < i ==> field_resolved(#[trigger] out@[j], fs@[j], *g),
        decreases fs@.len() - i,
    {
        let m = transform_field(&fs[i], g)?;
        out.push(m);
        i = i + 1;
    }
    Ok(out)
}

// ---------------------------------------------------------------------------
// Repeats, buffers, commands, registers

/// A repeat needs a literal count above zero.
pub open spec fn repeat_of(r: ast::Repeat) -> Option<mir::Repeat> {
    match r.count {
        ast::RepeatCount::Value(n) => if n > 0 {
            Some(mir::Repeat { count: n, stride: r.stride })
        } else {
            None
        },
        ast::RepeatCount::Conversion(_) => None,
    }
}

pub fn transform_repeat(r: &ast::Repeat, name: &String) -> (out: Result<mir::Repeat, TransformError>)
    ensures
        out is Ok <==> repeat_of(*r) is Some,
        out matches Ok(m) ==> Some(m) == repeat_of(*r),
        out matches Err(e) ==> e.kind == TransformErrorKind::InvalidRepeat && e.subject == name,
{
    match &r.count {
        ast::RepeatCount::Value(n) => {
            if *n > 0 {
                return Ok(mir::Repeat { count: *n, stride: r.stride });
            }
        },
        ast::RepeatCount::Conversion(_) => {},
    }
    Err(
        error(
            TransformErrorKind::InvalidRepeat,
            name,
            quoted("The repeat of ", name, " must have an integer count above zero"),
        ),
    )
}

/// `m` is the buffer `b` with the defaults of `g`.
pub open spec fn buffer_resolved(m: mir::Buffer, b: ast::Buffer, g: mir::GlobalConfig) -> bool {
    &&& m.name == b.identifier
    &&& Some(m.address) == b.address
    &&& m.access == match b.access {
        Some(a) => a,
        None => g.default_buffer_access,
    }
    &&& attrs_resolved(m.cfg_attr, m.description, b.attribute_list.attributes@)
}

/// Resolves a buffer; it must have an address.
pub fn transform_buffer(b: &ast::Buffer, g: &mir::GlobalConfig) -> (r: Result<mir::Buffer, TransformError>)
    ensures
        cfg_count(b.attribute_list.attributes@) > 1 ==> (r matches Err(e) && e.message@ == cfg_message(
            b.attribute_list.attributes@,
        )),
        r is Ok <==> cfg_count(b.attribute_list.attributes@) <= 1 && b.address is Some,
        (cfg_count(b.attribute_list.attributes@) <= 1 && b.address is None) ==> (r matches Err(e)
            && e.kind == TransformErrorKind::MissingAddress && e.subject == b.identifier
            && e.message@ == quoted_text("Buffer "@, b.identifier@, " must have an address"@)),
        r matches Ok(m) ==> buffer_resolved(m, *b, *g),
{
    let cfg_attr = get_cfg_attr(&b.attribute_list, &b.identifier)?;
    let description = description_of(&b.attribute_list);
    let address = match b.address {
        Some(a) => a,
        None => {
            return Err(
                error(
                    TransformErrorKind::MissingAddress,
                    &b.identifier,
                    quoted("Buffer ", &b.identifier, " must have an address"),
                ),
            );
        },
    };
    Ok(
        mir::Buffer {
            cfg_attr,
            description,
            name: b.identifier.clone(),
            access: match b.access {
                Some(a) => a,
                None => g.default_buffer_access,
            },
            address,
        },
    )
}


/// Once `f` finds a value in a prefix, the whole sequence yields that value.
pub proof fn lemma_first_some_prefix<T, U>(s: Seq<T>, i: int, f: spec_fn(T) -> Option<U>)
    requires
        0 <= i <= s.len(),
        first_some(s.subrange(0, i), f) is Some,
    ensures
        first_some(s, f) == first_some(s.subrange(0, i), f),
    decreases s.len() - i,
{
    if i < s.len() {
        lemma_first_some_step(s, i, f);
        lemma_first_some_prefix(s, i + 1, f);
    } else {
        assert(s.subrange(0, i) =~= s);
    }
}

/// The first command entry of kind `k`.
pub open spec fn first_command_item(items: Seq<ast::CommandItem>, k: nat) -> Option<ast::CommandItem> {
    first_some(
        items,
        |x: ast::CommandItem| if ast::command_item_kind(x) == k { Some(x) } else { None },
    )
}

pub open spec fn first_register_item(items: Seq<ast::RegisterItem>, k: nat) -> Option<ast::RegisterItem> {
    first_some(
        items,
        |x: ast::RegisterItem| if ast::register_item_kind(x) == k { Some(x) } else { None },
    )
}

pub open spec fn first_block_item(items: Seq<ast::BlockItem>, k: nat) -> Option<ast::BlockItem> {
    first_some(items, |x: ast::BlockItem| if ast::block_item_kind(x) == k { Some(x) } else { None })
}

/// Finds the first command entry of kind `k`.
fn find_command_item(items: &Vec<ast::CommandItem>, k: u8) -> (r: Option<usize>)
    ensures
        r is None ==> first_command_item(items@, k as nat) is None,
        r matches Some(j) ==> j < items@.len() && first_command_item(items@, k as nat) == Some(
            items@[j as int],
        ) && ast::command_item_kind(items@[j as int]) == k,
{
    let mut i: usize = 0;
    assert(items@.subrange(0, 0) =~= Seq::<ast::CommandItem>::empty());
    while i < items.len()
        invariant
            i <= items@.len(),
            first_command_item(items@.subrange(0, i as int), k as nat) is None,
        decreases items@.len() - i,
    {
        proof {
            lemma_first_some_step(
                items@,
                i as int,
                |x: ast::CommandItem| if ast::command_item_kind(x) == k as nat { Some(x) } else { None },
            );
        }
        if command_kind_of(&items[i]) == k {
            proof {
                lemma_first_some_prefix(
                    items@,
                    i + 1,
                    |x: ast::CommandItem| if ast::command_item_kind(x) == k as nat { Some(x) } else { None },
                );
            }
            return Some(i);
        }
        i = i + 1;
    }
    assert(items@.subrange(0, items@.len() as int) =~= items@);
    None
}

fn command_kind_of(item: &ast::CommandItem) -> (r: u8)
    ensures
        r == ast::command_item_kind(*item),
{
    match item {
        ast::CommandItem::ByteOrder(_) => 0,
        ast::CommandItem::BitOrder(_) => 1,
        ast::CommandItem::Address(_) => 2,
        ast::CommandItem::SizeBitsIn(_) => 3,
        ast::CommandItem::SizeBitsOut(_) => 4,
        ast::CommandItem::Repeat(_) => 5,
        ast::CommandItem::AllowBitOverlap(_) => 6,
        ast::CommandItem::AllowAddressOverlap(_) => 7,
    }
}

/// Finds the first register entry of kind `k`.
fn find_register_item(items: &Vec<ast::RegisterItem>, k: u8) -> (r: Option<usize>)
    ensures
        r is None ==> first_register_item(items@, k as nat) is None,
        r matches Some(j) ==> j < items@.len() && first_register_item(items@, k as nat) == Some(
            items@[j as int],
        ) && ast::register_item_kind(items@[j as int]) == k,
{
    let mut i: usize = 0;
    assert(items@.subrange(0, 0) =~= Seq::<ast::RegisterItem>::empty());
    while i < items.len()
        invariant
            i <= items@.len(),
            first_register_item(items@.subrange(0, i as int), k as nat) is None,
        decreases items@.len() - i,
    {
        proof {
            lemma_first_some_step(
                items@,
                i as int,
                |x: ast::RegisterItem| if ast::register_item_kind(x) == k as nat { Some(x) } else { None },
            );
        }
        if register_kind_of(&items[i]) == k {
            proof {
                lemma_first_some_prefix(
                    items@,
                    i + 1,
                    |x: ast::RegisterItem| if ast::register_item_kind(x) == k as nat { Some(x) } else { None },
                );
            }
            return Some(i);
        }
        i = i + 1;
    }
    assert(items@.subrange(0, items@.len() as int) =~= items@);
    None
}

fn register_kind_of(item: &ast::RegisterItem) -> (r: u8)
    ensures
        r == ast::register_item_kind(*item),
{
    match item {
        ast::RegisterItem::Access(_) => 0,
        ast::RegisterItem::ByteOrder(_) => 1,
        ast::RegisterItem::BitOrder(_) => 2,
        ast::RegisterItem::Address(_) => 3,
        ast::RegisterItem::SizeBits(_) => 4,
        ast::RegisterItem::ResetValueInt(_) => 5,
        ast::RegisterItem::ResetValueArray(_) => 5,
        ast::RegisterItem::Repeat(_) => 6,
        ast::RegisterItem::AllowBitOverlap(_) => 7,
        ast::RegisterItem::AllowAddressOverlap(_) => 8,
    }
}

/// The entries of a command with a braced body; none otherwise.
pub open spec fn command_items(c: ast::Command) -> Seq<ast::CommandItem> {
    match c.value {
        Some(ast::CommandValue::Extended { command_item_list, .. }) => command_item_list.items@,
        _ => Seq::empty(),
    }
}

/// The address of a command: its value in the short form, its `ADDRESS`
/// entry in the braced one.
pub open spec fn command_address(c: ast::Command) -> Option<u64> {
    match c.value {
        Some(ast::CommandValue::Basic(a)) => Some(a),
        Some(ast::CommandValue::Extended { .. }) => match first_command_item(command_items(c), 2) {
            Some(ast::CommandItem::Address(a)) => Some(a),
            _ => None,
        },
        None => None,
    }
}

pub open spec fn command_in_fields(c: ast::Command) -> Seq<ast::Field> {
    match c.value {
        Some(ast::CommandValue::Extended { in_field_list: Some(l), .. }) => l.fields@,
        _ => Seq::empty(),
    }
}

pub open spec fn command_out_fields(c: ast::Command) -> Seq<ast::Field> {
    match c.value {
        Some(ast::CommandValue::Extended { out_field_list: Some(l), .. }) => l.fields@,
        _ => Seq::empty(),
    }
}

/// `m` is the command `c` with the defaults of `g`.
pub open spec fn command_resolved(m: mir::Command, c: ast::Command, g: mir::GlobalConfig) -> bool {
    let items = command_items(c);
    &&& m.name == c.identifier
    &&& Some(m.address) == command_address(c)
    &&& m.byte_order == match first_command_item(items, 0) {
        Some(ast::CommandItem::ByteOrder(o)) => o,
        _ => g.default_byte_order,
    }
    &&& m.bit_order == match first_command_item(items, 1) {
        Some(ast::CommandItem::BitOrder(o)) => o,
        _ => g.default_bit_order,
    }
    &&& m.size_bits_in == match first_command_item(items, 3) {
        Some(ast::CommandItem::SizeBitsIn(n)) => n,
        _ => 0,
    }
    &&& m.size_bits_out == match first_command_item(items, 4) {
        Some(ast::CommandItem::SizeBitsOut(n)) => n,
        _ => 0,
    }
    &&& m.repeat == match first_command_item(items, 5) {
        Some(ast::CommandItem::Repeat(r)) => repeat_of(r),
        _ => None,
    }
    &&& m.allow_bit_overlap == match first_command_item(items, 6) {
        Some(ast::CommandItem::AllowBitOverlap(b)) => b,
        _ => false,
    }
    &&& m.allow_address_overlap == match first_command_item(items, 7) {
        Some(ast::CommandItem::AllowAddressOverlap(b)) => b,
        _ => false,
    }
    &&& fields_resolved(m.in_fields@, command_in_fields(c), g)
    &&& fields_resolved(m.out_fields@, command_out_fields(c), g)
    &&& attrs_resolved(m.cfg_attr, m.description, c.attribute_list.attributes@)
}

fn empty_items() -> (r: Vec<ast::CommandItem>)
    ensures
        r@ == Seq::<ast::CommandItem>::empty(),
{
    Vec::new()
}

/// The repeat entry among a command's entries, if any, is valid.
pub open spec fn command_repeat_ok(items: Seq<ast::CommandItem>) -> bool {
    match first_command_item(items, 5) {
        Some(ast::CommandItem::Repeat(x)) => repeat_of(x) is Some,
        _ => true,
    }
}

/// A command resolves: it has a value and an address, at most one `cfg`
/// attribute, a valid repeat and well-formed fields.
pub open spec fn command_ok(c: ast::Command) -> bool {
    &&& c.value is Some
    &&& cfg_count(c.attribute_list.attributes@) <= 1
    &&& command_address(c) is Some
    &&& command_repeat_ok(command_items(c))
    &&& fields_ok(command_in_fields(c))
    &&& fields_ok(command_out_fields(c))
}

/// Resolves a command. It must have a value, and a braced value must hold
/// an `ADDRESS` entry; byte and bit order fall back to the defaults.
pub fn transform_command(c: &ast::Command, g: &mir::GlobalConfig) -> (r: Result<mir::Command, TransformError>)
    ensures
        c.value is Some && cfg_count(c.attribute_list.attributes@) > 1 ==> (r matches Err(e) && e.message@
            == cfg_message(c.attribute_list.attributes@)),
        r is Ok <==> command_ok(*c),
        c.value is None ==> (r matches Err(e) && e.kind == TransformErrorKind::MissingValue
            && e.subject == c.identifier && e.message@ == quoted_text(
            "Command "@,
            c.identifier@,
            " must have a value"@,
        )),
        (c.value is Some && cfg_count(c.attribute_list.attributes@) <= 1 && command_address(*c)
            is None) ==> (r matches Err(e) && e.kind == TransformErrorKind::MissingAddress
            && e.subject == c.identifier && e.message@ == quoted_text(
            "Command "@,
            c.identifier@,
            " must have an address"@,
        )),
        r matches Ok(m) ==> command_resolved(m, *c, *g),
{
    let value = match &c.value {
        Some(v) => v,
        None => {
            return Err(
                error(
                    TransformErrorKind::MissingValue,
                    &c.identifier,
                    quoted("Command ", &c.identifier, " must have a value"),
                ),
            );
        },
    };
    let cfg_attr = get_cfg_attr(&c.attribute_list, &c.identifier)?;
    let description = description_of(&c.attribute_list);
    let empty = empty_items();
    let (items, in_list, out_list) = match value {
        ast::CommandValue::Basic(_) => (&empty, None, None),
        ast::CommandValue::Extended { command_item_list, in_field_list, out_field_list } => (
            &command_item_list.items,
            in_field_list.as_ref(),
            out_field_list.as_ref(),
        ),
    };
    assert(items@ == command_items(*c));
    let address = match value {
        ast::CommandValue::Basic(a) => *a,
        ast::CommandValue::Extended { .. } => match find_command_item(items, 2) {
            Some(j) => match &items[j] {
                ast::CommandItem::Address(a) => *a,
                _ => 0,
            },
            None => {
                return Err(
                    error(
                        TransformErrorKind::MissingAddress,
                        &c.identifier,
                        quoted("Command ", &c.identifier, " must have an address"),
                    ),
                );
            },
        },
    };
    assert(command_address(*c) == Some(address));
    let byte_order = match find_command_item(items, 0) {
        Some(j) => match &items[j] {
            ast::CommandItem::ByteOrder(o) => *o,
            _ => g.default_byte_order,
        },
        None => g.default_byte_order,
    };
    let bit_order = match find_command_item(items, 1) {
        Some(j) => match &items[j] {
            ast::CommandItem::BitOrder(o) => *o,
            _ => g.default_bit_order,
        },
        None => g.default_bit_order,
    };
    let size_bits_in = match find_command_item(items, 3) {
        Some(j) => match &items[j] {
            ast::CommandItem::SizeBitsIn(n) => *n,
            _ => 0,
        },
        None => 0,
    };
    let size_bits_out = match find_command_item(items, 4) {
        Some(j) => match &items[j] {
            ast::CommandItem::SizeBitsOut(n) => *n,
            _ => 0,
        },
        None => 0,
    };
    let repeat = match find_command_item(items, 5) {
        Some(j) => match &items[j] {
            ast::CommandItem::Repeat(rep) => Some(transform_repeat(rep, &c.identifier)?),
            _ => None,
        },
        None => None,
    };
    let allow_bit_overlap = match find_command_item(items, 6) {
        Some(j) => match &items[j] {
            ast::CommandItem::AllowBitOverlap(b) => *b,
            _ => false,
        },
        None => false,
    };
    let allow_address_overlap = match find_command_item(items, 7) {
        Some(j) => match &items[j] {
            ast::CommandItem::AllowAddressOverlap(b) => *b,
            _ => false,
        },
        None => false,
    };
    let in_fields = match in_list {
        Some(l) => transform_fields(&l.fields, g)?,
        None => Vec::new(),
    };
    let out_fields = match out_list {
        Some(l) => transform_fields(&l.fields, g)?,
        None => Vec::new(),
    };
    Ok(
        mir::Command {
            cfg_attr,
            description,
            name: c.identifier.clone(),
            address,
            byte_order,
            bit_order,
            allow_bit_overlap,
            allow_address_overlap,
            size_bits_in,
            size_bits_out,
            repeat,
            in_fields,
            out_fields,
        },
    )
}


fn copy_bytes(v: &Vec<u8>) -> (r: Vec<u8>)
    ensures
        r@ == v@,
{
    let mut out: Vec<u8> = Vec::new();
    let mut i: usize = 0;
    while i < v.len()
        invariant
            i <= v@.len(),
            out@ == v@.subrange(0, i as int),
        decreases v@.len() - i,
    {
        out.push(v[i]);
        i = i + 1;
    }
    assert(out@ =~= v@);
    out
}

/// The reset value that a register entry gives, compared by content.
pub open spec fn reset_given(m: Option<mir::ResetValue>, item: Option<ast::RegisterItem>) -> bool {
    match (m, item) {
        (None, None) => true,
        (Some(mir::ResetValue::Integer(v)), Some(ast::RegisterItem::ResetValueInt(w))) => v == w,
        (Some(mir::ResetValue::Array(v)), Some(ast::RegisterItem::ResetValueArray(w))) => v@ == w@,
        _ => false,
    }
}

pub open spec fn register_address(r: ast::Register) -> Option<u64> {
    match first_register_item(r.register_item_list.register_items@, 3) {
        Some(ast::RegisterItem::Address(a)) => Some(a),
        _ => None,
    }
}

pub open spec fn register_size(r: ast::Register) -> Option<u64> {
    match first_register_item(r.register_item_list.register_items@, 4) {
        Some(ast::RegisterItem::SizeBits(n)) => Some(n),
        _ => None,
    }
}

/// The number of bytes that hold `bits` bits.
pub open spec fn size_bytes(bits: nat) -> nat {
    (bits + 7) / 8
}

/// `m` is the register `r` with the defaults of `g`.
pub open spec fn register_resolved(m: mir::Register, r: ast::Register, g: mir::GlobalConfig) -> bool {
    let items = r.register_item_list.register_items@;
    &&& m.name == r.identifier
    &&& m.access == match first_register_item(items, 0) {
        Some(ast::RegisterItem::Access(a)) => a,
        _ => g.default_register_access,
    }
    &&& m.byte_order == match first_register_item(items, 1) {
        Some(ast::RegisterItem::ByteOrder(o)) => o,
        _ => g.default_byte_order,
    }
    &&& m.bit_order == match first_register_item(items, 2) {
        Some(ast::RegisterItem::BitOrder(o)) => o,
        _ => g.default_bit_order,
    }
    &&& Some(m.address) == register_address(r)
    &&& Some(m.size_bits) == register_size(r)
    &&& reset_given(m.reset_value, first_register_item(items, 5))
    &&& m.repeat == match first_register_item(items, 6) {
        Some(ast::RegisterItem::Repeat(x)) => repeat_of(x),
        _ => None,
    }
    &&& m.allow_bit_overlap == match first_register_item(items, 7) {
        Some(ast::RegisterItem::AllowBitOverlap(b)) => b,
        _ => false,
    }
    &&& m.allow_address_overlap == match first_register_item(items, 8) {
        Some(ast::RegisterItem::AllowAddressOverlap(b)) => b,
        _ => false,
    }
    &&& fields_resolved(m.fields@, r.field_list.fields@, g)
    &&& attrs_resolved(m.cfg_attr, m.description, r.attribute_list.attributes@)
}

/// A reset value given as bytes has one byte for every eight bits of the size.
pub open spec fn register_reset_ok(r: ast::Register) -> bool {
    match first_register_item(r.register_item_list.register_items@, 5) {
        Some(ast::RegisterItem::ResetValueArray(a)) => a@.len() == size_bytes(
            register_size(r)->Some_0 as nat,
        ),
        _ => true,
    }
}

pub open spec fn register_repeat_ok(r: ast::Register) -> bool {
    match first_register_item(r.register_item_list.register_items@, 6) {
        Some(ast::RegisterItem::Repeat(x)) => repeat_of(x) is Some,
        _ => true,
    }
}

pub open spec fn register_allows_overlap(r: ast::Register) -> bool {
    match first_register_item(r.register_item_list.register_items@, 7) {
        Some(ast::RegisterItem::AllowBitOverlap(b)) => b,
        _ => false,
    }
}

/// No two well-formed fields share a bit.
pub open spec fn ast_fields_disjoint(fs: Seq<ast::Field>) -> bool {
    forall|i: int, j: int|
        0 <= i < j < fs.len() ==> !mir::ranges_overlap(
            field_bits(#[trigger] fs[i])->Some_0,
            field_bits(#[trigger] fs[j])->Some_0,
        )
}

/// A register resolves: at most one `cfg` attribute, an address and a size,
/// a reset value of the right size, a valid repeat, well-formed fields, and
/// fields that share no bit unless the register allows it.
pub open spec fn register_ok(r: ast::Register) -> bool {
    &&& cfg_count(r.attribute_list.attributes@) <= 1
    &&& register_address(r) is Some
    &&& register_size(r) is Some
    &&& register_reset_ok(r)
    &&& register_repeat_ok(r)
    &&& fields_ok(r.field_list.fields@)
    &&& (register_allows_overlap(r) || ast_fields_disjoint(r.field_list.fields@))
}

/// Whether no two fields share a bit.
pub fn fields_are_disjoint(fs: &Vec<mir::Field>) -> (r: bool)
    ensures
        r == mir::fields_disjoint(fs@),
{
    let n = fs.len();
    let mut a: usize = 0;
    while a < n
        invariant
            n == fs@.len(),
            a <= n,
            forall|x: int, y: int|
                0 <= x < a && x < y < n ==> !mir::overlap(#[trigger] fs@[x], #[trigger] fs@[y]),
        decreases n - a,
    {
        let mut b: usize = a + 1;
        while b < n
            invariant
                n == fs@.len(),
                a < n,
                a < b <= n,
                forall|x: int, y: int|
                    0 <= x < a && x < y < n ==> !mir::overlap(#[trigger] fs@[x], #[trigger] fs@[y]),
                forall|y: int| a < y < b ==> !mir::overlap(fs@[a as int], #[trigger] fs@[y]),
            decreases n - b,
        {
            let fa = fs[a].field_address;
            let fb = fs[b].field_address;
            let ea: u128 = if fa.start == fa.end {
                fa.end as u128 + 1
            } else {
                fa.end as u128
            };
            let eb: u128 = if fb.start == fb.end {
                fb.end as u128 + 1
            } else {
                fb.end as u128
            };
            if (fa.start as u128) < eb && (fb.start as u128) < ea {
                assert(mir::overlap(fs@[a as int], fs@[b as int]));
                return false;
            }
            b = b + 1;
        }
        a = a + 1;
    }
    true
}

/// Resolves a register. It must have an address and a size; a reset value
/// given as bytes must have one byte for every eight bits of the size.
pub fn transform_register(r: &ast::Register, g: &mir::GlobalConfig) -> (out: Result<mir::Register, TransformError>)
    ensures
        cfg_count(r.attribute_list.attributes@) > 1 ==> (out matches Err(e) && e.message@ == cfg_message(
            r.attribute_list.attributes@,
        )),
        (cfg_count(r.attribute_list.attributes@) <= 1 && register_address(*r) is None) ==> (out matches Err(
            e,
        ) && e.kind == TransformErrorKind::MissingAddress && e.subject == r.identifier),
        (cfg_count(r.attribute_list.attributes@) <= 1 && register_address(*r) is Some
            && register_size(*r) is None) ==> (out matches Err(e) && e.kind
            == TransformErrorKind::MissingSize && e.subject == r.identifier),
        out is Ok <==> register_ok(*r),
        (cfg_count(r.attribute_list.attributes@) <= 1 && register_address(*r) is Some
            && register_size(*r) is Some && register_reset_ok(*r) && register_repeat_ok(*r)
            && fields_ok(r.field_list.fields@) && !register_allows_overlap(*r)
            && !ast_fields_disjoint(r.field_list.fields@)) ==> (out matches Err(e) && e.kind
            == TransformErrorKind::FieldOverlap && e.subject == r.identifier),
        out matches Ok(m) ==> register_resolved(m, *r, *g) && (m.reset_value matches Some(
            mir::ResetValue::Array(v),
        ) ==> v@.len() == size_bytes(m.size_bits as nat)) && (m.allow_bit_overlap
            || mir::fields_disjoint(m.fields@)),
{
    let cfg_attr = get_cfg_attr(&r.attribute_list, &r.identifier)?;
    let description = description_of(&r.attribute_list);
    let items = &r.register_item_list.register_items;
    let address = match find_register_item(items, 3) {
        Some(j) => match &items[j] {
            ast::RegisterItem::Address(a) => *a,
            _ => 0,
        },
        None => {
            return Err(
                error(
                    TransformErrorKind::MissingAddress,
                    &r.identifier,
                    quoted("Register ", &r.identifier, " must have an address"),
                ),
            );
        },
    };
    let size_bits = match find_register_item(items, 4) {
        Some(j) => match &items[j] {
            ast::RegisterItem::SizeBits(n) => *n,
            _ => 0,
        },
        None => {
            return Err(
                error(
                    TransformErrorKind::MissingSize,
                    &r.identifier,
                    quoted("Register ", &r.identifier, " must have a size"),
                ),
            );
        },
    };
    let access = match find_register_item(items, 0) {
        Some(j) => match &items[j] {
            ast::RegisterItem::Access(a) => *a,
            _ => g.default_register_access,
        },
        None => g.default_register_access,
    };
    let byte_order = match find_register_item(items, 1) {
        Some(j) => match &items[j] {
            ast::RegisterItem::ByteOrder(o) => *o,
            _ => g.default_byte_order,
        },
        None => g.default_byte_order,
    };
    let bit_order = match find_register_item(items, 2) {
        Some(j) => match &items[j] {
            ast::RegisterItem::BitOrder(o) => *o,
            _ => g.default_bit_order,
        },
        None => g.default_bit_order,
    };
    let reset_value = match find_register_item(items, 5) {
        Some(j) => match &items[j] {
            ast::RegisterItem::ResetValueInt(v) => Some(mir::ResetValue::Integer(*v)),
            ast::RegisterItem::ResetValueArray(v) => {
                if v.len() as u64 != size_bits / 8 + if size_bits % 8 == 0 {
                    0
                } else {
                    1
                } {
                    return Err(
                        error(
                            TransformErrorKind::InvalidResetValue,
                            &r.identifier,
                            quoted(
                                "The reset value of ",
                                &r.identifier,
                                " must have one byte for every eight bits of its size",
                            ),
                        ),
                    );
                }
                Some(mir::ResetValue::Array(copy_bytes(v)))
            },
            _ => None,
        },
        None => None,
    };
    let repeat = match find_register_item(items, 6) {
        Some(j) => match &items[j] {
            ast::RegisterItem::Repeat(rep) => Some(transform_repeat(rep, &r.identifier)?),
            _ => None,
        },
        None => None,
    };
    let allow_bit_overlap = match find_register_item(items, 7) {
        Some(j) => match &items[j] {
            ast::RegisterItem::AllowBitOverlap(b) => *b,
            _ => false,
        },
        None => false,
    };
    let allow_address_overlap = match find_register_item(items, 8) {
        Some(j) => match &items[j] {
            ast::RegisterItem::AllowAddressOverlap(b) => *b,
            _ => false,
        },
        None => false,
    };
    let fields = transform_fields(&r.field_list.fields, g)?;
    proof {
        let fs = r.field_list.fields@;
        assert forall|i: int| 0 <= i < fields@.len() implies #[trigger] fields@[i].field_address
            == field_bits(fs[i])->Some_0 by {
            assert(field_resolved(fields@[i], fs[i], *g));
        }
        if mir::fields_disjoint(fields@) {
            assert forall|i: int, j: int| 0 <= i < j < fs.len() implies !mir::ranges_overlap(
                field_bits(#[trigger] fs[i])->Some_0,
                field_bits(#[trigger] fs[j])->Some_0,
            ) by {
                assert(fields@[i].field_address == field_bits(fs[i])->Some_0);
                assert(fields@[j].field_address == field_bits(fs[j])->Some_0);
                assert(!mir::overlap(fields@[i], fields@[j]));
            }
        }
        if ast_fields_disjoint(fs) {
            assert forall|i: int, j: int| 0 <= i < j < fields@.len() implies !mir::overlap(
                #[trigger] fields@[i],
                #[trigger] fields@[j],
            ) by {
                assert(fields@[i].field_address == field_bits(fs[i])->Some_0);
                assert(fields@[j].field_address == field_bits(fs[j])->Some_0);
                assert(!mir::ranges_overlap(field_bits(fs[i])->Some_0, field_bits(fs[j])->Some_0));
            }
        }
        assert(mir::fields_disjoint(fields@) == ast_fields_disjoint(fs));
    }
    if !allow_bit_overlap && !fields_are_disjoint(&fields) {
        return Err(
            error(
                TransformErrorKind::FieldOverlap,
                &r.identifier,
                quoted("Register ", &r.identifier, " has fields that share bits"),
            ),
        );
    }
    Ok(
        mir::Register {
            cfg_attr,
            description,
            name: r.identifier.clone(),
            access,
            byte_order,
            bit_order,
            allow_bit_overlap,
            allow_address_overlap,
            address,
            size_bits,
            reset_value,
            repeat,
            fields,
        },
    )
}

fn find_block_item(items: &Vec<ast::BlockItem>, k: u8) -> (r: Option<usize>)
    ensures
        r is None ==> first_block_item(items@, k as nat) is None,
        r matches Some(j) ==> j < items@.len() && first_block_item(items@, k as nat) == Some(
            items@[j as int],
        ) && ast::block_item_kind(items@[j as int]) == k,
{
    let mut i: usize = 0;
    assert(items@.subrange(0, 0) =~= Seq::<ast::BlockItem>::empty());
    while i < items.len()
        invariant
            i <= items@.len(),
            first_block_item(items@.subrange(0, i as int), k as nat) is None,
        decreases items@.len() - i,
    {
        proof {
            lemma_first_some_step(
                items@,
                i as int,
                |x: ast::BlockItem| if ast::block_item_kind(x) == k as nat { Some(x) } else { None },
            );
        }
        let kind: u8 = match &items[i] {
            ast::BlockItem::AddressOffset(_) => 0,
            ast::BlockItem::Repeat(_) => 1,
        };
        if kind == k {
            proof {
                lemma_first_some_prefix(
                    items@,
                    i + 1,
                    |x: ast::BlockItem| if ast::block_item_kind(x) == k as nat { Some(x) } else { None },
                );
            }
            return Some(i);
        }
        i = i + 1;
    }
    assert(items@.subrange(0, items@.len() as int) =~= items@);
    None
}

pub open spec fn block_offset(b: ast::Block) -> u64 {
    match first_block_item(b.block_item_list.block_items@, 0) {
        Some(ast::BlockItem::AddressOffset(a)) => a,
        _ => 0,
    }
}

pub open spec fn block_repeat_ok(b: ast::Block) -> bool {
    match first_block_item(b.block_item_list.block_items@, 1) {
        Some(ast::BlockItem::Repeat(x)) => repeat_of(x) is Some,
        _ => true,
    }
}

/// An object resolves, with blocks nested at most `depth` deep.
pub open spec fn object_ok(o: ast::Object, depth: nat) -> bool
    decreases depth, 1nat,
{
    match o {
        ast::Object::Register(r) => register_ok(r),
        ast::Object::Command(c) => command_ok(c),
        ast::Object::Buffer(b) => cfg_count(b.attribute_list.attributes@) <= 1 && b.address is Some,
        ast::Object::Ref(r) => ref_ok(r),
        ast::Object::Block(b) => block_ok(b, depth),
    }
}

/// A block resolves: at most one `cfg` attribute, a valid repeat, and
/// objects that resolve.
pub open spec fn block_ok(b: ast::Block, depth: nat) -> bool
    decreases depth, 0nat,
{
    &&& cfg_count(b.attribute_list.attributes@) <= 1
    &&& block_repeat_ok(b)
    &&& depth > 0
    &&& objects_ok(b.object_list.objects@, (depth - 1) as nat)
}

pub open spec fn objects_ok(os: Seq<ast::Object>, depth: nat) -> bool
    decreases depth, 2nat,
{
    forall|i: int| 0 <= i < os.len() ==> object_ok(#[trigger] os[i], depth)
}

/// `m` is the block `b` resolved: name, attributes, offset, repeat, and as
/// many objects.
pub open spec fn block_resolved(m: mir::Block, b: ast::Block) -> bool {
    &&& m.name == b.identifier
    &&& m.address_offset == block_offset(b)
    &&& m.repeat == match first_block_item(b.block_item_list.block_items@, 1) {
        Some(ast::BlockItem::Repeat(x)) => repeat_of(x),
        _ => None,
    }
    &&& attrs_resolved(m.cfg_attr, m.description, b.attribute_list.attributes@)
    &&& m.objects@.len() == b.object_list.objects@.len()
}

/// Resolves a block and, within it, its objects; `depth` bounds how deep
/// blocks may nest.
pub fn transform_block(b: &ast::Block, g: &mir::GlobalConfig, depth: usize) -> (r: Result<
    mir::Block,
    TransformError,
>)
    ensures
        cfg_count(b.attribute_list.attributes@) > 1 ==> (r matches Err(e) && e.message@ == cfg_message(
            b.attribute_list.attributes@,
        )),
        r is Ok <==> block_ok(*b, depth as nat),
        r matches Ok(m) ==> block_resolved(m, *b),
    decreases depth, 0nat,
{
    let cfg_attr = get_cfg_attr(&b.attribute_list, &b.identifier)?;
    let description = description_of(&b.attribute_list);
    let items = &b.block_item_list.block_items;
    let address_offset = match find_block_item(items, 0) {
        Some(j) => match &items[j] {
            ast::BlockItem::AddressOffset(a) => *a,
            _ => 0,
        },
        None => 0,
    };
    let repeat = match find_block_item(items, 1) {
        Some(j) => match &items[j] {
            ast::BlockItem::Repeat(rep) => Some(transform_repeat(rep, &b.identifier)?),
            _ => None,
        },
        None => None,
    };
    if depth == 0 {
        return Err(
            error(
                TransformErrorKind::TooDeeplyNested,
                &b.identifier,
                quoted("Block ", &b.identifier, " is nested too deeply"),
            ),
        );
    }
    let objects = transform_object_list(&b.object_list, g, depth - 1)?;
    Ok(
        mir::Block {
            cfg_attr,
            description,
            name: b.identifier.clone(),
            address_offset,
            repeat,
            objects,
        },
    )
}

/// What a ref may replace of a command: the entries and field lists that
/// the ref writes, and nothing else.
pub open spec fn command_override_resolved(
    o: mir::CommandOverride,
    c: ast::Command,
    g: mir::GlobalConfig,
) -> bool {
    let items = command_items(c);
    &&& o.name == c.identifier
    &&& o.address == match c.value {
        Some(ast::CommandValue::Basic(a)) => Some(a),
        _ => match first_command_item(items, 2) {
            Some(ast::CommandItem::Address(a)) => Some(a),
            _ => None,
        },
    }
    &&& o.byte_order == match first_command_item(items, 0) {
        Some(ast::CommandItem::ByteOrder(x)) => Some(x),
        _ => None,
    }
    &&& o.bit_order == match first_command_item(items, 1) {
        Some(ast::CommandItem::BitOrder(x)) => Some(x),
        _ => None,
    }
    &&& o.size_bits_in == match first_command_item(items, 3) {
        Some(ast::CommandItem::SizeBitsIn(x)) => Some(x),
        _ => None,
    }
    &&& o.size_bits_out == match first_command_item(items, 4) {
        Some(ast::CommandItem::SizeBitsOut(x)) => Some(x),
        _ => None,
    }
    &&& o.repeat == match first_command_item(items, 5) {
        Some(ast::CommandItem::Repeat(x)) => repeat_of(x),
        _ => None,
    }
    &&& match c.value {
        Some(ast::CommandValue::Extended { in_field_list: Some(l), .. }) => o.in_fields matches Some(
            v,
        ) && fields_resolved(v@, l.fields@, g),
        _ => o.in_fields is None,
    }
    &&& match c.value {
        Some(ast::CommandValue::Extended { out_field_list: Some(l), .. }) => o.out_fields matches Some(
            v,
        ) && fields_resolved(v@, l.fields@, g),
        _ => o.out_fields is None,
    }
}

/// A ref may replace a command's entries when its repeat and fields are
/// valid.
pub open spec fn command_override_ok(c: ast::Command) -> bool {
    &&& command_repeat_ok(command_items(c))
    &&& fields_ok(command_in_fields(c))
    &&& fields_ok(command_out_fields(c))
}

pub fn transform_command_override(c: &ast::Command, g: &mir::GlobalConfig) -> (r: Result<
    mir::CommandOverride,
    TransformError,
>)
    ensures
        r is Ok <==> command_override_ok(*c),
        r matches Ok(o) ==> command_override_resolved(o, *c, *g),
{
    let empty = empty_items();
    let (items, in_list, out_list) = match &c.value {
        Some(ast::CommandValue::Extended { command_item_list, in_field_list, out_field_list }) => (
            &command_item_list.items,
            in_field_list.as_ref(),
            out_field_list.as_ref(),
        ),
        _ => (&empty, None, None),
    };
    assert(items@ == command_items(*c));
    let address = match &c.value {
        Some(ast::CommandValue::Basic(a)) => Some(*a),
        _ => match find_command_item(items, 2) {
            Some(j) => match &items[j] {
                ast::CommandItem::Address(a) => Some(*a),
                _ => None,
            },
            None => None,
        },
    };
    let byte_order = match find_command_item(items, 0) {
        Some(j) => match &items[j] {
            ast::CommandItem::ByteOrder(o) => Some(*o),
            _ => None,
        },
        None => None,
    };
    let bit_order = match find_command_item(items, 1) {
        Some(j) => match &items[j] {
            ast::CommandItem::BitOrder(o) => Some(*o),
            _ => None,
        },
        None => None,
    };
    let size_bits_in = match find_command_item(items, 3) {
        Some(j) => match &items[j] {
            ast::CommandItem::SizeBitsIn(n) => Some(*n),
            _ => None,
        },
        None => None,
    };
    let size_bits_out = match find_command_item(items, 4) {
        Some(j) => match &items[j] {
            ast::CommandItem::SizeBitsOut(n) => Some(*n),
            _ => None,
        },
        None => None,
    };
    let repeat = match find_command_item(items, 5) {
        Some(j) => match &items[j] {
            ast::CommandItem::Repeat(rep) => Some(transform_repeat(rep, &c.identifier)?),
            _ => None,
        },
        None => None,
    };
    let in_fields = match in_list {
        Some(l) => Some(transform_fields(&l.fields, g)?),
        None => None,
    };
    let out_fields = match out_list {
        Some(l) => Some(transform_fields(&l.fields, g)?),
        None => None,
    };
    Ok(
        mir::CommandOverride {
            name: c.identifier.clone(),
            address,
            byte_order,
            bit_order,
            size_bits_in,
            size_bits_out,
            repeat,
            in_fields,
            out_fields,
        },
    )
}

/// What a ref may replace of a register.
pub open spec fn register_override_resolved(o: mir::RegisterOverride, r: ast::Register) -> bool {
    let items = r.register_item_list.register_items@;
    &&& o.name == r.identifier
    &&& o.access == match first_register_item(items, 0) {
        Some(ast::RegisterItem::Access(a)) => Some(a),
        _ => None,
    }
    &&& o.address == register_address(r)
    &&& reset_given(o.reset_value, first_register_item(items, 5))
    &&& o.repeat == match first_register_item(items, 6) {
        Some(ast::RegisterItem::Repeat(x)) => repeat_of(x),
        _ => None,
    }
}

pub fn transform_register_override(r: &ast::Register) -> (out: Result<
    mir::RegisterOverride,
    TransformError,
>)
    ensures
        out is Ok <==> register_repeat_ok(*r),
        out matches Ok(o) ==> register_override_resolved(o, *r),
{
    let items = &r.register_item_list.register_items;
    let access = match find_register_item(items, 0) {
        Some(j) => match &items[j] {
            ast::RegisterItem::Access(a) => Some(*a),
            _ => None,
        },
        None => None,
    };
    let address = match find_register_item(items, 3) {
        Some(j) => match &items[j] {
            ast::RegisterItem::Address(a) => Some(*a),
            _ => None,
        },
        None => None,
    };
    let reset_value = match find_register_item(items, 5) {
        Some(j) => match &items[j] {
            ast::RegisterItem::ResetValueInt(v) => Some(mir::ResetValue::Integer(*v)),
            ast::RegisterItem::ResetValueArray(v) => Some(mir::ResetValue::Array(copy_bytes(v))),
            _ => None,
        },
        None => None,
    };
    let repeat = match find_register_item(items, 6) {
        Some(j) => match &items[j] {
            ast::RegisterItem::Repeat(rep) => Some(transform_repeat(rep, &r.identifier)?),
            _ => None,
        },
        None => None,
    };
    Ok(mir::RegisterOverride { name: r.identifier.clone(), access, address, reset_value, repeat })
}

pub open spec fn block_override_resolved(o: mir::BlockOverride, b: ast::Block) -> bool {
    &&& o.name == b.identifier
    &&& o.address_offset == match first_block_item(b.block_item_list.block_items@, 0) {
        Some(ast::BlockItem::AddressOffset(a)) => Some(a),
        _ => None,
    }
    &&& o.repeat == match first_block_item(b.block_item_list.block_items@, 1) {
        Some(ast::BlockItem::Repeat(x)) => repeat_of(x),
        _ => None,
    }
}

pub fn transform_block_override(b: &ast::Block) -> (r: Result<mir::BlockOverride, TransformError>)
    ensures
        r is Ok <==> block_repeat_ok(*b),
        r matches Ok(o) ==> block_override_resolved(o, *b),
{
    let items = &b.block_item_list.block_items;
    let address_offset = match find_block_item(items, 0) {
        Some(j) => match &items[j] {
            ast::BlockItem::AddressOffset(a) => Some(*a),
            _ => None,
        },
        None => None,
    };
    let repeat = match find_block_item(items, 1) {
        Some(j) => match &items[j] {
            ast::BlockItem::Repeat(rep) => Some(transform_repeat(rep, &b.identifier)?),
            _ => None,
        },
        None => None,
    };
    Ok(mir::BlockOverride { name: b.identifier.clone(), address_offset, repeat })
}

pub fn transform_buffer_override(b: &ast::Buffer) -> (r: mir::BufferOverride)
    ensures
        r.name == b.identifier && r.access == b.access && r.address == b.address,
{
    mir::BufferOverride { name: b.identifier.clone(), access: b.access, address: b.address }
}

/// A ref resolves: at most one `cfg` attribute, a target that is not a ref,
/// and valid replacements.
pub open spec fn ref_ok(r: ast::RefObject) -> bool {
    &&& cfg_count(r.attribute_list.attributes@) <= 1
    &&& match *r.object {
        ast::Object::Ref(_) => false,
        ast::Object::Register(x) => register_repeat_ok(x),
        ast::Object::Command(x) => command_override_ok(x),
        ast::Object::Block(x) => block_repeat_ok(x),
        ast::Object::Buffer(_) => true,
    }
}

/// `m` is the ref `r` resolved: its name, attributes and the override of
/// its target.
pub open spec fn ref_resolved(m: mir::RefObject, r: ast::RefObject, g: mir::GlobalConfig) -> bool {
    &&& m.name == r.identifier
    &&& attrs_resolved(m.cfg_attr, m.description, r.attribute_list.attributes@)
    &&& match (m.object_override, *r.object) {
        (mir::ObjectOverride::Register(o), ast::Object::Register(x)) => register_override_resolved(o, x),
        (mir::ObjectOverride::Command(o), ast::Object::Command(x)) => command_override_resolved(o, x, g),
        (mir::ObjectOverride::Buffer(o), ast::Object::Buffer(x)) => o.name == x.identifier
            && o.access == x.access && o.address == x.address,
        (mir::ObjectOverride::Block(o), ast::Object::Block(x)) => block_override_resolved(o, x),
        _ => false,
    }
}

/// Resolves a ref. A ref to another ref is an error.
pub fn transform_ref(r: &ast::RefObject, g: &mir::GlobalConfig) -> (out: Result<
    mir::RefObject,
    TransformError,
>)
    ensures
        cfg_count(r.attribute_list.attributes@) > 1 ==> (out matches Err(e) && e.message@ == cfg_message(
            r.attribute_list.attributes@,
        )),
        out is Ok <==> ref_ok(*r),
        (cfg_count(r.attribute_list.attributes@) <= 1 && *r.object is Ref) ==> (out matches Err(e)
            && e.kind == TransformErrorKind::RefToRef && e.subject == r.identifier && e.message@
            == quoted_text("Ref "@, r.identifier@, " cannot ref another ref object"@)),
        out matches Ok(m) ==> ref_resolved(m, *r, *g),
{
    let cfg_attr = get_cfg_attr(&r.attribute_list, &r.identifier)?;
    let description = description_of(&r.attribute_list);
    let object_override = match &*r.object {
        ast::Object::Block(b) => mir::ObjectOverride::Block(transform_block_override(b)?),
        ast::Object::Register(x) => mir::ObjectOverride::Register(transform_register_override(x)?),
        ast::Object::Command(c) => mir::ObjectOverride::Command(transform_command_override(c, g)?),
        ast::Object::Buffer(b) => mir::ObjectOverride::Buffer(transform_buffer_override(b)),
        ast::Object::Ref(_) => {
            return Err(
                error(
                    TransformErrorKind::RefToRef,
                    &r.identifier,
                    quoted("Ref ", &r.identifier, " cannot ref another ref object"),
                ),
            );
        },
    };
    Ok(mir::RefObject { cfg_attr, description, name: r.identifier.clone(), object_override })
}

/// `m` is the object `o` resolved with the defaults of `g`.
pub open spec fn object_resolved(m: mir::Object, o: ast::Object, g: mir::GlobalConfig) -> bool {
    match (m, o) {
        (mir::Object::Register(m), ast::Object::Register(r)) => register_resolved(m, r, g),
        (mir::Object::Command(m), ast::Object::Command(c)) => command_resolved(m, c, g),
        (mir::Object::Buffer(m), ast::Object::Buffer(b)) => buffer_resolved(m, b, g),
        (mir::Object::Block(m), ast::Object::Block(b)) => block_resolved(m, b),
        (mir::Object::Ref(m), ast::Object::Ref(r)) => ref_resolved(m, r, g),
        _ => false,
    }
}

/// The message for too many `cfg` attributes.
pub open spec fn cfg_message(a: Seq<ast::Attribute>) -> Seq<char> {
    "Only one cfg attribute is allowed, but "@ + decimal_text(cfg_count(a)) + " are found"@
}

/// `e` is the error that the first rule an object breaks gives, for the
/// rules checked first: the command's value, the `cfg` count, the address of
/// a buffer or command, and a ref's target.
pub open spec fn object_error_fits(o: ast::Object, e: TransformError) -> bool {
    match o {
        ast::Object::Buffer(b) => if cfg_count(b.attribute_list.attributes@) > 1 {
            e.message@ == cfg_message(b.attribute_list.attributes@)
        } else if b.address is None {
            e.message@ == quoted_text("Buffer "@, b.identifier@, " must have an address"@)
        } else {
            true
        },
        ast::Object::Command(c) => if c.value is None {
            e.message@ == quoted_text("Command "@, c.identifier@, " must have a value"@)
        } else if cfg_count(c.attribute_list.attributes@) > 1 {
            e.message@ == cfg_message(c.attribute_list.attributes@)
        } else if command_address(c) is None {
            e.message@ == quoted_text("Command "@, c.identifier@, " must have an address"@)
        } else {
            true
        },
        ast::Object::Register(r) => cfg_count(r.attribute_list.attributes@) > 1 ==> e.message@
            == cfg_message(r.attribute_list.attributes@),
        ast::Object::Block(b) => cfg_count(b.attribute_list.attributes@) > 1 ==> e.message@
            == cfg_message(b.attribute_list.attributes@),
        ast::Object::Ref(r) => if cfg_count(r.attribute_list.attributes@) > 1 {
            e.message@ == cfg_message(r.attribute_list.attributes@)
        } else if *r.object is Ref {
            e.message@ == quoted_text("Ref "@, r.identifier@, " cannot ref another ref object"@)
        } else {
            true
        },
    }
}

/// The first object of `os` that does not resolve is `os[i]`, and `e` is its
/// error.
pub open spec fn first_error_at(os: Seq<ast::Object>, depth: nat, e: TransformError, i: int) -> bool {
    &&& 0 <= i < os.len()
    &&& forall|j: int| 0 <= j < i ==> object_ok(#[trigger] os[j], depth)
    &&& !object_ok(os[i], depth)
    &&& object_error_fits(os[i], e)
}

/// Resolves every object of a list, in order.
pub fn transform_object_list(list: &ast::ObjectList, g: &mir::GlobalConfig, depth: usize) -> (r: Result<
    Vec<mir::Object>,
    TransformError,
>)
    ensures
        r matches Err(e) ==> exists|i: int| first_error_at(list.objects@, depth as nat, e, i),
        r is Ok <==> objects_ok(list.objects@, depth as nat),
        r matches Ok(v) ==> v@.len() == list.objects@.len() && forall|i: int|
            0 <= i < v@.len() ==> object_resolved(#[trigger] v@[i], list.objects@[i], *g),
    decreases depth, 1nat,
{
    let objs = &list.objects;
    let mut out: Vec<mir::Object> = Vec::new();
    let mut i: usize = 0;
    while i < objs.len()
        invariant
            objs@ == list.objects@,
            i <= objs@.len(),
            out@.len() == i,
            forall|j: int| 0 <= j < i ==> object_resolved(#[trigger] out@[j], objs@[j], *g),
            forall|j: int| 0 <= j < i ==> object_ok(#[trigger] objs@[j], depth as nat),
        decreases objs@.len() - i,
    {
        let o = match &objs[i] {
            ast::Object::Block(b) => match transform_block(b, g, depth) {
                Ok(m) => mir::Object::Block(m),
                Err(e) => {
                    assert(first_error_at(objs@, depth as nat, e, i as int));
                    return Err(e);
                },
            },
            ast::Object::Register(x) => match transform_register(x, g) {
                Ok(m) => mir::Object::Register(m),
                Err(e) => {
                    assert(first_error_at(objs@, depth as nat, e, i as int));
                    return Err(e);
                },
            },
            ast::Object::Command(c) => match transform_command(c, g) {
                Ok(m) => mir::Object::Command(m),
                Err(e) => {
                    assert(first_error_at(objs@, depth as nat, e, i as int));
                    return Err(e);
                },
            },
            ast::Object::Buffer(b) => match transform_buffer(b, g) {
                Ok(m) => mir::Object::Buffer(m),
                Err(e) => {
                    assert(first_error_at(objs@, depth as nat, e, i as int));
                    return Err(e);
                },
            },
            ast::Object::Ref(x) => match transform_ref(x, g) {
                Ok(m) => mir::Object::Ref(m),
                Err(e) => {
                    assert(first_error_at(objs@, depth as nat, e, i as int));
                    return Err(e);
                },
            },
        };
        out.push(o);
        i = i + 1;
    }
    Ok(out)
}

/// `d` is the device `a` resolved: its configuration folded, and each
/// object resolved with it.
pub open spec fn device_resolved(d: mir::Device, a: ast::Device) -> bool {
    &&& config_resolved(d.global_config, a.global_config_list.configs@)
    &&& d.objects@.len() == a.object_list.objects@.len()
    &&& forall|i: int|
        0 <= i < d.objects@.len() ==> object_resolved(
            #[trigger] d.objects@[i],
            a.object_list.objects@[i],
            d.global_config,
        )
}

/// A device resolves: its configuration is valid and every object resolves.
pub open spec fn device_ok(a: ast::Device) -> bool {
    &&& configs_unique(a.global_config_list.configs@)
    &&& configs_valid(a.global_config_list.configs@)
    &&& objects_ok(a.object_list.objects@, usize::MAX as nat)
}

/// Resolves a whole device: first the global configuration, then every
/// object in order.
pub fn transform(device: &ast::Device) -> (r: Result<mir::Device, TransformError>)
    ensures
        !configs_unique(device.global_config_list.configs@) ==> (r matches Err(e) && exists|i: int|
            0 <= i < device.global_config_list.configs@.len() && has_later_duplicate(
                device.global_config_list.configs@,
                i,
            ) && (forall|h: int|
                0 <= h < i ==> !has_later_duplicate(device.global_config_list.configs@, h))
                && e.message@ == quoted_text(
                "Duplicate global config found: "@,
                config_text_spec(device.global_config_list.configs@[i]),
                ""@,
            )),
        (configs_unique(device.global_config_list.configs@) && configs_valid(
            device.global_config_list.configs@,
        )) ==> (r matches Err(e) ==> exists|i: int|
            first_error_at(device.object_list.objects@, usize::MAX as nat, e, i)),
        r is Ok <==> device_ok(*device),
        !configs_unique(device.global_config_list.configs@) ==> (r matches Err(e) && e.kind
            == TransformErrorKind::DuplicateGlobalConfig),
        r matches Ok(d) ==> device_resolved(d, *device),
{
    let global_config = global_config(&device.global_config_list)?;
    let objects = transform_object_list(&device.object_list, &global_config, usize::MAX)?;
    Ok(mir::Device { global_config, objects })
}

} // verus!
