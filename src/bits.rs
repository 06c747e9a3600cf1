//! Packing and unpacking of field values in a byte buffer, under each of the
//! four combinations of byte order and bit order.
//!
//! Logical bit `i` of an `n`-byte buffer lives in byte `i / 8` (little endian)
//! or `n - 1 - i / 8` (big endian), at position `i % 8` counted from the least
//! significant bit (LSB0) or from the most significant bit (MSB0). A field
//! covering bits `[start, end)` has bit `start` as its least significant bit.

use vstd::prelude::*;
use vstd::arithmetic::div_mod::{lemma_div_denominator, lemma_mod_breakdown, lemma_small_mod};
use crate::ast::{BitOrder, ByteOrder};

verus! {

/// Two to the power `e`.
pub open spec fn two_pow(e: nat) -> nat
    decreases e,
{
    if e == 0 {
        1
    } else {
        2 * two_pow((e - 1) as nat)
    }
}

/// The byte that holds logical bit `i` of an `n`-byte buffer.
pub open spec fn byte_of(n: nat, i: nat, byte_order: ByteOrder) -> int {
    match byte_order {
        ByteOrder::LE => (i / 8) as int,
        ByteOrder::BE => n - 1 - (i / 8) as int,
    }
}

/// The position of logical bit `i` inside its byte, counted from the least
/// significant bit.
pub open spec fn shift_of(i: nat, bit_order: BitOrder) -> u8 {
    match bit_order {
        BitOrder::LSB0 => (i % 8) as u8,
        BitOrder::MSB0 => (7 - i % 8) as u8,
    }
}

pub open spec fn bit_is_set(b: u8, sh: u8) -> bool {
    (b >> sh) & 1u8 == 1u8
}

/// Logical bit `i` of the buffer.
pub open spec fn bit_at(buf: Seq<u8>, i: nat, byte_order: ByteOrder, bit_order: BitOrder) -> bool {
    bit_is_set(buf[byte_of(buf.len(), i, byte_order)], shift_of(i, bit_order))
}

/// The unsigned value held by the bits `[lo, hi)`, bit `lo` least significant.
pub open spec fn bits_value(
    buf: Seq<u8>,
    lo: nat,
    hi: nat,
    byte_order: ByteOrder,
    bit_order: BitOrder,
) -> nat
    decreases hi - lo,
{
    if lo >= hi {
        0
    } else {
        (if bit_at(buf, lo, byte_order, bit_order) {
            1nat
        } else {
            0nat
        }) + 2 * bits_value(buf, lo + 1, hi, byte_order, bit_order)
    }
}

/// Bit `j` of the number `v`.
pub open spec fn value_bit(v: nat, j: nat) -> bool {
    (v / two_pow(j)) % 2 == 1
}

/// A buffer of `n` bytes holds bit positions `[0, 8 * n)`.
pub open spec fn in_buffer(buf: Seq<u8>, start: nat, end: nat) -> bool {
    start <= end && end <= 8 * buf.len()
}

/// What `store` leaves in the buffer: the bits of `raw` in `[start, end)`, the
/// old bits everywhere else.
pub open spec fn stored(
    before: Seq<u8>,
    after: Seq<u8>,
    raw: nat,
    start: nat,
    end: nat,
    byte_order: ByteOrder,
    bit_order: BitOrder,
) -> bool {
    &&& after.len() == before.len()
    &&& forall|i: nat|
        i < 8 * before.len() ==> #[trigger] bit_at(after, i, byte_order, bit_order) == if start <= i
            && i < end {
            value_bit(raw, (i - start) as nat)
        } else {
            bit_at(before, i, byte_order, bit_order)
        }
}

/// The raw pattern that stands for a signed value in a field of `width` bits:
/// two's complement.
pub open spec fn twos_complement(v: int, width: nat) -> nat {
    if v < 0 {
        (v + two_pow(width)) as nat
    } else {
        v as nat
    }
}

/// The signed value that a raw pattern of `width` bits stands for.
pub open spec fn sign_extend(raw: nat, width: nat) -> int {
    if width > 0 && raw >= two_pow((width - 1) as nat) {
        raw - two_pow(width)
    } else {
        raw as int
    }
}

pub proof fn lemma_two_pow_add(a: nat, b: nat)
    ensures
        two_pow(a + b) == two_pow(a) * two_pow(b),
    decreases a,
{
    if a == 0 {
        assert(two_pow(0) == 1);
        assert(two_pow(a + b) == two_pow(b));
    } else {
        lemma_two_pow_add((a - 1) as nat, b);
        assert((a + b - 1) as nat == (a - 1) as nat + b);
        assert(two_pow(a + b) == 2 * two_pow((a + b - 1) as nat));
        assert(two_pow(a) * two_pow(b) == 2 * (two_pow((a - 1) as nat) * two_pow(b)))
            by (nonlinear_arith)
            requires
                two_pow(a) == 2 * two_pow((a - 1) as nat),
        ;
    }
}

pub proof fn lemma_two_pow_pos(a: nat)
    ensures
        two_pow(a) >= 1,
    decreases a,
{
    if a > 0 {
        lemma_two_pow_pos((a - 1) as nat);
    }
}

pub proof fn lemma_two_pow_mono(a: nat, b: nat)
    requires
        a <= b,
    ensures
        two_pow(a) <= two_pow(b),
{
    lemma_two_pow_add(a, (b - a) as nat);
    lemma_two_pow_pos((b - a) as nat);
    lemma_two_pow_pos(a);
    assert(two_pow(a) * 1 <= two_pow(a) * two_pow((b - a) as nat)) by (nonlinear_arith)
        requires
            two_pow((b - a) as nat) >= 1,
            two_pow(a) >= 1,
    ;
    assert(a + (b - a) as nat == b);
}

pub proof fn lemma_two_pow_64()
    ensures
        two_pow(8) == 0x100,
        two_pow(16) == 0x1_0000,
        two_pow(32) == 0x1_0000_0000,
        two_pow(63) == 0x8000_0000_0000_0000,
        two_pow(64) == 0x1_0000_0000_0000_0000,
{
    reveal_with_fuel(two_pow, 9);
    assert(two_pow(7) == 0x80);
    assert(two_pow(8) == 0x100);
    lemma_two_pow_add(8, 8);
    assert(two_pow(16) == 0x1_0000);
    lemma_two_pow_add(16, 16);
    assert(two_pow(32) == 0x1_0000 * 0x1_0000);
    lemma_two_pow_add(32, 32);
    assert(two_pow(64) == 0x1_0000_0000 * 0x1_0000_0000);
    lemma_two_pow_add(8, 7);
    assert(two_pow(15) == 0x8000);
    lemma_two_pow_add(16, 15);
    assert(two_pow(31) == 0x8000_0000);
    lemma_two_pow_add(32, 31);
    assert(two_pow(63) == 0x1_0000_0000 * 0x8000_0000);
}

/// The value of `hi - lo` bits is below `2^(hi - lo)`.
pub proof fn lemma_bits_value_bound(
    buf: Seq<u8>,
    lo: nat,
    hi: nat,
    byte_order: ByteOrder,
    bit_order: BitOrder,
)
    requires
        lo <= hi,
    ensures
        bits_value(buf, lo, hi, byte_order, bit_order) < two_pow((hi - lo) as nat),
    decreases hi - lo,
{
    if lo < hi {
        lemma_bits_value_bound(buf, lo + 1, hi, byte_order, bit_order);
        assert(two_pow((hi - lo) as nat) == 2 * two_pow((hi - (lo + 1)) as nat));
    }
}

/// Bits that agree with the bits of `v` (offset by `start`) hold the
/// corresponding slice of `v`.
pub proof fn lemma_bits_value_of_pattern(
    buf: Seq<u8>,
    lo: nat,
    hi: nat,
    start: nat,
    v: nat,
    byte_order: ByteOrder,
    bit_order: BitOrder,
)
    requires
        start <= lo <= hi,
        forall|i: nat|
            lo <= i < hi ==> #[trigger] bit_at(buf, i, byte_order, bit_order) == value_bit(
                v,
                (i - start) as nat,
            ),
    ensures
        bits_value(buf, lo, hi, byte_order, bit_order) == (v / two_pow((lo - start) as nat))
            % two_pow((hi - lo) as nat),
    decreases hi - lo,
{
    let k = (lo - start) as nat;
    let w = v / two_pow(k);
    lemma_two_pow_pos(k);
    if lo < hi {
        lemma_bits_value_of_pattern(buf, lo + 1, hi, start, v, byte_order, bit_order);
        let m = (hi - lo - 1) as nat;
        lemma_two_pow_pos(m);
        assert(two_pow(k + 1) == 2 * two_pow(k));
        assert((lo + 1 - start) as nat == k + 1);
        assert(two_pow(k + 1) == two_pow(k) * 2);
        lemma_div_denominator(v as int, two_pow(k) as int, 2);
        assert(v / two_pow(k + 1) == w / 2);
        lemma_mod_breakdown(w as int, 2, two_pow(m) as int);
        assert((hi - lo) as nat == m + 1);
        assert(two_pow(m + 1) == 2 * two_pow(m));
        assert(bit_at(buf, lo, byte_order, bit_order) == value_bit(v, k));
    } else {
        assert(two_pow(0) == 1);
    }
}

/// Distinct logical bits live at distinct places.
pub proof fn lemma_place_injective(n: nat, i: nat, j: nat, byte_order: ByteOrder, bit_order: BitOrder)
    requires
        i < 8 * n,
        j < 8 * n,
        i != j,
    ensures
        byte_of(n, i, byte_order) != byte_of(n, j, byte_order) || shift_of(i, bit_order)
            != shift_of(j, bit_order),
{
    assert(i == 8 * (i / 8) + i % 8);
    assert(j == 8 * (j / 8) + j % 8);
}

proof fn lemma_byte_update(b: u8, sh: u8, s: u8)
    requires
        sh < 8,
        s < 8,
    ensures
        bit_is_set(b | (1u8 << sh), s) == (s == sh || bit_is_set(b, s)),
        bit_is_set(b & !(1u8 << sh), s) == (s != sh && bit_is_set(b, s)),
{
    assert(((b | (1u8 << sh)) >> s) & 1u8 == 1u8 <==> (s == sh || (b >> s) & 1u8 == 1u8))
        by (bit_vector)
        requires
            sh < 8,
            s < 8,
    ;
    assert(((b & !(1u8 << sh)) >> s) & 1u8 == 1u8 <==> (s != sh && (b >> s) & 1u8 == 1u8))
        by (bit_vector)
        requires
            sh < 8,
            s < 8,
    ;
}

fn place(n: usize, i: usize, byte_order: ByteOrder, bit_order: BitOrder) -> (r: (usize, u8))
    requires
        i < 8 * n,
    ensures
        r.0 == byte_of(n as nat, i as nat, byte_order),
        r.0 < n,
        r.1 == shift_of(i as nat, bit_order),
        r.1 < 8,
{
    let idx = match byte_order {
        ByteOrder::LE => i / 8,
        ByteOrder::BE => n - 1 - i / 8,
    };
    let sh = match bit_order {
        BitOrder::LSB0 => (i % 8) as u8,
        BitOrder::MSB0 => 7 - (i % 8) as u8,
    };
    (idx, sh)
}

/// Reads logical bit `i` of the buffer.
pub fn get_bit(buf: &Vec<u8>, i: usize, byte_order: ByteOrder, bit_order: BitOrder) -> (r: bool)
    requires
        i < 8 * buf@.len(),
    ensures
        r == bit_at(buf@, i as nat, byte_order, bit_order),
{
    let (idx, sh) = place(buf.len(), i, byte_order, bit_order);
    (buf[idx] >> sh) & 1u8 == 1u8
}

/// Sets logical bit `i` of the buffer to `val` and leaves every other bit.
pub fn set_bit(buf: &mut Vec<u8>, i: usize, val: bool, byte_order: ByteOrder, bit_order: BitOrder)
    requires
        i < 8 * old(buf)@.len(),
    ensures
        final(buf)@.len() == old(buf)@.len(),
        forall|j: nat|
            j < 8 * old(buf)@.len() ==> #[trigger] bit_at(final(buf)@, j, byte_order, bit_order)
                == if j == i {
                val
            } else {
                bit_at(old(buf)@, j, byte_order, bit_order)
            },
{
    let ghost before = buf@;
    let (idx, sh) = place(buf.len(), i, byte_order, bit_order);
    let b = buf[idx];
    let nb = if val {
        b | (1u8 << sh)
    } else {
        b & !(1u8 << sh)
    };
    buf.set(idx, nb);
    proof {
        let n = before.len();
        assert forall|j: nat| j < 8 * n implies #[trigger] bit_at(buf@, j, byte_order, bit_order)
            == if j == i {
            val
        } else {
            bit_at(before, j, byte_order, bit_order)
        } by {
            let bj = byte_of(n, j, byte_order);
            let sj = shift_of(j, bit_order);
            assert(sj < 8);
            lemma_byte_update(b, sh, sj);
            if j != i {
                lemma_place_injective(n, i as nat, j, byte_order, bit_order);
            }
        }
    }
}

/// The number `2^w - 1`, for `w <= 64`.
pub fn low_mask(w: u32) -> (r: u64)
    requires
        w <= 64,
    ensures
        r == two_pow(w as nat) - 1,
{
    let mut m: u64 = 0;
    let mut j: u32 = 0;
    while j < w
        invariant
            j <= w <= 64,
            m == two_pow(j as nat) - 1,
        decreases w - j,
    {
        proof {
            lemma_two_pow_64();
            lemma_two_pow_mono((j + 1) as nat, 64);
            assert(two_pow((j + 1) as nat) == 2 * two_pow(j as nat));
        }
        m = m * 2 + 1;
        j = j + 1;
    }
    m
}

/// Reads the unsigned value of the bits `[start, end)`.
pub fn load_bits(
    buf: &Vec<u8>,
    start: usize,
    end: usize,
    byte_order: ByteOrder,
    bit_order: BitOrder,
) -> (r: u64)
    requires
        in_buffer(buf@, start as nat, end as nat),
        end - start <= 64,
    ensures
        r == bits_value(buf@, start as nat, end as nat, byte_order, bit_order),
{
    let mut v: u64 = 0;
    let mut k: usize = end;
    while k > start
        invariant
            start <= k <= end,
            end <= 8 * buf@.len(),
            end - start <= 64,
            v == bits_value(buf@, k as nat, end as nat, byte_order, bit_order),
        decreases k,
    {
        k = k - 1;
        let b = get_bit(buf, k, byte_order, bit_order);
        proof {
            lemma_bits_value_bound(buf@, (k + 1) as nat, end as nat, byte_order, bit_order);
            lemma_two_pow_mono((end - k - 1) as nat, 63);
            lemma_two_pow_64();
        }
        v = v * 2 + if b {
            1
        } else {
            0
        };
    }
    v
}

/// Writes `value` into the bits `[start, end)` and leaves every other bit.
/// Bits of `value` above the field's width are dropped.
pub fn store_bits(
    value: u64,
    start: usize,
    end: usize,
    byte_order: ByteOrder,
    bit_order: BitOrder,
    buf: &mut Vec<u8>,
)
    requires
        in_buffer(old(buf)@, start as nat, end as nat),
        end - start <= 64,
    ensures
        stored(old(buf)@, final(buf)@, value as nat, start as nat, end as nat, byte_order, bit_order),
{
    let ghost before = buf@;
    let mut rest: u64 = value;
    let mut k: usize = start;
    assert(two_pow(0) == 1);
    assert((k - start) as nat == 0);
    assert(value as nat / two_pow(0) == value as nat);
    while k < end
        invariant
            start <= k <= end,
            end <= 8 * before.len(),
            buf@.len() == before.len(),
            rest as nat == value as nat / two_pow((k - start) as nat),
            forall|i: nat|
                i < 8 * before.len() ==> #[trigger] bit_at(buf@, i, byte_order, bit_order) == if start
                    <= i && i < k {
                    value_bit(value as nat, (i - start) as nat)
                } else {
                    bit_at(before, i, byte_order, bit_order)
                },
        decreases end - k,
    {
        let ghost j = (k - start) as nat;
        proof {
            lemma_two_pow_pos(j);
            lemma_div_denominator(value as int, two_pow(j) as int, 2);
            assert(two_pow(j + 1) == two_pow(j) * 2);
        }
        set_bit(buf, k, rest % 2 == 1, byte_order, bit_order);
        rest = rest / 2;
        k = k + 1;
        assert((k - start) as nat == j + 1);
    }
}

/// Reads the bits `[start, end)` as a two's complement signed value.
pub fn load_signed(
    buf: &Vec<u8>,
    start: usize,
    end: usize,
    byte_order: ByteOrder,
    bit_order: BitOrder,
) -> (r: i64)
    requires
        in_buffer(buf@, start as nat, end as nat),
        1 <= end - start <= 64,
    ensures
        r == sign_extend(
            bits_value(buf@, start as nat, end as nat, byte_order, bit_order),
            (end - start) as nat,
        ),
{
    let w = (end - start) as u32;
    let raw = load_bits(buf, start, end, byte_order, bit_order);
    let mask = low_mask(w);
    let half = low_mask(w - 1) + 1;
    proof {
        lemma_bits_value_bound(buf@, start as nat, end as nat, byte_order, bit_order);
        lemma_two_pow_64();
        lemma_two_pow_mono((w - 1) as nat, 63);
        assert(two_pow(w as nat) == 2 * two_pow((w - 1) as nat));
    }
    if raw >= half {
        let neg = (mask - raw) as i64;
        -neg - 1
    } else {
        raw as i64
    }
}

/// Writes a signed value into the bits `[start, end)` in two's complement
/// and leaves every other bit.
pub fn store_signed(
    value: i64,
    start: usize,
    end: usize,
    byte_order: ByteOrder,
    bit_order: BitOrder,
    buf: &mut Vec<u8>,
)
    requires
        in_buffer(old(buf)@, start as nat, end as nat),
        1 <= end - start <= 64,
        -two_pow((end - start - 1) as nat) <= value < two_pow((end - start - 1) as nat),
    ensures
        stored(
            old(buf)@,
            final(buf)@,
            twos_complement(value as int, (end - start) as nat),
            start as nat,
            end as nat,
            byte_order,
            bit_order,
        ),
{
    let w = (end - start) as u32;
    let mask = low_mask(w);
    proof {
        lemma_two_pow_64();
        lemma_two_pow_mono((w - 1) as nat, 63);
        assert(two_pow(w as nat) == 2 * two_pow((w - 1) as nat));
    }
    let raw: u64 = if value < 0 {
        let m = (-(value + 1)) as u64 + 1;
        mask - m + 1
    } else {
        value as u64
    };
    store_bits(raw, start, end, byte_order, bit_order, buf);
}

/// Loading a field after storing an unsigned value that fits its width gives
/// the value back, under every byte order and bit order.
pub proof fn lemma_round_trip(
    before: Seq<u8>,
    after: Seq<u8>,
    v: nat,
    start: nat,
    end: nat,
    byte_order: ByteOrder,
    bit_order: BitOrder,
)
    requires
        in_buffer(before, start, end),
        v < two_pow((end - start) as nat),
        stored(before, after, v, start, end, byte_order, bit_order),
    ensures
        bits_value(after, start, end, byte_order, bit_order) == v,
{
    assert forall|i: nat| start <= i < end implies #[trigger] bit_at(
        after,
        i,
        byte_order,
        bit_order,
    ) == value_bit(v, (i - start) as nat) by {}
    lemma_bits_value_of_pattern(after, start, end, start, v, byte_order, bit_order);
    assert(two_pow(0) == 1);
    assert((start - start) as nat == 0);
    assert(v / two_pow(0) == v);
    lemma_small_mod(v, two_pow((end - start) as nat));
}

/// Storing into a field changes no bit outside it.
pub proof fn lemma_store_keeps_other_bits(
    before: Seq<u8>,
    after: Seq<u8>,
    raw: nat,
    start: nat,
    end: nat,
    byte_order: ByteOrder,
    bit_order: BitOrder,
    i: nat,
)
    requires
        stored(before, after, raw, start, end, byte_order, bit_order),
        i < 8 * before.len(),
        i < start || end <= i,
    ensures
        bit_at(after, i, byte_order, bit_order) == bit_at(before, i, byte_order, bit_order),
{
}

/// Loading a signed field after storing a value in its range gives the value
/// back, negative values included.
pub proof fn lemma_signed_round_trip(
    before: Seq<u8>,
    after: Seq<u8>,
    v: int,
    start: nat,
    end: nat,
    byte_order: ByteOrder,
    bit_order: BitOrder,
)
    requires
        in_buffer(before, start, end),
        1 <= end - start,
        -two_pow((end - start - 1) as nat) <= v < two_pow((end - start - 1) as nat),
        stored(
            before,
            after,
            twos_complement(v, (end - start) as nat),
            start,
            end,
            byte_order,
            bit_order,
        ),
    ensures
        sign_extend(bits_value(after, start, end, byte_order, bit_order), (end - start) as nat)
            == v,
{
    let w = (end - start) as nat;
    assert(two_pow(w) == 2 * two_pow((w - 1) as nat));
    lemma_round_trip(before, after, twos_complement(v, w), start, end, byte_order, bit_order);
}

} // verus!
