//! Little-endian bit fields inside byte buffers.
//!
//! Bit `i` of a buffer is bit `i % 8` of byte `i / 8`, counting from the least
//! significant bit, which is the layout DBC files call Intel byte order.
use vstd::arithmetic::power2::pow2;
use vstd::bits::{low_bits_mask, lemma_u64_low_bits_mask_is_mod, lemma_u64_pow2_no_overflow, lemma_u64_shl_is_mul};
use vstd::prelude::*;

verus! {

/// Bit `i` of `buf` (0 or 1).
pub open spec fn buffer_bit(buf: Seq<u8>, i: int) -> u64 {
    ((buf[i / 8] >> ((i % 8) as u8)) & 1u8) as u64
}

/// Bit `k` of `w` (0 or 1).
pub open spec fn word_bit(w: u64, k: int) -> u64 {
    (w >> (k as u64)) & 1u64
}

/// The field `[start, start + len)` lies inside a buffer of `buf_len` bytes and
/// its bit positions can be counted in 16 bits.
pub open spec fn field_in_bounds(buf_len: nat, start: u16, len: u16) -> bool {
    &&& len <= 64
    &&& start + len <= 8 * buf_len
    &&& start + len <= 0x10000
}

/// `value` holds in bits `0..len` the field `[start, start + len)` of `buf`
/// and zeros above.
pub open spec fn extracts(buf: Seq<u8>, start: int, len: int, value: u64) -> bool {
    forall|k: int|
        0 <= k < 64 ==> #[trigger] word_bit(value, k) == if k < len {
            buffer_bit(buf, start + k)
        } else {
            0
        }
}

/// `after` is `before` with the field `[start, start + len)` replaced by the
/// low `len` bits of `value`.
pub open spec fn inserts(before: Seq<u8>, after: Seq<u8>, start: int, len: int, value: u64) -> bool {
    &&& after.len() == before.len()
    &&& forall|i: int|
        0 <= i < 8 * before.len() ==> #[trigger] buffer_bit(after, i) == if start <= i < start
            + len {
            word_bit(value, i - start)
        } else {
            buffer_bit(before, i)
        }
}

/// The number whose bit `k` is bit `start + k` of `buf` for `k < len`, with
/// no bit set from `len` on.
pub open spec fn field_value(buf: Seq<u8>, start: int, len: nat) -> u64
    decreases len,
{
    if len == 0 {
        0
    } else {
        field_value(buf, start, (len - 1) as nat) | (buffer_bit(buf, start + len - 1) << ((len
            - 1) as u64))
    }
}

/// The low `len` bits of `value` (all of it when `len >= 64`).
pub open spec fn low_bits(value: u64, len: int) -> u64 {
    if len >= 64 {
        value
    } else if len <= 0 {
        0
    } else {
        (value % (pow2(len as nat) as u64)) as u64
    }
}

proof fn lemma_shr_step(a: u64, n: u64)
    requires
        1 <= n < 64,
    ensures
        a >> ((n - 1) as u64) == ((a >> n) << 1u64) | ((a >> ((n - 1) as u64)) & 1),
{
    assert(a >> ((n - 1) as u64) == ((a >> n) << 1u64) | ((a >> ((n - 1) as u64)) & 1))
        by (bit_vector)
        requires
            1 <= n < 64,
    ;
}

proof fn lemma_top_bit(a: u64)
    ensures
        a >> 63u64 == (a >> 63u64) & 1,
{
    assert(a >> 63u64 == (a >> 63u64) & 1) by (bit_vector);
}

proof fn lemma_shr_zero(a: u64)
    ensures
        a >> 0u64 == a,
{
    assert(a >> 0u64 == a) by (bit_vector);
}

proof fn lemma_words_agree_from(a: u64, b: u64, n: u64)
    requires
        n < 64,
        forall|k: int| 0 <= k < 64 ==> #[trigger] word_bit(a, k) == word_bit(b, k),
    ensures
        a >> n == b >> n,
    decreases 64 - n,
{
    if n == 63 {
        lemma_top_bit(a);
        lemma_top_bit(b);
        assert(word_bit(a, 63) == word_bit(b, 63));
    } else {
        lemma_words_agree_from(a, b, (n + 1) as u64);
        lemma_shr_step(a, (n + 1) as u64);
        lemma_shr_step(b, (n + 1) as u64);
        assert(word_bit(a, n as int) == word_bit(b, n as int));
    }
}

/// A word is determined by its 64 bits.
pub proof fn lemma_word_from_bits(a: u64, b: u64)
    requires
        forall|k: int| 0 <= k < 64 ==> #[trigger] word_bit(a, k) == word_bit(b, k),
    ensures
        a == b,
{
    lemma_words_agree_from(a, b, 0);
    lemma_shr_zero(a);
    lemma_shr_zero(b);
}

proof fn lemma_or_shifted_bit(v: u64, b: u64, off: u64, k: u64)
    requires
        b <= 1,
        off < 64,
        k < 64,
        (v >> off) & 1 == 0,
    ensures
        ((v | (b << off)) >> k) & 1 == if k == off { b } else { (v >> k) & 1 },
{
    assert(((v | (b << off)) >> k) & 1 == if k == off { b } else { (v >> k) & 1 })
        by (bit_vector)
        requires
            b <= 1,
            off < 64,
            k < 64,
            (v >> off) & 1 == 0,
    ;
}

proof fn lemma_zero_bits(k: u64)
    requires
        k < 64,
    ensures
        (0u64 >> k) & 1 == 0,
{
    assert((0u64 >> k) & 1 == 0) by (bit_vector);
}

proof fn lemma_byte_bit(x: u8, q: u8)
    requires
        q < 8,
    ensures
        (x >> q) & 1 <= 1,
{
    assert((x >> q) & 1 <= 1) by (bit_vector);
}

/// `field_value` has the bits that `extracts` describes.
pub proof fn lemma_field_value_bits(buf: Seq<u8>, start: int, len: nat)
    requires
        len <= 64,
        0 <= start,
        start + len <= 8 * buf.len(),
    ensures
        extracts(buf, start, len as int, field_value(buf, start, len)),
    decreases len,
{
    if len == 0 {
        assert forall|k: int| 0 <= k < 64 implies #[trigger] word_bit(0, k) == 0 by {
            lemma_zero_bits(k as u64);
        }
    } else {
        let prev = field_value(buf, start, (len - 1) as nat);
        lemma_field_value_bits(buf, start, (len - 1) as nat);
        let i = start + len - 1;
        lemma_byte_bit(buf[i / 8], (i % 8) as u8);
        assert(word_bit(prev, len - 1) == 0);
        assert forall|k: int| 0 <= k < 64 implies #[trigger] word_bit(
            field_value(buf, start, len),
            k,
        ) == if k < len {
            buffer_bit(buf, start + k)
        } else {
            0
        } by {
            lemma_or_shifted_bit(prev, buffer_bit(buf, i), (len - 1) as u64, k as u64);
            assert(word_bit(prev, k) == if k < len - 1 {
                buffer_bit(buf, start + k)
            } else {
                0
            });
        }
    }
}

/// Reads `bit_len` bits of `buffer` starting at bit `start_bit`; the first bit
/// read becomes bit 0 of the result.
pub fn extract_bits(buffer: &[u8], start_bit: u16, bit_len: u16) -> (value: u64)
    requires
        field_in_bounds(buffer@.len(), start_bit, bit_len),
    ensures
        value == field_value(buffer@, start_bit as int, bit_len as nat),
{
    let mut value = 0u64;
    assert forall|k: int| 0 <= k < 64 implies #[trigger] word_bit(value, k) == 0 by {
        lemma_zero_bits(k as u64);
    }
    let mut offset: u16 = 0;
    while offset < bit_len
        invariant
            field_in_bounds(buffer@.len(), start_bit, bit_len),
            offset <= bit_len,
            forall|k: int|
                0 <= k < 64 ==> #[trigger] word_bit(value, k) == if k < offset {
                    buffer_bit(buffer@, start_bit + k)
                } else {
                    0
                },
        decreases bit_len - offset,
    {
        let absolute = start_bit + offset;
        let byte_index = (absolute / 8) as usize;
        let bit_index = (absolute % 8) as u8;
        let bit = (buffer[byte_index] >> bit_index) & 1;
        proof {
            lemma_byte_bit(buffer@[byte_index as int], bit_index);
        }
        let ghost old_value = value;
        assert(word_bit(old_value, offset as int) == 0);
        value = value | ((bit as u64) << (offset as u64));
        assert forall|k: int|
            0 <= k < 64 implies #[trigger] word_bit(value, k) == if k < offset + 1 {
                buffer_bit(buffer@, start_bit + k)
            } else {
                0
            } by {
            lemma_or_shifted_bit(old_value, bit as u64, offset as u64, k as u64);
            assert(word_bit(old_value, k) == if k < offset {
                buffer_bit(buffer@, start_bit + k)
            } else {
                0
            });
            if k == offset {
                assert(buffer_bit(buffer@, start_bit + k) == bit as u64);
            }
        }
        offset = offset + 1;
    }
    proof {
        lemma_field_value_bits(buffer@, start_bit as int, bit_len as nat);
        lemma_extracts_unique(buffer@, start_bit as int, bit_len as int, value, field_value(
            buffer@,
            start_bit as int,
            bit_len as nat,
        ));
    }
    value
}

proof fn lemma_set_byte_bit(x: u8, p: u8, q: u8)
    requires
        p < 8,
        q < 8,
    ensures
        ((x | (1u8 << p)) >> q) & 1 == if q == p { 1u8 } else { (x >> q) & 1 },
        ((x & !(1u8 << p)) >> q) & 1 == if q == p { 0u8 } else { (x >> q) & 1 },
{
    assert(((x | (1u8 << p)) >> q) & 1 == if q == p { 1u8 } else { (x >> q) & 1 })
        by (bit_vector)
        requires
            p < 8,
            q < 8,
    ;
    assert(((x & !(1u8 << p)) >> q) & 1 == if q == p { 0u8 } else { (x >> q) & 1 })
        by (bit_vector)
        requires
            p < 8,
            q < 8,
    ;
}

proof fn lemma_word_bit_range(w: u64, k: u64)
    requires
        k < 64,
    ensures
        (w >> k) & 1 <= 1,
{
    assert((w >> k) & 1 <= 1) by (bit_vector);
}

/// Writes the low `bit_len` bits of `value` into `buffer` starting at bit
/// `start_bit`; every other bit of the buffer keeps its value.
pub fn insert_bits(buffer: &mut [u8], start_bit: u16, bit_len: u16, value: u64)
    requires
        field_in_bounds(old(buffer)@.len(), start_bit, bit_len),
    ensures
        inserts(old(buffer)@, final(buffer)@, start_bit as int, bit_len as int, value),
{
    let ghost initial = buffer@;
    let mut offset: u16 = 0;
    while offset < bit_len
        invariant
            field_in_bounds(initial.len(), start_bit, bit_len),
            buffer@.len() == initial.len(),
            offset <= bit_len,
            forall|i: int|
                0 <= i < 8 * initial.len() ==> #[trigger] buffer_bit(buffer@, i) == if start_bit
                    <= i < start_bit + offset {
                    word_bit(value, i - start_bit)
                } else {
                    buffer_bit(initial, i)
                },
        decreases bit_len - offset,
    {
        let bit = ((value >> (offset as u64)) & 1) as u8;
        proof {
            lemma_word_bit_range(value, offset as u64);
        }
        let absolute = start_bit + offset;
        let byte_index = (absolute / 8) as usize;
        let bit_index = (absolute % 8) as u8;
        let ghost before = buffer@;
        if bit == 1 {
            buffer[byte_index] = buffer[byte_index] | (1u8 << bit_index);
        } else {
            buffer[byte_index] = buffer[byte_index] & !(1u8 << bit_index);
        }
        assert forall|i: int|
            0 <= i < 8 * initial.len() implies #[trigger] buffer_bit(buffer@, i) == if start_bit
                <= i < start_bit + offset + 1 {
                word_bit(value, i - start_bit)
            } else {
                buffer_bit(initial, i)
            } by {
            assert(buffer_bit(before, i) == if start_bit <= i < start_bit + offset {
                word_bit(value, i - start_bit)
            } else {
                buffer_bit(initial, i)
            });
            if i / 8 == byte_index as int {
                lemma_set_byte_bit(before[byte_index as int], bit_index, (i % 8) as u8);
            } else {
                assert(buffer@[i / 8] == before[i / 8]);
            }
        }
        offset = offset + 1;
    }
}

/// `1 << n` is `2^n`.
pub proof fn lemma_shl_one(n: u64)
    requires
        n < 64,
    ensures
        1u64 << n == pow2(n as nat),
        pow2(n as nat) <= 0x8000_0000_0000_0000,
{
    lemma_u64_pow2_no_overflow(n as nat);
    lemma_u64_shl_is_mul(1, n);
    vstd::arithmetic::power2::lemma2_to64_rest();
    if n < 63 {
        vstd::arithmetic::power2::lemma_pow2_strictly_increases(n as nat, 63);
    }
}

/// Masking with `2^n - 1` keeps the remainder modulo `2^n`.
pub proof fn lemma_mask_is_mod(x: u64, n: u64)
    requires
        n < 64,
    ensures
        x & (((1u64 << n) - 1) as u64) == x % (pow2(n as nat) as u64),
{
    lemma_shl_one(n);
    vstd::arithmetic::power2::lemma_pow2_pos(n as nat);
    lemma_u64_low_bits_mask_is_mod(x, n as nat);
    assert(low_bits_mask(n as nat) as u64 == ((1u64 << n) - 1) as u64);
}

proof fn lemma_mask_bit(v: u64, n: u64, k: u64)
    requires
        n < 64,
        k < 64,
    ensures
        ((v & (((1u64 << n) - 1) as u64)) >> k) & 1 == if k < n { (v >> k) & 1 } else { 0 },
{
    assert(((v & (((1u64 << n) - 1) as u64)) >> k) & 1 == if k < n { (v >> k) & 1 } else { 0 })
        by (bit_vector)
        requires
            n < 64,
            k < 64,
    ;
}

/// Bit `k` of `low_bits(v, n)`.
pub proof fn lemma_low_bits_bit(v: u64, n: int, k: int)
    requires
        0 <= k < 64,
    ensures
        word_bit(low_bits(v, n), k) == if k < n { word_bit(v, k) } else { 0 },
{
    if n >= 64 {
    } else if n <= 0 {
        lemma_zero_bits(k as u64);
    } else {
        lemma_mask_is_mod(v, n as u64);
        lemma_mask_bit(v, n as u64, k as u64);
    }
}

/// A field of a buffer has exactly one value: the contract of `extract_bits`
/// pins its result.
pub proof fn lemma_extracts_unique(buf: Seq<u8>, start: int, len: int, a: u64, b: u64)
    requires
        extracts(buf, start, len, a),
        extracts(buf, start, len, b),
    ensures
        a == b,
{
    assert forall|k: int| 0 <= k < 64 implies #[trigger] word_bit(a, k) == word_bit(b, k) by {
        assert(word_bit(a, k) == word_bit(b, k));
    }
    lemma_word_from_bits(a, b);
}

/// Every field of a buffer of zero bytes is zero.
pub proof fn lemma_zero_field(buf: Seq<u8>, start: int, len: nat)
    requires
        0 <= start,
        len <= 64,
        start + len <= 8 * buf.len(),
        forall|i: int| 0 <= i < buf.len() ==> #[trigger] buf[i] == 0,
    ensures
        field_value(buf, start, len) == 0,
{
    lemma_field_value_bits(buf, start, len);
    assert forall|k: int| 0 <= k < 64 implies #[trigger] word_bit(field_value(buf, start, len), k)
        == word_bit(0, k) by {
        lemma_zero_bits(k as u64);
        if k < len {
            let i = start + k;
            assert(buf[i / 8] == 0);
            let q = (i % 8) as u8;
            assert((0u8 >> q) & 1u8 == 0) by (bit_vector);
        }
    }
    lemma_word_from_bits(field_value(buf, start, len), 0);
}

/// Reading back a field that was just written gives the low `len` bits of the
/// written value.
pub proof fn law_extract_after_insert(
    before: Seq<u8>,
    after: Seq<u8>,
    start: int,
    len: nat,
    value: u64,
)
    requires
        0 <= start,
        len <= 64,
        start + len <= 8 * before.len(),
        inserts(before, after, start, len as int, value),
    ensures
        field_value(after, start, len) == low_bits(value, len as int),
{
    let read = field_value(after, start, len);
    lemma_field_value_bits(after, start, len);
    assert forall|k: int| 0 <= k < 64 implies #[trigger] word_bit(read, k) == word_bit(
        low_bits(value, len as int),
        k,
    ) by {
        lemma_low_bits_bit(value, len as int, k);
        if k < len {
            assert(buffer_bit(after, start + k) == word_bit(value, k));
        }
    }
    lemma_word_from_bits(read, low_bits(value, len as int));
}

/// Writing a field leaves every field that does not overlap it as it was.
pub proof fn law_insert_keeps_other_fields(
    before: Seq<u8>,
    after: Seq<u8>,
    start: int,
    len: int,
    value: u64,
    other_start: int,
    other_len: nat,
)
    requires
        0 <= other_start,
        other_len <= 64,
        other_start + other_len <= 8 * before.len(),
        other_start + other_len <= start || start + len <= other_start,
        inserts(before, after, start, len, value),
    ensures
        field_value(after, other_start, other_len) == field_value(before, other_start, other_len),
{
    let read = field_value(before, other_start, other_len);
    lemma_field_value_bits(before, other_start, other_len);
    lemma_field_value_bits(after, other_start, other_len);
    assert forall|k: int| 0 <= k < 64 implies #[trigger] word_bit(read, k) == if k < other_len {
        buffer_bit(after, other_start + k)
    } else {
        0
    } by {
        if k < other_len {
            assert(buffer_bit(after, other_start + k) == buffer_bit(before, other_start + k));
        }
    }
    lemma_extracts_unique(after, other_start, other_len as int, read, field_value(after, other_start, other_len));
}

} // verus!
