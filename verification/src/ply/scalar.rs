//! Property values in binary vertex records.

use vstd::prelude::*;
#[allow(unused_imports)]
use vstd::arithmetic::power2::{
    lemma2_to64, lemma2_to64_rest, lemma_pow2_adds, lemma_pow2_strictly_increases, pow2,
};
use crate::binary64::{one, single_finite, single_nan, single_units, Real};
use crate::ply::types::PropertyType;

verus! {

/// The number that `bytes` write, least significant byte first.
pub open spec fn little_endian(bytes: Seq<u8>) -> nat
    decreases bytes.len(),
{
    if bytes.len() == 0 {
        0
    } else {
        bytes[0] as nat + 256 * little_endian(bytes.drop_first())
    }
}

/// The number that `bytes` write, most significant byte first.
pub open spec fn big_endian(bytes: Seq<u8>) -> nat
    decreases bytes.len(),
{
    if bytes.len() == 0 {
        0
    } else {
        256 * big_endian(bytes.drop_last()) + bytes.last() as nat
    }
}

/// The number that `bytes` write in the given byte order.
pub open spec fn stored_number(bytes: Seq<u8>, little: bool) -> nat {
    if little {
        little_endian(bytes)
    } else {
        big_endian(bytes)
    }
}

/// The two's complement reading of `n` among `range` numbers.
pub open spec fn signed(n: nat, range: nat) -> int {
    if 2 * n < range {
        n as int
    } else {
        n - range
    }
}

/// The integer that the bytes of a value of an integer type write.
pub open spec fn stored_integer(bytes: Seq<u8>, data_type: PropertyType, little: bool) -> int {
    let n = stored_number(bytes.take(data_type.size() as int), little);
    match data_type {
        PropertyType::Char => signed(n, 0x100),
        PropertyType::Short => signed(n, 0x1_0000),
        PropertyType::Int => signed(n, 0x1_0000_0000),
        _ => n as int,
    }
}

/// Whether `value` is the value of type `data_type` that `bytes` begin with.
/// A NaN need not keep its payload where it changes its width.
pub open spec fn is_stored(
    value: Real,
    bytes: Seq<u8>,
    data_type: PropertyType,
    little: bool,
) -> bool {
    let n = stored_number(bytes.take(data_type.size() as int), little);
    match data_type {
        PropertyType::Double => value.bits == n,
        PropertyType::Float => {
            &&& value.nan() == single_nan(n as u32)
            &&& value.finite() == single_finite(n as u32)
            &&& value.negative() == (n >= 0x8000_0000)
            &&& value.finite() ==> value.units() == single_units(n as u32) * pow2(925)
        },
        _ => {
            let v = stored_integer(bytes, data_type, little);
            &&& value.finite()
            &&& value.negative() == (v < 0)
            &&& value.units() == v * one()
        },
    }
}

proof fn lemma_byte_bound(v: nat, i: nat, b: u8)
    requires
        i < 8,
        v < pow2(8 * i),
    ensures
        256 * v + b < pow2(8 * (i + 1)),
        pow2(8 * (i + 1)) <= 0x1_0000_0000_0000_0000,
{
    lemma2_to64();
    lemma2_to64_rest();
    lemma_pow2_adds(8 * i, 8);
    assert(8 * i + 8 == 8 * (i + 1));
    if 8 * (i + 1) < 64 {
        lemma_pow2_strictly_increases(8 * (i + 1), 64);
    }
}

/// The number that the first `size` bytes write.
pub fn read_unsigned(bytes: &[u8], size: usize, is_le: bool) -> (res: u64)
    requires
        size <= 8,
        size <= bytes@.len(),
    ensures
        res == stored_number(bytes@.take(size as int), is_le),
        res < pow2(8 * size as nat),
{
    let ghost stored = bytes@.take(size as int);
    let mut value: u64 = 0;
    let mut i: usize = 0;
    proof {
        lemma2_to64();
    }
    if is_le {
        assert(stored.skip(size as int) =~= Seq::<u8>::empty());
        while i < size
            invariant
                i <= size <= 8,
                size <= bytes@.len(),
                stored == bytes@.take(size as int),
                value == little_endian(stored.skip(size - i)),
                value < pow2(8 * i as nat),
            decreases size - i,
        {
            let b: u8 = bytes[size - 1 - i];
            proof {
                lemma_byte_bound(value as nat, i as nat, b);
                assert(stored.skip(size - i - 1).drop_first() =~= stored.skip(size - i));
                assert(stored.skip(size - i - 1)[0] == b);
            }
            value = b as u64 + 256 * value;
            i += 1;
        }
        assert(stored.skip(0) =~= stored);
    } else {
        assert(stored.take(0) =~= Seq::<u8>::empty());
        while i < size
            invariant
                i <= size <= 8,
                size <= bytes@.len(),
                stored == bytes@.take(size as int),
                value == big_endian(stored.take(i as int)),
                value < pow2(8 * i as nat),
            decreases size - i,
        {
            let b: u8 = bytes[i];
            proof {
                lemma_byte_bound(value as nat, i as nat, b);
                assert(stored.take(i + 1).drop_last() =~= stored.take(i as int));
                assert(stored.take(i + 1).last() == b);
            }
            value = 256 * value + b as u64;
            i += 1;
        }
        assert(stored.take(size as int) =~= stored);
    }
    value
}

/// The integer that the bytes of a value of an integer type write.
pub fn read_integer(bytes: &[u8], data_type: PropertyType, is_le: bool) -> (res: i64)
    requires
        data_type.size() <= bytes@.len(),
        data_type != PropertyType::Float,
        data_type != PropertyType::Double,
    ensures
        res == stored_integer(bytes@, data_type, is_le),
        -0x8000_0000 <= res < 0x1_0000_0000,
        data_type == PropertyType::Char ==> -0x80 <= res < 0x80,
        data_type == PropertyType::UChar ==> 0 <= res < 0x100,
        data_type == PropertyType::Short ==> -0x8000 <= res < 0x8000,
        data_type == PropertyType::UShort ==> 0 <= res < 0x1_0000,
        data_type == PropertyType::UInt ==> 0 <= res,
{
    proof {
        lemma2_to64();
    }
    let n: u64 = read_unsigned(bytes, data_type.size_in_bytes(), is_le);
    match data_type {
        PropertyType::Char => if n < 0x80 {
            n as i64
        } else {
            n as i64 - 0x100
        },
        PropertyType::Short => if n < 0x8000 {
            n as i64
        } else {
            n as i64 - 0x1_0000
        },
        PropertyType::Int => if n < 0x8000_0000 {
            n as i64
        } else {
            n as i64 - 0x1_0000_0000
        },
        _ => n as i64,
    }
}

/// The number that a stored value stands for.
pub fn read_scalar(bytes: &[u8], data_type: PropertyType, is_le: bool) -> (res: Real)
    requires
        data_type.size() <= bytes@.len(),
    ensures
        is_stored(res, bytes@, data_type, is_le),
{
    match data_type {
        PropertyType::Double => Real { bits: read_unsigned(bytes, 8, is_le) },
        PropertyType::Float => {
            let n: u64 = read_unsigned(bytes, 4, is_le);
            proof {
                lemma2_to64();
            }
            Real::from_single(n as u32)
        },
        _ => {
            let v: i64 = read_integer(bytes, data_type, is_le);
            Real::from_int(v)
        },
    }
}

/// The two byte orders are each other's reverse.
pub proof fn lemma_byte_orders(bytes: Seq<u8>)
    ensures
        big_endian(bytes.reverse()) == little_endian(bytes),
    decreases bytes.len(),
{
    if bytes.len() > 0 {
        lemma_byte_orders(bytes.drop_first());
        assert(bytes.reverse().drop_last() =~= bytes.drop_first().reverse());
        assert(bytes.reverse().last() == bytes[0]);
    }
}

/// Some bytes write a number below the power of 256 that their count tells.
pub proof fn lemma_stored_bound(bytes: Seq<u8>, little: bool)
    ensures
        stored_number(bytes, little) < pow2(8 * bytes.len()),
    decreases bytes.len(),
{
    lemma2_to64();
    if bytes.len() > 0 {
        let rest = if little {
            bytes.drop_first()
        } else {
            bytes.drop_last()
        };
        lemma_stored_bound(rest, little);
        lemma_pow2_adds(8, 8 * rest.len());
        assert(8 + 8 * rest.len() == 8 * bytes.len());
    }
}

/// The bytes that write a number, least significant byte first.
pub open spec fn little_bytes(n: nat, size: nat) -> Seq<u8>
    decreases size,
{
    if size == 0 {
        Seq::empty()
    } else {
        seq![(n % 256) as u8] + little_bytes(n / 256, (size - 1) as nat)
    }
}

/// The bytes that write a number in the given byte order.
pub open spec fn written_bytes(n: nat, size: nat, little: bool) -> Seq<u8> {
    if little {
        little_bytes(n, size)
    } else {
        little_bytes(n, size).reverse()
    }
}

proof fn lemma_little_read_back(n: nat, size: nat)
    requires
        n < pow2(8 * size),
    ensures
        little_bytes(n, size).len() == size,
        little_endian(little_bytes(n, size)) == n,
    decreases size,
{
    lemma2_to64();
    if size > 0 {
        lemma_pow2_adds(8, (8 * (size - 1)) as nat);
        assert(8 + 8 * (size - 1) == 8 * size);
        assert(n / 256 < pow2((8 * (size - 1)) as nat)) by (nonlinear_arith)
            requires
                n < 256 * pow2((8 * (size - 1)) as nat),
        ;
        lemma_little_read_back(n / 256, (size - 1) as nat);
        let bytes = little_bytes(n, size);
        assert(bytes.drop_first() =~= little_bytes(n / 256, (size - 1) as nat));
    }
}

/// A number is read back from its bytes, in either byte order, whatever stands
/// behind them.
pub proof fn lemma_number_read_back(n: nat, size: nat, little: bool, behind: Seq<u8>)
    requires
        n < pow2(8 * size),
    ensures
        written_bytes(n, size, little).len() == size,
        stored_number((written_bytes(n, size, little) + behind).take(size as int), little) == n,
{
    lemma_little_read_back(n, size);
    lemma_byte_orders(little_bytes(n, size));
    let bytes = written_bytes(n, size, little);
    assert((bytes + behind).take(size as int) =~= bytes);
}

/// Whether an integer is one that a value of the type can be.
pub open spec fn integer_of_type(v: int, data_type: PropertyType) -> bool {
    match data_type {
        PropertyType::Char => -0x80 <= v < 0x80,
        PropertyType::UChar => 0 <= v < 0x100,
        PropertyType::Short => -0x8000 <= v < 0x8000,
        PropertyType::UShort => 0 <= v < 0x1_0000,
        PropertyType::Int => -0x8000_0000 <= v < 0x8000_0000,
        PropertyType::UInt => 0 <= v < 0x1_0000_0000,
        PropertyType::Float | PropertyType::Double => false,
    }
}

/// The bytes of an integer, a negative one as its two's complement.
pub open spec fn integer_bytes(v: int, data_type: PropertyType, little: bool) -> Seq<u8> {
    let n = if v < 0 {
        v + pow2(8 * data_type.size())
    } else {
        v
    };
    written_bytes(n as nat, data_type.size(), little)
}

/// Reading the bytes of an integer gives the integer back, in either byte order,
/// whatever stands behind them.
pub proof fn lemma_integer_read_back(
    v: int,
    data_type: PropertyType,
    little: bool,
    behind: Seq<u8>,
    value: Real,
)
    requires
        integer_of_type(v, data_type),
        is_stored(value, integer_bytes(v, data_type, little) + behind, data_type, little),
    ensures
        value.finite(),
        value.negative() == (v < 0),
        value.units() == v * one(),
{
    lemma2_to64();
    let n = if v < 0 {
        v + pow2(8 * data_type.size())
    } else {
        v
    };
    lemma_number_read_back(n as nat, data_type.size(), little, behind);
}

/// Reading the bytes of a binary64 number gives its bits back, in either byte
/// order, whatever stands behind them.
pub proof fn lemma_double_read_back(bits: u64, little: bool, behind: Seq<u8>, value: Real)
    requires
        is_stored(
            value,
            written_bytes(bits as nat, 8, little) + behind,
            PropertyType::Double,
            little,
        ),
    ensures
        value.bits == bits,
{
    lemma2_to64();
    lemma2_to64_rest();
    lemma_number_read_back(bits as nat, 8, little, behind);
}

/// Reading the bytes of a binary32 number gives the number back, in either byte
/// order, whatever stands behind them: the same value, infinity or NaN, with the
/// same sign.
pub proof fn lemma_single_read_back(bits: u32, little: bool, behind: Seq<u8>, value: Real)
    requires
        is_stored(
            value,
            written_bytes(bits as nat, 4, little) + behind,
            PropertyType::Float,
            little,
        ),
    ensures
        value.nan() == single_nan(bits),
        value.finite() == single_finite(bits),
        value.negative() == (bits >= 0x8000_0000),
        value.finite() ==> value.units() == single_units(bits) * pow2(925),
{
    lemma2_to64();
    lemma_number_read_back(bits as nat, 4, little, behind);
}

} // verus!
