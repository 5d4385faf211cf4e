//! Colour components and intensities of vertices, on the scale from 0 to
//! 65535.

use vstd::prelude::*;
#[allow(unused_imports)]
use crate::binary64::{lemma_truncated, lemma_unit_scaled_near};
use crate::binary64::{one, rounded_near, scaled_near, truncated, unit_scaled, whole_part, Real};
#[allow(unused_imports)]
use crate::ply::scalar::{lemma_number_read_back, lemma_stored_bound};
use crate::ply::scalar::{
    integer_bytes, integer_of_type, is_stored, read_integer, read_scalar, stored_integer,
};
use crate::ply::types::PropertyType;

verus! {

/// The component that an integer stands for: a byte up to 255, else a value of
/// two bytes.
pub open spec fn integer_color(v: int) -> int {
    if v <= 0 {
        0
    } else if v <= 255 {
        v * 257
    } else if v <= 65535 {
        v
    } else {
        65535
    }
}

/// The component that a real number stands for: a fraction up to 1, a byte up
/// to 255, else a value of two bytes.
pub open spec fn real_color(v: Real) -> int {
    if !v.nan() && 0 <= v.units() <= one() {
        unit_scaled(v) as int
    } else if !v.nan() && v.units() <= 255 * one() {
        truncated(v) * 257
    } else {
        truncated(v) as int
    }
}

/// Whether `component` is what the stored value of a colour property stands
/// for.
pub open spec fn is_stored_color(
    component: int,
    bytes: Seq<u8>,
    data_type: PropertyType,
    little: bool,
) -> bool {
    match data_type {
        PropertyType::Char | PropertyType::UChar => component == bytes[0] * 257,
        PropertyType::Short => component == if stored_integer(bytes, data_type, little) < 0 {
            0
        } else {
            stored_integer(bytes, data_type, little)
        },
        PropertyType::UShort => component == stored_integer(bytes, data_type, little),
        PropertyType::Int | PropertyType::UInt => component == integer_color(
            stored_integer(bytes, data_type, little),
        ),
        PropertyType::Float | PropertyType::Double => {
            &&& exists|v: Real|
                is_stored(v, bytes, data_type, little) && component == #[trigger] real_color(v)
            &&& forall|v: Real|
                is_stored(v, bytes, data_type, little) ==> component == #[trigger] real_color(v)
        },
    }
}

/// The component that a number in a text record stands for, where the property
/// has the given type.
pub open spec fn written_color(v: Real, data_type: PropertyType) -> int {
    match data_type {
        PropertyType::Char | PropertyType::UChar => if truncated(v) <= 255 {
            truncated(v) * 257
        } else {
            65535
        },
        PropertyType::Short | PropertyType::UShort => truncated(v) as int,
        PropertyType::Int | PropertyType::UInt => if !v.nan() && v.units() <= 255 * one() {
            truncated(v) * 257
        } else {
            truncated(v) as int
        },
        PropertyType::Float | PropertyType::Double => real_color(v),
    }
}

/// A number up to 255 has an integer part up to 255.
proof fn lemma_truncated_byte(v: Real)
    requires
        !v.nan(),
        v.units() <= 255 * one(),
    ensures
        truncated(v) <= 255,
{
    vstd::arithmetic::power2::lemma_pow2_pos(1074);
    if v.units() > 0 {
        vstd::arithmetic::div_mod::lemma_div_is_ordered(
            v.units(),
            255 * one() as int,
            one() as int,
        );
        vstd::arithmetic::div_mod::lemma_div_multiples_vanish(255, one() as int);
        assert(255 * one() as int == one() as int * 255) by (nonlinear_arith);
    }
}

/// The integer part of 255 is 255, and 255 is more than 1.
proof fn lemma_truncated_255(v: Real)
    requires
        !v.nan(),
        v.units() == 255 * one(),
    ensures
        truncated(v) == 255,
        v.units() > one(),
{
    vstd::arithmetic::power2::lemma_pow2_pos(1074);
    vstd::arithmetic::div_mod::lemma_div_multiples_vanish(255, one() as int);
    assert(255 * one() as int == one() as int * 255) by (nonlinear_arith);
}

/// Numbers of the same value stand for the same component.
proof fn lemma_same_color(v: Real, w: Real, bytes: Seq<u8>, data_type: PropertyType, little: bool)
    requires
        data_type == PropertyType::Float || data_type == PropertyType::Double,
        is_stored(v, bytes, data_type, little),
        is_stored(w, bytes, data_type, little),
    ensures
        real_color(v) == real_color(w),
{
    if data_type == PropertyType::Float && !v.nan() && !v.finite() {
        assert(v.magnitude() == w.magnitude());
    }
}

/// The component that a real number stands for.
pub fn color_of_real(v: Real) -> (res: u16)
    ensures
        res == real_color(v),
{
    let zero = Real::from_int(0);
    let unit = Real::from_int(1);
    let byte = Real::from_int(255);
    if zero.le(&v) && v.le(&unit) {
        v.unit_to_u16()
    } else if v.le(&byte) {
        proof {
            lemma_truncated_byte(v);
        }
        v.to_u16() * 257
    } else {
        v.to_u16()
    }
}

/// The component that the stored value of a colour property stands for.
pub fn extract_color_component(bytes: &[u8], data_type: PropertyType, is_le: bool) -> (res: u16)
    requires
        data_type.size() <= bytes@.len(),
    ensures
        is_stored_color(res as int, bytes@, data_type, is_le),
{
    match data_type {
        PropertyType::Char | PropertyType::UChar => bytes[0] as u16 * 257,
        PropertyType::Short => {
            let v: i64 = read_integer(bytes, data_type, is_le);
            if v < 0 {
                0
            } else {
                v as u16
            }
        },
        PropertyType::UShort => {
            let v: i64 = read_integer(bytes, data_type, is_le);
            v as u16
        },
        PropertyType::Int | PropertyType::UInt => {
            let v: i64 = read_integer(bytes, data_type, is_le);
            if v <= 0 {
                0
            } else if v <= 255 {
                v as u16 * 257
            } else if v <= 65535 {
                v as u16
            } else {
                65535
            }
        },
        PropertyType::Float | PropertyType::Double => {
            let v = read_scalar(bytes, data_type, is_le);
            proof {
                assert forall|w: Real| is_stored(w, bytes@, data_type, is_le) implies real_color(v)
                    == #[trigger] real_color(w) by {
                    lemma_same_color(v, w, bytes@, data_type, is_le);
                }
            }
            color_of_real(v)
        },
    }
}

/// The component that a field of a text record stands for. A field that is no
/// number counts as 255.
pub open spec fn field_color(value: Option<Real>, data_type: PropertyType) -> int {
    match value {
        Some(v) => written_color(v, data_type),
        None => if data_type == PropertyType::Short || data_type == PropertyType::UShort {
            255
        } else {
            65535
        },
    }
}

/// The component that a field of a text record stands for.
pub fn ascii_color_component(value: Option<Real>, data_type: PropertyType) -> (res: u16)
    ensures
        res == field_color(value, data_type),
{
    let v = match value {
        Some(v) => v,
        None => Real::from_int(255),
    };
    proof {
        if value is None {
            lemma_truncated_255(v);
        }
    }
    match data_type {
        PropertyType::Char | PropertyType::UChar => {
            let n: u16 = v.to_u16();
            if n <= 255 {
                n * 257
            } else {
                65535
            }
        },
        PropertyType::Short | PropertyType::UShort => v.to_u16(),
        PropertyType::Int | PropertyType::UInt => {
            let byte = Real::from_int(255);
            if v.le(&byte) {
                proof {
                    lemma_truncated_byte(v);
                }
                v.to_u16() * 257
            } else {
                v.to_u16()
            }
        },
        PropertyType::Float | PropertyType::Double => color_of_real(v),
    }
}

/// Whether a component is the 257-fold of the integer part of a number.
pub open spec fn byte_part(v: Real, component: int) -> bool {
    component % 257 == 0 && whole_part(v, component / 257)
}

/// A byte becomes its 257-fold.
proof fn lemma_byte_part(v: Real)
    requires
        !v.nan(),
        0 <= v.units() <= 255 * one(),
    ensures
        byte_part(v, truncated(v) * 257),
        truncated(v) <= 255,
{
    lemma_truncated(v);
    lemma_truncated_byte(v);
}

/// A real number from 0 to 1 is a fraction of the full component and gives the
/// integer nearest to it, one above 1 and up to 255 is a byte and gives the
/// 257-fold of its integer part, and one above that gives its integer part, at
/// most the full component. What is below 0 or no number gives 0.
pub proof fn lemma_real_color(v: Real)
    ensures
        0 <= real_color(v) <= 65535,
        v.nan() || v.units() <= 0 ==> real_color(v) == 0,
        !v.nan() && 0 <= v.units() <= one() ==> scaled_near(v, real_color(v)) && rounded_near(
            v,
            real_color(v),
        ),
        !v.nan() && v.units() == one() ==> real_color(v) == 65535,
        !v.nan() && 0 <= v.units() <= one() ==> forall|k: int|
            2 * (65535 * v.units()) == (2 * k + 1) * one() ==> real_color(v) == #[trigger] (k + 1),
        !v.nan() && one() < v.units() <= 255 * one() ==> byte_part(v, real_color(v)),
        !v.nan() && 255 * one() < v.units() < 65536 * one() ==> whole_part(v, real_color(v)),
        !v.nan() && 65535 * one() <= v.units() ==> real_color(v) == 65535,
{
    vstd::arithmetic::power2::lemma_pow2_pos(1074);
    lemma_truncated(v);
    if !v.nan() && 0 <= v.units() <= one() {
        lemma_unit_scaled_near(v);
    } else if !v.nan() && one() < v.units() <= 255 * one() {
        lemma_byte_part(v);
    }
}

/// The component of a number in a text record, by the type of its property. A
/// type of one byte gives the 257-fold of the integer part, a type of two bytes
/// the integer part, and an integer type of four bytes the one up to 255 and the
/// other above; a real type gives what [`lemma_real_color`] tells. Each is
/// limited to the full component, and to 0 for what is below 0 or no number.
pub proof fn lemma_written_color(v: Real, data_type: PropertyType)
    ensures
        ({
            let component = field_color(Some(v), data_type);
            let full = 65535 * one();
            &&& 0 <= component <= 65535
            &&& v.nan() || v.units() <= 0 ==> component == 0
            &&& !v.nan() && v.units() >= full ==> component == 65535
            &&& !v.nan() && 0 <= v.units() ==> match data_type {
                PropertyType::Char | PropertyType::UChar => if v.units() <= 255 * one() {
                    byte_part(v, component)
                } else {
                    component == 65535
                },
                PropertyType::Short | PropertyType::UShort => v.units() < full ==> whole_part(
                    v,
                    component,
                ),
                PropertyType::Int | PropertyType::UInt => {
                    &&& v.units() <= 255 * one() ==> byte_part(v, component)
                    &&& 255 * one() < v.units() < full ==> whole_part(v, component)
                },
                PropertyType::Float | PropertyType::Double => {
                    &&& v.units() <= one() ==> scaled_near(v, component)
                    &&& v.units() == one() ==> component == 65535
                    &&& one() < v.units() <= 255 * one() ==> byte_part(v, component)
                    &&& 255 * one() < v.units() < full ==> whole_part(v, component)
                },
            }
        }),
{
    vstd::arithmetic::power2::lemma_pow2_pos(1074);
    lemma_truncated(v);
    lemma_real_color(v);
    if !v.nan() && 0 <= v.units() <= 255 * one() {
        lemma_byte_part(v);
    }
    if !v.nan() && 255 * one() < v.units() < 65536 * one() && truncated(v) <= 255 {
        let d = one() as int;
        let n = truncated(v) as int;
        assert(n == 255) by (nonlinear_arith)
            requires
                255 * d < v.units() < (n + 1) * d,
                n <= 255,
                d > 0,
        ;
    }
}

/// A colour property of a real type in a text record, float and double alike,
/// whose field writes a number from 0 to 1 gives the integer nearest to its
/// 65535-fold; 1 gives 65535.
pub proof fn lemma_written_fraction(v: Real, data_type: PropertyType)
    requires
        data_type == PropertyType::Float || data_type == PropertyType::Double,
        !v.nan(),
        0 <= v.units() <= one(),
    ensures
        scaled_near(v, field_color(Some(v), data_type)),
        rounded_near(v, field_color(Some(v), data_type)),
        v.units() == one() ==> field_color(Some(v), data_type) == 65535,
        forall|k: int|
            2 * (65535 * v.units()) == (2 * k + 1) * one() ==> field_color(Some(v), data_type)
                == #[trigger] (k + 1),
{
    lemma_real_color(v);
}

/// A field that is no number gives the component that 255 gives.
pub proof fn lemma_no_number_color(v: Real, data_type: PropertyType)
    requires
        v.finite(),
        v.units() == 255 * one(),
    ensures
        field_color(None, data_type) == field_color(Some(v), data_type),
{
    lemma_truncated_255(v);
}

/// The component of a stored integer. An unsigned byte gives its 257-fold, and a
/// signed byte that of its bits; an integer of two bytes gives itself; one of
/// four bytes gives its 257-fold up to 255 and itself above, up to the full
/// component. A negative integer of two or four bytes gives 0.
pub proof fn lemma_stored_integer_color(
    component: int,
    v: int,
    data_type: PropertyType,
    little: bool,
    behind: Seq<u8>,
)
    requires
        integer_of_type(v, data_type),
        is_stored_color(component, integer_bytes(v, data_type, little) + behind, data_type, little),
    ensures
        data_type == PropertyType::UChar ==> component == 257 * v,
        data_type == PropertyType::Char && v >= 0 ==> component == 257 * v,
        data_type == PropertyType::Char && v < 0 ==> component == 257 * (v + 256),
        data_type.size() == 2 ==> component == if v < 0 {
            0
        } else {
            v
        },
        data_type.size() == 4 && v <= 0 ==> component == 0,
        data_type.size() == 4 && 0 < v <= 255 ==> component == 257 * v,
        data_type.size() == 4 && 255 < v <= 65535 ==> component == v,
        data_type.size() == 4 && v > 65535 ==> component == 65535,
{
    vstd::arithmetic::power2::lemma2_to64();
    let n = if v < 0 {
        v + vstd::arithmetic::power2::pow2(8 * data_type.size())
    } else {
        v
    };
    lemma_number_read_back(n as nat, data_type.size(), little, behind);
    if data_type.size() == 1 {
        let bytes = integer_bytes(v, data_type, little);
        assert(crate::ply::scalar::little_bytes(n as nat, 1)[0] == n) by {
            reveal_with_fuel(crate::ply::scalar::little_bytes, 2);
        }
        assert((bytes + behind)[0] == bytes[0]);
    }
}

/// The component of a stored real number, float and double alike, is that of the
/// number.
pub proof fn lemma_stored_real_color(
    component: int,
    v: Real,
    bytes: Seq<u8>,
    data_type: PropertyType,
    little: bool,
)
    requires
        data_type == PropertyType::Float || data_type == PropertyType::Double,
        is_stored(v, bytes, data_type, little),
        is_stored_color(component, bytes, data_type, little),
    ensures
        0 <= component <= 65535,
        v.nan() || v.units() <= 0 ==> component == 0,
        !v.nan() && 0 <= v.units() <= one() ==> scaled_near(v, component) && rounded_near(
            v,
            component,
        ),
        !v.nan() && v.units() == one() ==> component == 65535,
        !v.nan() && 0 <= v.units() <= one() ==> forall|k: int|
            2 * (65535 * v.units()) == (2 * k + 1) * one() ==> component == #[trigger] (k + 1),
        !v.nan() && one() < v.units() <= 255 * one() ==> byte_part(v, component),
        !v.nan() && 255 * one() < v.units() < 65536 * one() ==> whole_part(v, component),
        !v.nan() && 65535 * one() <= v.units() ==> component == 65535,
{
    lemma_real_color(v);
}

/// But for a signed byte, a number gives the same component whether it stands in
/// a binary record or in a text record.
pub proof fn lemma_same_color_either_way(
    component: int,
    v: Real,
    bytes: Seq<u8>,
    data_type: PropertyType,
    little: bool,
)
    requires
        data_type != PropertyType::Char,
        data_type.size() <= bytes.len(),
        is_stored(v, bytes, data_type, little),
        is_stored_color(component, bytes, data_type, little),
    ensures
        component == field_color(Some(v), data_type),
{
    if data_type != PropertyType::Float && data_type != PropertyType::Double {
        vstd::arithmetic::power2::lemma_pow2_pos(1074);
        vstd::arithmetic::power2::lemma2_to64();
        let n = stored_integer(bytes, data_type, little);
        let d = one() as int;
        let stored = bytes.take(data_type.size() as int);
        lemma_truncated(v);
        lemma_stored_bound(stored, little);
        let k = truncated(v) as int;
        if 0 <= n < 65536 {
            assert(n * d < 65536 * d && n * d >= 0) by (nonlinear_arith)
                requires
                    0 <= n < 65536,
                    d > 0,
            ;
            assert(k == n) by (nonlinear_arith)
                requires
                    k * d <= n * d < (k + 1) * d,
                    d > 0,
            ;
        } else if n >= 65536 {
            assert(n * d >= 65536 * d) by (nonlinear_arith)
                requires
                    n >= 65536,
                    d > 0,
            ;
        } else {
            assert(n * d <= 0) by (nonlinear_arith)
                requires
                    n < 0,
                    d > 0,
            ;
        }
        assert(n * d <= 255 * d <==> n <= 255) by (nonlinear_arith)
            requires
                d > 0,
        ;
        if data_type == PropertyType::UChar {
            reveal_with_fuel(crate::ply::scalar::little_endian, 2);
            reveal_with_fuel(crate::ply::scalar::big_endian, 2);
            assert(stored.len() == 1 && stored[0] == bytes[0]);
            assert(n == bytes[0]);
        }
    }
}

} // verus!
