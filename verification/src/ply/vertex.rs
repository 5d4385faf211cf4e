//! Vertex records, binary and text.

use vstd::prelude::*;
use vstd::slice::slice_subrange;
#[allow(unused_imports)]
use vstd::string::*;
use vstd::arithmetic::power2::pow2;
#[allow(unused_imports)]
use crate::binary64::lemma_truncated;
use crate::binary64::{
    one, single_finite, single_nan, single_units, truncated, whole_part, Real,
};
use crate::ply::color::{
    ascii_color_component, extract_color_component, field_color, is_stored_color,
};
#[allow(unused_imports)]
use crate::ply::color::{lemma_same_color_either_way, lemma_written_color};
use crate::ply::scalar::{integer_bytes, integer_of_type, is_stored, read_scalar, written_bytes};
#[allow(unused_imports)]
use crate::ply::scalar::{lemma_double_read_back, lemma_integer_read_back, lemma_single_read_back};
use crate::ply::types::{
    offset_of, stride_of, HeaderView, PlyFormat, PlyHeader, PropertyRole, PropertyType,
    PropertyView,
};
#[allow(unused_imports)]
use crate::ply::types::{lemma_header_roles, lemma_value_in_record};
use crate::point::{Color, Point, PointAttributes};
use crate::text::{split_whitespace, texts, trim, trimmed, words};

verus! {

/// The bytes of property `i` in a binary record.
pub open spec fn property_bytes(header: HeaderView, record: Seq<u8>, i: int) -> Seq<u8> {
    record.subrange(
        offset_of(header.properties, i) as int,
        offset_of(header.properties, i) as int + header.properties[i].data_type.size(),
    )
}

/// Whether `value` is what the record holds for property `i`.
pub open spec fn holds_value(header: HeaderView, record: Seq<u8>, i: int, value: Real) -> bool {
    is_stored(
        value,
        property_bytes(header, record, i),
        header.properties[i].data_type,
        header.format == PlyFormat::BinaryLittleEndian,
    )
}

/// Whether `component` is what the record holds for a colour; without a
/// property for it the component is full.
pub open spec fn holds_color(
    header: HeaderView,
    record: Seq<u8>,
    role: PropertyRole,
    component: u16,
) -> bool {
    match header.role(role) {
        Some(i) => is_stored_color(
            component as int,
            property_bytes(header, record, i as int),
            header.properties[i as int].data_type,
            header.format == PlyFormat::BinaryLittleEndian,
        ),
        None => component == 65535,
    }
}

/// Whether `intensity` is what the record holds for the intensity.
pub open spec fn holds_intensity(
    header: HeaderView,
    record: Seq<u8>,
    intensity: Option<u16>,
) -> bool {
    match header.role(PropertyRole::Intensity) {
        Some(i) => intensity matches Some(n) && (exists|v: Real|
            holds_value(header, record, i as int, v) && n == #[trigger] truncated(v)) && (forall|
            v: Real,
        | holds_value(header, record, i as int, v) ==> n == #[trigger] truncated(v)),
        None => intensity is None,
    }
}

/// Whether `point` is what a binary record holds.
pub open spec fn holds_point(header: HeaderView, record: Seq<u8>, point: Point) -> bool {
    &&& header.role(PropertyRole::X) matches Some(i) && holds_value(
        header,
        record,
        i as int,
        point.x,
    )
    &&& header.role(PropertyRole::Y) matches Some(i) && holds_value(
        header,
        record,
        i as int,
        point.y,
    )
    &&& header.role(PropertyRole::Z) matches Some(i) && holds_value(
        header,
        record,
        i as int,
        point.z,
    )
    &&& holds_color(header, record, PropertyRole::Red, point.color.r)
    &&& holds_color(header, record, PropertyRole::Green, point.color.g)
    &&& holds_color(header, record, PropertyRole::Blue, point.color.b)
    &&& holds_intensity(header, record, point.attributes.intensity)
    &&& point.attributes == PointAttributes::only_intensity(point.attributes.intensity)
}

/// The bytes of property `i`.
fn field_of<'a>(header: &PlyHeader, record: &'a [u8], i: usize) -> (res: &'a [u8])
    requires
        header.wf(),
        record@.len() >= header.vertex_stride,
        i < header.properties@.len(),
    ensures
        res@ == property_bytes(header@, record@, i as int),
        res@.len() == header@.properties[i as int].data_type.size(),
{
    proof {
        lemma_value_in_record(header@.properties, i as int);
    }
    let def = &header.properties[i];
    let start: usize = def.offset;
    slice_subrange(record, start, start + def.data_type.size_in_bytes())
}

/// The value of the property that plays a role.
fn role_value(header: &PlyHeader, record: &[u8], i: usize) -> (res: Real)
    requires
        header.wf(),
        record@.len() >= header.vertex_stride,
        i < header.properties@.len(),
    ensures
        holds_value(header@, record@, i as int, res),
{
    let bytes = field_of(header, record, i);
    read_scalar(
        bytes,
        header.properties[i].data_type,
        header.format == PlyFormat::BinaryLittleEndian,
    )
}

/// The component of a colour, given the index of its property.
fn role_color(header: &PlyHeader, record: &[u8], prop: Option<usize>, role: Ghost<PropertyRole>) -> (res:
    u16)
    requires
        header.wf(),
        record@.len() >= header.vertex_stride,
        prop == header@.role(role@),
    ensures
        holds_color(header@, record@, role@, res),
{
    match prop {
        Some(i) => {
            proof {
                lemma_header_roles(header);
            }
            let bytes = field_of(header, record, i);
            extract_color_component(
                bytes,
                header.properties[i].data_type,
                header.format == PlyFormat::BinaryLittleEndian,
            )
        },
        None => 65535,
    }
}

/// Decodes a binary vertex record.
pub fn point_from_record(header: &PlyHeader, record: &[u8]) -> (res: Point)
    requires
        header.wf(),
        record@.len() >= header.vertex_stride,
    ensures
        holds_point(header@, record@, res),
{
    proof {
        lemma_header_roles(header);
    }
    let x = role_value(header, record, header.x_prop.unwrap());
    let y = role_value(header, record, header.y_prop.unwrap());
    let z = role_value(header, record, header.z_prop.unwrap());
    let r = role_color(header, record, header.r_prop, Ghost(PropertyRole::Red));
    let g = role_color(header, record, header.g_prop, Ghost(PropertyRole::Green));
    let b = role_color(header, record, header.b_prop, Ghost(PropertyRole::Blue));
    let intensity = match header.intensity_prop {
        Some(i) => {
            let v = role_value(header, record, i);
            proof {
                assert forall|w: Real| holds_value(header@, record@, i as int, w) implies truncated(
                    v,
                ) == #[trigger] truncated(w) by {
                    lemma_same_truncated(header@, record@, i as int, v, w);
                }
            }
            Some(v.to_u16())
        },
        None => None,
    };
    Point {
        x,
        y,
        z,
        color: Color { r, g, b },
        attributes: PointAttributes::with_intensity(intensity),
    }
}

/// Values of the same bytes have the same integer part.
proof fn lemma_same_truncated(header: HeaderView, record: Seq<u8>, i: int, v: Real, w: Real)
    requires
        holds_value(header, record, i, v),
        holds_value(header, record, i, w),
    ensures
        truncated(v) == truncated(w),
{
    if !v.nan() && !v.finite() {
        assert(v.magnitude() == 0x7ff0_0000_0000_0000);
        if !w.nan() && !w.finite() {
            assert(w.magnitude() == 0x7ff0_0000_0000_0000);
        }
    }
}

/// What a line of a text record amounts to.
#[derive(Debug)]
pub enum VertexLine {
    /// The line is blank: there is no record in it.
    Blank,
    /// The line has fewer fields than the vertex has properties.
    Short { expected: usize, found: usize },
    /// The fields of the record.
    Fields(Vec<String>),
}

/// Splits a line of a text record into its fields.
pub fn vertex_fields(header: &PlyHeader, line: &str) -> (res: VertexLine)
    ensures
        ({
            let fields = words(trimmed(line@));
            let expected = header@.properties.len();
            if trimmed(line@).len() == 0 {
                res is Blank
            } else if fields.len() < expected {
                res matches VertexLine::Short { expected: e, found: f } && e == expected && f
                    == fields.len()
            } else {
                res matches VertexLine::Fields(f) && texts(f@) == fields
            }
        }),
{
    let content = trim(line);
    if content.is_empty() {
        return VertexLine::Blank;
    }
    let fields = split_whitespace(content);
    assert(texts(fields@).len() == fields@.len());
    if fields.len() < header.properties.len() {
        VertexLine::Short { expected: header.properties.len(), found: fields.len() }
    } else {
        VertexLine::Fields(fields)
    }
}

/// A coordinate of a point.
#[derive(Debug, Clone, Copy, PartialEq, Eq, Structural)]
pub enum Axis {
    X,
    Y,
    Z,
}

/// The component that the fields hold for a colour; without a property for it
/// the component is full.
pub open spec fn fields_color(
    header: HeaderView,
    values: Seq<Option<Real>>,
    role: PropertyRole,
) -> int {
    match header.role(role) {
        Some(i) => field_color(values[i as int], header.properties[i as int].data_type),
        None => 65535,
    }
}

/// The intensity that the fields hold.
pub open spec fn fields_intensity(header: HeaderView, values: Seq<Option<Real>>) -> Option<u16> {
    match header.role(PropertyRole::Intensity) {
        Some(i) => match values[i as int] {
            Some(v) => Some(truncated(v)),
            None => None,
        },
        None => None,
    }
}

/// The point that the fields of a text record hold, given the number that each
/// field writes, if it writes one. The first coordinate without a number is the
/// error.
pub open spec fn fields_point(header: HeaderView, values: Seq<Option<Real>>) -> Result<
    Point,
    Axis,
> {
    match (
        values[header.role(PropertyRole::X)->0 as int],
        values[header.role(PropertyRole::Y)->0 as int],
        values[header.role(PropertyRole::Z)->0 as int],
    ) {
        (None, _, _) => Err(Axis::X),
        (_, None, _) => Err(Axis::Y),
        (_, _, None) => Err(Axis::Z),
        (Some(x), Some(y), Some(z)) => Ok(
            Point {
                x,
                y,
                z,
                color: Color {
                    r: fields_color(header, values, PropertyRole::Red) as u16,
                    g: fields_color(header, values, PropertyRole::Green) as u16,
                    b: fields_color(header, values, PropertyRole::Blue) as u16,
                },
                attributes: PointAttributes::only_intensity(fields_intensity(header, values)),
            },
        ),
    }
}

/// The component of a colour in a text record.
fn written_role_color(
    header: &PlyHeader,
    values: &Vec<Option<Real>>,
    prop: Option<usize>,
    role: Ghost<PropertyRole>,
) -> (res: u16)
    requires
        header.wf(),
        values@.len() >= header.properties@.len(),
        prop == header@.role(role@),
    ensures
        res == fields_color(header@, values@, role@),
{
    match prop {
        Some(i) => {
            proof {
                lemma_header_roles(header);
            }
            ascii_color_component(values[i], header.properties[i].data_type)
        },
        None => 65535,
    }
}

/// Makes the point of a text record, given the number that each field writes.
pub fn point_from_fields(header: &PlyHeader, values: &Vec<Option<Real>>) -> (res: Result<
    Point,
    Axis,
>)
    requires
        header.wf(),
        values@.len() >= header.properties@.len(),
    ensures
        res == fields_point(header@, values@),
{
    proof {
        lemma_header_roles(header);
    }
    let x = match values[header.x_prop.unwrap()] {
        Some(v) => v,
        None => {
            return Err(Axis::X);
        },
    };
    let y = match values[header.y_prop.unwrap()] {
        Some(v) => v,
        None => {
            return Err(Axis::Y);
        },
    };
    let z = match values[header.z_prop.unwrap()] {
        Some(v) => v,
        None => {
            return Err(Axis::Z);
        },
    };
    let r = written_role_color(header, values, header.r_prop, Ghost(PropertyRole::Red));
    let g = written_role_color(header, values, header.g_prop, Ghost(PropertyRole::Green));
    let b = written_role_color(header, values, header.b_prop, Ghost(PropertyRole::Blue));
    let intensity = match header.intensity_prop {
        Some(i) => match values[i] {
            Some(v) => Some(v.to_u16()),
            None => None,
        },
        None => None,
    };
    Ok(
        Point {
            x,
            y,
            z,
            color: Color { r, g, b },
            attributes: PointAttributes::with_intensity(intensity),
        },
    )
}

/// What lies one after another.
pub open spec fn in_a_row(parts: Seq<Seq<u8>>) -> Seq<u8>
    decreases parts.len(),
{
    if parts.len() == 0 {
        Seq::empty()
    } else {
        in_a_row(parts.drop_last()) + parts.last()
    }
}

/// In a record of values that lie one after another, in the order of their
/// properties, the bytes of each property are those of its value, whatever stands
/// behind the record.
pub proof fn lemma_record_parts(header: HeaderView, parts: Seq<Seq<u8>>, behind: Seq<u8>, i: int)
    requires
        parts.len() == header.properties.len(),
        forall|k: int|
            0 <= k < parts.len() ==> (#[trigger] parts[k]).len()
                == header.properties[k].data_type.size(),
        0 <= i < parts.len(),
    ensures
        in_a_row(parts).len() == stride_of(header.properties),
        property_bytes(header, in_a_row(parts) + behind, i) == parts[i],
    decreases parts.len(),
{
    let n = parts.len() - 1;
    let less = parts.drop_last();
    let before = HeaderView { properties: header.properties.drop_last(), ..header };
    let record = in_a_row(parts) + behind;
    lemma_parts_length(before.properties, less);
    if i == n {
        assert(header.properties.take(n) =~= before.properties);
        assert(property_bytes(header, record, i) =~= parts[i]);
    } else {
        lemma_record_parts(before, less, parts.last() + behind, i);
        assert(in_a_row(less) + (parts.last() + behind) =~= record);
        assert(header.properties.take(i) =~= before.properties.take(i));
        assert(less[i] == parts[i]);
    }
}

proof fn lemma_parts_length(properties: Seq<PropertyView>, parts: Seq<Seq<u8>>)
    requires
        parts.len() == properties.len(),
        forall|k: int|
            0 <= k < parts.len() ==> (#[trigger] parts[k]).len() == properties[k].data_type.size(),
    ensures
        in_a_row(parts).len() == stride_of(properties),
    decreases parts.len(),
{
    if parts.len() > 0 {
        assert forall|k: int| 0 <= k < parts.drop_last().len() implies (
        #[trigger] parts.drop_last()[k]).len() == properties.drop_last()[k].data_type.size() by {
            assert(parts.drop_last()[k] == parts[k]);
        }
        lemma_parts_length(properties.drop_last(), parts.drop_last());
        assert(parts[parts.len() - 1].len() == properties[properties.len() - 1].data_type.size());
    }
}

/// The intensity of a record with a property for it is the integer part of the
/// stored number, limited to what is between 0 and 65535; it is 0 where no number
/// is stored. The type of the property makes no difference.
pub proof fn lemma_record_intensity(
    header: HeaderView,
    record: Seq<u8>,
    point: Point,
    i: usize,
    v: Real,
)
    requires
        holds_point(header, record, point),
        header.role(PropertyRole::Intensity) == Some(i),
        holds_value(header, record, i as int, v),
    ensures
        point.attributes.intensity matches Some(n) && {
            &&& v.nan() || v.units() <= 0 ==> n == 0
            &&& !v.nan() && 0 <= v.units() < 65535 * one() ==> whole_part(v, n as int)
            &&& !v.nan() && 65535 * one() <= v.units() ==> n == 65535
        },
{
    lemma_truncated(v);
}

/// The intensity of a record with a property of an integer type for it is the
/// stored integer itself, as far as it lies between 0 and 65535; it is 0 for a
/// negative one and 65535 for one above.
pub proof fn lemma_record_integer_intensity(
    header: HeaderView,
    record: Seq<u8>,
    point: Point,
    i: usize,
    v: int,
)
    requires
        holds_point(header, record, point),
        header.role(PropertyRole::Intensity) == Some(i),
        integer_of_type(v, header.properties[i as int].data_type),
        property_bytes(header, record, i as int) == integer_bytes(
            v,
            header.properties[i as int].data_type,
            header.format == PlyFormat::BinaryLittleEndian,
        ),
    ensures
        point.attributes.intensity matches Some(n) && {
            &&& v <= 0 ==> n == 0
            &&& 0 <= v <= 65535 ==> n == v
            &&& v >= 65535 ==> n == 65535
        },
{
    let n = point.attributes.intensity->0;
    let r = choose|r: Real|
        holds_value(header, record, i as int, r) && n == #[trigger] truncated(r);
    let bytes = property_bytes(header, record, i as int);
    assert(bytes + Seq::<u8>::empty() =~= bytes);
    lemma_integer_read_back(
        v,
        header.properties[i as int].data_type,
        header.format == PlyFormat::BinaryLittleEndian,
        Seq::empty(),
        r,
    );
    lemma_integer_part_of_integer(r, v);
}

/// The integer part of an integer is the integer.
proof fn lemma_integer_part_of_integer(r: Real, v: int)
    requires
        !r.nan(),
        r.units() == v * one(),
    ensures
        v <= 0 ==> truncated(r) == 0,
        0 <= v <= 65535 ==> truncated(r) == v,
        v >= 65535 ==> truncated(r) == 65535,
{
    lemma_truncated(r);
    vstd::arithmetic::power2::lemma_pow2_pos(1074);
    let d = one() as int;
    let k = truncated(r) as int;
    if v <= 0 {
        assert(v * d <= 0) by (nonlinear_arith)
            requires
                v <= 0,
                d > 0,
        ;
    } else if v < 65535 {
        assert(0 <= v * d < 65535 * d) by (nonlinear_arith)
            requires
                0 < v < 65535,
                d > 0,
        ;
        assert(k == v) by (nonlinear_arith)
            requires
                k * d <= v * d < (k + 1) * d,
                d > 0,
        ;
    } else {
        assert(v * d >= 65535 * d) by (nonlinear_arith)
            requires
                v >= 65535,
                d > 0,
        ;
    }
}

/// A record without a property for the intensity has none, one without a
/// property for a colour has the full component, and no record has anything else
/// besides its place, its colour and its intensity.
pub proof fn lemma_record_without(header: HeaderView, record: Seq<u8>, point: Point)
    requires
        holds_point(header, record, point),
    ensures
        header.role(PropertyRole::Intensity) is None <==> point.attributes.intensity is None,
        header.role(PropertyRole::Red) is None ==> point.color.r == 65535,
        header.role(PropertyRole::Green) is None ==> point.color.g == 65535,
        header.role(PropertyRole::Blue) is None ==> point.color.b == 65535,
        bare_but_intensity(point.attributes),
{
}

/// Whether nothing but the intensity may be known.
pub open spec fn bare_but_intensity(attributes: PointAttributes) -> bool {
    &&& attributes.return_number is None
    &&& attributes.classification is None
    &&& attributes.scanner_channel is None
    &&& attributes.scan_angle is None
    &&& attributes.user_data is None
    &&& attributes.point_source_id is None
    &&& attributes.gps_time is None
}

/// The coordinate of a point for a role.
pub open spec fn coordinate(point: Point, role: PropertyRole) -> Option<Real> {
    match role {
        PropertyRole::X => Some(point.x),
        PropertyRole::Y => Some(point.y),
        PropertyRole::Z => Some(point.z),
        _ => None,
    }
}

/// The component of a colour for a role.
pub open spec fn component(color: Color, role: PropertyRole) -> Option<u16> {
    match role {
        PropertyRole::Red => Some(color.r),
        PropertyRole::Green => Some(color.g),
        PropertyRole::Blue => Some(color.b),
        _ => None,
    }
}

/// A coordinate whose property is of an integer type has the value of the stored
/// integer.
pub proof fn lemma_record_integer_coordinate(
    header: HeaderView,
    record: Seq<u8>,
    point: Point,
    role: PropertyRole,
    i: usize,
    v: int,
)
    requires
        holds_point(header, record, point),
        coordinate(point, role) is Some,
        header.role(role) == Some(i),
        integer_of_type(v, header.properties[i as int].data_type),
        property_bytes(header, record, i as int) == integer_bytes(
            v,
            header.properties[i as int].data_type,
            header.format == PlyFormat::BinaryLittleEndian,
        ),
    ensures
        coordinate(point, role)->0.finite(),
        coordinate(point, role)->0.units() == v * one(),
{
    let bytes = property_bytes(header, record, i as int);
    assert(bytes + Seq::<u8>::empty() =~= bytes);
    lemma_integer_read_back(
        v,
        header.properties[i as int].data_type,
        header.format == PlyFormat::BinaryLittleEndian,
        Seq::empty(),
        coordinate(point, role)->0,
    );
}

/// A coordinate whose property is of a real type has the value of the stored
/// number: a binary64 number bit for bit, and a binary32 number widened.
pub proof fn lemma_record_real_coordinate(
    header: HeaderView,
    record: Seq<u8>,
    point: Point,
    role: PropertyRole,
    i: usize,
    bits: u64,
)
    requires
        holds_point(header, record, point),
        coordinate(point, role) is Some,
        header.role(role) == Some(i),
        header.properties[i as int].data_type == PropertyType::Double || (
        header.properties[i as int].data_type == PropertyType::Float && bits < 0x1_0000_0000),
        property_bytes(header, record, i as int) == written_bytes(
            bits as nat,
            header.properties[i as int].data_type.size(),
            header.format == PlyFormat::BinaryLittleEndian,
        ),
    ensures
        ({
            let v = coordinate(point, role)->0;
            match header.properties[i as int].data_type {
                PropertyType::Double => v.bits == bits,
                _ => {
                    &&& v.nan() <==> single_nan(bits as u32)
                    &&& v.finite() <==> single_finite(bits as u32)
                    &&& v.negative() <==> bits >= 0x8000_0000
                    &&& v.finite() ==> v.units() == single_units(bits as u32) * pow2(925)
                },
            }
        }),
{
    let bytes = property_bytes(header, record, i as int);
    let little = header.format == PlyFormat::BinaryLittleEndian;
    let v = coordinate(point, role)->0;
    assert(bytes + Seq::<u8>::empty() =~= bytes);
    if header.properties[i as int].data_type == PropertyType::Double {
        lemma_double_read_back(bits, little, Seq::empty(), v);
    } else {
        lemma_single_read_back(bits as u32, little, Seq::empty(), v);
    }
}

/// But for a signed byte, the component of a colour is the same whether its
/// number stands in a binary record or in a text record.
pub proof fn lemma_record_color(
    header: HeaderView,
    record: Seq<u8>,
    point: Point,
    role: PropertyRole,
    i: usize,
    v: Real,
)
    requires
        holds_point(header, record, point),
        component(point.color, role) is Some,
        header.role(role) == Some(i),
        header.properties[i as int].data_type != PropertyType::Char,
        header.properties[i as int].data_type.size() <= property_bytes(
            header,
            record,
            i as int,
        ).len(),
        holds_value(header, record, i as int, v),
    ensures
        component(point.color, role)->0 == field_color(
            Some(v),
            header.properties[i as int].data_type,
        ),
{
    lemma_same_color_either_way(
        component(point.color, role)->0 as int,
        v,
        property_bytes(header, record, i as int),
        header.properties[i as int].data_type,
        header.format == PlyFormat::BinaryLittleEndian,
    );
}

/// A text record makes a point if and only if the fields of the three
/// coordinates write numbers, and these are the coordinates; else the error names
/// the first coordinate whose field writes none.
pub proof fn lemma_fields_place(header: HeaderView, values: Seq<Option<Real>>)
    requires
        header.role(PropertyRole::X) is Some,
        header.role(PropertyRole::Y) is Some,
        header.role(PropertyRole::Z) is Some,
    ensures
        ({
            let x = values[header.role(PropertyRole::X)->0 as int];
            let y = values[header.role(PropertyRole::Y)->0 as int];
            let z = values[header.role(PropertyRole::Z)->0 as int];
            match fields_point(header, values) {
                Ok(point) => x == Some(point.x) && y == Some(point.y) && z == Some(point.z),
                Err(Axis::X) => x is None,
                Err(Axis::Y) => x is Some && y is None,
                Err(Axis::Z) => x is Some && y is Some && z is None,
            }
        }),
{
}

/// The intensity of a text record is the integer part of the number that its
/// field writes, limited to what is between 0 and 65535; there is none where
/// there is no property for it or its field writes no number. Nothing else is
/// known of the point.
pub proof fn lemma_fields_intensity(header: HeaderView, values: Seq<Option<Real>>, point: Point)
    requires
        fields_point(header, values) == Ok::<Point, Axis>(point),
    ensures
        bare_but_intensity(point.attributes),
        match header.role(PropertyRole::Intensity) {
            None => point.attributes.intensity is None,
            Some(i) => match values[i as int] {
                None => point.attributes.intensity is None,
                Some(v) => point.attributes.intensity matches Some(n) && {
                    &&& v.nan() || v.units() <= 0 ==> n == 0
                    &&& !v.nan() && 0 <= v.units() < 65535 * one() ==> whole_part(v, n as int)
                    &&& !v.nan() && 65535 * one() <= v.units() ==> n == 65535
                },
            },
        },
{
    if let Some(i) = header.role(PropertyRole::Intensity) {
        if let Some(v) = values[i as int] {
            lemma_truncated(v);
        }
    }
}

/// Each component of the colour of a text record is what the field of its own
/// property gives, by the type of that property, and full without a property.
pub proof fn lemma_fields_color(
    header: HeaderView,
    values: Seq<Option<Real>>,
    point: Point,
    role: PropertyRole,
)
    requires
        fields_point(header, values) == Ok::<Point, Axis>(point),
        component(point.color, role) is Some,
    ensures
        header.role(role) is None ==> component(point.color, role) == Some(65535u16),
        header.role(role) matches Some(i) ==> component(point.color, role)->0 == field_color(
            values[i as int],
            header.properties[i as int].data_type,
        ),
{
    if let Some(i) = header.role(role) {
        if let Some(v) = values[i as int] {
            lemma_written_color(v, header.properties[i as int].data_type);
        }
    }
}

/// The component of a colour whose property is of one byte is the 257-fold of that
/// byte, be it signed or not.
pub proof fn lemma_record_byte_color(
    header: HeaderView,
    record: Seq<u8>,
    point: Point,
    role: PropertyRole,
    i: usize,
)
    requires
        holds_point(header, record, point),
        component(point.color, role) is Some,
        header.role(role) == Some(i),
        header.properties[i as int].data_type == PropertyType::Char
            || header.properties[i as int].data_type == PropertyType::UChar,
    ensures
        component(point.color, role)->0 == 257 * property_bytes(header, record, i as int)[0],
{
}

} // verus!
