//! Points as bytes.

use vstd::prelude::*;
#[allow(unused_imports)]
use vstd::string::*;
use vstd::utf8::encode_utf8;
use crate::binary64::Real;
use crate::point::{Color, Point, PointAttributes};

verus! {

/// The attributes of a point as plain values.
type AttributesRow = (
    Option<u16>,
    Option<u8>,
    Option<String>,
    Option<u8>,
    Option<u32>,
    Option<u8>,
    Option<u16>,
    Option<u64>,
);

/// A point as plain values: the bits of its coordinates, its colour and its
/// attributes.
type Row = ((u64, u64, u64), (u16, u16, u16), AttributesRow);

/// The mathematical value of a row.
pub type RowView = (
    (u64, u64, u64),
    (u16, u16, u16),
    (
        Option<u16>,
        Option<u8>,
        Option<Seq<char>>,
        Option<u8>,
        Option<u32>,
        Option<u8>,
        Option<u16>,
        Option<u64>,
    ),
);

/// The text of a string that may be missing.
pub open spec fn text_of(s: Option<String>) -> Option<Seq<char>> {
    match s {
        Some(s) => Some(s@),
        None => None,
    }
}

spec fn row_view(row: Row) -> RowView {
    let a = row.2;
    (row.0, row.1, (a.0, a.1, text_of(a.2), a.3, a.4, a.5, a.6, a.7))
}

spec fn row_views(rows: Seq<Row>) -> Seq<RowView> {
    rows.map_values(|row: Row| row_view(row))
}

/// The plain values of a point.
pub open spec fn point_row(p: Point) -> RowView {
    let a = p.attributes;
    (
        (p.x.bits, p.y.bits, p.z.bits),
        (p.color.r, p.color.g, p.color.b),
        (
            a.intensity,
            a.return_number,
            text_of(a.classification),
            a.scanner_channel,
            a.scan_angle,
            a.user_data,
            a.point_source_id,
            match a.gps_time {
                Some(r) => Some(r.bits),
                None => None,
            },
        ),
    )
}

/// The plain values of some points.
pub open spec fn point_rows(points: Seq<Point>) -> Seq<RowView> {
    points.map_values(|p: Point| point_row(p))
}

/// The number of bytes of the texts in some rows.
pub open spec fn text_bytes(rows: Seq<RowView>) -> nat
    decreases rows.len(),
{
    if rows.len() == 0 {
        0
    } else {
        text_bytes(rows.drop_last()) + match (rows.last().2).2 {
            Some(s) => encode_utf8(s).len(),
            None => 0,
        }
    }
}

/// Whether there are few enough rows, and few enough bytes of text in them, for
/// the format, which takes less than 2^51 - 1 of either.
pub open spec fn storable(rows: Seq<RowView>) -> bool {
    rows.len() < 0x7_ffff_ffff_ffff && text_bytes(rows) < 0x7_ffff_ffff_ffff
}

/// What `bitcode::decode` makes of bytes when it is asked for rows; `None` where
/// it gives an error.
pub uninterp spec fn decoded(bytes: Seq<u8>) -> Option<Seq<RowView>>;

/// The error of `bitcode`.
#[verifier::external_type_specification]
#[verifier::external_body]
pub struct ExBitcodeError(bitcode::Error);

/// `bitcode::encode`. Decoding the bytes gives the rows back, as long as their
/// number and the length of their texts are within what the decoder accepts.
#[verifier::external_body]
fn encode_rows(rows: &Vec<Row>) -> (res: Vec<u8>)
    ensures
        storable(row_views(rows@)) ==> decoded(res@) == Some(row_views(rows@)),
{
    bitcode::encode(rows)
}

/// `bitcode::decode`. What comes out is a function of the bytes alone.
#[verifier::external_body]
fn decode_rows(bytes: &[u8]) -> (res: Result<Vec<Row>, bitcode::Error>)
    ensures
        match res {
            Ok(rows) => decoded(bytes@) == Some(row_views(rows@)),
            Err(_) => decoded(bytes@) is None,
        },
{
    bitcode::decode(bytes)
}

/// The display of `bitcode`'s error. Nothing is said of the text, which differs
/// between builds.
#[verifier::external_body]
fn error_text(error: &bitcode::Error) -> (res: String) {
    format!("{error}")
}

/// Why bytes are not those of points.
#[derive(Debug, Clone, PartialEq, Eq)]
pub struct CodecError {
    pub reason: String,
}

/// The message for bytes that are not those of points.
pub open spec fn decode_message(reason: Seq<char>) -> Seq<char> {
    "bitcode decode failed: "@ + reason
}

impl CodecError {
    /// Describes the error.
    pub fn message(&self) -> (res: String)
        ensures
            res@ == decode_message(self.reason@),
    {
        let mut out = "bitcode decode failed: ".to_owned();
        out.append(self.reason.as_str());
        out
    }
}

fn row_of(p: &Point) -> (res: Row)
    ensures
        row_view(res) == point_row(*p),
{
    let classification: Option<String> = match &p.attributes.classification {
        Some(s) => Some(s.clone()),
        None => None,
    };
    let gps_time: Option<u64> = match p.attributes.gps_time {
        Some(r) => Some(r.bits),
        None => None,
    };
    (
        (p.x.bits, p.y.bits, p.z.bits),
        (p.color.r, p.color.g, p.color.b),
        (
            p.attributes.intensity,
            p.attributes.return_number,
            classification,
            p.attributes.scanner_channel,
            p.attributes.scan_angle,
            p.attributes.user_data,
            p.attributes.point_source_id,
            gps_time,
        ),
    )
}

fn point_of(row: Row) -> (res: Point)
    ensures
        point_row(res) == row_view(row),
{
    let ((x, y, z), (r, g, b), a) = row;
    let gps_time: Option<Real> = match a.7 {
        Some(bits) => Some(Real { bits }),
        None => None,
    };
    Point {
        x: Real { bits: x },
        y: Real { bits: y },
        z: Real { bits: z },
        color: Color { r, g, b },
        attributes: PointAttributes {
            intensity: a.0,
            return_number: a.1,
            classification: a.2,
            scanner_channel: a.3,
            scan_angle: a.4,
            user_data: a.5,
            point_source_id: a.6,
            gps_time,
        },
    }
}

/// Whether bytes are those of points: decoding them gives the points.
pub open spec fn holds_points(bytes: Seq<u8>, points: Seq<Point>) -> bool {
    decoded(bytes) == Some(point_rows(points))
}

/// Makes bytes of points.
pub fn encode_points(points: &Vec<Point>) -> (res: Vec<u8>)
    ensures
        storable(point_rows(points@)) ==> holds_points(res@, points@),
{
    let mut rows: Vec<Row> = Vec::new();
    let mut i: usize = 0;
    while i < points.len()
        invariant
            i <= points@.len(),
            rows@.len() == i,
            forall|j: int| 0 <= j < i ==> row_view(#[trigger] rows@[j]) == point_row(points@[j]),
        decreases points.len() - i,
    {
        rows.push(row_of(&points[i]));
        i += 1;
    }
    assert(row_views(rows@) =~= point_rows(points@));
    encode_rows(&rows)
}

/// Makes points of bytes.
pub fn decode_points(bytes: &[u8]) -> (res: Result<Vec<Point>, CodecError>)
    ensures
        match res {
            Ok(points) => holds_points(bytes@, points@),
            Err(_) => decoded(bytes@) is None,
        },
{
    match decode_rows(bytes) {
        Ok(rows) => {
            let ghost all = rows@;
            let mut points: Vec<Point> = Vec::new();
            for row in it: rows
                invariant
                    it.seq() == all,
                    points@.len() == it.index(),
                    forall|j: int|
                        0 <= j < points@.len() ==> point_row(#[trigger] points@[j]) == row_view(all[j]),
            {
                points.push(point_of(row));
            }
            assert(point_rows(points@) =~= row_views(all));
            Ok(points)
        },
        Err(error) => Err(CodecError { reason: error_text(&error) }),
    }
}

/// The points that are read are those that were written: the same number of
/// them, in the same order, with the same values.
pub proof fn lemma_points_read_back(points: Seq<Point>, bytes: Seq<u8>, read: Seq<Point>)
    requires
        holds_points(bytes, points),
        holds_points(bytes, read),
    ensures
        read.len() == points.len(),
        forall|i: int|
            0 <= i < points.len() ==> point_row(#[trigger] read[i]) == point_row(points[i]),
{
    assert(point_rows(points).len() == point_rows(read).len());
    assert forall|i: int| 0 <= i < points.len() implies point_row(#[trigger] read[i]) == point_row(
        points[i],
    ) by {
        assert(point_rows(read)[i] == point_rows(points)[i]);
    }
}

/// Points with the same plain values are the same: they have the same place and
/// colour, bit for bit, and each of their attributes is the same.
pub proof fn lemma_row_tells_point(a: Point, b: Point)
    requires
        point_row(a) == point_row(b),
    ensures
        a.x == b.x,
        a.y == b.y,
        a.z == b.z,
        a.color == b.color,
        a.attributes.intensity == b.attributes.intensity,
        a.attributes.return_number == b.attributes.return_number,
        text_of(a.attributes.classification) == text_of(b.attributes.classification),
        a.attributes.classification is Some <==> b.attributes.classification is Some,
        a.attributes.classification is Some ==> a.attributes.classification->0@
            == b.attributes.classification->0@,
        a.attributes.scanner_channel == b.attributes.scanner_channel,
        a.attributes.scan_angle == b.attributes.scan_angle,
        a.attributes.user_data == b.attributes.user_data,
        a.attributes.point_source_id == b.attributes.point_source_id,
        a.attributes.gps_time == b.attributes.gps_time,
{
}

/// The bytes of the texts of two lists of rows are those of both together; rows
/// without a text have none.
pub proof fn lemma_text_bytes(a: Seq<RowView>, b: Seq<RowView>, row: RowView)
    ensures
        text_bytes(a + b) == text_bytes(a) + text_bytes(b),
        (row.2).2 is None ==> text_bytes(seq![row]) == 0,
        (row.2).2 matches Some(s) ==> text_bytes(seq![row]) == encode_utf8(s).len(),
    decreases b.len(),
{
    let one = seq![row];
    assert(one.drop_last() =~= Seq::<RowView>::empty());
    assert(text_bytes(one.drop_last()) == 0);
    assert(one.last() == row);
    if b.len() == 0 {
        assert(a + b =~= a);
    } else {
        lemma_text_bytes(a, b.drop_last(), row);
        assert((a + b).drop_last() =~= a + b.drop_last());
    }
}

/// The message for bytes that are not those of points ends with the reason, and
/// nothing else in it depends on the reason.
pub proof fn lemma_decode_message(reason: Seq<char>)
    ensures
        decode_message(reason) == decode_message(Seq::empty()) + reason,
{
    assert(decode_message(reason) =~= decode_message(Seq::empty()) + reason);
}

/// Rows can be stored if and only if they, and the bytes of their texts, are fewer
/// than 2^51 - 1.
pub proof fn lemma_storable(rows: Seq<RowView>)
    ensures
        storable(rows) <==> rows.len() + 1 < vstd::arithmetic::power2::pow2(51) && text_bytes(rows)
            + 1 < vstd::arithmetic::power2::pow2(51),
{
    vstd::arithmetic::power2::lemma2_to64_rest();
}

} // verus!
