//! Reading the points of a list of PLY files.
//!
//! [`PlyPointReader`] decides what to do next and makes the points; whoever
//! drives it opens the files, reads lines and records, and reads the numbers
//! in the fields of a text record.

use vstd::prelude::*;
#[allow(unused_imports)]
use vstd::string::*;
use crate::binary64::Real;
use crate::numbers::{decimal, decimal_text};
use crate::ply::types::{stride_of, HeaderView, PlyFormat, PlyHeader};
use crate::ply::vertex::{
    fields_point, holds_point, point_from_fields, point_from_record, vertex_fields, Axis, VertexLine,
};
use crate::point::Point;
use crate::text::{blank, texts, trimmed, words};
#[allow(unused_imports)]
use crate::text::{lemma_blank, lemma_trimmed, lemma_words_trimmed};

verus! {

/// What the driver tells the reader.
pub enum ReadEvent<'a> {
    /// A point is wanted.
    Begin,
    /// The file that was to be opened has this header.
    Opened(PlyHeader),
    /// The next line of the open file.
    Line(&'a str),
    /// The number that each field of the last line writes, if it writes one.
    Fields(&'a Vec<Option<Real>>),
    /// The next record of the open file.
    Record(&'a [u8]),
    /// The open file ends before the next line or record.
    EndOfData,
}

/// What the reader tells the driver.
#[derive(Debug)]
pub enum ReadAction {
    /// Open the file of this index and parse its header.
    Open(usize),
    /// Read the next line.
    ReadLine,
    /// Read the next record, of so many bytes.
    ReadRecord(usize),
    /// Read the numbers in these fields.
    ParseFields(Vec<String>),
    /// Here is the point.
    Yield(Point),
    /// There are no more points.
    Finished,
    /// The record cannot be read.
    Fail(ReadFault),
}

/// Why a text record cannot be read.
#[derive(Debug, Clone, Copy, PartialEq, Eq, Structural)]
pub enum ReadFault {
    /// It has fewer fields than the vertex has properties.
    ShortLine { expected: usize, found: usize },
    /// The field of a coordinate is not a number.
    BadCoordinate(Axis),
}

/// The message for a record with too few fields.
pub open spec fn short_line_message(expected: nat, found: nat) -> Seq<char> {
    "Corrupted PLY ascii vertex: expected "@ + decimal(expected) + " tokens, found "@ + decimal(found)
}

/// The message for a coordinate that is not a number, without the reason.
pub open spec fn bad_coordinate_message(axis: Axis) -> Seq<char> {
    match axis {
        Axis::X => "Failed to parse 'x': "@,
        Axis::Y => "Failed to parse 'y': "@,
        Axis::Z => "Failed to parse 'z': "@,
    }
}

impl ReadFault {
    /// Describes the fault. What is wrong with a coordinate is left for the
    /// driver to append.
    pub fn message(&self) -> (res: String)
        ensures
            match *self {
                ReadFault::ShortLine { expected, found } => res@ == short_line_message(
                    expected as nat,
                    found as nat,
                ),
                ReadFault::BadCoordinate(axis) => res@ == bad_coordinate_message(axis),
            },
    {
        match self {
            ReadFault::ShortLine { expected, found } => {
                let mut out = "Corrupted PLY ascii vertex: expected ".to_owned();
                out.append(decimal_text(*expected as u64).as_str());
                out.append(" tokens, found ");
                out.append(decimal_text(*found as u64).as_str());
                out
            },
            ReadFault::BadCoordinate(Axis::X) => "Failed to parse 'x': ".to_owned(),
            ReadFault::BadCoordinate(Axis::Y) => "Failed to parse 'y': ".to_owned(),
            ReadFault::BadCoordinate(Axis::Z) => "Failed to parse 'z': ".to_owned(),
        }
    }
}

/// Where a reader stands.
pub struct ReaderState {
    /// The number of files.
    pub files: nat,
    /// The index of the file to open next.
    pub next: nat,
    /// The header of the open file.
    pub header: Option<HeaderView>,
    /// The number of points that the open file has given.
    pub read: nat,
}

/// Whether the open file is to give more points.
pub open spec fn reading(state: ReaderState) -> bool {
    state.header matches Some(h) && state.read < h.vertex_count
}

/// Whether the open file is to give more points and is a text file.
pub open spec fn reading_text(state: ReaderState) -> bool {
    reading(state) && state.header->0.format == PlyFormat::Ascii
}

/// The state with no file open.
pub open spec fn closed_file(state: ReaderState) -> ReaderState {
    ReaderState { header: None, read: 0, ..state }
}

/// The state behind one more point.
pub open spec fn counted(state: ReaderState) -> ReaderState {
    ReaderState { read: state.read + 1, ..state }
}

/// What the reader does to get on: it reads from the open file as long as that
/// is to give more points, then opens the next file, until there is none.
pub open spec fn goes_on(before: ReaderState, after: ReaderState, action: ReadAction) -> bool {
    if reading(before) {
        &&& after == before
        &&& if before.header->0.format == PlyFormat::Ascii {
            action is ReadLine
        } else {
            action matches ReadAction::ReadRecord(n) && n == stride_of(before.header->0.properties)
        }
    } else if before.next < before.files {
        &&& after == ReaderState { next: before.next + 1, ..closed_file(before) }
        &&& action matches ReadAction::Open(i) && i == before.next
    } else {
        &&& after == closed_file(before)
        &&& action is Finished
    }
}

/// What the reader does with a line of a text file.
pub open spec fn takes_line(
    before: ReaderState,
    line: Seq<char>,
    after: ReaderState,
    action: ReadAction,
) -> bool {
    let fields = words(trimmed(line));
    let expected = before.header->0.properties.len();
    &&& after == before
    &&& if trimmed(line).len() == 0 {
        action is ReadLine
    } else if fields.len() < expected {
        action matches ReadAction::Fail(ReadFault::ShortLine { expected: e, found: f }) && e
            == expected && f == fields.len()
    } else {
        action matches ReadAction::ParseFields(f) && texts(f@) == fields
    }
}

/// What the reader does when it is told of `event`.
pub open spec fn responds(
    before: ReaderState,
    event: ReadEvent,
    after: ReaderState,
    action: ReadAction,
) -> bool {
    match event {
        ReadEvent::Begin => goes_on(before, after, action),
        ReadEvent::Opened(header) => goes_on(
            ReaderState { header: Some(header@), read: 0, ..before },
            after,
            action,
        ),
        ReadEvent::Line(line) => takes_line(before, line@, after, action),
        ReadEvent::Fields(values) => match fields_point(before.header->0, values@) {
            Ok(point) => after == counted(before) && action == ReadAction::Yield(point),
            Err(axis) => after == before && action == ReadAction::Fail(
                ReadFault::BadCoordinate(axis),
            ),
        },
        ReadEvent::Record(record) => {
            &&& after == counted(before)
            &&& action matches ReadAction::Yield(point) && holds_point(
                before.header->0,
                record@,
                point,
            )
        },
        ReadEvent::EndOfData => goes_on(closed_file(before), after, action),
    }
}

/// When the reader may be told of `event`.
pub open spec fn may_happen(state: ReaderState, event: ReadEvent) -> bool {
    match event {
        ReadEvent::Begin => true,
        ReadEvent::Opened(header) => header.wf() && state.header is None,
        ReadEvent::Line(_) => reading_text(state),
        ReadEvent::Fields(values) => reading_text(state) && values@.len()
            >= state.header->0.properties.len(),
        ReadEvent::Record(record) => {
            &&& reading(state)
            &&& !reading_text(state)
            &&& record@.len() == stride_of(state.header->0.properties)
        },
        ReadEvent::EndOfData => reading(state),
    }
}

/// The number of bytes that a record is taken to have.
pub open spec fn record_size(vertex_stride: usize) -> int {
    if vertex_stride > 0 {
        vertex_stride as int
    } else {
        32
    }
}

/// Gives the points of a list of PLY files, file after file.
pub struct PlyPointReader {
    file_count: usize,
    current_file_index: usize,
    current_header: Option<PlyHeader>,
    points_read_in_file: usize,
}

impl View for PlyPointReader {
    type V = ReaderState;

    closed spec fn view(&self) -> ReaderState {
        ReaderState {
            files: self.file_count as nat,
            next: self.current_file_index as nat,
            header: match self.current_header {
                Some(h) => Some(h@),
                None => None,
            },
            read: self.points_read_in_file as nat,
        }
    }
}

impl PlyPointReader {
    /// No more files have been opened than there are, and the open file has
    /// given no more points than it declares.
    pub closed spec fn wf(&self) -> bool {
        &&& self.current_file_index <= self.file_count
        &&& match self.current_header {
            Some(h) => h.wf() && self.points_read_in_file <= h.vertex_count,
            None => self.points_read_in_file == 0,
        }
    }

    /// A reader of `file_count` files, none of them open.
    pub fn new(file_count: usize) -> (res: PlyPointReader)
        ensures
            res.wf(),
            res@ == (ReaderState { files: file_count as nat, next: 0, header: None, read: 0 }),
    {
        PlyPointReader {
            file_count,
            current_file_index: 0,
            current_header: None,
            points_read_in_file: 0,
        }
    }

    /// The index of the file that will be opened next.
    pub fn current_file_index(&self) -> (res: usize)
        ensures
            res == self@.next,
    {
        self.current_file_index
    }

    /// Estimates how many bytes the points of a file take: as many records as
    /// its header declares, or the size of the file where no header could be
    /// read, or nothing where not even that is known.
    pub fn estimate_processing_size(header: Option<&PlyHeader>, file_size: Option<u64>) -> (res: u64)
        requires
            header matches Some(h) ==> h.vertex_count * record_size(h.vertex_stride) <= u64::MAX,
        ensures
            res == match header {
                Some(h) => h.vertex_count * record_size(h.vertex_stride),
                None => match file_size {
                    Some(n) => n as int,
                    None => 0,
                },
            },
    {
        match header {
            Some(h) => {
                let bytes_per_point: u64 = if h.vertex_stride > 0 {
                    h.vertex_stride as u64
                } else {
                    32
                };
                h.vertex_count as u64 * bytes_per_point
            },
            None => match file_size {
                Some(n) => n,
                None => 0,
            },
        }
    }

    /// Decides how to get on.
    fn advance(&mut self) -> (res: ReadAction)
        requires
            old(self).wf(),
        ensures
            final(self).wf(),
            goes_on(old(self)@, final(self)@, res),
    {
        if let Some(header) = &self.current_header {
            if self.points_read_in_file < header.vertex_count {
                return match header.format {
                    PlyFormat::Ascii => ReadAction::ReadLine,
                    PlyFormat::BinaryLittleEndian | PlyFormat::BinaryBigEndian =>
                        ReadAction::ReadRecord(header.vertex_stride),
                };
            }
        }
        self.current_header = None;
        self.points_read_in_file = 0;
        if self.current_file_index < self.file_count {
            let index = self.current_file_index;
            self.current_file_index = index + 1;
            ReadAction::Open(index)
        } else {
            ReadAction::Finished
        }
    }

    /// Takes an event and tells what to do next.
    pub fn step(&mut self, event: ReadEvent) -> (res: ReadAction)
        requires
            old(self).wf(),
            may_happen(old(self)@, event),
        ensures
            final(self).wf(),
            responds(old(self)@, event, final(self)@, res),
    {
        match event {
            ReadEvent::Begin => self.advance(),
            ReadEvent::Opened(header) => {
                self.current_header = Some(header);
                self.points_read_in_file = 0;
                self.advance()
            },
            ReadEvent::Line(line) => {
                if let Some(header) = &self.current_header {
                    match vertex_fields(header, line) {
                        VertexLine::Blank => ReadAction::ReadLine,
                        VertexLine::Short { expected, found } => ReadAction::Fail(
                            ReadFault::ShortLine { expected, found },
                        ),
                        VertexLine::Fields(fields) => ReadAction::ParseFields(fields),
                    }
                } else {
                    ReadAction::Finished
                }
            },
            ReadEvent::Fields(values) => {
                if let Some(header) = &self.current_header {
                    match point_from_fields(header, values) {
                        Ok(point) => {
                            self.points_read_in_file = self.points_read_in_file + 1;
                            ReadAction::Yield(point)
                        },
                        Err(axis) => ReadAction::Fail(ReadFault::BadCoordinate(axis)),
                    }
                } else {
                    ReadAction::Finished
                }
            },
            ReadEvent::Record(record) => {
                if let Some(header) = &self.current_header {
                    let point = point_from_record(header, record);
                    self.points_read_in_file = self.points_read_in_file + 1;
                    ReadAction::Yield(point)
                } else {
                    ReadAction::Finished
                }
            },
            ReadEvent::EndOfData => {
                self.current_header = None;
                self.points_read_in_file = 0;
                self.advance()
            },
        }
    }
}

/// The files are opened in their order, each once: a file is opened only when
/// those before it have been, and nothing else changes which one is next.
pub proof fn lemma_files_in_order(
    before: ReaderState,
    event: ReadEvent,
    after: ReaderState,
    action: ReadAction,
)
    requires
        responds(before, event, after, action),
    ensures
        after.files == before.files,
        match action {
            ReadAction::Open(i) => i == before.next && i < before.files && after.next == before.next + 1
                && after.header is None,
            _ => after.next == before.next,
        },
{
}

/// A file gives no more points than its header declares.
pub proof fn lemma_points_bounded(
    before: ReaderState,
    event: ReadEvent,
    after: ReaderState,
    action: ReadAction,
)
    requires
        may_happen(before, event),
        responds(before, event, after, action),
        action is Yield,
    ensures
        after.header == before.header,
        before.header matches Some(h) && before.read < h.vertex_count && after.read == before.read + 1,
{
}

/// Once there are no more points, there are none whenever one is wanted.
pub proof fn lemma_finished_stays(
    before: ReaderState,
    event: ReadEvent,
    after: ReaderState,
    again: ReaderState,
    action: ReadAction,
)
    requires
        responds(before, event, after, ReadAction::Finished),
        responds(after, ReadEvent::Begin, again, action),
    ensures
        action is Finished,
        again == after,
        after.next >= after.files,
{
}

/// What becomes of a line of a text file. A blank one is passed over. One with
/// fewer words than there are properties is refused, with the two numbers. Of any
/// other the words are the fields, be there more than properties or not. Nothing
/// is counted for a line.
pub proof fn lemma_line_taken(
    before: ReaderState,
    line: &str,
    after: ReaderState,
    action: ReadAction,
)
    requires
        responds(before, ReadEvent::Line(line), after, action),
        before.header is Some,
    ensures
        after == before,
        blank(line@) <==> action is ReadLine,
        match action {
            ReadAction::ReadLine => true,
            ReadAction::Fail(fault) => {
                &&& fault matches ReadFault::ShortLine { expected, found } && expected
                    == before.header->0.properties.len() && found == words(line@).len() && 0 < found
                    < expected
            },
            ReadAction::ParseFields(fields) => {
                &&& texts(fields@) == words(line@)
                &&& words(line@).len() >= before.header->0.properties.len()
            },
            _ => false,
        },
{
    lemma_words_trimmed(line@);
    lemma_blank(line@);
    let (i, j) = lemma_trimmed(line@);
    if trimmed(line@).len() > 0 {
        assert(words(trimmed(line@)).len() > 0);
    }
}

/// A record that cannot be read leaves the reader where it is: the next thing
/// that is read is what stands behind the record in the same file.
pub proof fn lemma_fault_passed(
    before: ReaderState,
    event: ReadEvent,
    after: ReaderState,
    fault: ReadFault,
    again: ReaderState,
    action: ReadAction,
)
    requires
        may_happen(before, event),
        responds(before, event, after, ReadAction::Fail(fault)),
        responds(after, ReadEvent::Begin, again, action),
    ensures
        after == before,
        again == before,
        action is ReadLine,
{
}

/// A record is estimated at the bytes that the values of its properties take, of
/// which there is always one; it would be estimated at 32 bytes if there were
/// none.
pub proof fn lemma_record_size(header: &PlyHeader)
    requires
        header.wf(),
    ensures
        record_size(header.vertex_stride) == stride_of(header@.properties),
        record_size(header.vertex_stride) > 0,
        record_size(0) == 32,
{
    crate::ply::types::lemma_header_roles(header);
    let i = header@.role(crate::ply::types::PropertyRole::X)->0 as int;
    crate::ply::types::lemma_value_in_record(header@.properties, i);
}

/// What is read next is read from a file that has yet to give a point: a line of a
/// text file, or as many bytes of a binary file as the values of the properties
/// take one after another. Once there is nothing more to read no file is open.
pub proof fn lemma_what_is_read(
    before: ReaderState,
    event: ReadEvent,
    after: ReaderState,
    action: ReadAction,
)
    requires
        may_happen(before, event),
        responds(before, event, after, action),
    ensures
        action is ReadLine ==> (after.header matches Some(h) && h.format == PlyFormat::Ascii
            && after.read < h.vertex_count),
        action matches ReadAction::ReadRecord(n) ==> (after.header matches Some(h) && h.format
            != PlyFormat::Ascii && after.read < h.vertex_count && n == stride_of(h.properties)),
        action is Finished ==> after.header is None && after.read == 0,
        event matches ReadEvent::Opened(header) ==> (header.vertex_count > 0 <==> after.header
            is Some) && (after.header matches Some(h) ==> h == header@ && after.read == 0),
{
}

} // verus!
