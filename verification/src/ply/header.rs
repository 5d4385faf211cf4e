//! Parsing of the PLY header.
//!
//! A header is read line by line: the magic word, then declarations up to
//! `end_header`. [`HeaderScan`] takes one line at a time, so that a file need
//! not be in memory; [`PlyHeader::parse`] reads a header that is.

use vstd::prelude::*;
use vstd::utf8::{decode_utf8, valid_utf8};
#[allow(unused_imports)]
use vstd::string::*;
use crate::numbers::{parse_unsigned, unsigned_number};
use crate::ply::fault::{HeaderFault, PlyHeaderError};
use crate::ply::types::{
    declared, format_named, last_with_role, offset_of, stride_of, type_named, HeaderView, PlyFormat,
    PlyHeader, PropertyDef, PropertyRole, PropertyType, PropertyView,
};
use crate::text::{
    ascii_lowered, begins_with, eq_ignore_ascii_case, from_utf8, lowercase, same_text,
    split_whitespace, starts_with, texts, to_lowercase, trim, trimmed, words,
};
#[allow(unused_imports)]
use crate::text::{lemma_decoded_len, lemma_trimmed_len, lemma_words_count};
use vstd::slice::slice_subrange;

verus! {

/// What has been read of a header.
pub struct ScanState {
    /// The magic word has been read.
    pub started: bool,
    /// The last line has been read.
    pub done: bool,
    pub format: Option<PlyFormat>,
    /// The current element is the vertex element.
    pub in_vertex: bool,
    pub vertex_count: nat,
    pub properties: Seq<PropertyView>,
    /// The number of bytes read.
    pub consumed: nat,
}

/// Nothing has been read.
pub open spec fn fresh_scan() -> ScanState {
    ScanState {
        started: false,
        done: false,
        format: None,
        in_vertex: false,
        vertex_count: 0,
        properties: Seq::empty(),
        consumed: 0,
    }
}

/// What a declaration does, given its words and what they are in small
/// letters.
pub open spec fn declare(
    state: ScanState,
    words: Seq<Seq<char>>,
    lower: Seq<Seq<char>>,
) -> Result<ScanState, HeaderFault> {
    if words.len() == 0 {
        Ok(state)
    } else if lower[0] == "format"@ {
        if words.len() < 2 {
            Err(HeaderFault::MalformedFormat)
        } else {
            match format_named(lower[1]) {
                Some(f) => Ok(ScanState { format: Some(f), ..state }),
                None => Err(HeaderFault::UnsupportedFormat(lower[1])),
            }
        }
    } else if lower[0] == "element"@ {
        if words.len() < 3 {
            Err(HeaderFault::MalformedElement)
        } else if ascii_lowered(words[1]) == ascii_lowered("vertex"@) {
            match unsigned_number(words[2], usize::MAX as nat) {
                Ok(n) => Ok(ScanState { in_vertex: true, vertex_count: n, ..state }),
                Err(e) => Err(HeaderFault::InvalidVertexCount(e)),
            }
        } else {
            Ok(ScanState { in_vertex: false, ..state })
        }
    } else if lower[0] == "property"@ {
        if !state.in_vertex {
            Ok(state)
        } else if words.len() < 3 {
            Err(HeaderFault::MalformedProperty)
        } else if ascii_lowered(words[1]) == ascii_lowered("list"@) {
            Err(HeaderFault::ListProperty)
        } else {
            match type_named(lower[1]) {
                Some(t) => Ok(
                    ScanState {
                        properties: state.properties.push(
                            PropertyView { name: lower[2], data_type: t },
                        ),
                        ..state
                    },
                ),
                None => Err(HeaderFault::UnknownPropertyType(words[1])),
            }
        }
    } else if lower[0] == "end_header"@ {
        Ok(ScanState { done: true, ..state })
    } else {
        Ok(state)
    }
}

/// Whether a trimmed line declares nothing: it is empty or a comment.
pub open spec fn is_remark(line: Seq<char>) -> bool {
    ||| line.len() == 0
    ||| begins_with(line, "comment"@)
    ||| begins_with(line, "obj_info"@)
}

/// Each of the texts in small letters.
pub open spec fn lowered(words: Seq<Seq<char>>) -> Seq<Seq<char>> {
    words.map_values(|w: Seq<char>| lowercase(w))
}

/// What a line behind the magic word does.
pub open spec fn scan_text(state: ScanState, line: Seq<char>) -> Result<ScanState, HeaderFault> {
    let text = trimmed(line);
    if is_remark(text) {
        Ok(state)
    } else {
        declare(state, words(text), lowered(words(text)))
    }
}

/// What the next line of the data does. No bytes stand for the end of the data.
pub open spec fn scan_line(state: ScanState, line: Seq<u8>) -> Result<ScanState, HeaderFault> {
    if line.len() == 0 {
        if state.started {
            Err(HeaderFault::UnexpectedEnd)
        } else {
            Err(HeaderFault::MissingMagic)
        }
    } else if !valid_utf8(line) {
        Err(HeaderFault::InvalidUtf8)
    } else {
        let next = ScanState { consumed: state.consumed + line.len(), ..state };
        let text = decode_utf8(line);
        if state.started {
            scan_text(next, text)
        } else if ascii_lowered(trimmed(text)) == ascii_lowered("ply"@) {
            Ok(ScanState { started: true, ..next })
        } else {
            Err(HeaderFault::MissingMagic)
        }
    }
}

/// The number of bytes of the first line of `data`, its line feed included.
pub open spec fn line_len(data: Seq<u8>) -> nat
    decreases data.len(),
{
    if data.len() == 0 {
        0
    } else if data[0] == 10 {
        1
    } else {
        1 + line_len(data.drop_first())
    }
}

/// What the lines of `data` do, up to the one that ends the header.
pub open spec fn scan_lines(state: ScanState, data: Seq<u8>) -> Result<ScanState, HeaderFault>
    decreases data.len(),
{
    if state.done {
        Ok(state)
    } else if data.len() == 0 {
        Err(
            if state.started {
                HeaderFault::UnexpectedEnd
            } else {
                HeaderFault::MissingMagic
            },
        )
    } else {
        proof {
            lemma_line_len(data);
        }
        match scan_line(state, data.take(line_len(data) as int)) {
            Ok(next) => scan_lines(next, data.skip(line_len(data) as int)),
            Err(e) => Err(e),
        }
    }
}

/// The header that a finished scan amounts to.
pub open spec fn conclude(state: ScanState) -> Result<HeaderView, HeaderFault> {
    match state.format {
        None => Err(HeaderFault::MissingFormat),
        Some(format) => if {
            ||| last_with_role(state.properties, PropertyRole::X) is None
            ||| last_with_role(state.properties, PropertyRole::Y) is None
            ||| last_with_role(state.properties, PropertyRole::Z) is None
        } {
            Err(HeaderFault::MissingCoordinates)
        } else {
            Ok(
                HeaderView {
                    format,
                    vertex_count: state.vertex_count,
                    properties: state.properties,
                    header_byte_size: state.consumed,
                },
            )
        },
    }
}

/// The header at the beginning of `data`.
pub open spec fn header_of(data: Seq<u8>) -> Result<HeaderView, HeaderFault> {
    match scan_lines(fresh_scan(), data) {
        Ok(state) => conclude(state),
        Err(e) => Err(e),
    }
}

/// A line of data that is not empty has at least one byte and no more than the
/// data.
pub proof fn lemma_line_len(data: Seq<u8>)
    ensures
        line_len(data) <= data.len(),
        data.len() > 0 ==> line_len(data) > 0,
    decreases data.len(),
{
    if data.len() > 0 && data[0] != 10 {
        lemma_line_len(data.drop_first());
    }
}

/// Finds the end of the line that begins at `start`: behind its line feed, or
/// at the end of the data.
pub fn line_end(data: &[u8], start: usize) -> (res: usize)
    requires
        start <= data@.len(),
    ensures
        start <= res <= data@.len(),
        res - start == line_len(data@.skip(start as int)),
{
    let mut pos: usize = start;
    while pos < data.len()
        invariant
            start <= pos <= data@.len(),
            line_len(data@.skip(start as int)) == pos - start + line_len(data@.skip(pos as int)),
        decreases data@.len() - pos,
    {
        assert(data@.skip(pos as int).drop_first() =~= data@.skip(pos + 1));
        if data[pos] == 10 {
            return pos + 1;
        }
        pos += 1;
    }
    pos
}

/// A header that is being read.
pub struct HeaderScan {
    started: bool,
    done: bool,
    format: Option<PlyFormat>,
    in_vertex: bool,
    vertex_count: usize,
    properties: Vec<PropertyDef>,
    stride: usize,
    consumed: u64,
}

impl View for HeaderScan {
    type V = ScanState;

    closed spec fn view(&self) -> ScanState {
        ScanState {
            started: self.started,
            done: self.done,
            format: self.format,
            in_vertex: self.in_vertex,
            vertex_count: self.vertex_count as nat,
            properties: declared(self.properties@),
            consumed: self.consumed as nat,
        }
    }
}

/// Whether the definitions carry the offsets of consecutive values.
pub open spec fn laid_out(defs: Seq<PropertyDef>) -> bool {
    forall|i: int|
        0 <= i < defs.len() ==> (#[trigger] defs[i]).offset == offset_of(declared(defs), i)
}

/// The lower-case forms of words.
fn lowered_words(words: &Vec<String>) -> (res: Vec<String>)
    ensures
        texts(res@) == lowered(texts(words@)),
{
    let mut out: Vec<String> = Vec::new();
    let mut i: usize = 0;
    while i < words.len()
        invariant
            i <= words.len(),
            out.len() == i,
            forall|j: int| 0 <= j < i ==> (#[trigger] out@[j])@ == lowercase(words@[j]@),
        decreases words.len() - i,
    {
        out.push(to_lowercase(words[i].as_str()));
        i += 1;
    }
    assert(texts(out@) =~= lowered(texts(words@)));
    out
}

impl HeaderScan {
    /// The stride is the total size of the properties, and the header read so
    /// far is long enough to declare them.
    pub closed spec fn wf(&self) -> bool {
        &&& laid_out(self.properties@)
        &&& self.stride == stride_of(self@.properties)
        &&& 5 * self.stride <= 8 * self.consumed
        &&& self.consumed <= isize::MAX
    }

    /// A scan that has read nothing.
    pub fn new() -> (res: HeaderScan)
        ensures
            res.wf(),
            res@ == fresh_scan(),
    {
        let res = HeaderScan {
            started: false,
            done: false,
            format: None,
            in_vertex: false,
            vertex_count: 0,
            properties: Vec::new(),
            stride: 0,
            consumed: 0,
        };
        assert(res@.properties =~= Seq::<PropertyView>::empty());
        res
    }

    /// Tells whether the line that ends the header has been read.
    pub fn is_done(&self) -> (res: bool)
        ensures
            res == self@.done,
    {
        self.done
    }

    /// The number of bytes read.
    pub fn consumed(&self) -> (res: u64)
        requires
            self.wf(),
        ensures
            res == self@.consumed,
            res <= isize::MAX,
    {
        self.consumed
    }

    /// Takes a declaration from a line of `bytes` bytes, given as its words and
    /// what they are in small letters. A refused declaration changes nothing.
    pub fn declare(&mut self, bytes: usize, words: &Vec<String>, lower: &Vec<String>) -> (res: Result<
        (),
        PlyHeaderError,
    >)
        requires
            old(self).wf(),
            words@.len() == lower@.len(),
            2 * words@.len() <= bytes + 1,
            old(self)@.consumed + bytes <= isize::MAX,
        ensures
            final(self).wf(),
            match declare(
                ScanState { consumed: old(self)@.consumed + bytes as nat, ..old(self)@ },
                texts(words@),
                texts(lower@),
            ) {
                Ok(next) => res is Ok && final(self)@ == next,
                Err(e) => res matches Err(err) && err@ == e && final(self)@ == old(self)@,
            },
    {
        proof {
            assert forall|i: int| 0 <= i < words@.len() implies #[trigger] texts(words@)[i]
                == words@[i]@ by {}
            assert forall|i: int| 0 <= i < lower@.len() implies #[trigger] texts(lower@)[i]
                == lower@[i]@ by {}
        }
        let total: u64 = self.consumed + bytes as u64;
        if words.len() == 0 {
            self.consumed = total;
            return Ok(());
        }
        let keyword = lower[0].as_str();
        if same_text(keyword, "format") {
            if words.len() < 2 {
                return Err(PlyHeaderError::MalformedFormat);
            }
            match PlyFormat::from_lowercase(lower[1].as_str()) {
                Some(f) => {
                    self.format = Some(f);
                },
                None => {
                    return Err(PlyHeaderError::UnsupportedFormat(lower[1].clone()));
                },
            }
        } else if same_text(keyword, "element") {
            if words.len() < 3 {
                return Err(PlyHeaderError::MalformedElement);
            }
            if eq_ignore_ascii_case(words[1].as_str(), "vertex") {
                match parse_unsigned(words[2].as_str(), usize::MAX as u64) {
                    Ok(n) => {
                        self.in_vertex = true;
                        self.vertex_count = n as usize;
                    },
                    Err(e) => {
                        return Err(PlyHeaderError::InvalidVertexCount(e));
                    },
                }
            } else {
                self.in_vertex = false;
            }
        } else if same_text(keyword, "property") {
            if self.in_vertex {
                if words.len() < 3 {
                    return Err(PlyHeaderError::MalformedProperty);
                }
                if eq_ignore_ascii_case(words[1].as_str(), "list") {
                    return Err(PlyHeaderError::ListProperty);
                }
                let data_type = match PropertyType::from_lowercase(lower[1].as_str()) {
                    Some(t) => t,
                    None => {
                        return Err(PlyHeaderError::UnknownPropertyType(words[1].clone()));
                    },
                };
                self.add_property(lower[2].clone(), data_type);
            }
        } else if same_text(keyword, "end_header") {
            self.done = true;
        }
        self.consumed = total;
        Ok(())
    }

    /// Takes the next line of the data, its line feed included; no bytes stand
    /// for the end of the data. A refused line changes nothing.
    pub fn feed_line(&mut self, line: &[u8]) -> (res: Result<(), PlyHeaderError>)
        requires
            old(self).wf(),
            old(self)@.consumed + line@.len() <= isize::MAX,
        ensures
            final(self).wf(),
            match scan_line(old(self)@, line@) {
                Ok(next) => res is Ok && final(self)@ == next,
                Err(e) => res matches Err(err) && err@ == e && final(self)@ == old(self)@,
            },
    {
        if line.len() == 0 {
            if self.started {
                return Err(PlyHeaderError::UnexpectedEnd);
            }
            return Err(PlyHeaderError::MissingMagic);
        }
        let text = match from_utf8(line) {
            Some(text) => text,
            None => {
                return Err(PlyHeaderError::InvalidUtf8);
            },
        };
        let content = trim(text);
        if !self.started {
            if !eq_ignore_ascii_case(content, "ply") {
                return Err(PlyHeaderError::MissingMagic);
            }
            self.started = true;
            self.consumed = self.consumed + line.len() as u64;
            return Ok(());
        }
        if content.is_empty() || starts_with(content, "comment") || starts_with(content, "obj_info") {
            self.consumed = self.consumed + line.len() as u64;
            return Ok(());
        }
        let parts = split_whitespace(content);
        let lower = lowered_words(&parts);
        proof {
            lemma_decoded_len(line@);
            lemma_trimmed_len(text@);
            lemma_words_count(content@);
            assert(texts(parts@).len() == parts@.len());
            assert(texts(lower@).len() == lower@.len());
        }
        self.declare(line.len(), &parts, &lower)
    }

    /// Makes the header of what has been read.
    pub fn finish(self) -> (res: Result<PlyHeader, PlyHeaderError>)
        requires
            self.wf(),
        ensures
            match conclude(self@) {
                Ok(h) => res matches Ok(header) && header@ == h && header.wf(),
                Err(e) => res matches Err(err) && err@ == e,
            },
    {
        let format = match self.format {
            Some(format) => format,
            None => {
                return Err(PlyHeaderError::MissingFormat);
            },
        };
        let mut x_prop: Option<usize> = None;
        let mut y_prop: Option<usize> = None;
        let mut z_prop: Option<usize> = None;
        let mut r_prop: Option<usize> = None;
        let mut g_prop: Option<usize> = None;
        let mut b_prop: Option<usize> = None;
        let mut intensity_prop: Option<usize> = None;
        let ghost props = declared(self.properties@);
        let mut i: usize = 0;
        while i < self.properties.len()
            invariant
                i <= self.properties@.len(),
                props == declared(self.properties@),
                x_prop == last_with_role(props.take(i as int), PropertyRole::X),
                y_prop == last_with_role(props.take(i as int), PropertyRole::Y),
                z_prop == last_with_role(props.take(i as int), PropertyRole::Z),
                r_prop == last_with_role(props.take(i as int), PropertyRole::Red),
                g_prop == last_with_role(props.take(i as int), PropertyRole::Green),
                b_prop == last_with_role(props.take(i as int), PropertyRole::Blue),
                intensity_prop == last_with_role(props.take(i as int), PropertyRole::Intensity),
            decreases self.properties@.len() - i,
        {
            assert(props.take(i + 1).drop_last() =~= props.take(i as int));
            assert(props.take(i + 1).last().name == self.properties@[i as int].name@);
            match PropertyRole::from_name(self.properties[i].name.as_str()) {
                Some(PropertyRole::X) => {
                    x_prop = Some(i);
                },
                Some(PropertyRole::Y) => {
                    y_prop = Some(i);
                },
                Some(PropertyRole::Z) => {
                    z_prop = Some(i);
                },
                Some(PropertyRole::Red) => {
                    r_prop = Some(i);
                },
                Some(PropertyRole::Green) => {
                    g_prop = Some(i);
                },
                Some(PropertyRole::Blue) => {
                    b_prop = Some(i);
                },
                Some(PropertyRole::Intensity) => {
                    intensity_prop = Some(i);
                },
                None => {},
            }
            i += 1;
        }
        assert(props.take(i as int) =~= props);
        if x_prop.is_none() || y_prop.is_none() || z_prop.is_none() {
            return Err(PlyHeaderError::MissingCoordinates);
        }
        Ok(
            PlyHeader {
                format,
                vertex_count: self.vertex_count,
                properties: self.properties,
                vertex_stride: self.stride,
                header_byte_size: self.consumed,
                x_prop,
                y_prop,
                z_prop,
                r_prop,
                g_prop,
                b_prop,
                intensity_prop,
            },
        )
    }

    /// Adds a property behind those declared so far.
    fn add_property(&mut self, name: String, data_type: PropertyType)
        requires
            laid_out(old(self).properties@),
            old(self).stride == stride_of(old(self)@.properties),
            old(self).stride + 8 <= usize::MAX,
        ensures
            laid_out(final(self).properties@),
            final(self).stride == stride_of(final(self)@.properties),
            final(self).stride <= old(self).stride + 8,
            final(self)@ == (ScanState {
                properties: old(self)@.properties.push(PropertyView { name: name@, data_type }),
                ..old(self)@
            }),
            final(self).consumed == old(self).consumed,
    {
        let ghost before = declared(self.properties@);
        let size = data_type.size_in_bytes();
        let def = PropertyDef { name, data_type, offset: self.stride };
        self.properties.push(def);
        self.stride = self.stride + size;
        proof {
            let after = declared(self.properties@);
            assert(after =~= before.push(PropertyView { name: name@, data_type }));
            assert(after.drop_last() =~= before);
            assert forall|i: int| 0 <= i < self.properties@.len() implies (
            #[trigger] self.properties@[i]).offset == offset_of(after, i) by {
                if i < before.len() {
                    assert(after.take(i) =~= before.take(i));
                } else {
                    assert(after.take(i) =~= before);
                }
            }
        }
    }
}

impl PlyHeader {
    /// Reads the header at the beginning of `data`.
    pub fn parse(data: &[u8]) -> (res: Result<PlyHeader, PlyHeaderError>)
        requires
            data@.len() <= isize::MAX,
        ensures
            match header_of(data@) {
                Ok(h) => res matches Ok(header) && header@ == h && header.wf(),
                Err(e) => res matches Err(err) && err@ == e,
            },
    {
        let mut scan = HeaderScan::new();
        let mut pos: usize = 0;
        assert(data@.skip(0) =~= data@);
        while !scan.is_done()
            invariant
                scan.wf(),
                data@.len() <= isize::MAX,
                pos <= data@.len(),
                scan@.consumed == pos,
                scan_lines(fresh_scan(), data@) == scan_lines(scan@, data@.skip(pos as int)),
            decreases data@.len() - pos,
        {
            let end = line_end(data, pos);
            let line = slice_subrange(data, pos, end);
            let ghost rest = data@.skip(pos as int);
            let ghost before = scan@;
            proof {
                lemma_line_len(rest);
                assert(line@ =~= rest.take(line_len(rest) as int));
                assert(rest.skip(line_len(rest) as int) =~= data@.skip(end as int));
            }
            match scan.feed_line(line) {
                Ok(()) => {},
                Err(e) => {
                    return Err(e);
                },
            }
            proof {
                lemma_scan_line(before, line@);
            }
            pos = end;
        }
        scan.finish()
    }
}

/// An accepted line adds its bytes to those read.
proof fn lemma_scan_line(state: ScanState, line: Seq<u8>)
    ensures
        scan_line(state, line) matches Ok(next) ==> {
            &&& line.len() > 0
            &&& next.consumed == state.consumed + line.len()
        },
{
}

/// A line that ends with a line feed ends there whatever comes behind.
proof fn lemma_line_len_kept(data: Seq<u8>, other: Seq<u8>)
    requires
        0 < line_len(data) <= other.len(),
        data[line_len(data) - 1] == 10,
        other.take(line_len(data) as int) == data.take(line_len(data) as int),
    ensures
        line_len(other) == line_len(data),
    decreases data.len(),
{
    let l = line_len(data) as int;
    lemma_line_len(data);
    assert(other.take(l)[0] == data.take(l)[0]);
    if data[0] != 10 {
        let d = data.drop_first();
        let o = other.drop_first();
        lemma_line_len(d);
        assert(d[l - 2] == data[l - 1]);
        assert(o.take(l - 1) =~= d.take(l - 1)) by {
            assert forall|i: int| 0 <= i < l - 1 implies #[trigger] o.take(l - 1)[i] == d.take(l - 1)[i] by {
                assert(other.take(l)[i + 1] == data.take(l)[i + 1]);
            }
        }
        lemma_line_len_kept(d, o);
    }
}

/// A line without a line feed is all of the data.
proof fn lemma_line_len_open(data: Seq<u8>)
    requires
        data.len() > 0,
        data[line_len(data) - 1] != 10,
    ensures
        line_len(data) == data.len(),
    decreases data.len(),
{
    lemma_line_len(data);
    if data[0] != 10 {
        let d = data.drop_first();
        if d.len() > 0 {
            lemma_line_len(d);
            assert(d[line_len(d) - 1] == data[line_len(data) - 1]);
            lemma_line_len_open(d);
        } else {
            assert(line_len(d) == 0);
        }
    }
}

/// A scan takes no more bytes than there are.
proof fn lemma_scan_consumes(state: ScanState, data: Seq<u8>)
    ensures
        scan_lines(state, data) matches Ok(end) ==> state.consumed <= end.consumed <= state.consumed
            + data.len(),
    decreases data.len(),
{
    if !state.done && data.len() > 0 {
        lemma_line_len(data);
        let l = line_len(data) as int;
        if let Ok(next) = scan_line(state, data.take(l)) {
            lemma_scan_line(state, data.take(l));
            lemma_scan_consumes(next, data.skip(l));
        }
    }
}

proof fn lemma_scan_kept(state: ScanState, data: Seq<u8>, other: Seq<u8>)
    requires
        scan_lines(state, data) is Ok,
        ({
            let n = scan_lines(state, data)->Ok_0.consumed - state.consumed;
            &&& n <= other.len()
            &&& n > 0 ==> data[n - 1] == 10
            &&& other.take(n) == data.take(n)
        }),
    ensures
        scan_lines(state, other) == scan_lines(state, data),
    decreases data.len(),
{
    if !state.done {
        let n = scan_lines(state, data)->Ok_0.consumed - state.consumed;
        let l = line_len(data) as int;
        lemma_line_len(data);
        let next = scan_line(state, data.take(l))->Ok_0;
        lemma_scan_line(state, data.take(l));
        lemma_scan_consumes(next, data.skip(l));
        assert(data[l - 1] == 10) by {
            if data[l - 1] != 10 {
                lemma_line_len_open(data);
            }
        }
        assert(other.take(l) =~= data.take(l)) by {
            assert(other.take(l) =~= other.take(n).take(l));
            assert(data.take(l) =~= data.take(n).take(l));
        }
        lemma_line_len_kept(data, other);
        let d = data.skip(l);
        let o = other.skip(l);
        assert(o.take(n - l) =~= d.take(n - l)) by {
            assert forall|i: int| 0 <= i < n - l implies #[trigger] o.take(n - l)[i] == d.take(n - l)[i] by {
                assert(other.take(n)[i + l] == data.take(n)[i + l]);
            }
        }
        if n > l {
            assert(d[n - l - 1] == data[n - 1]);
        }
        lemma_scan_kept(next, d, o);
    }
}

/// The header lies within the data.
pub proof fn lemma_header_within(data: Seq<u8>)
    ensures
        header_of(data) matches Ok(h) ==> 0 < h.header_byte_size <= data.len(),
{
    lemma_scan_consumes(fresh_scan(), data);
    if data.len() > 0 {
        let l = line_len(data) as int;
        lemma_line_len(data);
        if let Ok(next) = scan_line(fresh_scan(), data.take(l)) {
            lemma_scan_line(fresh_scan(), data.take(l));
            lemma_scan_consumes(next, data.skip(l));
        }
    }
}

/// What stands behind a header whose last line ends with a line feed does not
/// change the header.
pub proof fn lemma_header_kept(data: Seq<u8>, behind: Seq<u8>)
    requires
        header_of(data) is Ok,
        data[header_of(data)->Ok_0.header_byte_size - 1] == 10,
    ensures
        header_of(data.take(header_of(data)->Ok_0.header_byte_size as int) + behind) == header_of(data),
{
    let n = header_of(data)->Ok_0.header_byte_size as int;
    lemma_header_within(data);
    let other = data.take(n) + behind;
    assert(other.take(n) =~= data.take(n));
    lemma_scan_kept(fresh_scan(), data, other);
}

/// A comment or an empty line counts towards the size of the header and does
/// nothing else.
pub proof fn lemma_remark_ignored(state: ScanState, line: Seq<u8>)
    requires
        state.started,
        line.len() > 0,
        valid_utf8(line),
        is_remark(trimmed(decode_utf8(line))),
    ensures
        scan_line(state, line) == Ok::<ScanState, HeaderFault>(
            ScanState { consumed: state.consumed + line.len(), ..state },
        ),
{
}

/// What whole lines do, up to the one that ends the header.
spec fn after_lines(state: ScanState, lines: Seq<u8>) -> Result<ScanState, HeaderFault>
    decreases lines.len(),
{
    if state.done || lines.len() == 0 {
        Ok(state)
    } else {
        proof {
            lemma_line_len(lines);
        }
        match scan_line(state, lines.take(line_len(lines) as int)) {
            Ok(next) => after_lines(next, lines.skip(line_len(lines) as int)),
            Err(e) => Err(e),
        }
    }
}

/// Whole lines are scanned before what stands behind them.
proof fn lemma_scan_behind(state: ScanState, lines: Seq<u8>, behind: Seq<u8>)
    requires
        lines.len() > 0 ==> lines.last() == 10,
    ensures
        scan_lines(state, lines + behind) == match after_lines(state, lines) {
            Ok(middle) => scan_lines(middle, behind),
            Err(e) => Err(e),
        },
    decreases lines.len(),
{
    let data = lines + behind;
    if lines.len() == 0 {
        assert(data =~= behind);
    } else if !state.done {
        let l = line_len(lines) as int;
        lemma_line_len(lines);
        if lines[l - 1] != 10 {
            lemma_line_len_open(lines);
        }
        assert(data.take(l) =~= lines.take(l));
        lemma_line_len_kept(lines, data);
        assert(data.skip(l) =~= lines.skip(l) + behind);
        let rest = lines.skip(l);
        if rest.len() > 0 {
            assert(rest.last() == lines.last());
        }
        if let Ok(next) = scan_line(state, lines.take(l)) {
            lemma_scan_behind(next, rest, behind);
        }
    }
}

/// Lines that do not end the header are counted in full, and the first of them
/// is the magic word.
proof fn lemma_after_lines(state: ScanState, lines: Seq<u8>)
    ensures
        after_lines(state, lines) matches Ok(middle) ==> {
            &&& middle.consumed <= state.consumed + lines.len()
            &&& !middle.done ==> middle.consumed == state.consumed + lines.len()
            &&& !middle.done && lines.len() > 0 ==> middle.started
            &&& state.started ==> middle.started
        },
    decreases lines.len(),
{
    if !state.done && lines.len() > 0 {
        let l = line_len(lines) as int;
        lemma_line_len(lines);
        lemma_scan_line(state, lines.take(l));
        if let Ok(next) = scan_line(state, lines.take(l)) {
            lemma_after_lines(next, lines.skip(l));
        }
    }
}

/// The state with more bytes counted.
spec fn counted_on(state: ScanState, more: nat) -> ScanState {
    ScanState { consumed: state.consumed + more, ..state }
}

/// How many bytes were read before does not matter to what lines do.
proof fn lemma_scan_counted_on(state: ScanState, data: Seq<u8>, more: nat)
    ensures
        scan_lines(counted_on(state, more), data) == match scan_lines(state, data) {
            Ok(end) => Ok::<ScanState, HeaderFault>(counted_on(end, more)),
            Err(e) => Err(e),
        },
    decreases data.len(),
{
    if !state.done && data.len() > 0 {
        let l = line_len(data) as int;
        lemma_line_len(data);
        let line = data.take(l);
        assert(scan_line(counted_on(state, more), line) == match scan_line(state, line) {
            Ok(next) => Ok::<ScanState, HeaderFault>(counted_on(next, more)),
            Err(e) => Err(e),
        });
        if let Ok(next) = scan_line(state, line) {
            lemma_scan_counted_on(next, data.skip(l), more);
        }
    }
}

/// A comment or an empty line put between two lines of a header makes the header
/// larger and changes nothing else.
pub proof fn lemma_remark_put_in(before: Seq<u8>, remark: Seq<u8>, behind: Seq<u8>)
    requires
        header_of(before + behind) is Ok,
        0 < before.len() < header_of(before + behind)->Ok_0.header_byte_size,
        before.last() == 10,
        valid_utf8(remark),
        line_len(remark) == remark.len(),
        remark.len() > 0,
        remark.last() == 10,
        is_remark(trimmed(decode_utf8(remark))),
    ensures
        header_of(before + remark + behind) == Ok::<HeaderView, HeaderFault>(
            HeaderView {
                header_byte_size: header_of(before + behind)->Ok_0.header_byte_size + remark.len(),
                ..header_of(before + behind)->Ok_0
            },
        ),
{
    let start = fresh_scan();
    lemma_scan_behind(start, before, behind);
    lemma_after_lines(start, before);
    let middle = after_lines(start, before)->Ok_0;
    assert(!middle.done);
    let rest = remark + behind;
    assert(before + remark + behind =~= before + rest);
    lemma_scan_behind(start, before, rest);
    lemma_scan_behind(middle, remark, behind);
    lemma_remark_ignored(middle, remark);
    let next = counted_on(middle, remark.len());
    assert(remark.take(line_len(remark) as int) =~= remark);
    assert(remark.skip(line_len(remark) as int) =~= Seq::<u8>::empty());
    assert(after_lines(next, Seq::<u8>::empty()) == Ok::<ScanState, HeaderFault>(next));
    assert(after_lines(middle, remark) == Ok::<ScanState, HeaderFault>(next));
    lemma_scan_counted_on(middle, behind, remark.len());
}

} // verus!
