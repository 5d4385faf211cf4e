//! What the declarations of a header amount to: what each may change, when it
//! is refused, and that a header that is written is read back.

use vstd::prelude::*;
#[allow(unused_imports)]
use vstd::string::*;
#[allow(unused_imports)]
use crate::numbers::lemma_decimal_read_back;
use crate::numbers::{decimal, unsigned_number, NumberError};
use crate::ply::fault::HeaderFault;
use crate::ply::header::{
    conclude, declare, fresh_scan, is_remark, line_len, scan_line, scan_lines, ScanState,
};
use crate::ply::types::{
    format_name, format_named, last_with_role, plain_name, role_named, sized_name, type_named,
    HeaderView, PlyFormat, PropertyRole, PropertyType, PropertyView,
};
#[allow(unused_imports)]
use crate::ply::types::{lemma_format_names, lemma_last_with_role, lemma_type_names};
#[allow(unused_imports)]
use crate::text::lemma_words_trimmed;
use crate::text::{ascii_lowered, lowercase, trimmed, words};
use vstd::utf8::{decode_utf8, valid_utf8};

verus! {

/// The first word of a declaration that is not without words is a keyword, or the
/// declaration does nothing.
pub open spec fn keyword(word: Seq<char>) -> bool {
    word == "format"@ || word == "element"@ || word == "property"@ || word == "end_header"@
}

proof fn lemma_keywords()
    ensures
        "format"@ != "element"@,
        "format"@ != "property"@,
        "format"@ != "end_header"@,
        "element"@ != "property"@,
        "element"@ != "end_header"@,
        "property"@ != "end_header"@,
{
    reveal_strlit("format");
    reveal_strlit("element");
    reveal_strlit("property");
    reveal_strlit("end_header");
    assert("format"@.len() == 6 && "element"@.len() == 7);
    assert("property"@.len() == 8 && "end_header"@.len() == 10);
}

/// A declaration changes nothing but what its keyword is about. The format is
/// changed by `format` alone, what the current element is and how many vertices
/// there are by `element` alone, and the end is brought by `end_header` alone. A
/// property is added by `property`, one behind all others, and only to the vertex
/// element. A line without a keyword is accepted and changes nothing.
pub proof fn lemma_declare_keeps(
    state: ScanState,
    words: Seq<Seq<char>>,
    lower: Seq<Seq<char>>,
    next: ScanState,
)
    requires
        declare(state, words, lower) == Ok::<ScanState, HeaderFault>(next),
    ensures
        next.started == state.started,
        next.consumed == state.consumed,
        words.len() == 0 || lower[0] != "format"@ ==> next.format == state.format,
        words.len() == 0 || lower[0] != "element"@ ==> next.in_vertex == state.in_vertex
            && next.vertex_count == state.vertex_count,
        next.vertex_count != state.vertex_count ==> next.in_vertex,
        words.len() == 0 || lower[0] != "property"@ || !state.in_vertex ==> next.properties
            == state.properties,
        words.len() > 0 && lower[0] == "property"@ && state.in_vertex ==> next.properties.len()
            == state.properties.len() + 1 && next.properties.drop_last() == state.properties,
        next.done <==> state.done || (words.len() > 0 && lower[0] == "end_header"@),
{
    lemma_keywords();
    assert(next.properties.len() == state.properties.len() + 1 ==> next.properties.drop_last()
        =~= state.properties);
}

/// A line without a keyword is accepted and does nothing, and so is a property of
/// an element that is not the vertex element, whatever it declares.
pub proof fn lemma_declare_nothing(
    state: ScanState,
    words: Seq<Seq<char>>,
    lower: Seq<Seq<char>>,
)
    requires
        words.len() == 0 || !keyword(lower[0]) || (lower[0] == "property"@ && !state.in_vertex),
    ensures
        declare(state, words, lower) == Ok::<ScanState, HeaderFault>(state),
{
    lemma_keywords();
}

/// Words behind the third of a declaration make no difference.
pub proof fn lemma_declare_more_words(
    state: ScanState,
    words: Seq<Seq<char>>,
    lower: Seq<Seq<char>>,
    more: Seq<Seq<char>>,
    more_lower: Seq<Seq<char>>,
)
    requires
        words.len() >= 3,
        lower.len() == words.len(),
    ensures
        declare(state, words + more, lower + more_lower) == declare(state, words, lower),
{
    assert((words + more)[1] == words[1] && (words + more)[2] == words[2]);
    assert((lower + more_lower)[0] == lower[0] && (lower + more_lower)[1] == lower[1]);
    assert((lower + more_lower)[2] == lower[2]);
}

/// A `format` line declares the format whose name is its second word. It is
/// refused where there is no second word, and where that is the name of no format.
pub proof fn lemma_format_line(state: ScanState, words: Seq<Seq<char>>, lower: Seq<Seq<char>>)
    requires
        words.len() > 0,
        lower[0] == "format"@,
    ensures
        match declare(state, words, lower) {
            Ok(next) => words.len() >= 2 && (next.format matches Some(f) && lower[1] == format_name(
                f,
            )),
            Err(HeaderFault::MalformedFormat) => words.len() < 2,
            Err(HeaderFault::UnsupportedFormat(name)) => {
                &&& words.len() >= 2
                &&& name == lower[1]
                &&& forall|f: PlyFormat| name != #[trigger] format_name(f)
            },
            Err(_) => false,
        },
{
    if let Some(f) = format_named(lower[1]) {
        lemma_format_names(lower[1], f);
    } else {
        assert forall|f: PlyFormat| lower[1] != #[trigger] format_name(f) by {
            lemma_format_names(lower[1], f);
        }
    }
}

/// An `element` line begins the vertex element where its second word is `vertex`,
/// in whatever case, and its third word is the number of vertices; any other
/// second word ends it and leaves the number as it is. The line is refused where
/// it has fewer than three words, and that of the vertex element where the third
/// is no number in range.
pub proof fn lemma_element_line(state: ScanState, words: Seq<Seq<char>>, lower: Seq<Seq<char>>)
    requires
        words.len() > 0,
        lower[0] == "element"@,
    ensures
        ({
            let vertex = ascii_lowered(words[1]) == "vertex"@;
            let count = unsigned_number(words[2], usize::MAX as nat);
            match declare(state, words, lower) {
                Ok(next) => {
                    &&& words.len() >= 3
                    &&& next.in_vertex <==> vertex
                    &&& vertex ==> count == Ok::<nat, NumberError>(next.vertex_count)
                    &&& !vertex ==> next.vertex_count == state.vertex_count
                },
                Err(HeaderFault::MalformedElement) => words.len() < 3,
                Err(HeaderFault::InvalidVertexCount(e)) => {
                    &&& words.len() >= 3
                    &&& vertex
                    &&& count == Err::<nat, NumberError>(e)
                },
                Err(_) => false,
            }
        }),
{
    lemma_keywords();
    reveal_strlit("vertex");
    assert(ascii_lowered("vertex"@) =~= "vertex"@);
}

/// Whether a word is one of the names of a type.
pub open spec fn is_name_of(word: Seq<char>, data_type: PropertyType) -> bool {
    word == plain_name(data_type) || word == sized_name(data_type)
}

/// A `property` line of the vertex element adds a property whose name is the third
/// word and whose type is the one that the second word is a name of. It is refused
/// where it has fewer than three words, where the second is `list`, in whatever
/// case, and where the second is the name of no type.
pub proof fn lemma_property_line(state: ScanState, words: Seq<Seq<char>>, lower: Seq<Seq<char>>)
    requires
        words.len() > 0,
        lower[0] == "property"@,
        state.in_vertex,
    ensures
        ({
            let list = ascii_lowered(words[1]) == "list"@;
            match declare(state, words, lower) {
                Ok(next) => {
                    &&& words.len() >= 3 && !list
                    &&& next.properties.len() == state.properties.len() + 1
                    &&& next.properties.last().name == lower[2]
                    &&& is_name_of(lower[1], next.properties.last().data_type)
                },
                Err(HeaderFault::MalformedProperty) => words.len() < 3,
                Err(HeaderFault::ListProperty) => words.len() >= 3 && list,
                Err(HeaderFault::UnknownPropertyType(name)) => {
                    &&& words.len() >= 3 && !list
                    &&& name == words[1]
                    &&& forall|t: PropertyType| !#[trigger] is_name_of(lower[1], t)
                },
                Err(_) => false,
            }
        }),
{
    lemma_keywords();
    reveal_strlit("list");
    assert(ascii_lowered("list"@) =~= "list"@);
    if let Some(t) = type_named(lower[1]) {
        lemma_type_names(lower[1], t);
        let property = PropertyView { name: lower[2], data_type: t };
        assert(state.properties.push(property).last() == property);
    } else {
        assert forall|t: PropertyType| !#[trigger] is_name_of(lower[1], t) by {
            lemma_type_names(lower[1], t);
        }
    }
}

/// The line that ends the header is accepted, whatever stands behind its keyword.
pub proof fn lemma_end_line(state: ScanState, words: Seq<Seq<char>>, lower: Seq<Seq<char>>)
    requires
        words.len() > 0,
        lower[0] == "end_header"@,
    ensures
        declare(state, words, lower) matches Ok(next) && next.done,
{
    lemma_keywords();
}

/// A scan concludes in a header if and only if a format was declared and there is
/// a property for each of the three coordinates; the header is what was declared.
/// The format is missed first.
pub proof fn lemma_conclude(state: ScanState)
    requires
        state.properties.len() <= usize::MAX,
    ensures
        ({
            let x = exists|i: int|
                0 <= i < state.properties.len() && role_named((#[trigger] state.properties[i]).name)
                    == Some(PropertyRole::X);
            let y = exists|i: int|
                0 <= i < state.properties.len() && role_named((#[trigger] state.properties[i]).name)
                    == Some(PropertyRole::Y);
            let z = exists|i: int|
                0 <= i < state.properties.len() && role_named((#[trigger] state.properties[i]).name)
                    == Some(PropertyRole::Z);
            match conclude(state) {
                Ok(header) => {
                    &&& state.format == Some(header.format)
                    &&& x && y && z
                    &&& header.vertex_count == state.vertex_count
                    &&& header.properties == state.properties
                    &&& header.header_byte_size == state.consumed
                },
                Err(HeaderFault::MissingFormat) => state.format is None,
                Err(HeaderFault::MissingCoordinates) => state.format is Some && !(x && y && z),
                Err(_) => false,
            }
        }),
{
    lemma_last_with_role(state.properties, PropertyRole::X);
    lemma_last_with_role(state.properties, PropertyRole::Y);
    lemma_last_with_role(state.properties, PropertyRole::Z);
}

/// What several declarations do, one after another, given as words in small
/// letters.
pub open spec fn declare_all(state: ScanState, lines: Seq<Seq<Seq<char>>>) -> Result<
    ScanState,
    HeaderFault,
>
    decreases lines.len(),
{
    if lines.len() == 0 {
        Ok(state)
    } else {
        match declare_all(state, lines.drop_last()) {
            Ok(next) => declare(next, lines.last(), lines.last()),
            Err(e) => Err(e),
        }
    }
}

/// The declaration of a property, by either name of its type.
pub open spec fn property_line(property: PropertyView, sized: bool) -> Seq<Seq<char>> {
    seq![
        "property"@,
        if sized {
            sized_name(property.data_type)
        } else {
            plain_name(property.data_type)
        },
        property.name,
    ]
}

/// The declarations of a format, a number of vertices and their properties, and
/// the end.
pub open spec fn header_lines(
    format: PlyFormat,
    count: nat,
    properties: Seq<PropertyView>,
    sized: bool,
) -> Seq<Seq<Seq<char>>> {
    seq![
        seq!["format"@, format_name(format), "1.0"@],
        seq!["element"@, "vertex"@, decimal(count)],
    ] + properties.map_values(|p: PropertyView| property_line(p, sized)) + seq![seq!["end_header"@]]
}

proof fn lemma_no_list(data_type: PropertyType, sized: bool)
    ensures
        ascii_lowered(
            if sized {
                sized_name(data_type)
            } else {
                plain_name(data_type)
            },
        ) != ascii_lowered("list"@),
{
    reveal_strlit("list");
    reveal_strlit("char");
    reveal_strlit("short");
    reveal_strlit("int");
    reveal_strlit("uint");
    reveal_strlit("float");
    reveal_strlit("double");
    reveal_strlit("u");
    let name = if sized {
        sized_name(data_type)
    } else {
        plain_name(data_type)
    };
    assert(name[0] == 'c' || name[0] == 's' || name[0] == 'i' || name[0] == 'u' || name[0] == 'f'
        || name[0] == 'd');
    assert(ascii_lowered(name)[0] == name[0]);
    assert(ascii_lowered("list"@)[0] == 'l');
}

proof fn lemma_properties_read_back(
    state: ScanState,
    format: PlyFormat,
    count: nat,
    properties: Seq<PropertyView>,
    sized: bool,
)
    requires
        count <= usize::MAX,
        state.properties.len() == 0,
    ensures
        declare_all(
            state,
            seq![
                seq!["format"@, format_name(format), "1.0"@],
                seq!["element"@, "vertex"@, decimal(count)],
            ] + properties.map_values(|p: PropertyView| property_line(p, sized)),
        ) == Ok::<ScanState, HeaderFault>(
            ScanState {
                format: Some(format),
                in_vertex: true,
                vertex_count: count,
                properties,
                ..state
            },
        ),
    decreases properties.len(),
{
    lemma_keywords();
    let first = seq!["format"@, format_name(format), "1.0"@];
    let second = seq!["element"@, "vertex"@, decimal(count)];
    let head = seq![first, second];
    let lines = head + properties.map_values(|p: PropertyView| property_line(p, sized));
    if properties.len() == 0 {
        assert(lines =~= head);
        let one = head.drop_last();
        assert(one.drop_last() =~= Seq::<Seq<Seq<char>>>::empty());
        assert(one.last() == first && head.last() == second);
        lemma_format_names(format_name(format), format);
        lemma_decimal_read_back(count, usize::MAX as nat);
        assert(declare_all(state, Seq::empty()) == Ok::<ScanState, HeaderFault>(state));
        let middle = ScanState { format: Some(format), ..state };
        assert(first[0] == "format"@ && first[1] == format_name(format));
        assert(declare(state, first, first) == Ok::<ScanState, HeaderFault>(middle));
        assert(declare_all(state, one) == Ok::<ScanState, HeaderFault>(middle));
        assert(second[0] == "element"@ && second[1] == "vertex"@ && second[2] == decimal(count));
        assert(declare(middle, second, second) == Ok::<ScanState, HeaderFault>(
            ScanState { in_vertex: true, vertex_count: count, ..middle },
        ));
        assert(properties =~= state.properties);
    } else {
        let fewer = properties.drop_last();
        let p = properties.last();
        let line = property_line(p, sized);
        lemma_properties_read_back(state, format, count, fewer, sized);
        assert(lines.drop_last() =~= head + fewer.map_values(
            |p: PropertyView| property_line(p, sized),
        ));
        assert(lines.last() == line);
        lemma_no_list(p.data_type, sized);
        lemma_type_names(line[1], p.data_type);
        assert(fewer.push(p) =~= properties);
        assert(PropertyView { name: p.name, data_type: p.data_type } == p);
    }
}

/// A header that is written is read back: from the declarations of a format, a
/// number of vertices and properties, under either name of each type, comes a
/// header of that format with that number and these properties, in their order.
pub proof fn lemma_header_read_back(
    state: ScanState,
    format: PlyFormat,
    count: nat,
    properties: Seq<PropertyView>,
    sized: bool,
)
    requires
        count <= usize::MAX,
        state.properties.len() == 0,
    ensures
        declare_all(state, header_lines(format, count, properties, sized)) == Ok::<
            ScanState,
            HeaderFault,
        >(
            ScanState {
                started: state.started,
                done: true,
                format: Some(format),
                in_vertex: true,
                vertex_count: count,
                properties,
                consumed: state.consumed,
            },
        ),
{
    lemma_keywords();
    lemma_properties_read_back(state, format, count, properties, sized);
    let lines = header_lines(format, count, properties, sized);
    let last = seq!["end_header"@];
    assert(lines.last() == last);
    assert(lines.drop_last() =~= seq![
        seq!["format"@, format_name(format), "1.0"@],
        seq!["element"@, "vertex"@, decimal(count)],
    ] + properties.map_values(|p: PropertyView| property_line(p, sized)));
    assert(last[0] == "end_header"@);
}

/// A line declares nothing if and only if it is empty or is `comment` or
/// `obj_info`, in small letters, with anything behind, be it blank or not.
pub proof fn lemma_remark(line: Seq<char>)
    ensures
        is_remark(line) <==> {
            ||| line.len() == 0
            ||| exists|rest: Seq<char>| line == #[trigger] ("comment"@ + rest)
            ||| exists|rest: Seq<char>| line == #[trigger] ("obj_info"@ + rest)
        },
{
    crate::text::lemma_begins_with(line, "comment"@);
    crate::text::lemma_begins_with(line, "obj_info"@);
}

/// The first line is accepted if and only if it is text that, without white space
/// around it and in small letters, is `ply`. It counts towards the size of the
/// header and does nothing else.
pub proof fn lemma_first_line(state: ScanState, line: Seq<u8>)
    requires
        !state.started,
        line.len() > 0,
    ensures
        valid_utf8(line) && ascii_lowered(trimmed(decode_utf8(line))) == seq!['p', 'l', 'y']
            ==> scan_line(state, line) == Ok::<ScanState, HeaderFault>(
            ScanState { started: true, consumed: state.consumed + line.len(), ..state },
        ),
        valid_utf8(line) && ascii_lowered(trimmed(decode_utf8(line))) != seq!['p', 'l', 'y']
            ==> scan_line(state, line) == Err::<ScanState, HeaderFault>(HeaderFault::MissingMagic),
        !valid_utf8(line) ==> scan_line(state, line) == Err::<ScanState, HeaderFault>(
            HeaderFault::InvalidUtf8,
        ),
{
    reveal_strlit("ply");
    assert(ascii_lowered("ply"@) =~= seq!['p', 'l', 'y']);
}

/// The first line of some data ends behind the first line feed, or with the data
/// where there is none.
pub proof fn lemma_line_ends(data: Seq<u8>)
    ensures
        line_len(data) <= data.len(),
        forall|i: int| 0 <= i < line_len(data) - 1 ==> #[trigger] data[i] != 10,
        line_len(data) < data.len() ==> line_len(data) > 0 && data[line_len(data) - 1] == 10,
    decreases data.len(),
{
    if data.len() > 0 && data[0] != 10 {
        let rest = data.drop_first();
        lemma_line_ends(rest);
        assert forall|i: int| 0 <= i < line_len(data) - 1 implies #[trigger] data[i] != 10 by {
            if i > 0 {
                assert(data[i] == rest[i - 1]);
            }
        }
        if line_len(data) < data.len() {
            assert(rest[line_len(rest) - 1] == data[line_len(data) - 1]);
        }
    }
}

/// A line behind the first that is no remark declares what its words say, and
/// counts towards the size of the header.
pub proof fn lemma_declaration_line(state: ScanState, line: Seq<u8>)
    requires
        state.started,
        line.len() > 0,
        valid_utf8(line),
        !is_remark(trimmed(decode_utf8(line))),
    ensures
        scan_line(state, line) == declare(
            ScanState { consumed: state.consumed + line.len(), ..state },
            words(decode_utf8(line)),
            words(decode_utf8(line)).map_values(|word: Seq<char>| lowercase(word)),
        ),
{
    lemma_words_trimmed(decode_utf8(line));
}

/// An accepted line counts towards the size of the header, with all its bytes.
pub proof fn lemma_line_counted(state: ScanState, line: Seq<u8>, next: ScanState)
    requires
        scan_line(state, line) == Ok::<ScanState, HeaderFault>(next),
    ensures
        line.len() > 0,
        valid_utf8(line),
        next.consumed == state.consumed + line.len(),
        next.started,
{
}

/// A header is read line by line: what a line that ends with its line feed does,
/// and then what the lines behind it do. Data that ends before the header does is
/// refused.
pub proof fn lemma_line_by_line(state: ScanState, line: Seq<u8>, behind: Seq<u8>)
    requires
        !state.done,
        line.len() > 0,
        line.last() == 10,
        forall|i: int| 0 <= i < line.len() - 1 ==> #[trigger] line[i] != 10,
    ensures
        scan_lines(state, line + behind) == match scan_line(state, line) {
            Ok(next) => scan_lines(next, behind),
            Err(e) => Err(e),
        },
        scan_lines(state, Seq::empty()) == Err::<ScanState, HeaderFault>(
            if state.started {
                HeaderFault::UnexpectedEnd
            } else {
                HeaderFault::MissingMagic
            },
        ),
{
    let data = line + behind;
    let n = line_len(data) as int;
    lemma_line_ends(data);
    crate::ply::header::lemma_line_len(data);
    assert(data[line.len() - 1] == 10);
    if n < line.len() {
        assert(data[n - 1] == line[n - 1]);
    }
    assert(data.take(n) =~= line);
    assert(data.skip(n) =~= behind);
}

/// A header ends with the line that ends it, and what stands behind that line is
/// not looked at.
pub proof fn lemma_header_ends(state: ScanState, data: Seq<u8>)
    ensures
        scan_lines(state, data) matches Ok(end) ==> end.done,
        state.done ==> scan_lines(state, data) == Ok::<ScanState, HeaderFault>(state),
    decreases data.len(),
{
    if !state.done && data.len() > 0 {
        let n = line_len(data) as int;
        crate::ply::header::lemma_line_len(data);
        if let Ok(next) = scan_line(state, data.take(n)) {
            lemma_header_ends(next, data.skip(n));
        }
    }
}

/// Before the first line there is no format and no vertex, no property is declared
/// and none can be, for no element is open; nothing has been read.
pub proof fn lemma_fresh_scan(words: Seq<Seq<char>>, lower: Seq<Seq<char>>)
    ensures
        ({
            let fresh = fresh_scan();
            &&& !fresh.started && !fresh.done
            &&& fresh.format is None
            &&& fresh.vertex_count == 0
            &&& fresh.properties.len() == 0
            &&& fresh.consumed == 0
            &&& words.len() > 0 && lower[0] == "property"@ ==> declare(fresh, words, lower) == Ok::<
                ScanState,
                HeaderFault,
            >(fresh)
        }),
{
    lemma_keywords();
}

/// A line that is not UTF-8 is refused as such wherever it stands, be it a remark
/// or not, and the end of the data where a line is missed.
pub proof fn lemma_line_refused(state: ScanState, line: Seq<u8>)
    ensures
        line.len() > 0 && !valid_utf8(line) ==> scan_line(state, line) == Err::<
            ScanState,
            HeaderFault,
        >(HeaderFault::InvalidUtf8),
        line.len() == 0 && state.started ==> scan_line(state, line) == Err::<
            ScanState,
            HeaderFault,
        >(HeaderFault::UnexpectedEnd),
        line.len() == 0 && !state.started ==> scan_line(state, line) == Err::<
            ScanState,
            HeaderFault,
        >(HeaderFault::MissingMagic),
{
}

/// A last line without a line feed is a line all the same.
pub proof fn lemma_last_line(state: ScanState, line: Seq<u8>)
    requires
        !state.done,
        line.len() > 0,
        forall|i: int| 0 <= i < line.len() ==> #[trigger] line[i] != 10,
    ensures
        scan_lines(state, line) == match scan_line(state, line) {
            Ok(next) => scan_lines(next, Seq::empty()),
            Err(e) => Err(e),
        },
{
    let n = line_len(line) as int;
    lemma_line_ends(line);
    crate::ply::header::lemma_line_len(line);
    assert(n == line.len());
    assert(line.take(n) =~= line);
    assert(line.skip(n) =~= Seq::<u8>::empty());
}

} // verus!
