//! What a PLY header declares.

use vstd::prelude::*;
#[allow(unused_imports)]
use vstd::string::*;
use vstd::arithmetic::power2::pow2;
use crate::numbers::decimal;
use crate::ply::scalar::integer_of_type;
use crate::text::{lowercase, same_text, to_lowercase};

verus! {

/// How the vertex records are stored.
#[derive(Debug, Clone, Copy, PartialEq, Eq, Structural)]
pub enum PlyFormat {
    Ascii,
    BinaryLittleEndian,
    BinaryBigEndian,
}

/// The storage type of a vertex property.
#[derive(Debug, Clone, Copy, PartialEq, Eq, Structural)]
pub enum PropertyType {
    /// A signed byte.
    Char,
    /// An unsigned byte.
    UChar,
    /// A signed integer of two bytes.
    Short,
    /// An unsigned integer of two bytes.
    UShort,
    /// A signed integer of four bytes.
    Int,
    /// An unsigned integer of four bytes.
    UInt,
    /// A binary32 number.
    Float,
    /// A binary64 number.
    Double,
}

/// The format that a small-letter name stands for.
pub open spec fn format_named(name: Seq<char>) -> Option<PlyFormat> {
    if name == "ascii"@ {
        Some(PlyFormat::Ascii)
    } else if name == "binary_little_endian"@ {
        Some(PlyFormat::BinaryLittleEndian)
    } else if name == "binary_big_endian"@ {
        Some(PlyFormat::BinaryBigEndian)
    } else {
        None
    }
}

impl PlyFormat {
    /// Looks up a format by its name in small letters.
    pub fn from_lowercase(name: &str) -> (res: Option<PlyFormat>)
        ensures
            res == format_named(name@),
    {
        if same_text(name, "ascii") {
            Some(PlyFormat::Ascii)
        } else if same_text(name, "binary_little_endian") {
            Some(PlyFormat::BinaryLittleEndian)
        } else if same_text(name, "binary_big_endian") {
            Some(PlyFormat::BinaryBigEndian)
        } else {
            None
        }
    }
}

/// The property type that a small-letter name stands for.
pub open spec fn type_named(name: Seq<char>) -> Option<PropertyType> {
    if name == "char"@ || name == "int8"@ {
        Some(PropertyType::Char)
    } else if name == "uchar"@ || name == "uint8"@ {
        Some(PropertyType::UChar)
    } else if name == "short"@ || name == "int16"@ {
        Some(PropertyType::Short)
    } else if name == "ushort"@ || name == "uint16"@ {
        Some(PropertyType::UShort)
    } else if name == "int"@ || name == "int32"@ {
        Some(PropertyType::Int)
    } else if name == "uint"@ || name == "uint32"@ {
        Some(PropertyType::UInt)
    } else if name == "float"@ || name == "float32"@ {
        Some(PropertyType::Float)
    } else if name == "double"@ || name == "float64"@ {
        Some(PropertyType::Double)
    } else {
        None
    }
}

impl PropertyType {
    /// The number of bytes that a value of this type takes.
    pub open spec fn size(self) -> nat {
        match self {
            PropertyType::Char | PropertyType::UChar => 1,
            PropertyType::Short | PropertyType::UShort => 2,
            PropertyType::Int | PropertyType::UInt | PropertyType::Float => 4,
            PropertyType::Double => 8,
        }
    }

    /// The number of bytes that a value of this type takes in a binary record.
    pub fn size_in_bytes(&self) -> (res: usize)
        ensures
            res == self.size(),
    {
        match self {
            PropertyType::Char | PropertyType::UChar => 1,
            PropertyType::Short | PropertyType::UShort => 2,
            PropertyType::Int | PropertyType::UInt | PropertyType::Float => 4,
            PropertyType::Double => 8,
        }
    }

    /// Looks up a type by its name in small letters.
    pub fn from_lowercase(name: &str) -> (res: Option<Self>)
        ensures
            res == type_named(name@),
    {
        if same_text(name, "char") || same_text(name, "int8") {
            Some(PropertyType::Char)
        } else if same_text(name, "uchar") || same_text(name, "uint8") {
            Some(PropertyType::UChar)
        } else if same_text(name, "short") || same_text(name, "int16") {
            Some(PropertyType::Short)
        } else if same_text(name, "ushort") || same_text(name, "uint16") {
            Some(PropertyType::UShort)
        } else if same_text(name, "int") || same_text(name, "int32") {
            Some(PropertyType::Int)
        } else if same_text(name, "uint") || same_text(name, "uint32") {
            Some(PropertyType::UInt)
        } else if same_text(name, "float") || same_text(name, "float32") {
            Some(PropertyType::Float)
        } else if same_text(name, "double") || same_text(name, "float64") {
            Some(PropertyType::Double)
        } else {
            None
        }
    }

    /// Looks up a type by its name, whatever the case of its letters.
    pub fn parse(s: &str) -> (res: Option<Self>)
        ensures
            res == type_named(lowercase(s@)),
    {
        let name = to_lowercase(s);
        PropertyType::from_lowercase(name.as_str())
    }
}

/// What the tiler uses a property for.
#[derive(Debug, Clone, Copy, PartialEq, Eq, Structural)]
pub enum PropertyRole {
    X,
    Y,
    Z,
    Red,
    Green,
    Blue,
    Intensity,
}

/// The role of the property of a given name.
pub open spec fn role_named(name: Seq<char>) -> Option<PropertyRole> {
    if name == "x"@ {
        Some(PropertyRole::X)
    } else if name == "y"@ {
        Some(PropertyRole::Y)
    } else if name == "z"@ {
        Some(PropertyRole::Z)
    } else if name == "r"@ || name == "red"@ || name == "diffuse_red"@ {
        Some(PropertyRole::Red)
    } else if name == "g"@ || name == "green"@ || name == "diffuse_green"@ {
        Some(PropertyRole::Green)
    } else if name == "b"@ || name == "blue"@ || name == "diffuse_blue"@ {
        Some(PropertyRole::Blue)
    } else if name == "intensity"@ || name == "scalar_intensity"@ {
        Some(PropertyRole::Intensity)
    } else {
        None
    }
}

impl PropertyRole {
    /// Looks up the role of the property of a given name.
    pub fn from_name(name: &str) -> (res: Option<PropertyRole>)
        ensures
            res == role_named(name@),
    {
        if same_text(name, "x") {
            Some(PropertyRole::X)
        } else if same_text(name, "y") {
            Some(PropertyRole::Y)
        } else if same_text(name, "z") {
            Some(PropertyRole::Z)
        } else if same_text(name, "r") || same_text(name, "red") || same_text(name, "diffuse_red") {
            Some(PropertyRole::Red)
        } else if same_text(name, "g") || same_text(name, "green") || same_text(
            name,
            "diffuse_green",
        ) {
            Some(PropertyRole::Green)
        } else if same_text(name, "b") || same_text(name, "blue") || same_text(
            name,
            "diffuse_blue",
        ) {
            Some(PropertyRole::Blue)
        } else if same_text(name, "intensity") || same_text(name, "scalar_intensity") {
            Some(PropertyRole::Intensity)
        } else {
            None
        }
    }
}

/// A vertex property: its name in small letters, its type, and where its value
/// begins in a binary vertex record.
#[derive(Debug, Clone)]
pub struct PropertyDef {
    pub name: String,
    pub data_type: PropertyType,
    pub offset: usize,
}

/// A property as the header declares it: name and type.
pub struct PropertyView {
    pub name: Seq<char>,
    pub data_type: PropertyType,
}

impl View for PropertyDef {
    type V = PropertyView;

    open spec fn view(&self) -> PropertyView {
        PropertyView { name: self.name@, data_type: self.data_type }
    }
}

/// The declared properties of a list of definitions.
pub open spec fn declared(defs: Seq<PropertyDef>) -> Seq<PropertyView> {
    defs.map_values(|d: PropertyDef| d@)
}

/// The number of bytes that the values of `properties` take one after another.
pub open spec fn stride_of(properties: Seq<PropertyView>) -> nat
    decreases properties.len(),
{
    if properties.len() == 0 {
        0
    } else {
        stride_of(properties.drop_last()) + properties.last().data_type.size()
    }
}

/// Where the value of property `i` begins in a record of `properties`.
pub open spec fn offset_of(properties: Seq<PropertyView>, i: int) -> nat {
    stride_of(properties.take(i))
}

/// The index of the last property of the given role.
pub open spec fn last_with_role(properties: Seq<PropertyView>, role: PropertyRole) -> Option<usize>
    decreases properties.len(),
{
    if properties.len() == 0 {
        None
    } else if role_named(properties.last().name) == Some(role) {
        Some((properties.len() - 1) as usize)
    } else {
        last_with_role(properties.drop_last(), role)
    }
}

/// The header of a PLY file.
#[derive(Debug, Clone)]
pub struct PlyHeader {
    pub format: PlyFormat,
    pub vertex_count: usize,
    pub properties: Vec<PropertyDef>,
    pub vertex_stride: usize,
    pub header_byte_size: u64,
    pub x_prop: Option<usize>,
    pub y_prop: Option<usize>,
    pub z_prop: Option<usize>,
    pub r_prop: Option<usize>,
    pub g_prop: Option<usize>,
    pub b_prop: Option<usize>,
    pub intensity_prop: Option<usize>,
}

/// What a header declares: all else in a well-formed header follows from it.
pub struct HeaderView {
    pub format: PlyFormat,
    pub vertex_count: nat,
    pub properties: Seq<PropertyView>,
    pub header_byte_size: nat,
}

impl View for PlyHeader {
    type V = HeaderView;

    open spec fn view(&self) -> HeaderView {
        HeaderView {
            format: self.format,
            vertex_count: self.vertex_count as nat,
            properties: declared(self.properties@),
            header_byte_size: self.header_byte_size as nat,
        }
    }
}

impl HeaderView {
    /// The index of the property that plays `role`.
    pub open spec fn role(self, role: PropertyRole) -> Option<usize> {
        last_with_role(self.properties, role)
    }
}

impl PlyHeader {
    /// The offsets are those of consecutive values, the stride is their total,
    /// each role is played by the last property that can, and there is a
    /// property for each coordinate.
    pub open spec fn wf(&self) -> bool {
        &&& forall|i: int|
            0 <= i < self.properties@.len() ==> (#[trigger] self.properties@[i]).offset
                == offset_of(self@.properties, i)
        &&& self.vertex_stride == stride_of(self@.properties)
        &&& self.x_prop == self@.role(PropertyRole::X)
        &&& self.y_prop == self@.role(PropertyRole::Y)
        &&& self.z_prop == self@.role(PropertyRole::Z)
        &&& self.r_prop == self@.role(PropertyRole::Red)
        &&& self.g_prop == self@.role(PropertyRole::Green)
        &&& self.b_prop == self@.role(PropertyRole::Blue)
        &&& self.intensity_prop == self@.role(PropertyRole::Intensity)
        &&& self.x_prop is Some
        &&& self.y_prop is Some
        &&& self.z_prop is Some
    }
}

/// The property found for a role exists, plays the role, and no later property
/// plays it.
pub proof fn lemma_last_with_role(properties: Seq<PropertyView>, role: PropertyRole)
    requires
        properties.len() <= usize::MAX,
    ensures
        match last_with_role(properties, role) {
            Some(i) => {
                &&& i < properties.len()
                &&& role_named(properties[i as int].name) == Some(role)
                &&& forall|j: int|
                    i < j < properties.len() ==> role_named((#[trigger] properties[j]).name) != Some(
                        role,
                    )
            },
            None => forall|j: int|
                0 <= j < properties.len() ==> role_named((#[trigger] properties[j]).name) != Some(
                    role,
                ),
        },
    decreases properties.len(),
{
    if properties.len() > 0 && role_named(properties.last().name) != Some(role) {
        lemma_last_with_role(properties.drop_last(), role);
        assert forall|j: int|
            0 <= j < properties.len() && role_named(properties[j].name) == Some(role) implies j
            < properties.len() - 1 by {}
        assert forall|j: int| 0 <= j < properties.len() - 1 implies properties[j]
            == properties.drop_last()[j] by {}
    }
}

/// The properties found for the roles of a header exist.
pub proof fn lemma_header_roles(header: &PlyHeader)
    requires
        header.wf(),
    ensures
        forall|role: PropertyRole|
            (#[trigger] header@.role(role)) matches Some(i) ==> i < header.properties@.len(),
{
    assert(header.properties@.len() == header.properties.len());
    assert forall|role: PropertyRole| (#[trigger] header@.role(role)) is Some implies header@.role(
        role,
    )->0 < header.properties@.len() by {
        lemma_last_with_role(header@.properties, role);
    }
}

/// The value of each property lies inside the record, behind the values of the
/// properties before it.
pub proof fn lemma_value_in_record(properties: Seq<PropertyView>, i: int)
    requires
        0 <= i < properties.len(),
    ensures
        offset_of(properties, i) + properties[i].data_type.size() == offset_of(properties, i + 1),
        offset_of(properties, i) + properties[i].data_type.size() <= stride_of(properties),
    decreases properties.len(),
{
    assert(properties.take(i + 1).drop_last() =~= properties.take(i));
    if i == properties.len() - 1 {
        assert(properties.take(i + 1) =~= properties);
    } else {
        lemma_value_in_record(properties.drop_last(), i);
        assert(properties.drop_last().take(i) =~= properties.take(i));
        assert(properties.drop_last().take(i + 1) =~= properties.take(i + 1));
    }
}

/// Whether values of the type are integers that may be negative.
pub open spec fn is_signed(data_type: PropertyType) -> bool {
    integer_of_type(-1, data_type)
}

/// Whether values of the type are integers that are not negative.
pub open spec fn is_unsigned(data_type: PropertyType) -> bool {
    integer_of_type(1, data_type) && !integer_of_type(-1, data_type)
}

/// The name of a type that tells what its values are and how many bits they
/// take.
pub open spec fn sized_name(data_type: PropertyType) -> Seq<char> {
    let bits = decimal(8 * data_type.size());
    if is_signed(data_type) {
        "int"@ + bits
    } else if is_unsigned(data_type) {
        "uint"@ + bits
    } else {
        "float"@ + bits
    }
}

/// The name of a type without its size.
pub open spec fn plain_name(data_type: PropertyType) -> Seq<char> {
    let integer = if data_type.size() == 1 {
        "char"@
    } else if data_type.size() == 2 {
        "short"@
    } else {
        "int"@
    };
    if is_signed(data_type) {
        integer
    } else if is_unsigned(data_type) {
        "u"@ + integer
    } else if data_type.size() == 4 {
        "float"@
    } else {
        "double"@
    }
}

proof fn lemma_type_literals()
    ensures
        "char"@ =~= seq!['c', 'h', 'a', 'r'],
        "uchar"@ =~= seq!['u', 'c', 'h', 'a', 'r'],
        "short"@ =~= seq!['s', 'h', 'o', 'r', 't'],
        "ushort"@ =~= seq!['u', 's', 'h', 'o', 'r', 't'],
        "int"@ =~= seq!['i', 'n', 't'],
        "uint"@ =~= seq!['u', 'i', 'n', 't'],
        "float"@ =~= seq!['f', 'l', 'o', 'a', 't'],
        "double"@ =~= seq!['d', 'o', 'u', 'b', 'l', 'e'],
        "int8"@ =~= seq!['i', 'n', 't', '8'],
        "uint8"@ =~= seq!['u', 'i', 'n', 't', '8'],
        "int16"@ =~= seq!['i', 'n', 't', '1', '6'],
        "uint16"@ =~= seq!['u', 'i', 'n', 't', '1', '6'],
        "int32"@ =~= seq!['i', 'n', 't', '3', '2'],
        "uint32"@ =~= seq!['u', 'i', 'n', 't', '3', '2'],
        "float32"@ =~= seq!['f', 'l', 'o', 'a', 't', '3', '2'],
        "float64"@ =~= seq!['f', 'l', 'o', 'a', 't', '6', '4'],
        "u"@ =~= seq!['u'],
        decimal(8) =~= seq!['8'],
        decimal(16) =~= seq!['1', '6'],
        decimal(32) =~= seq!['3', '2'],
        decimal(64) =~= seq!['6', '4'],
{
    reveal_strlit("char");
    reveal_strlit("uchar");
    reveal_strlit("short");
    reveal_strlit("ushort");
    reveal_strlit("int");
    reveal_strlit("uint");
    reveal_strlit("float");
    reveal_strlit("double");
    reveal_strlit("int8");
    reveal_strlit("uint8");
    reveal_strlit("int16");
    reveal_strlit("uint16");
    reveal_strlit("int32");
    reveal_strlit("uint32");
    reveal_strlit("float32");
    reveal_strlit("float64");
    reveal_strlit("u");
    reveal_with_fuel(decimal, 2);
}

/// A type has two names and no others: a plain one, and one that tells whether
/// its values are real, signed or unsigned and how many bits they take.
pub proof fn lemma_type_names(name: Seq<char>, data_type: PropertyType)
    ensures
        type_named(name) == Some(data_type) <==> name == plain_name(data_type) || name
            == sized_name(data_type),
{
    lemma_type_literals();
    assert("u"@ + "char"@ =~= "uchar"@);
    assert("u"@ + "short"@ =~= "ushort"@);
    assert("u"@ + "int"@ =~= "uint"@);
    assert("int"@ + decimal(8) =~= "int8"@);
    assert("int"@ + decimal(16) =~= "int16"@);
    assert("int"@ + decimal(32) =~= "int32"@);
    assert("uint"@ + decimal(8) =~= "uint8"@);
    assert("uint"@ + decimal(16) =~= "uint16"@);
    assert("uint"@ + decimal(32) =~= "uint32"@);
    assert("float"@ + decimal(32) =~= "float32"@);
    assert("float"@ + decimal(64) =~= "float64"@);
}

/// A `u` before a name makes of each signed type the unsigned type of the same
/// size, and of all else no type. A name that begins with `u` stands for an
/// unsigned type or for none, and no other name stands for an unsigned type.
pub proof fn lemma_unsigned_names(name: Seq<char>)
    ensures
        type_named("u"@ + name) is Some <==> (type_named(name) matches Some(t) && is_signed(t)),
        type_named("u"@ + name) matches Some(u) ==> is_unsigned(u) && u.size() == type_named(
            name,
        )->0.size(),
        type_named(name) matches Some(t) ==> (is_unsigned(t) <==> name[0] == 'u'),
{
    lemma_type_literals();
    let longer = "u"@ + name;
    assert(longer.drop_first() =~= name);
    assert(longer[0] == 'u');
    assert(longer == "uchar"@ ==> name =~= "char"@);
    assert(longer == "ushort"@ ==> name =~= "short"@);
    assert(longer == "uint"@ ==> name =~= "int"@);
    assert(longer == "uint8"@ ==> name =~= "int8"@);
    assert(longer == "uint16"@ ==> name =~= "int16"@);
    assert(longer == "uint32"@ ==> name =~= "int32"@);
    assert(name == "char"@ ==> longer =~= "uchar"@);
    assert(name == "short"@ ==> longer =~= "ushort"@);
    assert(name == "int"@ ==> longer =~= "uint"@);
    assert(name == "int8"@ ==> longer =~= "uint8"@);
    assert(name == "int16"@ ==> longer =~= "uint16"@);
    assert(name == "int32"@ ==> longer =~= "uint32"@);
}

/// The one name of a format.
pub open spec fn format_name(format: PlyFormat) -> Seq<char> {
    match format {
        PlyFormat::Ascii => "ascii"@,
        PlyFormat::BinaryLittleEndian => "binary_"@ + "little"@ + "_endian"@,
        PlyFormat::BinaryBigEndian => "binary_"@ + "big"@ + "_endian"@,
    }
}

/// A format has one name and no other.
pub proof fn lemma_format_names(name: Seq<char>, format: PlyFormat)
    ensures
        format_named(name) == Some(format) <==> name == format_name(format),
{
    reveal_strlit("ascii");
    reveal_strlit("binary_");
    reveal_strlit("little");
    reveal_strlit("big");
    reveal_strlit("_endian");
    reveal_strlit("binary_little_endian");
    reveal_strlit("binary_big_endian");
    assert("binary_"@ + "little"@ + "_endian"@ =~= "binary_little_endian"@);
    assert("binary_"@ + "big"@ + "_endian"@ =~= "binary_big_endian"@);
}

/// The word for what a role is about.
pub open spec fn role_word(role: PropertyRole) -> Seq<char> {
    match role {
        PropertyRole::X => "x"@,
        PropertyRole::Y => "y"@,
        PropertyRole::Z => "z"@,
        PropertyRole::Red => "red"@,
        PropertyRole::Green => "green"@,
        PropertyRole::Blue => "blue"@,
        PropertyRole::Intensity => "intensity"@,
    }
}

/// The names of a property for a coordinate are its letter, those for a colour
/// its word, the first letter of the word, and the word behind `diffuse_`, and
/// those for the intensity its word and the word behind `scalar_`. No other name
/// gives a property a role.
pub proof fn lemma_role_names(name: Seq<char>, role: PropertyRole)
    ensures
        role_named(name) == Some(role) <==> {
            ||| name == role_word(role)
            ||| (role == PropertyRole::Red || role == PropertyRole::Green || role
                == PropertyRole::Blue) && (name == role_word(role).take(1) || name == "diffuse_"@
                + role_word(role))
            ||| role == PropertyRole::Intensity && name == "scalar_"@ + role_word(role)
        },
{
    reveal_strlit("x");
    reveal_strlit("y");
    reveal_strlit("z");
    reveal_strlit("r");
    reveal_strlit("g");
    reveal_strlit("b");
    reveal_strlit("red");
    reveal_strlit("green");
    reveal_strlit("blue");
    reveal_strlit("diffuse_");
    reveal_strlit("diffuse_red");
    reveal_strlit("diffuse_green");
    reveal_strlit("diffuse_blue");
    reveal_strlit("intensity");
    reveal_strlit("scalar_");
    reveal_strlit("scalar_intensity");
    assert("red"@.take(1) =~= "r"@);
    assert("green"@.take(1) =~= "g"@);
    assert("blue"@.take(1) =~= "b"@);
    assert("diffuse_"@ + "red"@ =~= "diffuse_red"@);
    assert("diffuse_"@ + "green"@ =~= "diffuse_green"@);
    assert("diffuse_"@ + "blue"@ =~= "diffuse_blue"@);
    assert("scalar_"@ + "intensity"@ =~= "scalar_intensity"@);
    assert("x"@[0] == 'x' && "y"@[0] == 'y' && "z"@[0] == 'z');
    assert("r"@[0] == 'r' && "g"@[0] == 'g' && "b"@[0] == 'b');
}

/// The values of an integer type are those that its bytes can tell apart: half of
/// them negative where it is signed, and none where it is not.
pub proof fn lemma_type_range(data_type: PropertyType, v: int)
    ensures
        is_signed(data_type) ==> (integer_of_type(v, data_type) <==> -pow2(
            (8 * data_type.size() - 1) as nat,
        ) <= v < pow2((8 * data_type.size() - 1) as nat)),
        is_unsigned(data_type) ==> (integer_of_type(v, data_type) <==> 0 <= v < pow2(
            8 * data_type.size(),
        )),
        !is_signed(data_type) && !is_unsigned(data_type) ==> !integer_of_type(v, data_type),
{
    vstd::arithmetic::power2::lemma2_to64();
}

/// In a well-formed header the value of the first property begins the record, each
/// other value begins where the one before it ends, and the last ends the record.
/// What the header declares are the names and types of its properties.
pub proof fn lemma_offsets(header: &PlyHeader, i: int)
    requires
        header.wf(),
        0 <= i < header.properties@.len(),
    ensures
        i == 0 ==> header.properties@[i].offset == 0,
        i + 1 < header.properties@.len() ==> header.properties@[i].offset
            + header.properties@[i].data_type.size() == header.properties@[i + 1].offset,
        i + 1 == header.properties@.len() ==> header.properties@[i].offset
            + header.properties@[i].data_type.size() == header.vertex_stride,
        header@.properties.len() == header.properties@.len(),
        header@.properties[i].name == header.properties@[i].name@,
        header@.properties[i].data_type == header.properties@[i].data_type,
        header@.format == header.format,
        header@.vertex_count == header.vertex_count,
        header@.header_byte_size == header.header_byte_size,
{
    let all = header@.properties;
    lemma_value_in_record(all, i);
    assert(header.properties@[i].offset == offset_of(all, i));
    if i == 0 {
        assert(all.take(0) =~= Seq::<PropertyView>::empty());
        assert(stride_of(Seq::<PropertyView>::empty()) == 0);
    }
    if i + 1 < all.len() {
        assert(header.properties@[i + 1].offset == offset_of(all, i + 1));
    } else {
        assert(all.take(i + 1) =~= all);
    }
}

/// Whether `prop` is the index of the last property for a role, or nothing where
/// there is no property for it.
pub open spec fn is_last_for(header: &PlyHeader, prop: Option<usize>, role: PropertyRole) -> bool {
    match prop {
        Some(i) => {
            &&& i < header.properties@.len()
            &&& role_named(header.properties@[i as int].name@) == Some(role)
            &&& forall|j: int|
                i < j < header.properties@.len() ==> role_named(
                    (#[trigger] header.properties@[j]).name@,
                ) != Some(role)
        },
        None => forall|j: int|
            0 <= j < header.properties@.len() ==> role_named(
                (#[trigger] header.properties@[j]).name@,
            ) != Some(role),
    }
}

/// A well-formed header tells for each role the last property for it, and it has
/// one for each coordinate.
pub proof fn lemma_role_fields(header: &PlyHeader)
    requires
        header.wf(),
    ensures
        is_last_for(header, header.x_prop, PropertyRole::X) && header.x_prop is Some,
        is_last_for(header, header.y_prop, PropertyRole::Y) && header.y_prop is Some,
        is_last_for(header, header.z_prop, PropertyRole::Z) && header.z_prop is Some,
        is_last_for(header, header.r_prop, PropertyRole::Red),
        is_last_for(header, header.g_prop, PropertyRole::Green),
        is_last_for(header, header.b_prop, PropertyRole::Blue),
        is_last_for(header, header.intensity_prop, PropertyRole::Intensity),
{
    lemma_last_for(header, PropertyRole::X);
    lemma_last_for(header, PropertyRole::Y);
    lemma_last_for(header, PropertyRole::Z);
    lemma_last_for(header, PropertyRole::Red);
    lemma_last_for(header, PropertyRole::Green);
    lemma_last_for(header, PropertyRole::Blue);
    lemma_last_for(header, PropertyRole::Intensity);
}

proof fn lemma_last_for(header: &PlyHeader, role: PropertyRole)
    ensures
        is_last_for(header, header@.role(role), role),
{
    let all = header@.properties;
    assert(header.properties@.len() == header.properties.len());
    lemma_last_with_role(all, role);
    assert forall|j: int| 0 <= j < all.len() implies (#[trigger] header.properties@[j]).name@
        == all[j].name by {}
}

} // verus!
