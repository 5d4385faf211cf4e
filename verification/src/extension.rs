//! File extensions of point clouds.

use vstd::prelude::*;
#[allow(unused_imports)]
use vstd::string::*;
use crate::text::{lowercase, same_text, to_lowercase};

verus! {

/// The kinds of point cloud files.
#[derive(Debug, Clone, Copy, PartialEq, Eq, Structural)]
pub enum Extension {
    Las,
    Laz,
    Csv,
    Txt,
    Ply,
}

/// The kind of file that an extension in small letters stands for.
pub open spec fn extension_named(name: Seq<char>) -> Option<Extension> {
    if name == "las"@ {
        Some(Extension::Las)
    } else if name == "laz"@ {
        Some(Extension::Laz)
    } else if name == "csv"@ {
        Some(Extension::Csv)
    } else if name == "txt"@ {
        Some(Extension::Txt)
    } else if name == "ply"@ {
        Some(Extension::Ply)
    } else {
        None
    }
}

impl Extension {
    /// Looks up a kind of file by its extension in small letters.
    pub fn from_lowercase(name: &str) -> (res: Option<Extension>)
        ensures
            res == extension_named(name@),
    {
        if same_text(name, "las") {
            Some(Extension::Las)
        } else if same_text(name, "laz") {
            Some(Extension::Laz)
        } else if same_text(name, "csv") {
            Some(Extension::Csv)
        } else if same_text(name, "txt") {
            Some(Extension::Txt)
        } else if same_text(name, "ply") {
            Some(Extension::Ply)
        } else {
            None
        }
    }
}

/// The kind of file that a supported extension stands for, in whatever case it
/// is written.
pub fn get_extension(extension: &str) -> (res: Extension)
    requires
        extension_named(lowercase(extension@)) is Some,
    ensures
        Some(res) == extension_named(lowercase(extension@)),
{
    Extension::from_lowercase(to_lowercase(extension).as_str()).unwrap()
}

/// The kind of file that an extension stands for, if it is supported.
pub fn find_extension(extension: &str) -> (res: Option<Extension>)
    ensures
        res == extension_named(lowercase(extension@)),
{
    if Extension::from_lowercase(to_lowercase(extension).as_str()).is_some() {
        Some(get_extension(extension))
    } else {
        None
    }
}

/// Why no kind of file can be told for a list of files.
#[derive(Debug, Clone, PartialEq, Eq)]
pub enum ExtensionError {
    /// There are no files.
    NoFiles,
    /// A file without an extension.
    Missing,
    /// Files with different extensions.
    Multiple,
    /// The extension is none of those supported.
    Unsupported(String),
}

/// The message for an extension that is not supported.
pub open spec fn unsupported_message(extension: Seq<char>) -> Seq<char> {
    "Unsupported extension: "@ + extension
}

impl ExtensionError {
    /// Describes the error.
    pub fn message(&self) -> (res: String)
        ensures
            res@ == match *self {
                ExtensionError::NoFiles => "No input files found"@,
                ExtensionError::Missing => "File extension is not found"@,
                ExtensionError::Multiple => "Multiple extensions are not supported"@,
                ExtensionError::Unsupported(extension) => unsupported_message(extension@),
            },
    {
        match self {
            ExtensionError::NoFiles => "No input files found".to_owned(),
            ExtensionError::Missing => "File extension is not found".to_owned(),
            ExtensionError::Multiple => "Multiple extensions are not supported".to_owned(),
            ExtensionError::Unsupported(extension) => {
                let mut out = "Unsupported extension: ".to_owned();
                out.append(extension.as_str());
                out
            },
        }
    }
}

/// Whether some file has no extension.
pub open spec fn some_missing(extensions: Seq<Option<String>>) -> bool {
    exists|i: int| 0 <= i < extensions.len() && #[trigger] extensions[i] is None
}

/// Whether all the files have the extension of the first one, to the letter.
pub open spec fn all_alike(extensions: Seq<Option<String>>) -> bool {
    forall|i: int|
        0 <= i < extensions.len() ==> (#[trigger] extensions[i])->0@ == extensions[0]->0@
}

/// Tells the kind of some files, given their extensions.
pub fn check_and_get_extension(extensions: &Vec<Option<String>>) -> (res: Result<
    Extension,
    ExtensionError,
>)
    ensures
        extensions@.len() == 0 ==> res == Err::<Extension, ExtensionError>(ExtensionError::NoFiles),
        extensions@.len() > 0 && some_missing(extensions@) ==> res == Err::<
            Extension,
            ExtensionError,
        >(ExtensionError::Missing),
        extensions@.len() > 0 && !some_missing(extensions@) && !all_alike(extensions@) ==> res
            == Err::<Extension, ExtensionError>(ExtensionError::Multiple),
        extensions@.len() > 0 && !some_missing(extensions@) && all_alike(extensions@) ==> match res {
            Ok(extension) => extension_named(lowercase(extensions@[0]->0@)) == Some(extension),
            Err(error) => {
                &&& extension_named(lowercase(extensions@[0]->0@)) is None
                &&& error matches ExtensionError::Unsupported(name) && name@ == extensions@[0]->0@
            },
        },
{
    if extensions.len() == 0 {
        return Err(ExtensionError::NoFiles);
    }
    let mut i: usize = 0;
    while i < extensions.len()
        invariant
            i <= extensions@.len(),
            forall|j: int| 0 <= j < i ==> !(#[trigger] extensions@[j] is None),
        decreases extensions.len() - i,
    {
        if extensions[i].is_none() {
            return Err(ExtensionError::Missing);
        }
        i += 1;
    }
    match &extensions[0] {
        Some(first) => {
            let mut k: usize = 0;
            while k < extensions.len()
                invariant
                    k <= extensions@.len(),
                    extensions@.len() > 0,
                    extensions@[0] == Some(*first),
                    !some_missing(extensions@),
                    forall|j: int| 0 <= j < k ==> (#[trigger] extensions@[j])->0@ == first@,
                decreases extensions.len() - k,
            {
                if let Some(other) = &extensions[k] {
                    if !same_text(other.as_str(), first.as_str()) {
                        assert(extensions@[k as int]->0@ != extensions@[0]->0@);
                        return Err(ExtensionError::Multiple);
                    }
                } else {
                    assert(extensions@[k as int] is None);
                }
                k += 1;
            }
            match find_extension(first.as_str()) {
                Some(extension) => Ok(extension),
                None => Err(ExtensionError::Unsupported(first.clone())),
            }
        },
        None => Err(ExtensionError::Missing),
    }
}

/// The extension of a kind of file.
pub open spec fn extension_name(extension: Extension) -> Seq<char> {
    match extension {
        Extension::Las => "las"@,
        Extension::Laz => "laz"@,
        Extension::Csv => "csv"@,
        Extension::Txt => "txt"@,
        Extension::Ply => "ply"@,
    }
}

/// A kind of file has one extension and no other.
pub proof fn lemma_extension_names(name: Seq<char>, extension: Extension)
    ensures
        extension_named(name) == Some(extension) <==> name == extension_name(extension),
{
    reveal_strlit("las");
    reveal_strlit("laz");
    reveal_strlit("csv");
    reveal_strlit("txt");
    reveal_strlit("ply");
    assert("las"@[2] == 's' && "laz"@[2] == 'z');
    assert("las"@[0] == 'l' && "laz"@[0] == 'l' && "csv"@[0] == 'c' && "txt"@[0] == 't');
    assert("ply"@[0] == 'p');
}

/// Files are alike if and only if any two of them have the same extension.
pub proof fn lemma_all_alike(extensions: Seq<Option<String>>)
    ensures
        all_alike(extensions) <==> forall|i: int, j: int|
            0 <= i < extensions.len() && 0 <= j < extensions.len() ==> (#[trigger] extensions[i])->0@
                == (#[trigger] extensions[j])->0@,
{
    if !all_alike(extensions) {
        let i = choose|i: int|
            0 <= i < extensions.len() && (#[trigger] extensions[i])->0@ != extensions[0]->0@;
        assert(extensions[i]->0@ != extensions[0]->0@);
    }
}

/// Files lack an extension if and only if one of them does, wherever it stands in
/// the list.
pub proof fn lemma_some_missing(a: Seq<Option<String>>, b: Seq<Option<String>>, one: Option<String>)
    ensures
        some_missing(a + b) <==> some_missing(a) || some_missing(b),
        some_missing(seq![one]) <==> one is None,
        !some_missing(Seq::<Option<String>>::empty()),
{
    let s = a + b;
    let alone = seq![one];
    assert(alone[0] == one);
    if some_missing(a) {
        let i = choose|i: int| 0 <= i < a.len() && #[trigger] a[i] is None;
        assert(s[i] is None);
    }
    if some_missing(b) {
        let i = choose|i: int| 0 <= i < b.len() && #[trigger] b[i] is None;
        assert(s[a.len() + i] is None);
    }
    if some_missing(s) {
        let i = choose|i: int| 0 <= i < s.len() && #[trigger] s[i] is None;
        if i < a.len() {
            assert(a[i] is None);
        } else {
            assert(b[i - a.len()] is None);
        }
    }
}

/// The message for an extension ends with the extension as it is written, and
/// nothing else in it depends on the extension.
pub proof fn lemma_unsupported_message(extension: Seq<char>)
    ensures
        unsupported_message(extension) == unsupported_message(Seq::empty()) + extension,
{
    assert(unsupported_message(extension) =~= unsupported_message(Seq::empty()) + extension);
}

} // verus!
