//! The decisions of a conversion: whether it can start, with how many threads,
//! on which files, and which way it goes.

use vstd::prelude::*;
#[allow(unused_imports)]
use vstd::string::*;
use crate::options::{ConvertOptions, InputReference};
use crate::text::contains_char;

verus! {

/// What kind of failure an error is.
#[derive(Debug, Clone, Copy, PartialEq, Eq, Structural)]
pub enum ErrorKind {
    /// The options make no sense.
    InvalidInput,
    /// A file is not there.
    NotFound,
    /// Anything else.
    Other,
}

/// Why a conversion does not start.
#[derive(Debug, Clone, PartialEq, Eq)]
pub enum ConvertError {
    /// No input is given.
    NoInput,
    /// No output is given.
    NoOutput,
    /// The smallest zoom is above the largest.
    MinAboveMax,
    /// There are more processors than threads can be counted for.
    TooManyProcessors,
    /// The input stands for no files.
    NoFiles,
    /// This input is not a file.
    MissingFile(String),
}

/// The message for an input that is not a file.
pub open spec fn missing_file_message(name: Seq<char>) -> Seq<char> {
    "input file not found: "@ + name
}

impl ConvertError {
    /// The kind of failure.
    pub fn kind(&self) -> (res: ErrorKind)
        ensures
            res == match *self {
                ConvertError::NoInput => ErrorKind::InvalidInput,
                ConvertError::NoOutput => ErrorKind::InvalidInput,
                ConvertError::MinAboveMax => ErrorKind::InvalidInput,
                ConvertError::TooManyProcessors => ErrorKind::Other,
                ConvertError::NoFiles => ErrorKind::NotFound,
                ConvertError::MissingFile(_) => ErrorKind::NotFound,
            },
    {
        match self {
            ConvertError::NoInput | ConvertError::NoOutput | ConvertError::MinAboveMax =>
                ErrorKind::InvalidInput,
            ConvertError::TooManyProcessors => ErrorKind::Other,
            ConvertError::NoFiles | ConvertError::MissingFile(_) => ErrorKind::NotFound,
        }
    }

    /// Describes the error.
    pub fn message(&self) -> (res: String)
        ensures
            res@ == match *self {
                ConvertError::NoInput => "at least one input file is required"@,
                ConvertError::NoOutput => "an output directory is required"@,
                ConvertError::MinAboveMax => "min zoom must not exceed max zoom"@,
                ConvertError::TooManyProcessors => "too many processors"@,
                ConvertError::NoFiles => "input pattern did not match any files"@,
                ConvertError::MissingFile(name) => missing_file_message(name@),
            },
    {
        match self {
            ConvertError::NoInput => "at least one input file is required".to_owned(),
            ConvertError::NoOutput => "an output directory is required".to_owned(),
            ConvertError::MinAboveMax => "min zoom must not exceed max zoom".to_owned(),
            ConvertError::TooManyProcessors => "too many processors".to_owned(),
            ConvertError::NoFiles => "input pattern did not match any files".to_owned(),
            ConvertError::MissingFile(name) => {
                let mut out = "input file not found: ".to_owned();
                out.append(name.as_str());
                out
            },
        }
    }
}

/// What is wrong with the options, if anything. What is checked first is
/// reported.
pub open spec fn options_error(args: ConvertOptions) -> Option<ConvertError> {
    if args.input@.len() == 0 {
        Some(ConvertError::NoInput)
    } else if args.output@.len() == 0 {
        Some(ConvertError::NoOutput)
    } else if args.min > args.max {
        Some(ConvertError::MinAboveMax)
    } else {
        None
    }
}

/// Whether a number of threads is asked for; none is as good as no answer.
pub open spec fn asks_threads(threads: Option<usize>) -> bool {
    threads matches Some(n) && n > 0
}

/// The number of threads: as many as are asked for, otherwise two for each
/// processor.
pub fn thread_count(threads: Option<usize>, processors: usize) -> (res: usize)
    requires
        processors <= usize::MAX / 2,
    ensures
        res == if asks_threads(threads) {
            threads->0 as int
        } else {
            2 * processors
        },
{
    let default: usize = processors * 2;
    match threads {
        Some(n) => if n > 0 {
            n
        } else {
            default
        },
        None => default,
    }
}

/// The number of threads where there are so many processors. Twice the number of
/// processors must be a number that can be counted to.
pub open spec fn counted_threads(threads: Option<usize>, processors: usize) -> Result<
    usize,
    ConvertError,
> {
    if asks_threads(threads) {
        Ok(threads->0)
    } else if 2 * processors > usize::MAX {
        Err(ConvertError::TooManyProcessors)
    } else {
        Ok((2 * processors) as usize)
    }
}

/// Counts the threads where there are so many processors.
pub fn count_threads(threads: Option<usize>, processors: usize) -> (res: Result<
    usize,
    ConvertError,
>)
    ensures
        res == counted_threads(threads, processors),
{
    if let Some(n) = threads {
        if n > 0 {
            return Ok(n);
        }
    }
    if processors > usize::MAX / 2 {
        return Err(ConvertError::TooManyProcessors);
    }
    Ok(thread_count(threads, processors))
}

/// `num_cpus::get`: the number of processors that the process may use now. The
/// machine decides it. It is never zero.
#[verifier::external_body]
fn processor_count() -> (res: usize)
    ensures
        res >= 1,
{
    num_cpus::get()
}

/// Checks the options, and tells with how many threads to convert.
pub fn convert(args: &ConvertOptions) -> (res: Result<usize, ConvertError>)
    ensures
        match options_error(*args) {
            Some(error) => res == Err::<usize, ConvertError>(error),
            None => if asks_threads(args.threads) {
                res == Ok::<usize, ConvertError>(args.threads->0)
            } else {
                exists|processors: usize|
                    processors >= 1 && res == #[trigger] counted_threads(args.threads, processors)
            },
        },
{
    if args.input.len() == 0 {
        return Err(ConvertError::NoInput);
    }
    if args.output.as_str().is_empty() {
        return Err(ConvertError::NoOutput);
    }
    if args.min > args.max {
        return Err(ConvertError::MinAboveMax);
    }
    let processors: usize = processor_count();
    count_threads(args.threads, processors)
}

/// Whether an input is a pattern that stands for files.
pub open spec fn pattern(input: Seq<char>) -> bool {
    input.contains('*') || input.contains('?') || input.contains('[')
}

/// Tells whether an input is a pattern rather than the name of a file.
pub fn is_pattern(input: &str) -> (res: bool)
    ensures
        res == pattern(input@),
{
    contains_char(input, '*') || contains_char(input, '?') || contains_char(input, '[')
}

/// Checks the files that the input stands for: each with its name, and whether
/// it is a file. The first that is not one is reported.
pub fn check_files(files: &Vec<(String, bool)>) -> (res: Result<(), ConvertError>)
    ensures
        files@.len() == 0 ==> res == Err::<(), ConvertError>(ConvertError::NoFiles),
        files@.len() > 0 ==> match res {
            Ok(_) => forall|i: int| 0 <= i < files@.len() ==> (#[trigger] files@[i]).1,
            Err(error) => exists|i: int|
                {
                    &&& 0 <= i < files@.len()
                    &&& !(#[trigger] files@[i]).1
                    &&& forall|j: int| 0 <= j < i ==> (#[trigger] files@[j]).1
                    &&& error matches ConvertError::MissingFile(name) && name@ == files@[i].0@
                },
        },
{
    if files.len() == 0 {
        return Err(ConvertError::NoFiles);
    }
    let mut i: usize = 0;
    while i < files.len()
        invariant
            i <= files@.len(),
            forall|j: int| 0 <= j < i ==> (#[trigger] files@[j]).1,
        decreases files.len() - i,
    {
        if !files[i].1 {
            let name = files[i].0.clone();
            assert(!files@[i as int].1);
            return Err(ConvertError::MissingFile(name));
        }
        i += 1;
    }
    Ok(())
}

/// A number of mebibytes in bytes.
pub fn memory_bytes(max_memory_mb: usize) -> (res: u64)
    requires
        max_memory_mb * 0x10_0000 <= u64::MAX,
    ensures
        res == max_memory_mb * 0x10_0000,
{
    max_memory_mb as u64 * 1024 * 1024
}

/// Which way a conversion goes.
#[derive(Debug, Clone, Copy, PartialEq, Eq, Structural)]
pub enum Workflow {
    /// Tiles in metres, not projected.
    CartesianMeters,
    /// Tiles on the globe.
    Epsg,
}

/// Tells which way a conversion goes.
pub fn workflow(reference: InputReference) -> (res: Workflow)
    ensures
        res == match reference {
            InputReference::CartesianMeters => Workflow::CartesianMeters,
            InputReference::Epsg { .. } => Workflow::Epsg,
        },
{
    match reference {
        InputReference::CartesianMeters => Workflow::CartesianMeters,
        InputReference::Epsg { .. } => Workflow::Epsg,
    }
}

/// Options are refused for a missing input before a missing output, and for that
/// before a smallest zoom above the largest; all others are accepted.
pub proof fn lemma_options_error(args: ConvertOptions)
    ensures
        options_error(args) is None <==> args.input@.len() > 0 && args.output@.len() > 0 && args.min
            <= args.max,
        options_error(args) == Some(ConvertError::NoInput) <==> args.input@.len() == 0,
        options_error(args) == Some(ConvertError::NoOutput) <==> args.input@.len() > 0
            && args.output@.len() == 0,
        options_error(args) == Some(ConvertError::MinAboveMax) <==> args.input@.len() > 0
            && args.output@.len() > 0 && args.max < args.min,
{
}

/// As many threads are used as are asked for, whatever the number of processors.
/// To ask for none is to ask nothing: then there are two for each processor, so
/// that each processor more makes two threads more, if they can be counted.
pub proof fn lemma_counted_threads(n: usize, processors: usize)
    ensures
        n > 0 ==> counted_threads(Some(n), processors) == Ok::<usize, ConvertError>(n),
        counted_threads(Some(0), processors) == counted_threads(None, processors),
        counted_threads(None, processors) is Ok <==> processors + processors <= usize::MAX,
        counted_threads(None, processors) matches Ok(m) ==> m == processors + processors,
        counted_threads(None, processors) matches Err(e) ==> e == ConvertError::TooManyProcessors,
{
}

/// A text is a pattern if and only if a star, a question mark or an opening
/// bracket stands somewhere in it; so a text of two parts is a pattern if and
/// only if one of the parts is.
pub proof fn lemma_pattern(a: Seq<char>, b: Seq<char>)
    ensures
        pattern(a) <==> exists|i: int|
            0 <= i < a.len() && {
                ||| #[trigger] a[i] == '*'
                ||| a[i] == '?'
                ||| a[i] == '['
            },
        pattern(a + b) <==> pattern(a) || pattern(b),
{
    lemma_contains_joined(a, b, '*');
    lemma_contains_joined(a, b, '?');
    lemma_contains_joined(a, b, '[');
}

proof fn lemma_contains_joined(a: Seq<char>, b: Seq<char>, c: char)
    ensures
        (a + b).contains(c) <==> a.contains(c) || b.contains(c),
{
    let s = a + b;
    assert(forall|i: int| 0 <= i < a.len() ==> s[i] == a[i]);
    if b.contains(c) {
        let i = choose|i: int| 0 <= i < b.len() && b[i] == c;
        assert(s[a.len() + i] == c);
    }
    if a.contains(c) {
        let i = choose|i: int| 0 <= i < a.len() && a[i] == c;
        assert(s[i] == c);
    }
}

/// The message for an input ends with the input as it is written, and nothing else
/// in it depends on the input.
pub proof fn lemma_missing_file_message(name: Seq<char>)
    ensures
        missing_file_message(name) == missing_file_message(Seq::empty()) + name,
{
    assert(missing_file_message(name) =~= missing_file_message(Seq::empty()) + name);
}

} // verus!
