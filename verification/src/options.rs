//! What a conversion is asked to do.

use vstd::prelude::*;
#[allow(unused_imports)]
use vstd::string::*;

verus! {

/// How the coordinates of the input are meant.
#[derive(Debug, Clone, Copy, PartialEq, Eq, Structural)]
pub enum InputReference {
    /// In the reference system of an EPSG code.
    Epsg { code: u16 },
    /// In metres along three axes.
    CartesianMeters,
}

impl Default for InputReference {
    fn default() -> (res: InputReference)
        ensures
            res == (InputReference::Epsg { code: 0 }),
    {
        InputReference::Epsg { code: 0 }
    }
}

/// The options of a conversion.
#[derive(Debug, Clone)]
pub struct ConvertOptions {
    pub input: Vec<String>,
    pub output: String,
    pub input_reference: InputReference,
    pub output_epsg: u16,
    pub min: u8,
    pub max: u8,
    pub max_memory_mb: usize,
    pub threads: Option<usize>,
    pub quantize: bool,
    pub gzip_compress: bool,
    pub meshopt: bool,
    pub disable_decimation: bool,
}

impl Default for ConvertOptions {
    fn default() -> (res: ConvertOptions)
        ensures
            res.input@ == Seq::<String>::empty(),
            res.output@ == Seq::<char>::empty(),
            res.input_reference == (InputReference::Epsg { code: 0 }),
            res.output_epsg == 4979,
            res.min == 15,
            res.max == 18,
            res.max_memory_mb == 4096,
            res.threads is None,
            !res.quantize,
            !res.gzip_compress,
            !res.meshopt,
            !res.disable_decimation,
    {
        ConvertOptions {
            input: Vec::new(),
            output: String::new(),
            input_reference: InputReference::default(),
            output_epsg: 4979,
            min: 15,
            max: 18,
            max_memory_mb: 4096,
            threads: None,
            quantize: false,
            gzip_compress: false,
            meshopt: false,
            disable_decimation: false,
        }
    }
}

/// The options as the command line gives them.
#[derive(Debug, Clone)]
pub struct Cli {
    pub input: Vec<String>,
    pub output: String,
    pub input_epsg: Option<u16>,
    pub cartesian_meters: bool,
    pub output_epsg: u16,
    pub min: u8,
    pub max: u8,
    pub max_memory_mb: usize,
    pub threads: Option<usize>,
    pub quantize: bool,
    pub gzip_compress: bool,
    pub meshopt: bool,
    pub disable_decimation: bool,
}

/// The reference of the input: the EPSG code where one is given.
pub open spec fn reference_of(input_epsg: Option<u16>) -> InputReference {
    match input_epsg {
        Some(code) => InputReference::Epsg { code },
        None => InputReference::CartesianMeters,
    }
}

impl From<Cli> for ConvertOptions {
    fn from(cli: Cli) -> (res: ConvertOptions) {
        let input_reference = if let Some(code) = cli.input_epsg {
            InputReference::Epsg { code }
        } else {
            InputReference::CartesianMeters
        };
        ConvertOptions {
            input: cli.input,
            output: cli.output,
            input_reference,
            output_epsg: cli.output_epsg,
            min: cli.min,
            max: cli.max,
            max_memory_mb: cli.max_memory_mb,
            threads: cli.threads,
            quantize: cli.quantize,
            gzip_compress: cli.gzip_compress,
            meshopt: cli.meshopt,
            disable_decimation: cli.disable_decimation,
        }
    }
}

impl vstd::std_specs::convert::FromSpecImpl<Cli> for ConvertOptions {
    open spec fn obeys_from_spec() -> bool {
        true
    }

    open spec fn from_spec(cli: Cli) -> ConvertOptions {
        ConvertOptions {
            input: cli.input,
            output: cli.output,
            input_reference: reference_of(cli.input_epsg),
            output_epsg: cli.output_epsg,
            min: cli.min,
            max: cli.max,
            max_memory_mb: cli.max_memory_mb,
            threads: cli.threads,
            quantize: cli.quantize,
            gzip_compress: cli.gzip_compress,
            meshopt: cli.meshopt,
            disable_decimation: cli.disable_decimation,
        }
    }
}

/// The options of the command line are those of the conversion, each under its
/// own name. The input is in the reference system of the EPSG code that is given;
/// without a code it is in metres.
pub proof fn lemma_from_cli(cli: Cli)
    ensures
        ({
            let res = <ConvertOptions as vstd::std_specs::convert::FromSpec<Cli>>::from_spec(cli);
            &&& res.input@ == cli.input@
            &&& res.output@ == cli.output@
            &&& cli.input_epsg matches Some(n) ==> (res.input_reference matches InputReference::Epsg {
                code,
            } && code == n)
            &&& cli.input_epsg is None ==> res.input_reference is CartesianMeters
            &&& res.output_epsg == cli.output_epsg
            &&& res.min == cli.min
            &&& res.max == cli.max
            &&& res.max_memory_mb == cli.max_memory_mb
            &&& res.threads == cli.threads
            &&& res.quantize == cli.quantize
            &&& res.gzip_compress == cli.gzip_compress
            &&& res.meshopt == cli.meshopt
            &&& res.disable_decimation == cli.disable_decimation
        }),
{
}

} // verus!
