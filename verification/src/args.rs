//! The command line of `cddlc`, as plain values.

use vstd::prelude::*;

verus! {

/// cddlc — CDDL compiler and code generator.
///
/// Parses RFC 8610 CDDL schema files and generates serializers/deserializers
/// for the specified target language. Paths are held as strings.
#[derive(Debug)]
pub struct Cli {
    /// One or more .cddl source files (entry points)
    pub inputs: Vec<String>,
    /// Target language
    pub lang: Lang,
    /// Output directory for generated files
    pub output: String,
    /// CBOR runtime library (rust: minicbor | ciborium | cbor4ii; c: tinycbor | nanocbor | zcbor)
    pub runtime: String,
    /// Emit deterministic encoding (dCBOR, RFC 8949 §4.2)
    pub dcbor: bool,
    /// Allocation strategy for generated code
    pub alloc: Alloc,
    /// Rust: emit `#![no_std]` + heapless collections
    pub no_std: bool,
    /// Maximum nesting depth for decoder
    pub depth_limit: usize,
    /// Default capacity for unbounded sequences (e.g. `[* T]`)
    pub max_array: usize,
    /// Default capacity for unbounded strings
    pub max_str: usize,
    /// Namespace / module prefix for emitted symbols
    pub namespace: Option<String>,
    /// Additional search paths for imported .cddl files
    pub include_dir: Vec<String>,
    /// Parse and analyze only — do not write output files
    pub dry_run: bool,
    /// Verbose output (print resolved types, warnings, file paths)
    pub verbose: bool,
}

/// Target language of the generated code.
#[derive(Debug, Clone, Copy, PartialEq, Eq, Structural)]
pub enum Lang {
    Rust,
    C,
    Cpp,
    Csharp,
    Python,
}

/// Allocation strategy of the generated code.
#[derive(Debug, Clone, Copy, PartialEq, Eq, Structural)]
pub enum Alloc {
    Stack,
    Arena,
    Heap,
}

impl Cli {
    /// The command line for `inputs` with every other option at its
    /// documented default: `--lang rust`, `--output ./generated`,
    /// `--runtime minicbor`, `--alloc arena`, `--depth-limit 16`,
    /// `--max-array 16`, `--max-str 64`, and no flag set.
    pub fn with_defaults(inputs: Vec<String>) -> (cli: Cli)
        ensures
            cli.inputs@ == inputs@,
            cli.lang == Lang::Rust,
            cli.output@ == "./generated"@,
            cli.runtime@ == "minicbor"@,
            !cli.dcbor,
            cli.alloc == Alloc::Arena,
            !cli.no_std,
            cli.depth_limit == 16,
            cli.max_array == 16,
            cli.max_str == 64,
            cli.namespace is None,
            cli.include_dir@.len() == 0,
            !cli.dry_run,
            !cli.verbose,
    {
        Cli {
            inputs,
            lang: Lang::Rust,
            output: String::from_str("./generated"),
            runtime: String::from_str("minicbor"),
            dcbor: false,
            alloc: Alloc::Arena,
            no_std: false,
            depth_limit: 16,
            max_array: 16,
            max_str: 64,
            namespace: None,
            include_dir: Vec::new(),
            dry_run: false,
            verbose: false,
        }
    }
}

} // verus!
