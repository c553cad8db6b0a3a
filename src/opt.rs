//! The options of the command-line tools, as plain values.

use vstd::prelude::*;
use vstd::string::*;

verus! {

/// Options of the pair search.
pub struct Gaps {
    /// Input file with P-blocks.
    pub infile: String,
    /// Sequence file (FASTA).
    pub fastafile: String,
    /// Output file.
    pub outfile: String,
    /// Output format (`max-cut` or `paup`).
    pub format: String,
    /// P-block size (0 for variable size).
    pub blocksize: u32,
    /// Pattern of the spaced words of new blocks.
    pub pattern: String,
    /// Range searched for new blocks.
    pub range: i64,
    /// Keep only pairs that strongly support a topology.
    pub strong: bool,
    /// Keep only pairs that weakly support a topology.
    pub weak: bool,
    /// Hide progress output.
    pub hide_progress: bool,
    /// Also write the pairs to `pairs.txt`.
    pub print_pairs: bool,
}

/// Options of the tree builder.
pub struct Nwk {
    /// Method for building trees (`max-cut` or `paup`).
    pub method: String,
    /// Input file.
    pub infile: String,
    /// Show the output of the tree builder.
    pub verbose: bool,
    /// Show all trees found.
    pub all: bool,
}

/// Options of the Robinson-Foulds distance tool.
pub struct Rfdist {
    /// Input file (two trees).
    pub infile: String,
}

/// Options of the benchmark.
pub struct Benchmark {
    /// Input folder with P-block files.
    pub infolder: String,
    /// Sequence file (FASTA).
    pub fastafile: String,
    /// Reference tree file (Newick).
    pub nwkfile: String,
    /// Output file (CSV).
    pub outfile: String,
    /// Output format (`max-cut` or `paup`).
    pub format: String,
    /// P-block size (0 for variable size).
    pub blocksize: u32,
    /// Pattern of the spaced words of new blocks.
    pub pattern: String,
    /// Range searched for new blocks.
    pub range: i64,
    /// Keep only pairs that strongly support a topology.
    pub strong: bool,
    /// Keep only pairs that weakly support a topology.
    pub weak: bool,
    /// Hide progress output.
    pub hide_progress: bool,
}

/// Accepts the output formats the tools know: `max-cut` and `paup`; any other
/// text comes back as the error.
pub fn check_format(input: &str) -> (r: Result<String, String>)
    ensures
        match r {
            Ok(s) => s@ == input@ && (input@ == "max-cut"@ || input@ == "paup"@),
            Err(s) => s@ == input@ && input@ != "max-cut"@ && input@ != "paup"@,
        },
{
    let s = input.to_owned();
    let max_cut = String::from_str("max-cut");
    let paup = String::from_str("paup");
    if s == max_cut || s == paup {
        Ok(s)
    } else {
        Err(s)
    }
}

} // verus!
