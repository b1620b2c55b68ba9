//! Settings of a command-line run.
use vstd::prelude::*;
use crate::generation::OutputType;

verus! {

/// The settings of one command-line run.
#[derive(Clone, Debug)]
pub struct CliArgs {
    /// The root model to generate.
    pub model_name: String,
    /// Where the schema is read from.
    pub gen_spec_path: String,
    /// The directory the output files go to.
    pub output_path: String,
    /// The format of the output files.
    pub output_type: OutputType,
    /// How many root instances to generate.
    pub model_amount: usize,
    /// Whether output is formatted for people to read.
    pub pretty_print: bool,
}

impl Default for CliArgs {
    fn default() -> (r: CliArgs)
        ensures
            r.model_name@.len() == 0,
            r.gen_spec_path@.len() == 0,
            r.output_path@.len() == 0,
            r.output_type == OutputType::CSV,
            r.model_amount == 1,
            r.pretty_print,
    {
        CliArgs {
            model_name: String::new(),
            gen_spec_path: String::new(),
            output_path: String::new(),
            output_type: OutputType::CSV,
            model_amount: 1,
            pretty_print: true,
        }
    }
}

} // verus!
