//! The commands of the program and what a run takes for granted.

use vstd::prelude::*;
use crate::parse::optimizer::OptimizerStrategies;

verus! {

/// The number of cells of the tape where nothing else is asked for.
pub const DEFAULT_TAPE_SIZE: usize = 30_000;

/// The command line: one command.
#[derive(Debug, PartialEq, Eq)]
pub struct Args {
    pub cmd: Commands,
}

/// What the program can be asked to do.
#[derive(Debug, PartialEq, Eq)]
pub enum Commands {
    /// Compile program
    Compile {
        /// Emit IR instead of compiling
        emit_ir: bool,
        /// Force dynamic linking
        dynamic: bool,
        /// Input file
        rest: String,
    },
    /// Interpret program
    Interpret {
        /// Input file
        rest: String,
    },
    /// Launch shell
    Shell {},
}

impl Commands {
    /// The file that the command works on; the shell works on none.
    pub fn input_file(&self) -> (file: Option<&String>)
        ensures
            match *self {
                Commands::Compile { rest, .. } => file == Some(&rest),
                Commands::Interpret { rest } => file == Some(&rest),
                Commands::Shell {  } => file is None,
            },
    {
        match self {
            Commands::Compile { rest, .. } => Some(rest),
            Commands::Interpret { rest } => Some(rest),
            Commands::Shell {  } => None,
        }
    }
}

/// The passes that every command applies: contraction, dead-code
/// elimination and pure-tail elimination.
pub fn default_passes() -> (passes: Vec<OptimizerStrategies>)
    ensures
        passes@ == seq![
            OptimizerStrategies::Contractions,
            OptimizerStrategies::DeadCode,
            OptimizerStrategies::PureCode,
        ],
{
    let mut passes: Vec<OptimizerStrategies> = Vec::new();
    passes.push(OptimizerStrategies::Contractions);
    passes.push(OptimizerStrategies::DeadCode);
    passes.push(OptimizerStrategies::PureCode);
    assert(passes@ =~= seq![
        OptimizerStrategies::Contractions,
        OptimizerStrategies::DeadCode,
        OptimizerStrategies::PureCode,
    ]);
    passes
}

} // verus!
