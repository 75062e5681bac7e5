//! What the words on the command line ask for.

use crate::text::{chars_of, same_chars};
use vstd::prelude::*;

verus! {

/// How the program is to start.
#[derive(Debug)]
pub enum Args {
    /// With a choice between a new game and a position to type in.
    Interactive,
    /// From the position that the string writes in Forsyth-Edwards notation.
    FEN(String),
}

/// Why the words on the command line ask for nothing.
#[derive(Copy, Clone, PartialEq, Eq, Structural, Debug)]
pub enum ArgsError {
    /// A word is missing: the name of the program, or the position after
    /// `--fen`.
    Missing,
    /// The first word after the name of the program is not `--fen`.
    Unexpected,
}

/// What the words `args` ask for: the first is the name of the program;
/// with nothing after it the program starts interactive, and with
/// `--fen` and a position it starts from that position.
pub open spec fn args_of(args: Seq<Seq<char>>) -> Result<Option<Seq<char>>, ArgsError> {
    if args.len() == 0 {
        Err(ArgsError::Missing)
    } else if args.len() == 1 {
        Ok(None)
    } else if args[1] != "--fen"@ {
        Err(ArgsError::Unexpected)
    } else if args.len() == 2 {
        Err(ArgsError::Missing)
    } else {
        Ok(Some(args[2]))
    }
}

impl Args {
    /// What the words of the command line ask for.
    pub fn parse(args: &Vec<String>) -> (r: Result<Args, ArgsError>)
        ensures
            match r {
                Ok(Args::Interactive) => args_of(args@.map_values(|s: String| s@)) == Ok::<
                    Option<Seq<char>>,
                    ArgsError,
                >(None),
                Ok(Args::FEN(fen)) => args_of(args@.map_values(|s: String| s@)) == Ok::<
                    Option<Seq<char>>,
                    ArgsError,
                >(Some(fen@)),
                Err(e) => args_of(args@.map_values(|s: String| s@)) == Err::<
                    Option<Seq<char>>,
                    ArgsError,
                >(e),
            },
    {
        let ghost words = args@.map_values(|s: String| s@);
        if args.len() == 0 {
            return Err(ArgsError::Missing);
        }
        if args.len() == 1 {
            return Ok(Args::Interactive);
        }
        let flag = chars_of(args[1].as_str());
        let wanted = chars_of("--fen");
        assert(words[1] == args[1]@);
        let same = same_chars(&flag, &wanted);
        if !same {
            return Err(ArgsError::Unexpected);
        }
        if args.len() == 2 {
            return Err(ArgsError::Missing);
        }
        assert(words[2] == args[2]@);
        Ok(Args::FEN(args[2].clone()))
    }
}

} // verus!
