//! The command line of the translating program: one input file path.
use vstd::prelude::*;

verus! {

/// What the program was asked to do.
pub struct Config {
    pub filename: String,
}

impl Config {
    /// The configuration from the program's arguments, the program name
    /// first. Fails when no file name follows it.
    pub fn new(args: &[String]) -> (r: Result<Config, &'static str>)
        ensures
            r is Err <==> args@.len() < 2,
            r matches Ok(c) ==> c.filename@ == args@[1]@,
    {
        if args.len() < 2 {
            return Err("not enough arguments, please provide filename");
        }
        let filename = args[1].clone();
        Ok(Config { filename })
    }
}

} // verus!
