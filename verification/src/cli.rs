//! The command line of `cargo why`: what an argument list asks for, and the
//! text that explains the usage.

use vstd::prelude::*;
use vstd::string::*;
use crate::text::{same_text, texts};

verus! {

/// What a well-formed command line asks for.
#[derive(Debug)]
pub struct Invocation {
    /// The dependency name to search for.
    pub target: String,
    /// The arguments after the target, handed on to the resolver as they are.
    pub other_flags: Vec<String>,
}

/// Whether `arg` asks for the usage text.
pub open spec fn asks_for_help(arg: Seq<char>) -> bool {
    arg == "-h"@ || arg == "--help"@
}

/// Whether an argument list is a well-formed command line: the program's
/// name, then the word `why`, then a target that does not ask for help.
pub open spec fn well_formed(args: Seq<Seq<char>>) -> bool {
    &&& args.len() >= 3
    &&& args[1] == "why"@
    &&& !asks_for_help(args[2])
}

/// Reads an argument list, the program's name first. A well-formed list gives
/// its third argument as the target and all later ones, in order, as the flags
/// to hand on; any other list gives nothing, and the caller shows the usage.
pub fn parse(args: &Vec<String>) -> (parsed: Option<Invocation>)
    ensures
        match parsed {
            Some(invocation) => {
                &&& well_formed(texts(args@))
                &&& invocation.target@ == args@[2]@
                &&& texts(invocation.other_flags@) == texts(args@).skip(3)
            },
            None => !well_formed(texts(args@)),
        },
{
    if args.len() < 3 {
        return None;
    }
    if !same_text(args[1].as_str(), "why") {
        return None;
    }
    let target = args[2].clone();
    if same_text(target.as_str(), "-h") || same_text(target.as_str(), "--help") {
        return None;
    }
    let mut other_flags: Vec<String> = Vec::new();
    let mut i: usize = 3;
    while i < args.len()
        invariant
            3 <= i <= args.len(),
            texts(other_flags@) == texts(args@).skip(3).take(i - 3),
        decreases args.len() - i,
    {
        other_flags.push(args[i].clone());
        assert(texts(args@).skip(3).take(i - 3).push(args@[i as int]@) =~= texts(args@).skip(
            3,
        ).take(i + 1 - 3));
        i += 1;
    }
    Some(Invocation { target, other_flags })
}

/// The usage text for the given version of the program: the program's name
/// and version, then how it is called, then its flags.
pub open spec fn usage_text(version: Seq<char>) -> Seq<char> {
    "cargo-why "@ + version + "\n\nUSAGE:\n"@
        + "    cargo why <target crate> [other cargo flags (features, offline, etc)...]\n"@
        + "\nFLAGS:\n"@ + "    -h, --help       Prints help information\n"@
}

/// Writes the usage text for the given version of the program.
pub fn usage(version: &str) -> (text: String)
    ensures
        text@ == usage_text(version@),
{
    let mut text = String::new();
    text.append("cargo-why ");
    text.append(version);
    text.append("\n\nUSAGE:\n");
    text.append("    cargo why <target crate> [other cargo flags (features, offline, etc)...]\n");
    text.append("\nFLAGS:\n");
    text.append("    -h, --help       Prints help information\n");
    text
}

} // verus!
