//! The command line: help, applying a wallpaper without the window, or
//! opening the gallery on a folder or file.
use vstd::prelude::*;
use crate::backend::WallpaperMode;
use crate::text::same_str;

verus! {

/// What the command line asks for.
pub enum CliCommand {
    /// `--help` or `-h`: print the usage text.
    ShowHelp,
    /// `--apply` or `-a` without an image path: an error.
    ApplyMissingPath,
    /// Apply `path` as the wallpaper in `mode`, without the window.
    Apply { path: String, mode: WallpaperMode },
    /// Open the window; `candidate` is the folder or file named, if any (it
    /// is used if it exists).
    Launch { candidate: Option<String> },
}

/// The argument is the flag `long` or its short form `short`.
pub open spec fn is_flag(a: Seq<char>, long: Seq<char>, short: Seq<char>) -> bool {
    a == long || a == short
}

/// The mode the arguments after `--apply PATH` choose: `--mode M` or `-m M`
/// names it, otherwise `Fill`.
pub open spec fn apply_mode(args: Seq<String>) -> WallpaperMode {
    if args.len() >= 5 && is_flag(args[3]@, "--mode"@, "-m"@) {
        WallpaperMode::from_name(args[4]@)
    } else {
        WallpaperMode::Fill
    }
}

fn flag(a: &String, long: &str, short: &str) -> (r: bool)
    ensures
        r == is_flag(a@, long@, short@),
{
    same_str(a.as_str(), long) || same_str(a.as_str(), short)
}

/// Reads the program's arguments; `args[0]` is the program name.
pub fn parse_args(args: &Vec<String>) -> (c: CliCommand)
    ensures
        args.len() <= 1 ==> c matches CliCommand::Launch { candidate: None },
        args.len() > 1 ==> ({
            let first = args@[1]@;
            if is_flag(first, "--help"@, "-h"@) {
                c is ShowHelp
            } else if is_flag(first, "--apply"@, "-a"@) {
                if args.len() < 3 {
                    c is ApplyMissingPath
                } else {
                    c matches CliCommand::Apply { path, mode } && path@ == args@[2]@ && mode
                        == apply_mode(args@)
                }
            } else {
                c matches CliCommand::Launch { candidate: Some(p) } && p@ == first
            }
        }),
{
    if args.len() <= 1 {
        return CliCommand::Launch { candidate: None };
    }
    if flag(&args[1], "--help", "-h") {
        return CliCommand::ShowHelp;
    }
    if flag(&args[1], "--apply", "-a") {
        if args.len() < 3 {
            return CliCommand::ApplyMissingPath;
        }
        let mut mode = WallpaperMode::Fill;
        if args.len() >= 5 && flag(&args[3], "--mode", "-m") {
            mode = WallpaperMode::parse_name(args[4].as_str());
        }
        return CliCommand::Apply { path: args[2].clone(), mode };
    }
    CliCommand::Launch { candidate: Some(args[1].clone()) }
}

} // verus!
