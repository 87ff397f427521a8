//! Command-line arguments of the `build` command.

use vstd::prelude::*;
use crate::text::str_eq;

verus! {

/// The arguments of `build`: the ISO, the mod directory, and optionally an
/// output directory and a path for the repacked ISO.
pub struct BuildOptions<'a> {
    pub iso_path: &'a str,
    pub mod_dir: &'a str,
    pub output_dir: Option<&'a str>,
    pub iso_output: Option<&'a str>,
}

/// The parsed `build` arguments, as plain values.
pub struct BuildOptionsModel {
    pub iso_path: Seq<char>,
    pub mod_dir: Seq<char>,
    pub output_dir: Option<Seq<char>>,
    pub iso_output: Option<Seq<char>>,
}

/// The characters of an optional string.
pub open spec fn opt_str_view(o: Option<&str>) -> Option<Seq<char>> {
    match o {
        Some(s) => Some(s@),
        None => None,
    }
}

impl<'a> View for BuildOptions<'a> {
    type V = BuildOptionsModel;

    open spec fn view(&self) -> BuildOptionsModel {
        BuildOptionsModel {
            iso_path: self.iso_path@,
            mod_dir: self.mod_dir@,
            output_dir: opt_str_view(self.output_dir),
            iso_output: opt_str_view(self.iso_output),
        }
    }
}

/// The optional arguments from position `i` on: a help flag rejects the
/// line, "--iso-output" takes the next argument, and the first two other
/// arguments fill the output directory then the ISO output; anything more
/// rejects the line.
pub open spec fn spec_build_optionals(
    args: Seq<Seq<char>>,
    i: nat,
    out: Option<Seq<char>>,
    iso: Option<Seq<char>>,
) -> Option<(Option<Seq<char>>, Option<Seq<char>>)>
    decreases args.len() - i,
{
    if i >= args.len() {
        Some((out, iso))
    } else {
        let v = args[i as int];
        if v == "--help"@ || v == "-h"@ {
            None
        } else if v == "--iso-output"@ {
            if i + 1 < args.len() {
                spec_build_optionals(args, i + 2, out, Some(args[i + 1int]))
            } else {
                None
            }
        } else if out is None {
            spec_build_optionals(args, i + 1, Some(v), iso)
        } else if iso is None {
            spec_build_optionals(args, i + 1, out, Some(v))
        } else {
            None
        }
    }
}

/// The `build` arguments a command line gives, if it is well formed.
pub open spec fn spec_parse_build_options(args: Seq<Seq<char>>) -> Option<BuildOptionsModel> {
    if args.len() < 2 {
        None
    } else {
        match spec_build_optionals(args, 2, None, None) {
            None => None,
            Some((o, i)) => Some(
                BuildOptionsModel { iso_path: args[0], mod_dir: args[1], output_dir: o, iso_output: i },
            ),
        }
    }
}

/// The characters of each argument.
pub open spec fn args_view(args: Seq<String>) -> Seq<Seq<char>> {
    args.map_values(|a: String| a@)
}

/// Parses the arguments that follow `build`.
pub fn parse_build_options(args: &[String]) -> (res: Option<BuildOptions<'_>>)
    ensures
        match res {
            Some(o) => spec_parse_build_options(args_view(args@)) == Some(o@),
            None => spec_parse_build_options(args_view(args@)) is None,
        },
{
    let ghost av = args_view(args@);
    if args.len() < 2 {
        return None;
    }
    let iso_path = args[0].as_str();
    let mod_dir = args[1].as_str();
    let mut output_dir: Option<&str> = None;
    let mut iso_output: Option<&str> = None;
    let mut i: usize = 2;
    while i < args.len()
        invariant
            2 <= i <= args@.len(),
            av == args_view(args@),
            spec_build_optionals(av, 2, None, None) == spec_build_optionals(
                av,
                i as nat,
                opt_str_view(output_dir),
                opt_str_view(iso_output),
            ),
        decreases args@.len() - i,
    {
        let value = args[i].as_str();
        assert(av[i as int] == value@);
        if str_eq(value, "--help") || str_eq(value, "-h") {
            return None;
        } else if str_eq(value, "--iso-output") {
            if i + 1 >= args.len() {
                return None;
            }
            let next = args[i + 1].as_str();
            assert(av[i + 1] == next@);
            iso_output = Some(next);
            i = i + 2;
        } else if output_dir.is_none() {
            output_dir = Some(value);
            i = i + 1;
        } else if iso_output.is_none() {
            iso_output = Some(value);
            i = i + 1;
        } else {
            return None;
        }
    }
    Some(BuildOptions { iso_path, mod_dir, output_dir, iso_output })
}

} // verus!
