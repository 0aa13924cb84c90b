use crate::display::DisplayMode;
use crate::filters::{FilterType, NamePattern};
use crate::sort::SortArgument;
use vstd::prelude::*;

verus! {

#[verifier::external_type_specification]
#[verifier::external_body]
pub struct ExPathBuf(std::path::PathBuf);

/// The options of one invocation, as given on the command line.
#[derive(Debug)]
pub struct Args {
    pub path: std::path::PathBuf,
    pub min: Option<u64>,
    pub max: Option<u64>,
    pub reg: Option<NamePattern>,
    pub no_hidden: bool,
    pub long: bool,
    pub files: bool,
    pub directories: bool,
    pub depth: Option<usize>,
    pub sort: SortArgument,
}

/// Options that cannot be given together.
#[derive(Clone, Copy, Debug, PartialEq, Eq, Structural)]
pub enum ConfigError {
    FilesAndDirectories,
    LongAndDepth,
}

/// The resolved intent of one invocation.
#[derive(Debug)]
pub struct Config {
    pub path: std::path::PathBuf,
    pub filters: Vec<FilterType>,
    pub sort_by: SortArgument,
    pub display: DisplayMode,
}

/// The error for a conflicting pair of options, if any.
pub open spec fn conflict_of(files: bool, directories: bool, long: bool, depth: Option<usize>) -> Option<ConfigError> {
    if files && directories {
        Some(ConfigError::FilesAndDirectories)
    } else if long && depth is Some {
        Some(ConfigError::LongAndDepth)
    } else {
        None
    }
}

/// The display mode the options ask for.
pub open spec fn display_of(long: bool, depth: Option<usize>) -> DisplayMode {
    match depth {
        Some(d) => DisplayMode::Tree(d),
        None => if long {
            DisplayMode::Long
        } else {
            DisplayMode::Short
        },
    }
}

/// The size and type filters the options ask for, in chain order (the
/// name pattern, when given, comes last).
pub open spec fn plain_filters(no_hidden: bool, max: Option<u64>, min: Option<u64>, files: bool, directories: bool) -> Seq<FilterType> {
    (if no_hidden { seq![FilterType::NoHidden] } else { seq![] })
    + (match max { Some(m) => seq![FilterType::MaxSize(m)], None => seq![] })
    + (match min { Some(m) => seq![FilterType::MinSize(m)], None => seq![] })
    + (if files { seq![FilterType::IsFile] } else { seq![] })
    + (if directories { seq![FilterType::IsDir] } else { seq![] })
}

impl Config {
    /// Resolves the options into a configuration, rejecting conflicting
    /// pairs (`files` with `directories`, `long` with `depth`).
    pub fn new_from_args(args: Args) -> (r: Result<Config, ConfigError>)
        ensures
            r is Err <==> conflict_of(args.files, args.directories, args.long, args.depth) is Some,
            r matches Err(e) ==> conflict_of(args.files, args.directories, args.long, args.depth) == Some(e),
            r matches Ok(c) ==> {
                &&& c.path == args.path
                &&& c.sort_by == args.sort
                &&& c.display == display_of(args.long, args.depth)
                &&& c.filters@.len() == plain_filters(args.no_hidden, args.max, args.min, args.files, args.directories).len()
                    + (if args.reg is Some { 1int } else { 0 })
                &&& c.filters@.subrange(0, plain_filters(args.no_hidden, args.max, args.min, args.files, args.directories).len() as int)
                    == plain_filters(args.no_hidden, args.max, args.min, args.files, args.directories)
                &&& args.reg is Some ==> c.filters@.last() == FilterType::MatchesRegex(args.reg->0)
            },
    {
        if args.files && args.directories {
            return Err(ConfigError::FilesAndDirectories);
        }
        if args.long && args.depth.is_some() {
            return Err(ConfigError::LongAndDepth);
        }
        let ghost plain = plain_filters(args.no_hidden, args.max, args.min, args.files, args.directories);
        let ghost reg = args.reg;
        let mut filters: Vec<FilterType> = Vec::new();
        if args.no_hidden {
            filters.push(FilterType::NoHidden);
        }
        if let Some(max) = args.max {
            filters.push(FilterType::MaxSize(max));
        }
        if let Some(min) = args.min {
            filters.push(FilterType::MinSize(min));
        }
        if args.files {
            filters.push(FilterType::IsFile);
        }
        if args.directories {
            filters.push(FilterType::IsDir);
        }
        assert(filters@ =~= plain);
        if let Some(regex) = args.reg {
            filters.push(FilterType::MatchesRegex(regex));
            assert(filters@.subrange(0, plain.len() as int) =~= plain);
        } else {
            assert(filters@.subrange(0, plain.len() as int) =~= plain);
        }
        let display = match args.depth {
            Some(depth) => DisplayMode::Tree(depth),
            None => if args.long {
                DisplayMode::Long
            } else {
                DisplayMode::Short
            },
        };
        Ok(Config { path: args.path, filters, sort_by: args.sort, display })
    }
}

} // verus!
