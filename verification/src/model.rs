//! The values the planner works on: image dimensions, candidates, the
//! target mode chosen on the command line, and the planned actions.

use vstd::prelude::*;

use crate::text::{decimal, decimal_string};

verus! {

/// The width of an image in pixels.
#[derive(Debug, Clone, Copy, PartialEq, Eq)]
pub struct Width(pub u32);

/// The height of an image in pixels.
#[derive(Debug, Clone, Copy, PartialEq, Eq)]
pub struct Height(pub u32);

/// The pixel dimensions of an image.
#[derive(Debug, Clone, Copy, PartialEq, Eq)]
pub struct Dimensions {
    pub width: Width,
    pub height: Height,
}

/// `WxH`, the way dimensions are written into file names.
pub open spec fn dims_text(d: Dimensions) -> Seq<char> {
    decimal(d.width.0 as nat) + seq!['x'] + decimal(d.height.0 as nat)
}

impl Dimensions {
    /// Dimensions from a `(width, height)` pair, as an image decoder reports them.
    pub fn from_pair(pair: (u32, u32)) -> (d: Dimensions)
        ensures
            d.width.0 == pair.0,
            d.height.0 == pair.1,
    {
        Dimensions { width: Width(pair.0), height: Height(pair.1) }
    }

    /// Writes the dimensions as `WxH`, for instance `1920x1080`.
    pub fn to_string(&self) -> (s: String)
        ensures
            s@ == dims_text(*self),
    {
        let mut s = decimal_string(self.width.0 as u64);
        proof {
            reveal_strlit("x");
        }
        s.append("x");
        let h = decimal_string(self.height.0 as u64);
        s.append(h.as_str());
        s
    }
}

/// An image file that is to receive a new name: where it is, its stem
/// cleaned of noise, its dimensions and its lower-cased extension.
#[derive(Debug)]
pub struct ImageCandidate {
    pub path: String,
    pub cleaned_name: String,
    pub dims: Dimensions,
    pub extension: String,
}

impl ImageCandidate {
    /// Gathers the parts of a candidate.
    pub fn new(path: String, cleaned_name: String, dims: Dimensions, extension: String) -> (c:
        ImageCandidate)
        ensures
            c.path == path,
            c.cleaned_name == cleaned_name,
            c.dims == dims,
            c.extension == extension,
    {
        ImageCandidate { path, cleaned_name, dims, extension }
    }
}

/// Where renamed files go: they stay in their directory, or are copied or
/// moved into an output directory.
#[derive(Debug)]
pub enum TargetMode {
    InPlace,
    CopyTo(String),
    MoveTo(String),
}

/// The extensions targeted when none are given.
pub const DEFAULT_EXTENSIONS: [&'static str; 10] = [
    "jpg",
    "jpeg",
    "png",
    "webp",
    "gif",
    "bmp",
    "tiff",
    "tif",
    "heic",
    "avif",
];

/// The options of a run, as given on the command line.
#[derive(Debug)]
pub struct Cli {
    /// The directory to scan.
    pub input: String,
    /// The extensions to target.
    pub exts: Vec<String>,
    /// Whether symbolic links are followed while scanning.
    pub follow_links: bool,
    /// Whether the run only shows what it would do.
    pub dry_run: bool,
    /// Whether files are moved, not copied, into the output directory.
    pub move_files: bool,
    /// The output directory, if any.
    pub output: Option<String>,
    /// Whether version information was asked for.
    pub version: bool,
}

/// What a run does first, before it scans.
#[derive(Debug, Clone, Copy, PartialEq, Eq)]
pub enum Startup {
    /// Print the version and stop.
    ShowVersion,
    /// The input directory is empty or missing: report it and stop.
    RejectInput,
    /// Go on and scan.
    Proceed,
}

impl TargetMode {
    /// The mode the options select: no output directory renames in place;
    /// with one, files are moved there when `move_files` is set and copied
    /// otherwise.
    pub fn from_cli(cli: &Cli) -> (m: TargetMode)
        ensures
            match cli.output {
                None => m is InPlace,
                Some(p) => if cli.move_files {
                    m matches TargetMode::MoveTo(q) && q@ == p@
                } else {
                    m matches TargetMode::CopyTo(q) && q@ == p@
                },
            },
    {
        match &cli.output {
            Some(p) => {
                if cli.move_files {
                    TargetMode::MoveTo(p.clone())
                } else {
                    TargetMode::CopyTo(p.clone())
                }
            },
            None => TargetMode::InPlace,
        }
    }
}

impl Cli {
    /// What a run does first: a version request wins; then an input path
    /// that is empty or does not exist is refused.
    pub fn startup(&self, input_exists: bool) -> (s: Startup)
        ensures
            s == (if self.version {
                Startup::ShowVersion
            } else if self.input@.len() == 0 || !input_exists {
                Startup::RejectInput
            } else {
                Startup::Proceed
            }),
    {
        if self.version {
            Startup::ShowVersion
        } else if self.input.as_str().unicode_len() == 0 || !input_exists {
            Startup::RejectInput
        } else {
            Startup::Proceed
        }
    }

    /// Whether the planned actions are carried out: not in a dry run.
    pub fn applies_changes(&self) -> (b: bool)
        ensures
            b == !self.dry_run,
    {
        !self.dry_run
    }
}

/// A move of a file from one path to another.
#[derive(Debug)]
pub struct Relocation {
    pub from: String,
    pub to: String,
}

/// A planned file operation.
#[derive(Debug)]
pub enum Action {
    /// Rename (or move) the file.
    Rename(Relocation),
    /// Copy the file, leaving the source in place.
    Copy(Relocation),
}

/// What an action does, as text.
pub enum ActionView {
    Rename { from: Seq<char>, to: Seq<char> },
    Copy { from: Seq<char>, to: Seq<char> },
}

impl View for Action {
    type V = ActionView;

    open spec fn view(&self) -> ActionView {
        match self {
            Action::Rename(r) => ActionView::Rename { from: r.from@, to: r.to@ },
            Action::Copy(r) => ActionView::Copy { from: r.from@, to: r.to@ },
        }
    }
}

/// How an action is shown: `-> from -> to` for a rename, `*C from -> to`
/// for a copy.
pub open spec fn action_text(a: ActionView) -> Seq<char> {
    match a {
        ActionView::Rename { from, to } => seq!['-', '>', ' '] + from + seq![' ', '-', '>', ' '] + to,
        ActionView::Copy { from, to } => seq!['*', 'C', ' '] + from + seq![' ', '-', '>', ' '] + to,
    }
}

impl Action {
    /// The line that shows the action.
    pub fn to_string(&self) -> (s: String)
        ensures
            s@ == action_text(self@),
    {
        proof {
            reveal_strlit("-> ");
            reveal_strlit("*C ");
            reveal_strlit(" -> ");
        }
        let (mut s, r) = match self {
            Action::Rename(r) => (String::from_str("-> "), r),
            Action::Copy(r) => (String::from_str("*C "), r),
        };
        s.append(r.from.as_str());
        s.append(" -> ");
        s.append(r.to.as_str());
        s
    }
}

} // verus!
