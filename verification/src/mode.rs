//! Run modes: importing from a camera, or viewing a tree in place.

use vstd::prelude::*;

verus! {

/// The two positional directories, as the command line hands them over.
///
/// `input_dir` is the camera source tree; `output_dir` is the
/// destination root.  When no source is given the tool browses the
/// destination tree in place.
pub struct Args {
    pub input_dir: Option<String>,
    pub output_dir: String,
}

/// How this run uses its directories.
pub enum Mode {
    Importing { input_dir: String, output_dir: String },
    Viewing { input_dir: String },
}

/// The mathematical shape of a mode.
pub ghost enum ModeView {
    Importing { input_dir: Seq<char>, output_dir: Seq<char> },
    Viewing { input_dir: Seq<char> },
}

impl View for Mode {
    type V = ModeView;

    open spec fn view(&self) -> ModeView {
        match self {
            Mode::Importing { input_dir, output_dir } => ModeView::Importing {
                input_dir: input_dir@,
                output_dir: output_dir@,
            },
            Mode::Viewing { input_dir } => ModeView::Viewing { input_dir: input_dir@ },
        }
    }
}

impl Mode {
    /// Settles the mode from the arguments: a present source directory
    /// means importing into the destination; otherwise the destination
    /// itself is browsed.
    pub fn from(args: Args) -> (r: Self)
        ensures
            args.input_dir matches Some(d) ==> (r matches Mode::Importing {
                input_dir,
                output_dir,
            } && input_dir@ == d@ && output_dir@ == args.output_dir@),
            args.input_dir is None ==> (r matches Mode::Viewing { input_dir } && input_dir@
                == args.output_dir@),
    {
        match args.input_dir {
            Some(input_dir) => Mode::Importing { input_dir, output_dir: args.output_dir },
            None => Mode::Viewing { input_dir: args.output_dir },
        }
    }

    /// The directory whose tree is scanned for video files.
    pub fn input_dir(&self) -> (r: String)
        ensures
            r@ == self.spec_input_dir(),
    {
        match self {
            Mode::Importing { input_dir, .. } => input_dir.clone(),
            Mode::Viewing { input_dir } => input_dir.clone(),
        }
    }

    /// The destination root, present only when importing.
    pub fn output_dir(&self) -> (r: Option<String>)
        ensures
            match self {
                Mode::Importing { output_dir, .. } => r matches Some(d) && d@ == output_dir@,
                Mode::Viewing { .. } => r is None,
            },
    {
        match self {
            Mode::Importing { output_dir, .. } => Some(output_dir.clone()),
            Mode::Viewing { .. } => None,
        }
    }

    pub open spec fn spec_input_dir(&self) -> Seq<char> {
        match self {
            Mode::Importing { input_dir, .. } => input_dir@,
            Mode::Viewing { input_dir } => input_dir@,
        }
    }

    pub open spec fn is_importing(&self) -> bool {
        self is Importing
    }
}

} // verus!
