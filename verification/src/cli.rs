//! The command line.
//!
//! Every flag here overrides the same-named key in the config file, and
//! nothing here reads a file or an environment variable: parsing produces a
//! bag of `Option`s and stops. Resolution happens once, in [`crate::config`],
//! and everything downstream is handed a plain struct with no questions left
//! in it.

use vstd::prelude::*;

use crate::paths::FilePath;
use crate::text::Align;

verus! {

/// The flags, as given.
#[derive(PartialEq, Eq, Debug)]
pub struct Cli {
    /// Config file to read.
    pub config: Option<FilePath>,
    /// Ignore the config directory entirely, the config file and the default
    /// quote list both.
    pub no_config: bool,
    /// What to animate: a rotating quote, or one fixed block of text.
    pub source: Option<String>,
    /// Quote list: one per line, "text <separator> author".
    pub quotes: Option<FilePath>,
    /// What splits a quote from its attribution.
    pub separator: Option<String>,
    /// What the attribution line opens with once it has its own line.
    pub attribution_prefix: Option<String>,
    /// A block of text to animate, given inline.
    pub text: Option<String>,
    /// A block of text to animate, read from a file.
    pub text_file: Option<FilePath>,
    /// How wrapped lines sit against each other.
    pub align: Option<Align>,
    /// Wrap measure, in columns.
    pub wrap: Option<usize>,
    /// How long a finished frame stays readable before the next cycle, in ms.
    pub hold: Option<u64>,
    /// Fade-in duration, in ms.
    pub fade_in: Option<u64>,
    /// Fade-out duration, in ms.
    pub fade_out: Option<u64>,
    /// Animation frames per second.
    pub frame_rate: Option<u32>,
    /// Pin one effect for every cycle.
    pub effect: Option<String>,
    /// Draw each cycle's effect only from these.
    pub include_effects: Vec<String>,
    /// Draw each cycle's effect from everything except these.
    pub exclude_effects: Vec<String>,
    /// Print every available effect and exit.
    pub list_effects: bool,
    /// A TrueType or OpenType font to render with.
    pub font: Option<FilePath>,
    /// Surface background colour, as #rrggbb.
    pub background: Option<String>,
    /// Colour for text the effect leaves unstyled, as #rrggbb.
    pub foreground: Option<String>,
    /// Seed the animation, so a run replays exactly.
    pub seed: Option<u64>,
    /// Render without a compositor, for testing layout and content.
    pub headless: bool,
    /// Headless: how many frames to render.
    pub frames: Option<u64>,
    /// Headless: grid width in cells.
    pub cols: Option<usize>,
    /// Headless: grid height in cells.
    pub rows: Option<usize>,
    /// Headless: print the cell grid of the last frame as well as the summary.
    pub dump_grid: bool,
}

/// The flags of a command line that gives none.
pub open spec fn no_flags(cli: Cli) -> bool {
    &&& cli.config is None
    &&& !cli.no_config
    &&& cli.source is None
    &&& cli.quotes is None
    &&& cli.separator is None
    &&& cli.attribution_prefix is None
    &&& cli.text is None
    &&& cli.text_file is None
    &&& cli.align is None
    &&& cli.wrap is None
    &&& cli.hold is None
    &&& cli.fade_in is None
    &&& cli.fade_out is None
    &&& cli.frame_rate is None
    &&& cli.effect is None
    &&& cli.include_effects@.len() == 0
    &&& cli.exclude_effects@.len() == 0
    &&& !cli.list_effects
    &&& cli.font is None
    &&& cli.background is None
    &&& cli.foreground is None
    &&& cli.seed is None
    &&& !cli.headless
    &&& cli.frames is None
    &&& cli.cols is None
    &&& cli.rows is None
    &&& !cli.dump_grid
}

impl Default for Cli {
    fn default() -> (r: Cli)
        ensures
            no_flags(r),
    {
        Cli {
            config: None,
            no_config: false,
            source: None,
            quotes: None,
            separator: None,
            attribution_prefix: None,
            text: None,
            text_file: None,
            align: None,
            wrap: None,
            hold: None,
            fade_in: None,
            fade_out: None,
            frame_rate: None,
            effect: None,
            include_effects: Vec::new(),
            exclude_effects: Vec::new(),
            list_effects: false,
            font: None,
            background: None,
            foreground: None,
            seed: None,
            headless: false,
            frames: None,
            cols: None,
            rows: None,
            dump_grid: false,
        }
    }
}

/// The grid and the number of frames of a headless run.
#[derive(Clone, Copy, PartialEq, Eq, Structural, Debug)]
pub struct HeadlessSize {
    pub cols: usize,
    pub rows: usize,
    pub frames: u64,
}

pub const HEADLESS_COLS: usize = 96;

pub const HEADLESS_ROWS: usize = 28;

pub const HEADLESS_FRAMES: u64 = 120;

/// A size in cells: the default where none is given, and at least one.
pub open spec fn cells_or(given: Option<usize>, fallback: usize) -> usize {
    match given {
        Some(n) => if n == 0 {
            1
        } else {
            n
        },
        None => fallback,
    }
}

impl Cli {
    /// The size of a headless run.
    pub fn headless_size(&self) -> (r: HeadlessSize)
        ensures
            r.cols == cells_or(self.cols, HEADLESS_COLS),
            r.rows == cells_or(self.rows, HEADLESS_ROWS),
            r.frames == (match self.frames {
                Some(n) => n,
                None => HEADLESS_FRAMES,
            }),
            r.cols >= 1,
            r.rows >= 1,
    {
        let cols: usize = match self.cols {
            Some(n) => n,
            None => HEADLESS_COLS,
        };
        let rows: usize = match self.rows {
            Some(n) => n,
            None => HEADLESS_ROWS,
        };
        let frames: u64 = match self.frames {
            Some(n) => n,
            None => HEADLESS_FRAMES,
        };
        HeadlessSize {
            cols: if cols == 0 {
                1
            } else {
                cols
            },
            rows: if rows == 0 {
                1
            } else {
                rows
            },
            frames,
        }
    }
}

/// A headless run has 96 columns, 28 rows and 120 frames unless told
/// otherwise, and what it is told counts, but that a grid has a cell.
pub proof fn a_headless_run_is_as_large_as_it_is_told(n: usize)
    ensures
        n > 0 ==> cells_or(Some(n), HEADLESS_COLS) == n && cells_or(Some(n), HEADLESS_ROWS) == n,
        cells_or(Some(0), HEADLESS_COLS) == 1,
        cells_or(Some(0), HEADLESS_ROWS) == 1,
        cells_or(None, HEADLESS_COLS) == 96,
        cells_or(None, HEADLESS_ROWS) == 28,
        HEADLESS_FRAMES == 120,
{
}

} // verus!
