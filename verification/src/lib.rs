//! nirisaver: a Wayland screensaver for niri.
//!
//! The library holds everything that can be decided without a compositor, a
//! file system, a font engine or an animation engine, and every function of
//! it is proved against its contract:
//!
//!   * [`config`] folds the command line ([`cli`]) over the config file into
//!     one plain struct;
//!   * [`text`] sets quotes and text blocks on the page;
//!   * [`vt`] turns an engine frame into a [`grid::Grid`] of cells;
//!   * [`engine`] schedules the animation, [`headless`] measures a run of it;
//!   * [`raster`] paints cells, [`render`] turns a new grid into pixels and a
//!     damage report, and [`damage`] holds the shapes that report is made of;
//!   * [`overlay`] decides when surfaces draw, wake up and go away;
//!   * [`chars`] and [`paths`] hold what the others need of strings and of file
//!     names.

pub mod chars;
pub mod cli;
pub mod config;
pub mod damage;
pub mod engine;
pub mod grid;
pub mod headless;
pub mod overlay;
pub mod paths;
pub mod raster;
pub mod render;
pub mod text;
pub mod vt;
