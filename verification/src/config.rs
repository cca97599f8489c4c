//! Configuration, resolved exactly once.
//!
//! Resolution is a pure function of its arguments: the flags, the pieces of
//! the environment that matter, and what the files it asks for turned out to
//! hold. Everything downstream is handed a [`Settings`] and has no way to ask
//! a question the machine could answer differently tomorrow.
//!
//! That is a deliberate constraint, not tidiness. A constructor that reaches
//! for the environment on its way to a default makes `Default` mean something
//! different on every machine, and the first thing that quietly stops meaning
//! anything is the benchmark, which is supposed to render the same frames for
//! everyone. [`Settings::builtin`] exists for exactly that reason: a complete,
//! useful configuration that touches nothing.
//!
//! The caller asks [`config_source`] which config file to read, hands the
//! outcome to [`load_file_config`], reads the files that [`font_path`] and
//! [`content_path`] name, and hands all of it to [`resolve`].

use vstd::prelude::*;
use vstd::utf8::encode_utf8;

use crate::chars;
use crate::chars::strings;
use crate::cli::{no_flags, Cli};
use crate::engine::{
    a_pool_holds_what_is_drawn_from_and_not_left_out, copy_names, effect_message,
    excluding_nothing_leaves_everything, lemma_all_known, pool_of, resolve_effects, without,
    Animation, EffectChoice, EffectError, EffectFault, EffectOption,
};
use crate::grid::Rgb;
use crate::paths::{inside, lossy, FilePath};
use crate::text;
use crate::text::{
    parse_quotes, quoted, quotes_on, Align, Content, ContentView, Measure, MeasureView,
};

verus! {

pub const DEFAULT_SEPARATOR: &'static str = " \u{2014} ";

pub const DEFAULT_ATTRIBUTION_PREFIX: &'static str = "\u{2014} ";

pub const DEFAULT_WRAP: usize = 64;

pub const DEFAULT_HOLD_MS: u64 = 14_000;

pub const DEFAULT_FADE_IN_MS: u64 = 700;

pub const DEFAULT_FADE_OUT_MS: u64 = 250;

pub const DEFAULT_FRAME_RATE: u32 = 30;

/// The most frames per second.
pub const MAX_FRAME_RATE: u32 = 240;

pub const DEFAULT_BACKGROUND: Rgb = [0, 0, 0];

pub const DEFAULT_FOREGROUND: Rgb = [235, 235, 235];

/// What a run with no quote list and no text of its own animates.
pub const BUILTIN_TEXT: &'static str = "nirisaver";

/// The pieces of the environment this program cares about, captured once.
#[derive(PartialEq, Eq, Debug)]
pub struct Env {
    pub config_home: Option<FilePath>,
    pub home: Option<FilePath>,
    pub runtime_dir: Option<FilePath>,
}

impl Clone for Env {
    fn clone(&self) -> (r: Env)
        ensures
            path_of(r.config_home) == path_of(self.config_home),
            path_of(r.home) == path_of(self.home),
            path_of(r.runtime_dir) == path_of(self.runtime_dir),
    {
        Env {
            config_home: copy_path(&self.config_home),
            home: copy_path(&self.home),
            runtime_dir: copy_path(&self.runtime_dir),
        }
    }
}

impl Default for Env {
    fn default() -> (r: Env)
        ensures
            r.config_home is None,
            r.home is None,
            r.runtime_dir is None,
    {
        Env { config_home: None, home: None, runtime_dir: None }
    }
}

/// The bytes of a path, if there is one.
pub open spec fn path_of(path: Option<FilePath>) -> Option<Seq<u8>> {
    match path {
        Some(p) => Some(p@),
        None => None,
    }
}

fn copy_path(path: &Option<FilePath>) -> (r: Option<FilePath>)
    ensures
        path_of(r) == path_of(*path),
{
    match path {
        Some(p) => Some(p.clone()),
        None => None,
    }
}

/// A variable's path, if it is set to one: an empty one counts as unset.
pub open spec fn path_set(var: Option<FilePath>) -> Option<Seq<u8>> {
    match var {
        Some(p) => if p@.len() == 0 {
            None
        } else {
            Some(p@)
        },
        None => None,
    }
}

fn set_path(var: Option<FilePath>) -> (r: Option<FilePath>)
    ensures
        path_of(r) == path_set(var),
{
    match var {
        Some(p) => if p.bytes.len() == 0 {
            None
        } else {
            Some(p)
        },
        None => None,
    }
}

/// The characters of a text, if there is one.
pub open spec fn text_of(s: Option<String>) -> Option<Seq<char>> {
    match s {
        Some(s) => Some(s@),
        None => None,
    }
}

/// The first of two that is there.
pub open spec fn either<T>(first: Option<T>, second: Option<T>) -> Option<T> {
    match first {
        Some(v) => Some(v),
        None => second,
    }
}

/// What is there, or a default.
pub open spec fn given<T>(value: Option<T>, fallback: T) -> T {
    match value {
        Some(v) => v,
        None => fallback,
    }
}

/// The directory a program's configuration lives in.
pub open spec fn config_home(env: Env) -> Option<Seq<u8>> {
    match (path_of(env.config_home), path_of(env.home)) {
        (Some(base), _) => Some(inside(base, encode_utf8("nirisaver"@))),
        (None, Some(home)) => Some(
            inside(inside(home, encode_utf8(".config"@)), encode_utf8("nirisaver"@)),
        ),
        (None, None) => None,
    }
}

impl Env {
    /// The environment that the variables `XDG_CONFIG_HOME`, `HOME` and
    /// `XDG_RUNTIME_DIR` describe. An empty variable counts as unset.
    pub fn from_vars(
        config_home: Option<FilePath>,
        home: Option<FilePath>,
        runtime_dir: Option<FilePath>,
    ) -> (r: Env)
        ensures
            path_of(r.config_home) == path_set(config_home),
            path_of(r.home) == path_set(home),
            path_of(r.runtime_dir) == path_set(runtime_dir),
    {
        Env {
            config_home: set_path(config_home),
            home: set_path(home),
            runtime_dir: set_path(runtime_dir),
        }
    }

    /// `~/.config/nirisaver`, honouring `XDG_CONFIG_HOME`.
    pub fn config_dir(&self) -> (r: Option<FilePath>)
        ensures
            path_of(r) == config_home(*self),
    {
        match &self.config_home {
            Some(base) => Some(base.join("nirisaver")),
            None => match &self.home {
                Some(home) => Some(home.join(".config").join("nirisaver")),
                None => None,
            },
        }
    }
}

/// The config file, as written. Every key optional.
#[derive(PartialEq, Eq, Debug)]
pub struct FileConfig {
    pub source: Option<String>,
    pub quotes: Option<FilePath>,
    pub separator: Option<String>,
    pub attribution_prefix: Option<String>,
    pub text: Option<String>,
    pub text_file: Option<FilePath>,
    pub align: Option<Align>,
    pub wrap: Option<usize>,
    pub hold: Option<u64>,
    pub fade_in: Option<u64>,
    pub fade_out: Option<u64>,
    pub frame_rate: Option<u32>,
    pub effect: Option<String>,
    pub include_effects: Option<Vec<String>>,
    pub exclude_effects: Option<Vec<String>>,
    pub font: Option<FilePath>,
    pub background: Option<String>,
    pub foreground: Option<String>,
    pub seed: Option<u64>,
}

/// Whether a config file sets nothing.
pub open spec fn no_keys(file: FileConfig) -> bool {
    &&& file.source is None
    &&& file.quotes is None
    &&& file.separator is None
    &&& file.attribution_prefix is None
    &&& file.text is None
    &&& file.text_file is None
    &&& file.align is None
    &&& file.wrap is None
    &&& file.hold is None
    &&& file.fade_in is None
    &&& file.fade_out is None
    &&& file.frame_rate is None
    &&& file.effect is None
    &&& file.include_effects is None
    &&& file.exclude_effects is None
    &&& file.font is None
    &&& file.background is None
    &&& file.foreground is None
    &&& file.seed is None
}

impl Default for FileConfig {
    fn default() -> (r: FileConfig)
        ensures
            no_keys(r),
    {
        FileConfig {
            source: None,
            quotes: None,
            separator: None,
            attribution_prefix: None,
            text: None,
            text_file: None,
            align: None,
            wrap: None,
            hold: None,
            fade_in: None,
            fade_out: None,
            frame_rate: None,
            effect: None,
            include_effects: None,
            exclude_effects: None,
            font: None,
            background: None,
            foreground: None,
            seed: None,
        }
    }
}

/// Why a file could not be read.
#[derive(PartialEq, Eq, Debug)]
pub struct ReadFailure {
    /// Whether there is no such file.
    pub missing: bool,
    /// The reason in words.
    pub cause: String,
}

/// Why a configuration cannot be used.
#[derive(PartialEq, Eq, Debug)]
pub enum ConfigError {
    ReadingConfig { path: FilePath, cause: String },
    ParsingConfig { path: FilePath, cause: String },
    Background { hex: String },
    Foreground { hex: String },
    Effects(EffectError),
    ReadingFont { path: FilePath, cause: String },
    ReadingText { path: FilePath, cause: String },
    NoText,
    ReadingQuotes { path: FilePath, cause: String },
    NoQuotes { path: FilePath },
    UnknownSource { source: String },
}

/// What a [`ConfigError`] says.
pub enum ConfigFault {
    ReadingConfig { path: Seq<u8>, cause: Seq<char> },
    ParsingConfig { path: Seq<u8>, cause: Seq<char> },
    Background { hex: Seq<char> },
    Foreground { hex: Seq<char> },
    Effects(EffectFault),
    ReadingFont { path: Seq<u8>, cause: Seq<char> },
    ReadingText { path: Seq<u8>, cause: Seq<char> },
    NoText,
    ReadingQuotes { path: Seq<u8>, cause: Seq<char> },
    NoQuotes { path: Seq<u8> },
    UnknownSource { source: Seq<char> },
}

impl View for ConfigError {
    type V = ConfigFault;

    open spec fn view(&self) -> ConfigFault {
        match self {
            ConfigError::ReadingConfig { path, cause } => ConfigFault::ReadingConfig {
                path: path@,
                cause: cause@,
            },
            ConfigError::ParsingConfig { path, cause } => ConfigFault::ParsingConfig {
                path: path@,
                cause: cause@,
            },
            ConfigError::Background { hex } => ConfigFault::Background { hex: hex@ },
            ConfigError::Foreground { hex } => ConfigFault::Foreground { hex: hex@ },
            ConfigError::Effects(e) => ConfigFault::Effects(e@),
            ConfigError::ReadingFont { path, cause } => ConfigFault::ReadingFont {
                path: path@,
                cause: cause@,
            },
            ConfigError::ReadingText { path, cause } => ConfigFault::ReadingText {
                path: path@,
                cause: cause@,
            },
            ConfigError::NoText => ConfigFault::NoText,
            ConfigError::ReadingQuotes { path, cause } => ConfigFault::ReadingQuotes {
                path: path@,
                cause: cause@,
            },
            ConfigError::NoQuotes { path } => ConfigFault::NoQuotes { path: path@ },
            ConfigError::UnknownSource { source } => ConfigFault::UnknownSource {
                source: source@,
            },
        }
    }
}

/// What is said of a file that something failed on, and why it failed.
pub open spec fn file_message(doing: Seq<char>, path: Seq<u8>, cause: Seq<char>) -> Seq<char> {
    doing + lossy(path) + ": "@ + cause
}

/// What is said of a text that is no colour.
pub open spec fn color_message(hex: Seq<char>) -> Seq<char> {
    quoted(hex) + " is not a #rrggbb colour"@
}

/// What is said of a configuration that cannot be used.
pub open spec fn config_message(fault: ConfigFault) -> Seq<char> {
    match fault {
        ConfigFault::ReadingConfig { path, cause } => file_message(
            "reading config "@,
            path,
            cause,
        ),
        ConfigFault::ParsingConfig { path, cause } => file_message(
            "parsing config "@,
            path,
            cause,
        ),
        ConfigFault::Background { hex } => "background: "@ + color_message(hex),
        ConfigFault::Foreground { hex } => "foreground: "@ + color_message(hex),
        ConfigFault::Effects(fault) => effect_message(fault),
        ConfigFault::ReadingFont { path, cause } => file_message("reading font "@, path, cause),
        ConfigFault::ReadingText { path, cause } => file_message(
            "reading text file "@,
            path,
            cause,
        ),
        ConfigFault::NoText =>
            "source is \"text\" but neither --text nor --text-file was given"@,
        ConfigFault::ReadingQuotes { path, cause } => file_message(
            "reading quotes "@,
            path,
            cause,
        ),
        ConfigFault::NoQuotes { path } => lossy(path) + " contains no quotes"@,
        ConfigFault::UnknownSource { source } => "unknown source "@ + quoted(source)
            + " (expected \"quotes\" or \"text\")"@,
    }
}

fn file_error(doing: &str, path: &FilePath, cause: &str) -> (r: String)
    ensures
        r@ == file_message(doing@, path@, cause@),
{
    let mut out = doing.to_owned();
    let shown = path.display();
    chars::push_text(&mut out, shown.as_str());
    chars::push_text(&mut out, ": ");
    chars::push_text(&mut out, cause);
    out
}

fn color_error(prefix: &str, hex: &str) -> (r: String)
    ensures
        r@ == prefix@ + color_message(hex@),
{
    let mut out = prefix.to_owned();
    let shown = text::debug_text(hex);
    chars::push_text(&mut out, shown.as_str());
    chars::push_text(&mut out, " is not a #rrggbb colour");
    proof {
        assert(out@ =~= prefix@ + color_message(hex@));
    }
    out
}

impl ConfigError {
    /// The error in words.
    pub fn message(&self) -> (r: String)
        ensures
            r@ == config_message(self@),
    {
        match self {
            ConfigError::ReadingConfig { path, cause } => file_error(
                "reading config ",
                path,
                cause.as_str(),
            ),
            ConfigError::ParsingConfig { path, cause } => file_error(
                "parsing config ",
                path,
                cause.as_str(),
            ),
            ConfigError::Background { hex } => color_error("background: ", hex.as_str()),
            ConfigError::Foreground { hex } => color_error("foreground: ", hex.as_str()),
            ConfigError::Effects(e) => e.message(),
            ConfigError::ReadingFont { path, cause } => file_error(
                "reading font ",
                path,
                cause.as_str(),
            ),
            ConfigError::ReadingText { path, cause } => file_error(
                "reading text file ",
                path,
                cause.as_str(),
            ),
            ConfigError::NoText => {
                "source is \"text\" but neither --text nor --text-file was given".to_owned()
            },
            ConfigError::ReadingQuotes { path, cause } => file_error(
                "reading quotes ",
                path,
                cause.as_str(),
            ),
            ConfigError::NoQuotes { path } => {
                let mut out = path.display();
                chars::push_text(&mut out, " contains no quotes");
                out
            },
            ConfigError::UnknownSource { source } => {
                let mut out = "unknown source ".to_owned();
                let shown = text::debug_text(source.as_str());
                chars::push_text(&mut out, shown.as_str());
                chars::push_text(&mut out, " (expected \"quotes\" or \"text\")");
                out
            },
        }
    }
}

/// The value of a hexadecimal digit, in either case.
pub open spec fn hex_value(c: char) -> Option<int> {
    if '0' <= c <= '9' {
        Some(c as int - '0' as int)
    } else if 'a' <= c <= 'f' {
        Some(c as int - 'a' as int + 10)
    } else if 'A' <= c <= 'F' {
        Some(c as int - 'A' as int + 10)
    } else {
        None
    }
}

/// One channel of a colour: two hexadecimal digits.
pub open spec fn hex_channel(digits: Seq<char>, i: int) -> u8 {
    (hex_value(digits[i])->0 * 16 + hex_value(digits[i + 1])->0) as u8
}

/// Whether a text is six hexadecimal digits.
pub open spec fn six_digits(digits: Seq<char>) -> bool {
    digits.len() == 6 && forall|i: int| 0 <= i < 6 ==> hex_value(#[trigger] digits[i]) is Some
}

/// A text without the hash in front of it.
pub open spec fn without_hash(s: Seq<char>) -> Seq<char> {
    if s.len() > 0 && s[0] == '#' {
        s.skip(1)
    } else {
        s
    }
}

/// The colour that a text spells: six hexadecimal digits, with or without a
/// hash in front.
pub open spec fn hex_color(s: Seq<char>) -> Option<Rgb> {
    let digits = without_hash(s);
    if six_digits(digits) {
        Some([hex_channel(digits, 0), hex_channel(digits, 2), hex_channel(digits, 4)])
    } else {
        None
    }
}

fn hex_digit(c: char) -> (r: Option<u8>)
    ensures
        match r {
            Some(v) => hex_value(c) == Some(v as int) && v < 16,
            None => hex_value(c) is None,
        },
{
    if '0' <= c && c <= '9' {
        Some((c as u32 - '0' as u32) as u8)
    } else if 'a' <= c && c <= 'f' {
        Some((c as u32 - 'a' as u32 + 10) as u8)
    } else if 'A' <= c && c <= 'F' {
        Some((c as u32 - 'A' as u32 + 10) as u8)
    } else {
        None
    }
}

/// The colour that a text spells as `#rrggbb`.
pub fn parse_hex(hex: &str) -> (r: Result<Rgb, String>)
    ensures
        match r {
            Ok(color) => hex_color(hex@) == Some(color),
            Err(e) => hex_color(hex@) is None && e@ == color_message(hex@),
        },
{
    let s = chars::to_chars(hex);
    let start: usize = if s.len() > 0 && s[0] == '#' {
        1
    } else {
        0
    };
    let ghost digits = s@.skip(start as int);
    proof {
        assert(s@.skip(0) =~= s@);
        assert(Seq::<char>::empty() + color_message(hex@) =~= color_message(hex@));
        reveal_strlit("");
        assert(""@ =~= Seq::<char>::empty());
    }
    if s.len() - start != 6 {
        return Err(color_error("", hex));
    }
    let mut values: [u8; 6] = [0, 0, 0, 0, 0, 0];
    let mut i: usize = 0;
    while i < 6
        invariant
            i <= 6,
            start <= 1,
            s@ == hex@,
            s@.len() == start + 6,
            digits == s@.skip(start as int),
            digits == without_hash(hex@),
            Seq::<char>::empty() + color_message(hex@) == color_message(hex@),
            ""@ == Seq::<char>::empty(),
            forall|k: int|
                0 <= k < i ==> hex_value(#[trigger] digits[k]) == Some(values@[k] as int)
                    && values@[k] < 16,
        decreases 6 - i,
    {
        proof {
            assert(digits[i as int] == s@[start + i]);
        }
        match hex_digit(s[start + i]) {
            Some(v) => {
                values[i] = v;
            },
            None => {
                return Err(color_error("", hex));
            },
        }
        i += 1;
    }
    proof {
        assert(hex_value(digits[0]) is Some && hex_value(digits[1]) is Some && hex_value(digits[2])
            is Some && hex_value(digits[3]) is Some && hex_value(digits[4]) is Some && hex_value(
            digits[5],
        ) is Some);
    }
    let color: Rgb = [
        values[0] * 16 + values[1],
        values[2] * 16 + values[3],
        values[4] * 16 + values[5],
    ];
    Ok(color)
}

/// Which config file there is to read.
#[derive(PartialEq, Eq, Debug)]
pub enum ConfigSource {
    Nothing,
    /// A file someone named is a file they expect to be read, so a missing one
    /// is an error.
    Named(FilePath),
    /// The default is a convention, and not having adopted it is not a
    /// mistake.
    Default(FilePath),
}

/// What a [`ConfigSource`] says.
pub enum ConfigPlace {
    Nothing,
    Named(Seq<u8>),
    Default(Seq<u8>),
}

impl View for ConfigSource {
    type V = ConfigPlace;

    open spec fn view(&self) -> ConfigPlace {
        match self {
            ConfigSource::Nothing => ConfigPlace::Nothing,
            ConfigSource::Named(path) => ConfigPlace::Named(path@),
            ConfigSource::Default(path) => ConfigPlace::Default(path@),
        }
    }
}

/// The config directory that flags and environment leave in play.
///
/// `--no-config` means the whole config directory, not just the config file.
/// The quote list is configuration too, and a run that still picked it up
/// would not be reproducible, which is the only reason to pass the flag.
pub open spec fn dir_in_play(cli: Cli, env: Env) -> Option<Seq<u8>> {
    if cli.no_config {
        None
    } else {
        config_home(env)
    }
}

/// The config file that flags and environment point to.
pub open spec fn config_place(cli: Cli, env: Env) -> ConfigPlace {
    if cli.no_config {
        ConfigPlace::Nothing
    } else {
        match path_of(cli.config) {
            Some(path) => ConfigPlace::Named(path),
            None => match config_home(env) {
                Some(dir) => ConfigPlace::Default(inside(dir, encode_utf8("config.toml"@))),
                None => ConfigPlace::Nothing,
            },
        }
    }
}

/// The config directory that flags and environment leave in play.
pub fn config_dir_in_play(cli: &Cli, env: &Env) -> (r: Option<FilePath>)
    ensures
        path_of(r) == dir_in_play(*cli, *env),
{
    if cli.no_config {
        None
    } else {
        env.config_dir()
    }
}

/// The config file that flags and environment point to.
pub fn config_source(cli: &Cli, env: &Env) -> (r: ConfigSource)
    ensures
        r@ == config_place(*cli, *env),
{
    if cli.no_config {
        return ConfigSource::Nothing;
    }
    match &cli.config {
        Some(path) => ConfigSource::Named(path.clone()),
        None => match env.config_dir() {
            Some(dir) => ConfigSource::Default(dir.join("config.toml")),
            None => ConfigSource::Nothing,
        },
    }
}

/// What came of reading a config file.
#[derive(PartialEq, Eq, Debug)]
pub enum ConfigOutcome {
    Parsed(FileConfig),
    /// It was read, but is no config file; the reason in words.
    Malformed(String),
    Failed(ReadFailure),
}

/// The config file to go by, from what came of reading it.
pub fn load_file_config(source: &ConfigSource, outcome: Option<ConfigOutcome>) -> (r: Result<
    FileConfig,
    ConfigError,
>)
    requires
        source is Nothing || outcome is Some,
    ensures
        match source@ {
            ConfigPlace::Nothing => r is Ok && no_keys(r->Ok_0),
            ConfigPlace::Named(path) => match outcome->0 {
                ConfigOutcome::Parsed(file) => r is Ok && r->Ok_0 == file,
                ConfigOutcome::Malformed(cause) => r is Err && r->Err_0@ == (
                ConfigFault::ParsingConfig { path, cause: cause@ }),
                ConfigOutcome::Failed(failure) => r is Err && r->Err_0@ == (
                ConfigFault::ReadingConfig { path, cause: failure.cause@ }),
            },
            ConfigPlace::Default(path) => match outcome->0 {
                ConfigOutcome::Parsed(file) => r is Ok && r->Ok_0 == file,
                ConfigOutcome::Malformed(cause) => r is Err && r->Err_0@ == (
                ConfigFault::ParsingConfig { path, cause: cause@ }),
                ConfigOutcome::Failed(failure) => if failure.missing {
                    r is Ok && no_keys(r->Ok_0)
                } else {
                    r is Err && r->Err_0@ == (ConfigFault::ReadingConfig {
                        path,
                        cause: failure.cause@,
                    })
                },
            },
        },
{
    let (path, required) = match source {
        ConfigSource::Nothing => {
            return Ok(FileConfig::default());
        },
        ConfigSource::Named(path) => (path, true),
        ConfigSource::Default(path) => (path, false),
    };
    match outcome {
        Some(ConfigOutcome::Parsed(file)) => Ok(file),
        Some(ConfigOutcome::Malformed(cause)) => {
            Err(ConfigError::ParsingConfig { path: path.clone(), cause })
        },
        Some(ConfigOutcome::Failed(failure)) => {
            if failure.missing && !required {
                Ok(FileConfig::default())
            } else {
                Err(ConfigError::ReadingConfig { path: path.clone(), cause: failure.cause })
            }
        },
        None => Ok(FileConfig::default()),
    }
}

/// The first of two texts that is there.
fn pick_text(first: &Option<String>, second: &Option<String>) -> (r: Option<String>)
    ensures
        text_of(r) == either(text_of(*first), text_of(*second)),
{
    match first {
        Some(s) => Some(s.clone()),
        None => match second {
            Some(s) => Some(s.clone()),
            None => None,
        },
    }
}

/// The first of two paths that is there.
fn pick_path(first: &Option<FilePath>, second: &Option<FilePath>) -> (r: Option<FilePath>)
    ensures
        path_of(r) == either(path_of(*first), path_of(*second)),
{
    match first {
        Some(p) => Some(p.clone()),
        None => match second {
            Some(p) => Some(p.clone()),
            None => None,
        },
    }
}

/// The names from the flags or, where those give none, from the file.
pub open spec fn names_of(cli: Seq<String>, file: Option<Vec<String>>) -> Seq<Seq<char>> {
    if cli.len() == 0 {
        match file {
            Some(names) => strings(names@),
            None => Seq::empty(),
        }
    } else {
        strings(cli)
    }
}

fn pick_list(cli: &Vec<String>, file: &Option<Vec<String>>) -> (r: Vec<String>)
    ensures
        strings(r@) == names_of(cli@, *file),
{
    if cli.len() == 0 {
        match file {
            Some(names) => copy_names(names),
            None => {
                let none: Vec<String> = Vec::new();
                proof {
                    assert(strings(none@) =~= Seq::<Seq<char>>::empty());
                }
                none
            },
        }
    } else {
        copy_names(cli)
    }
}

/// Where the text to animate is to come from.
#[derive(PartialEq, Eq, Debug)]
pub enum ContentPlan {
    /// A text given inline.
    Text(String),
    /// A text in a file.
    TextFile(FilePath),
    /// A text, but none was given.
    NoText,
    /// A quote list someone named.
    Quotes(FilePath),
    /// The quote list in the config directory. No list was named, so the
    /// default path is a suggestion: dropping a file there turns quotes on
    /// with no flags at all, and not having one is not an error.
    DefaultQuotes(Option<FilePath>),
    /// A source there is none of.
    Unknown(String),
}

/// What a [`ContentPlan`] says.
pub enum ContentOrigin {
    Text(Seq<char>),
    TextFile(Seq<u8>),
    NoText,
    Quotes(Seq<u8>),
    DefaultQuotes(Option<Seq<u8>>),
    Unknown(Seq<char>),
}

impl View for ContentPlan {
    type V = ContentOrigin;

    open spec fn view(&self) -> ContentOrigin {
        match self {
            ContentPlan::Text(text) => ContentOrigin::Text(text@),
            ContentPlan::TextFile(path) => ContentOrigin::TextFile(path@),
            ContentPlan::NoText => ContentOrigin::NoText,
            ContentPlan::Quotes(path) => ContentOrigin::Quotes(path@),
            ContentPlan::DefaultQuotes(path) => ContentOrigin::DefaultQuotes(path_of(*path)),
            ContentPlan::Unknown(source) => ContentOrigin::Unknown(source@),
        }
    }
}

/// The source of the text to animate. Naming a text and then not saying which
/// source is not ambiguous, so it need not be said twice.
pub open spec fn source_name(cli: Cli, file: FileConfig) -> Seq<char> {
    match either(text_of(cli.source), text_of(file.source)) {
        Some(source) => source,
        None => if either(text_of(cli.text), text_of(file.text)) is Some || either(
            path_of(cli.text_file),
            path_of(file.text_file),
        ) is Some {
            "text"@
        } else {
            "quotes"@
        },
    }
}

/// Where the text to animate is to come from.
pub open spec fn content_origin(cli: Cli, file: FileConfig, dir: Option<Seq<u8>>) -> ContentOrigin {
    let source = source_name(cli, file);
    if source == "text"@ {
        match either(text_of(cli.text), text_of(file.text)) {
            Some(text) => ContentOrigin::Text(text),
            None => match either(path_of(cli.text_file), path_of(file.text_file)) {
                Some(path) => ContentOrigin::TextFile(path),
                None => ContentOrigin::NoText,
            },
        }
    } else if source == "quotes"@ {
        match either(path_of(cli.quotes), path_of(file.quotes)) {
            Some(path) => ContentOrigin::Quotes(path),
            None => ContentOrigin::DefaultQuotes(
                match dir {
                    Some(dir) => Some(inside(dir, encode_utf8("quotes.txt"@))),
                    None => None,
                },
            ),
        }
    } else {
        ContentOrigin::Unknown(source)
    }
}

/// Where the text to animate is to come from.
pub fn plan_content(cli: &Cli, file: &FileConfig, dir: &Option<FilePath>) -> (r: ContentPlan)
    ensures
        r@ == content_origin(*cli, *file, path_of(*dir)),
{
    let inline = pick_text(&cli.text, &file.text);
    let text_file = pick_path(&cli.text_file, &file.text_file);
    let source = match pick_text(&cli.source, &file.source) {
        Some(source) => source,
        None => {
            if inline.is_some() || text_file.is_some() {
                "text".to_owned()
            } else {
                "quotes".to_owned()
            }
        },
    };
    if chars::same_text(source.as_str(), "text") {
        match inline {
            Some(text) => ContentPlan::Text(text),
            None => match text_file {
                Some(path) => ContentPlan::TextFile(path),
                None => ContentPlan::NoText,
            },
        }
    } else if chars::same_text(source.as_str(), "quotes") {
        match pick_path(&cli.quotes, &file.quotes) {
            Some(path) => ContentPlan::Quotes(path),
            None => ContentPlan::DefaultQuotes(
                match dir {
                    Some(dir) => Some(dir.join("quotes.txt")),
                    None => None,
                },
            ),
        }
    } else {
        ContentPlan::Unknown(source)
    }
}

/// The file that a plan has to be read from.
pub open spec fn origin_path(origin: ContentOrigin) -> Option<Seq<u8>> {
    match origin {
        ContentOrigin::TextFile(path) => Some(path),
        ContentOrigin::Quotes(path) => Some(path),
        ContentOrigin::DefaultQuotes(path) => path,
        _ => None,
    }
}

/// The file that a plan has to be read from.
pub fn content_path(plan: &ContentPlan) -> (r: Option<FilePath>)
    ensures
        path_of(r) == origin_path(plan@),
{
    match plan {
        ContentPlan::TextFile(path) => Some(path.clone()),
        ContentPlan::Quotes(path) => Some(path.clone()),
        ContentPlan::DefaultQuotes(path) => match path {
            Some(path) => Some(path.clone()),
            None => None,
        },
        _ => None,
    }
}

/// What came of reading a text file: what it holds, or why it could not be
/// read.
pub open spec fn read_text(read: Option<Result<String, ReadFailure>>) -> Option<
    Result<Seq<char>, Seq<char>>,
> {
    match read {
        Some(Ok(body)) => Some(Ok(body@)),
        Some(Err(failure)) => Some(Err(failure.cause@)),
        None => None,
    }
}

/// The content of a plan, from what came of reading its file.
pub open spec fn content_of(
    origin: ContentOrigin,
    separator: Seq<char>,
    read: Option<Result<Seq<char>, Seq<char>>>,
) -> Result<ContentView, ConfigFault> {
    match origin {
        ContentOrigin::Text(text) => Ok(ContentView::Text(text)),
        ContentOrigin::TextFile(path) => match read->0 {
            Ok(body) => Ok(ContentView::Text(body)),
            Err(cause) => Err(ConfigFault::ReadingText { path, cause }),
        },
        ContentOrigin::NoText => Err(ConfigFault::NoText),
        ContentOrigin::Quotes(path) => match read->0 {
            Ok(body) => {
                let quotes = quotes_on(chars::lines(body), separator);
                if quotes.len() == 0 {
                    Err(ConfigFault::NoQuotes { path })
                } else {
                    Ok(ContentView::Quotes(quotes))
                }
            },
            Err(cause) => Err(ConfigFault::ReadingQuotes { path, cause }),
        },
        ContentOrigin::DefaultQuotes(path) => match (path, read) {
            (Some(_), Some(Ok(body))) => {
                let quotes = quotes_on(chars::lines(body), separator);
                if quotes.len() == 0 {
                    Ok(ContentView::Text(BUILTIN_TEXT@))
                } else {
                    Ok(ContentView::Quotes(quotes))
                }
            },
            _ => Ok(ContentView::Text(BUILTIN_TEXT@)),
        },
        ContentOrigin::Unknown(source) => Err(ConfigFault::UnknownSource { source }),
    }
}

/// Whether a plan cannot do without its file.
pub open spec fn needs_file(origin: ContentOrigin) -> bool {
    origin is TextFile || origin is Quotes
}

/// The content of a plan, from what came of reading its file.
pub fn resolve_content(
    plan: ContentPlan,
    separator: &str,
    read: Option<Result<String, ReadFailure>>,
) -> (r: Result<Content, ConfigError>)
    requires
        needs_file(plan@) ==> read is Some,
    ensures
        match r {
            Ok(content) => content_of(plan@, separator@, read_text(read)) == Ok::<
                ContentView,
                ConfigFault,
            >(content@),
            Err(e) => content_of(plan@, separator@, read_text(read)) == Err::<
                ContentView,
                ConfigFault,
            >(e@),
        },
{
    match plan {
        ContentPlan::Text(text) => Ok(Content::Text(text)),
        ContentPlan::TextFile(path) => match read {
            Some(Ok(body)) => Ok(Content::Text(body)),
            Some(Err(failure)) => Err(ConfigError::ReadingText { path, cause: failure.cause }),
            None => Err(ConfigError::NoText),
        },
        ContentPlan::NoText => Err(ConfigError::NoText),
        ContentPlan::Quotes(path) => match read {
            Some(Ok(body)) => {
                let quotes = parse_quotes(body.as_str(), separator);
                proof {
                    assert(text::quote_views(quotes@).len() == quotes@.len());
                }
                if quotes.len() == 0 {
                    Err(ConfigError::NoQuotes { path })
                } else {
                    Ok(Content::Quotes(quotes))
                }
            },
            Some(Err(failure)) => Err(ConfigError::ReadingQuotes { path, cause: failure.cause }),
            None => Err(ConfigError::NoText),
        },
        ContentPlan::DefaultQuotes(path) => match (path, read) {
            (Some(_), Some(Ok(body))) => {
                let quotes = parse_quotes(body.as_str(), separator);
                proof {
                    assert(text::quote_views(quotes@).len() == quotes@.len());
                }
                if quotes.len() == 0 {
                    Ok(Content::Text(BUILTIN_TEXT.to_owned()))
                } else {
                    Ok(Content::Quotes(quotes))
                }
            },
            _ => Ok(Content::Text(BUILTIN_TEXT.to_owned())),
        },
        ContentPlan::Unknown(source) => Err(ConfigError::UnknownSource { source }),
    }
}

/// A complete configuration with nothing left to look up.
#[derive(PartialEq, Eq, Debug)]
pub struct Settings {
    pub content: Content,
    pub measure: Measure,
    /// How long a finished frame stays up, in milliseconds.
    pub hold: u64,
    /// How long the overlay takes to appear, in milliseconds.
    pub fade_in: u64,
    /// How long it takes to go, in milliseconds.
    pub fade_out: u64,
    pub frame_rate: u32,
    pub effects: Vec<String>,
    /// The font to render with; `None` means the one that ships with the
    /// program.
    pub font: Option<Vec<u8>>,
    pub background: Rgb,
    pub foreground: Rgb,
    pub seed: u64,
    /// Where the single-instance lock lives, or `None` when there is nowhere
    /// sensible to put one.
    pub lock_path: Option<FilePath>,
}

/// What a [`Settings`] says.
pub struct SettingsView {
    pub content: ContentView,
    pub measure: MeasureView,
    pub hold: u64,
    pub fade_in: u64,
    pub fade_out: u64,
    pub frame_rate: u32,
    pub effects: Seq<Seq<char>>,
    pub font: Option<Seq<u8>>,
    pub background: Rgb,
    pub foreground: Rgb,
    pub seed: u64,
    pub lock_path: Option<Seq<u8>>,
}

/// The bytes of a font, if there is one.
pub open spec fn font_of(font: Option<Vec<u8>>) -> Option<Seq<u8>> {
    match font {
        Some(bytes) => Some(bytes@),
        None => None,
    }
}

impl View for Settings {
    type V = SettingsView;

    open spec fn view(&self) -> SettingsView {
        SettingsView {
            content: self.content@,
            measure: self.measure@,
            hold: self.hold,
            fade_in: self.fade_in,
            fade_out: self.fade_out,
            frame_rate: self.frame_rate,
            effects: strings(self.effects@),
            font: font_of(self.font),
            background: self.background,
            foreground: self.foreground,
            seed: self.seed,
            lock_path: path_of(self.lock_path),
        }
    }
}

impl Clone for Settings {
    fn clone(&self) -> (r: Settings)
        ensures
            r@ == self@,
    {
        Settings {
            content: self.content.clone(),
            measure: self.measure.clone(),
            hold: self.hold,
            fade_in: self.fade_in,
            fade_out: self.fade_out,
            frame_rate: self.frame_rate,
            effects: copy_names(&self.effects),
            font: match &self.font {
                Some(bytes) => {
                    let copy = bytes.clone();
                    proof {
                        assert(copy@ =~= bytes@);
                    }
                    Some(copy)
                },
                None => None,
            },
            background: self.background,
            foreground: self.foreground,
            seed: self.seed,
            lock_path: copy_path(&self.lock_path),
        }
    }
}

/// A working configuration that reads nothing.
pub open spec fn builtin_settings(all: Seq<Seq<char>>) -> SettingsView {
    SettingsView {
        content: ContentView::Text(BUILTIN_TEXT@),
        measure: MeasureView {
            width: DEFAULT_WRAP,
            align: Align::Center,
            attribution_prefix: DEFAULT_ATTRIBUTION_PREFIX@,
        },
        hold: DEFAULT_HOLD_MS,
        fade_in: DEFAULT_FADE_IN_MS,
        fade_out: DEFAULT_FADE_OUT_MS,
        frame_rate: DEFAULT_FRAME_RATE,
        effects: all,
        font: None,
        background: DEFAULT_BACKGROUND,
        foreground: DEFAULT_FOREGROUND,
        seed: 0,
        lock_path: None,
    }
}

impl Settings {
    /// A working configuration that reads nothing: the bundled font, the
    /// built-in text, every effect. This is what the benchmark and the tests
    /// start from.
    pub fn builtin(all: Vec<String>) -> (r: Settings)
        ensures
            r@ == builtin_settings(strings(all@)),
    {
        Settings {
            content: Content::Text(BUILTIN_TEXT.to_owned()),
            measure: Measure {
                width: DEFAULT_WRAP,
                align: Align::Center,
                attribution_prefix: DEFAULT_ATTRIBUTION_PREFIX.to_owned(),
            },
            hold: DEFAULT_HOLD_MS,
            fade_in: DEFAULT_FADE_IN_MS,
            fade_out: DEFAULT_FADE_OUT_MS,
            frame_rate: DEFAULT_FRAME_RATE,
            effects: all,
            font: None,
            background: DEFAULT_BACKGROUND,
            foreground: DEFAULT_FOREGROUND,
            seed: 0,
            lock_path: None,
        }
    }

    /// What the animator needs of these settings, for a grid of a given shape.
    pub fn animation(&self, cols: usize, rows: usize) -> (r: Animation)
        ensures
            r.cols == cols,
            r.rows == rows,
            r.frame_rate == self.frame_rate,
            r.hold == self.hold,
            r.measure@ == self.measure@,
            r.content@ == self.content@,
            strings(r.effects@) == strings(self.effects@),
            r.default_fg == self.foreground,
    {
        Animation {
            cols,
            rows,
            frame_rate: self.frame_rate,
            hold: self.hold,
            measure: self.measure.clone(),
            content: self.content.clone(),
            effects: copy_names(&self.effects),
            default_fg: self.foreground,
        }
    }
}

/// What came of reading the files that a configuration names.
pub struct Reads {
    /// The font, where one is named.
    pub font: Option<Result<Vec<u8>, ReadFailure>>,
    /// The text or the quote list, where there is a file for it.
    pub content: Option<Result<String, ReadFailure>>,
}

/// The font that flags and file name.
pub open spec fn font_place(cli: Cli, file: FileConfig) -> Option<Seq<u8>> {
    either(path_of(cli.font), path_of(file.font))
}

/// The font that flags and file name, if they name one.
pub fn font_path(cli: &Cli, file: &FileConfig) -> (r: Option<FilePath>)
    ensures
        path_of(r) == font_place(*cli, *file),
{
    pick_path(&cli.font, &file.font)
}

/// The colour that a text spells, if there is one.
pub open spec fn color_choice(hex: Option<Seq<char>>, fallback: Rgb) -> Result<Rgb, Seq<char>> {
    match hex {
        Some(hex) => match hex_color(hex) {
            Some(color) => Ok(color),
            None => Err(hex),
        },
        None => Ok(fallback),
    }
}

/// The font at a path, from what came of reading it.
pub open spec fn font_choice(
    path: Option<Seq<u8>>,
    read: Option<Result<Vec<u8>, ReadFailure>>,
) -> Result<Option<Seq<u8>>, ConfigFault> {
    match path {
        Some(path) => match read->0 {
            Ok(bytes) => Ok(Some(bytes@)),
            Err(failure) => Err(ConfigFault::ReadingFont { path, cause: failure.cause@ }),
        },
        None => Ok(None),
    }
}

/// A width of at least one column.
pub open spec fn at_least_one(width: usize) -> usize {
    if width == 0 {
        1
    } else {
        width
    }
}

/// A frame rate within bounds.
pub open spec fn bounded_rate(rate: u32) -> u32 {
    if rate < 1 {
        1
    } else if rate > MAX_FRAME_RATE {
        MAX_FRAME_RATE
    } else {
        rate
    }
}

/// The settings that everything given comes to. Of several faults the first in
/// a fixed order is the one reported: the background, the foreground, the
/// effects, the font, the content.
pub open spec fn resolved(
    cli: Cli,
    env: Env,
    file: FileConfig,
    reads: Reads,
    all: Seq<Seq<char>>,
    fresh_seed: u64,
) -> Result<SettingsView, ConfigFault> {
    let background = color_choice(
        either(text_of(cli.background), text_of(file.background)),
        DEFAULT_BACKGROUND,
    );
    let foreground = color_choice(
        either(text_of(cli.foreground), text_of(file.foreground)),
        DEFAULT_FOREGROUND,
    );
    let effects = pool_of(
        either(text_of(cli.effect), text_of(file.effect)),
        names_of(cli.include_effects@, file.include_effects),
        names_of(cli.exclude_effects@, file.exclude_effects),
        all,
    );
    let font = font_choice(font_place(cli, file), reads.font);
    let content = content_of(
        content_origin(cli, file, dir_in_play(cli, env)),
        given(either(text_of(cli.separator), text_of(file.separator)), DEFAULT_SEPARATOR@),
        read_text(reads.content),
    );
    if background is Err {
        Err(ConfigFault::Background { hex: background->Err_0 })
    } else if foreground is Err {
        Err(ConfigFault::Foreground { hex: foreground->Err_0 })
    } else if effects is Err {
        Err(ConfigFault::Effects(effects->Err_0))
    } else if font is Err {
        Err(font->Err_0)
    } else if content is Err {
        Err(content->Err_0)
    } else {
        Ok(
            SettingsView {
                content: content->Ok_0,
                measure: MeasureView {
                    width: at_least_one(given(either(cli.wrap, file.wrap), DEFAULT_WRAP)),
                    align: given(either(cli.align, file.align), Align::Center),
                    attribution_prefix: given(
                        either(text_of(cli.attribution_prefix), text_of(file.attribution_prefix)),
                        DEFAULT_ATTRIBUTION_PREFIX@,
                    ),
                },
                hold: given(either(cli.hold, file.hold), DEFAULT_HOLD_MS),
                fade_in: given(either(cli.fade_in, file.fade_in), DEFAULT_FADE_IN_MS),
                fade_out: given(either(cli.fade_out, file.fade_out), DEFAULT_FADE_OUT_MS),
                frame_rate: bounded_rate(
                    given(either(cli.frame_rate, file.frame_rate), DEFAULT_FRAME_RATE),
                ),
                effects: effects->Ok_0,
                font: font->Ok_0,
                background: background->Ok_0,
                foreground: foreground->Ok_0,
                seed: given(either(cli.seed, file.seed), fresh_seed),
                lock_path: match path_of(env.runtime_dir) {
                    Some(dir) => Some(inside(dir, encode_utf8("nirisaver.lock"@))),
                    None => None,
                },
            },
        )
    }
}

/// Whether every file that a configuration cannot do without was tried.
pub open spec fn all_read(cli: Cli, env: Env, file: FileConfig, reads: Reads) -> bool {
    &&& font_place(cli, file) is Some ==> reads.font is Some
    &&& needs_file(content_origin(cli, file, dir_in_play(cli, env))) ==> reads.content is Some
}

/// The first of two numbers that is there, or a default.
fn pick_u64(first: Option<u64>, second: Option<u64>, fallback: u64) -> (r: u64)
    ensures
        r == given(either(first, second), fallback),
{
    match first {
        Some(v) => v,
        None => match second {
            Some(v) => v,
            None => fallback,
        },
    }
}

/// A colour from a flag or a key.
fn pick_color(first: &Option<String>, second: &Option<String>, fallback: Rgb) -> (r: Result<
    Rgb,
    String,
>)
    ensures
        match r {
            Ok(color) => color_choice(either(text_of(*first), text_of(*second)), fallback) == Ok::<
                Rgb,
                Seq<char>,
            >(color),
            Err(hex) => color_choice(either(text_of(*first), text_of(*second)), fallback) == Err::<
                Rgb,
                Seq<char>,
            >(hex@),
        },
{
    match pick_text(first, second) {
        Some(hex) => match parse_hex(hex.as_str()) {
            Ok(color) => Ok(color),
            Err(_) => Err(hex),
        },
        None => Ok(fallback),
    }
}

/// Fold the command line over the config file, and produce the one
/// [`Settings`] the rest of the program runs on.
pub fn resolve(
    cli: &Cli,
    env: &Env,
    file: &FileConfig,
    reads: Reads,
    all: &Vec<String>,
    fresh_seed: u64,
) -> (r: Result<Settings, ConfigError>)
    requires
        all_read(*cli, *env, *file, reads),
    ensures
        match r {
            Ok(settings) => resolved(*cli, *env, *file, reads, strings(all@), fresh_seed) == Ok::<
                SettingsView,
                ConfigFault,
            >(settings@),
            Err(e) => resolved(*cli, *env, *file, reads, strings(all@), fresh_seed) == Err::<
                SettingsView,
                ConfigFault,
            >(e@),
        },
{
    let config_dir = config_dir_in_play(cli, env);

    let wrap: usize = match cli.wrap {
        Some(n) => n,
        None => match file.wrap {
            Some(n) => n,
            None => DEFAULT_WRAP,
        },
    };
    let width: usize = if wrap == 0 {
        1
    } else {
        wrap
    };
    let align = match cli.align {
        Some(a) => a,
        None => match file.align {
            Some(a) => a,
            None => Align::Center,
        },
    };
    let attribution_prefix = match pick_text(&cli.attribution_prefix, &file.attribution_prefix) {
        Some(prefix) => prefix,
        None => DEFAULT_ATTRIBUTION_PREFIX.to_owned(),
    };

    let hold: u64 = pick_u64(cli.hold, file.hold, DEFAULT_HOLD_MS);
    let fade_in: u64 = pick_u64(cli.fade_in, file.fade_in, DEFAULT_FADE_IN_MS);
    let fade_out: u64 = pick_u64(cli.fade_out, file.fade_out, DEFAULT_FADE_OUT_MS);
    let rate: u32 = match cli.frame_rate {
        Some(n) => n,
        None => match file.frame_rate {
            Some(n) => n,
            None => DEFAULT_FRAME_RATE,
        },
    };
    let frame_rate: u32 = if rate < 1 {
        1
    } else if rate > MAX_FRAME_RATE {
        MAX_FRAME_RATE
    } else {
        rate
    };

    let background = match pick_color(&cli.background, &file.background, DEFAULT_BACKGROUND) {
        Ok(color) => color,
        Err(hex) => {
            return Err(ConfigError::Background { hex });
        },
    };
    let foreground = match pick_color(&cli.foreground, &file.foreground, DEFAULT_FOREGROUND) {
        Ok(color) => color,
        Err(hex) => {
            return Err(ConfigError::Foreground { hex });
        },
    };

    let choice = EffectChoice {
        pinned: pick_text(&cli.effect, &file.effect),
        included: pick_list(&cli.include_effects, &file.include_effects),
        exclude: pick_list(&cli.exclude_effects, &file.exclude_effects),
    };
    let effects = match resolve_effects(&choice, all) {
        Ok(effects) => effects,
        Err(e) => {
            return Err(ConfigError::Effects(e));
        },
    };

    let font: Option<Vec<u8>> = match font_path(cli, file) {
        Some(path) => match reads.font {
            Some(Ok(bytes)) => Some(bytes),
            Some(Err(failure)) => {
                return Err(ConfigError::ReadingFont { path, cause: failure.cause });
            },
            None => None,
        },
        None => None,
    };

    let separator = match pick_text(&cli.separator, &file.separator) {
        Some(separator) => separator,
        None => DEFAULT_SEPARATOR.to_owned(),
    };
    let plan = plan_content(cli, file, &config_dir);
    let content = match resolve_content(plan, separator.as_str(), reads.content) {
        Ok(content) => content,
        Err(e) => {
            return Err(e);
        },
    };

    let lock_path = match &env.runtime_dir {
        Some(dir) => Some(dir.join("nirisaver.lock")),
        None => None,
    };
    Ok(
        Settings {
            content,
            measure: Measure { width, align, attribution_prefix },
            hold,
            fade_in,
            fade_out,
            frame_rate,
            effects,
            font,
            background,
            foreground,
            seed: pick_u64(cli.seed, file.seed, fresh_seed),
            lock_path,
        },
    )
}

/// Flags override the file, and keys no flag mentions keep the file's value.
pub proof fn flags_override_the_file(
    cli: Cli,
    env: Env,
    file: FileConfig,
    reads: Reads,
    all: Seq<Seq<char>>,
    fresh_seed: u64,
    s: SettingsView,
)
    requires
        resolved(cli, env, file, reads, all, fresh_seed) == Ok::<SettingsView, ConfigFault>(s),
    ensures
        cli.wrap is Some ==> s.measure.width == at_least_one(cli.wrap->0),
        cli.wrap is None && file.wrap is Some ==> s.measure.width == at_least_one(file.wrap->0),
        cli.align is Some ==> s.measure.align == cli.align->0,
        cli.align is None && file.align is Some ==> s.measure.align == file.align->0,
        cli.attribution_prefix is Some ==> s.measure.attribution_prefix
            == cli.attribution_prefix->0@,
        cli.attribution_prefix is None && file.attribution_prefix is Some
            ==> s.measure.attribution_prefix == file.attribution_prefix->0@,
        cli.hold is Some ==> s.hold == cli.hold->0,
        cli.hold is None && file.hold is Some ==> s.hold == file.hold->0,
        cli.fade_in is Some ==> s.fade_in == cli.fade_in->0,
        cli.fade_in is None && file.fade_in is Some ==> s.fade_in == file.fade_in->0,
        cli.fade_out is Some ==> s.fade_out == cli.fade_out->0,
        cli.fade_out is None && file.fade_out is Some ==> s.fade_out == file.fade_out->0,
        cli.frame_rate is Some ==> s.frame_rate == bounded_rate(cli.frame_rate->0),
        cli.frame_rate is None && file.frame_rate is Some ==> s.frame_rate == bounded_rate(
            file.frame_rate->0,
        ),
        cli.background is Some ==> hex_color(cli.background->0@) == Some(s.background),
        cli.background is None && file.background is Some ==> hex_color(file.background->0@)
            == Some(s.background),
        cli.foreground is Some ==> hex_color(cli.foreground->0@) == Some(s.foreground),
        cli.foreground is None && file.foreground is Some ==> hex_color(file.foreground->0@)
            == Some(s.foreground),
        cli.effect is Some ==> s.effects == seq![cli.effect->0@],
        cli.effect is None && file.effect is Some ==> s.effects == seq![file.effect->0@],
        cli.seed is Some ==> s.seed == cli.seed->0,
        cli.seed is None && file.seed is Some ==> s.seed == file.seed->0,
        cli.seed is None && file.seed is None ==> s.seed == fresh_seed,
{
}

/// Settings that resolve can be run: there is a column to set text in, a frame
/// to draw, an effect to draw it with, and something to say.
pub proof fn settings_that_resolve_can_be_run(
    cli: Cli,
    env: Env,
    file: FileConfig,
    reads: Reads,
    all: Seq<Seq<char>>,
    fresh_seed: u64,
    s: SettingsView,
)
    requires
        resolved(cli, env, file, reads, all, fresh_seed) == Ok::<SettingsView, ConfigFault>(s),
    ensures
        s.measure.width >= 1,
        1 <= s.frame_rate <= MAX_FRAME_RATE,
        s.effects.len() > 0,
        s.content is Quotes ==> s.content.choice_count() > 0,
{
}

/// Without the config directory nothing in it matters: neither its config file
/// nor its quote list is asked for, and two machines that agree on the runtime
/// directory resolve alike.
pub proof fn no_config_ignores_the_config_directory(
    cli: Cli,
    here: Env,
    there: Env,
    file: FileConfig,
    reads: Reads,
    all: Seq<Seq<char>>,
    fresh_seed: u64,
)
    requires
        cli.no_config,
        path_of(here.runtime_dir) == path_of(there.runtime_dir),
    ensures
        config_place(cli, here) is Nothing,
        origin_path(content_origin(cli, file, dir_in_play(cli, here))) is Some ==> {
            ||| origin_path(content_origin(cli, file, dir_in_play(cli, here))) == either(
                path_of(cli.text_file),
                path_of(file.text_file),
            )
            ||| origin_path(content_origin(cli, file, dir_in_play(cli, here))) == either(
                path_of(cli.quotes),
                path_of(file.quotes),
            )
        },
        resolved(cli, here, file, reads, all, fresh_seed) == resolved(
            cli,
            there,
            file,
            reads,
            all,
            fresh_seed,
        ),
{
}

/// Excluding nothing leaves everything.
proof fn lemma_without_nothing(pool: Seq<Seq<char>>)
    ensures
        without(pool, Seq::empty()) == pool,
{
    excluding_nothing_leaves_everything(pool);
}

/// An empty environment, an empty command line and an empty config file
/// resolve to the built-in settings, but for the seed.
pub proof fn an_empty_environment_resolves_to_the_builtin_settings(
    cli: Cli,
    env: Env,
    file: FileConfig,
    reads: Reads,
    all: Seq<Seq<char>>,
    fresh_seed: u64,
)
    requires
        no_flags(cli),
        no_keys(file),
        env.config_home is None,
        env.home is None,
        env.runtime_dir is None,
        all.len() > 0,
    ensures
        resolved(cli, env, file, reads, all, fresh_seed) == Ok::<SettingsView, ConfigFault>(
            SettingsView { seed: fresh_seed, ..builtin_settings(all) },
        ),
{
    reveal_strlit("text");
    reveal_strlit("quotes");
    assert("text"@.len() != "quotes"@.len());
    lemma_without_nothing(all);
    assert(names_of(cli.include_effects@, file.include_effects) =~= Seq::<Seq<char>>::empty());
    assert(names_of(cli.exclude_effects@, file.exclude_effects) =~= Seq::<Seq<char>>::empty());
}

/// Naming a text implies the text source: a text that is given, or else the
/// file that is named for it, is what is animated, whatever quote list there
/// is.
pub proof fn naming_a_text_implies_the_text_source(
    cli: Cli,
    file: FileConfig,
    dir: Option<Seq<u8>>,
)
    requires
        cli.source is None,
        file.source is None,
        either(text_of(cli.text), text_of(file.text)) is Some || either(
            path_of(cli.text_file),
            path_of(file.text_file),
        ) is Some,
    ensures
        content_origin(cli, file, dir) == match either(text_of(cli.text), text_of(file.text)) {
            Some(text) => ContentOrigin::Text(text),
            None => ContentOrigin::TextFile(
                either(path_of(cli.text_file), path_of(file.text_file))->0,
            ),
        },
{
}

/// Colours parse with or without the hash.
pub proof fn colours_parse_with_or_without_the_hash(s: Seq<char>)
    requires
        s.len() == 0 || s[0] != '#',
    ensures
        hex_color(seq!['#'] + s) == hex_color(s),
{
    assert((seq!['#'] + s).skip(1) =~= s);
}

/// A channel written in hexadecimal.
pub open spec fn channel_text(v: u8) -> Seq<char> {
    chars::hex_text(v as nat, 2)
}

/// A colour reads back from its digits.
pub proof fn a_colour_reads_back(color: Rgb)
    ensures
        hex_color(
            seq!['#'] + channel_text(color[0]) + channel_text(color[1]) + channel_text(color[2]),
        ) == Some(color),
{
    let s = seq!['#'] + channel_text(color[0]) + channel_text(color[1]) + channel_text(color[2]);
    lemma_channel_text(color[0]);
    lemma_channel_text(color[1]);
    lemma_channel_text(color[2]);
    let digits = s.skip(1);
    assert(digits[0] == channel_text(color[0])[0] && digits[1] == channel_text(color[0])[1]);
    assert(digits[2] == channel_text(color[1])[0] && digits[3] == channel_text(color[1])[1]);
    assert(digits[4] == channel_text(color[2])[0] && digits[5] == channel_text(color[2])[1]);
    assert(six_digits(digits));
    assert([hex_channel(digits, 0), hex_channel(digits, 2), hex_channel(digits, 4)] =~= color);
}

proof fn lemma_channel_text(v: u8)
    ensures
        channel_text(v).len() == 2,
        hex_value(channel_text(v)[0]) == Some(v as int / 16),
        hex_value(channel_text(v)[1]) == Some(v as int % 16),
{
    reveal_with_fuel(chars::hex_text, 3);
    let high = v as nat / 16;
    assert(high % 16 == high);
    assert(channel_text(v) =~= seq![
        chars::digit_char(high as int),
        chars::digit_char((v as nat % 16) as int),
    ]);
}

/// Whether a command line and a file say the same as another command line and
/// another file.
spec fn say_the_same(cli: Cli, file: FileConfig, cli2: Cli, file2: FileConfig) -> bool {
    &&& cli.no_config == cli2.no_config
    &&& either(text_of(cli.source), text_of(file.source)) == either(
        text_of(cli2.source),
        text_of(file2.source),
    )
    &&& either(text_of(cli.separator), text_of(file.separator)) == either(
        text_of(cli2.separator),
        text_of(file2.separator),
    )
    &&& either(text_of(cli.attribution_prefix), text_of(file.attribution_prefix)) == either(
        text_of(cli2.attribution_prefix),
        text_of(file2.attribution_prefix),
    )
    &&& either(text_of(cli.text), text_of(file.text)) == either(
        text_of(cli2.text),
        text_of(file2.text),
    )
    &&& either(text_of(cli.effect), text_of(file.effect)) == either(
        text_of(cli2.effect),
        text_of(file2.effect),
    )
    &&& either(text_of(cli.background), text_of(file.background)) == either(
        text_of(cli2.background),
        text_of(file2.background),
    )
    &&& either(text_of(cli.foreground), text_of(file.foreground)) == either(
        text_of(cli2.foreground),
        text_of(file2.foreground),
    )
    &&& either(path_of(cli.quotes), path_of(file.quotes)) == either(
        path_of(cli2.quotes),
        path_of(file2.quotes),
    )
    &&& either(path_of(cli.text_file), path_of(file.text_file)) == either(
        path_of(cli2.text_file),
        path_of(file2.text_file),
    )
    &&& either(path_of(cli.font), path_of(file.font)) == either(
        path_of(cli2.font),
        path_of(file2.font),
    )
    &&& either(cli.align, file.align) == either(cli2.align, file2.align)
    &&& either(cli.wrap, file.wrap) == either(cli2.wrap, file2.wrap)
    &&& either(cli.hold, file.hold) == either(cli2.hold, file2.hold)
    &&& either(cli.fade_in, file.fade_in) == either(cli2.fade_in, file2.fade_in)
    &&& either(cli.fade_out, file.fade_out) == either(cli2.fade_out, file2.fade_out)
    &&& either(cli.frame_rate, file.frame_rate) == either(cli2.frame_rate, file2.frame_rate)
    &&& either(cli.seed, file.seed) == either(cli2.seed, file2.seed)
    &&& names_of(cli.include_effects@, file.include_effects) == names_of(cli2.include_effects@, file2.include_effects)
    &&& names_of(cli.exclude_effects@, file.exclude_effects) == names_of(cli2.exclude_effects@, file2.exclude_effects)
}

/// Those that say the same resolve alike.
proof fn lemma_say_the_same(
    cli: Cli,
    file: FileConfig,
    cli2: Cli,
    file2: FileConfig,
    env: Env,
    reads: Reads,
    all: Seq<Seq<char>>,
    fresh_seed: u64,
)
    requires
        say_the_same(cli, file, cli2, file2),
    ensures
        resolved(cli, env, file, reads, all, fresh_seed) == resolved(
            cli2,
            env,
            file2,
            reads,
            all,
            fresh_seed,
        ),
{
    assert(dir_in_play(cli, env) == dir_in_play(cli2, env));
    assert(content_origin(cli, file, dir_in_play(cli, env)) == content_origin(
        cli2,
        file2,
        dir_in_play(cli2, env),
    ));
}

/// Flags override the file for every key there is: two files that agree on what
/// the command line leaves open resolve alike, whatever else they hold, and
/// complain alike.
pub proof fn a_key_whose_flag_is_given_makes_no_difference(
    cli: Cli,
    env: Env,
    file: FileConfig,
    other: FileConfig,
    reads: Reads,
    all: Seq<Seq<char>>,
    fresh_seed: u64,
)
    requires
        cli.source is None ==> other.source == file.source,
        cli.quotes is None ==> other.quotes == file.quotes,
        cli.separator is None ==> other.separator == file.separator,
        cli.attribution_prefix is None ==> other.attribution_prefix == file.attribution_prefix,
        cli.text is None ==> other.text == file.text,
        cli.text_file is None ==> other.text_file == file.text_file,
        cli.align is None ==> other.align == file.align,
        cli.wrap is None ==> other.wrap == file.wrap,
        cli.hold is None ==> other.hold == file.hold,
        cli.fade_in is None ==> other.fade_in == file.fade_in,
        cli.fade_out is None ==> other.fade_out == file.fade_out,
        cli.frame_rate is None ==> other.frame_rate == file.frame_rate,
        cli.effect is None ==> other.effect == file.effect,
        cli.font is None ==> other.font == file.font,
        cli.background is None ==> other.background == file.background,
        cli.foreground is None ==> other.foreground == file.foreground,
        cli.seed is None ==> other.seed == file.seed,
        cli.include_effects@.len() == 0 ==> other.include_effects == file.include_effects,
        cli.exclude_effects@.len() == 0 ==> other.exclude_effects == file.exclude_effects,
    ensures
        resolved(cli, env, other, reads, all, fresh_seed) == resolved(
            cli,
            env,
            file,
            reads,
            all,
            fresh_seed,
        ),
{
    assert(say_the_same(cli, other, cli, file));
    lemma_say_the_same(cli, other, cli, file, env, reads, all, fresh_seed);
}

/// A key does what its flag does: saying on the command line what a file adds
/// to it comes to the same as the file.
pub proof fn a_key_does_what_its_flag_does(
    cli: Cli,
    full: Cli,
    env: Env,
    file: FileConfig,
    none: FileConfig,
    reads: Reads,
    all: Seq<Seq<char>>,
    fresh_seed: u64,
)
    requires
        no_keys(none),
        full.no_config == cli.no_config,
        full.source == if cli.source is Some {
            cli.source
        } else {
            file.source
        },
        full.quotes == if cli.quotes is Some {
            cli.quotes
        } else {
            file.quotes
        },
        full.separator == if cli.separator is Some {
            cli.separator
        } else {
            file.separator
        },
        full.attribution_prefix == if cli.attribution_prefix is Some {
            cli.attribution_prefix
        } else {
            file.attribution_prefix
        },
        full.text == if cli.text is Some {
            cli.text
        } else {
            file.text
        },
        full.text_file == if cli.text_file is Some {
            cli.text_file
        } else {
            file.text_file
        },
        full.align == if cli.align is Some {
            cli.align
        } else {
            file.align
        },
        full.wrap == if cli.wrap is Some {
            cli.wrap
        } else {
            file.wrap
        },
        full.hold == if cli.hold is Some {
            cli.hold
        } else {
            file.hold
        },
        full.fade_in == if cli.fade_in is Some {
            cli.fade_in
        } else {
            file.fade_in
        },
        full.fade_out == if cli.fade_out is Some {
            cli.fade_out
        } else {
            file.fade_out
        },
        full.frame_rate == if cli.frame_rate is Some {
            cli.frame_rate
        } else {
            file.frame_rate
        },
        full.effect == if cli.effect is Some {
            cli.effect
        } else {
            file.effect
        },
        full.font == if cli.font is Some {
            cli.font
        } else {
            file.font
        },
        full.background == if cli.background is Some {
            cli.background
        } else {
            file.background
        },
        full.foreground == if cli.foreground is Some {
            cli.foreground
        } else {
            file.foreground
        },
        full.seed == if cli.seed is Some {
            cli.seed
        } else {
            file.seed
        },
        full.include_effects@ == if cli.include_effects@.len() > 0 {
            cli.include_effects@
        } else if file.include_effects is Some {
            file.include_effects->0@
        } else {
            Seq::empty()
        },
        full.exclude_effects@ == if cli.exclude_effects@.len() > 0 {
            cli.exclude_effects@
        } else if file.exclude_effects is Some {
            file.exclude_effects->0@
        } else {
            Seq::empty()
        },
    ensures
        resolved(full, env, none, reads, all, fresh_seed) == resolved(
            cli,
            env,
            file,
            reads,
            all,
            fresh_seed,
        ),
{
    assert(names_of(full.include_effects@, none.include_effects) =~= names_of(
        cli.include_effects@,
        file.include_effects,
    ));
    assert(names_of(full.exclude_effects@, none.exclude_effects) =~= names_of(
        cli.exclude_effects@,
        file.exclude_effects,
    ));
    assert(say_the_same(full, none, cli, file));
    lemma_say_the_same(full, none, cli, file, env, reads, all, fresh_seed);
}

/// Whether a name is one of a list.
pub open spec fn names(list: Seq<String>, name: Seq<char>) -> bool {
    exists|i: int| 0 <= i < list.len() && (#[trigger] list[i])@ == name
}

proof fn lemma_names(list: Seq<String>, name: Seq<char>)
    ensures
        names(list, name) == strings(list).contains(name),
{
    if names(list, name) {
        let i = choose|i: int| 0 <= i < list.len() && (#[trigger] list[i])@ == name;
        assert(strings(list)[i] == name);
    }
    if strings(list).contains(name) {
        let i = strings(list).index_of(name);
        assert(list[i]@ == name);
    }
}

/// The lists of the command line decide the effects: without a pinned effect,
/// the pool holds exactly the names of its list to draw from that are not on
/// its list to leave out, whatever the file's lists hold.
pub proof fn the_command_line_decides_the_effects(
    cli: Cli,
    env: Env,
    file: FileConfig,
    reads: Reads,
    all: Seq<Seq<char>>,
    fresh_seed: u64,
    s: SettingsView,
    name: Seq<char>,
)
    requires
        resolved(cli, env, file, reads, all, fresh_seed) == Ok::<SettingsView, ConfigFault>(s),
        cli.effect is None,
        file.effect is None,
    ensures
        cli.include_effects@.len() > 0 && cli.exclude_effects@.len() > 0 ==> (s.effects.contains(
            name,
        ) <==> names(cli.include_effects@, name) && !names(cli.exclude_effects@, name)),
        cli.include_effects@.len() > 0 && cli.exclude_effects@.len() == 0 && file.exclude_effects
            is None ==> s.effects == strings(cli.include_effects@),
        cli.include_effects@.len() == 0 && file.include_effects is None
            && cli.exclude_effects@.len() > 0 ==> (s.effects.contains(name) <==> all.contains(name)
            && !names(cli.exclude_effects@, name)),
        cli.include_effects@.len() > 0 && cli.exclude_effects@.len() == 0 && file.exclude_effects
            is Some ==> (s.effects.contains(name) <==> names(cli.include_effects@, name) && !names(
            file.exclude_effects->0@,
            name,
        )),
        cli.include_effects@.len() == 0 && file.include_effects is Some
            && file.include_effects->0@.len() > 0 && cli.exclude_effects@.len() > 0 ==> (
        s.effects.contains(name) <==> names(file.include_effects->0@, name) && !names(
            cli.exclude_effects@,
            name,
        )),
        cli.include_effects@.len() == 0 && file.include_effects is None
            && cli.exclude_effects@.len() == 0 && file.exclude_effects is None ==> s.effects == all,
{
    let included = names_of(cli.include_effects@, file.include_effects);
    let exclude = names_of(cli.exclude_effects@, file.exclude_effects);
    lemma_names(cli.include_effects@, name);
    lemma_names(cli.exclude_effects@, name);
    if file.include_effects is Some {
        lemma_names(file.include_effects->0@, name);
    }
    if file.exclude_effects is Some {
        lemma_names(file.exclude_effects->0@, name);
    }
    if exclude.len() == 0 {
        assert(exclude =~= Seq::<Seq<char>>::empty());
        lemma_without_nothing(included);
        lemma_without_nothing(all);
    }
    if included.len() == 0 {
        assert(included =~= Seq::<Seq<char>>::empty());
    }
    lemma_pool_members(included, exclude, all, name);
}

/// What is given on the command line to draw from or to leave out is what the
/// pool comes of.
pub proof fn a_list_of_the_command_line_is_the_one_that_counts(
    cli: Cli,
    env: Env,
    file: FileConfig,
    reads: Reads,
    all: Seq<Seq<char>>,
    fresh_seed: u64,
    s: SettingsView,
)
    requires
        resolved(cli, env, file, reads, all, fresh_seed) == Ok::<SettingsView, ConfigFault>(s),
        cli.effect is None,
        file.effect is None,
        cli.include_effects@.len() > 0 || file.include_effects is None,
        cli.exclude_effects@.len() > 0 || file.exclude_effects is None,
    ensures
        pool_of(None, strings(cli.include_effects@), strings(cli.exclude_effects@), all) == Ok::<
            Seq<Seq<char>>,
            EffectFault,
        >(s.effects),
{
    if cli.include_effects@.len() == 0 {
        assert(strings(cli.include_effects@) =~= Seq::<Seq<char>>::empty());
    }
    if cli.exclude_effects@.len() == 0 {
        assert(strings(cli.exclude_effects@) =~= Seq::<Seq<char>>::empty());
    }
}

/// What nobody sets has its default.
pub proof fn what_nobody_sets_has_its_default(
    cli: Cli,
    env: Env,
    file: FileConfig,
    reads: Reads,
    all: Seq<Seq<char>>,
    fresh_seed: u64,
    s: SettingsView,
)
    requires
        resolved(cli, env, file, reads, all, fresh_seed) == Ok::<SettingsView, ConfigFault>(s),
    ensures
        cli.wrap is None && file.wrap is None ==> s.measure.width == 64,
        cli.align is None && file.align is None ==> s.measure.align is Center,
        cli.attribution_prefix is None && file.attribution_prefix is None
            ==> s.measure.attribution_prefix == seq!['\u{2014}', ' '],
        cli.hold is None && file.hold is None ==> s.hold == 14_000,
        cli.fade_in is None && file.fade_in is None ==> s.fade_in == 700,
        cli.fade_out is None && file.fade_out is None ==> s.fade_out == 250,
        cli.frame_rate is None && file.frame_rate is None ==> s.frame_rate == 30,
        cli.background is None && file.background is None ==> s.background == [0u8, 0, 0],
        cli.foreground is None && file.foreground is None ==> s.foreground == [235u8, 235, 235],
        cli.font is None && file.font is None ==> s.font is None,
        cli.seed is None && file.seed is None ==> s.seed == fresh_seed,
{
    reveal_strlit("\u{2014} ");
    assert(DEFAULT_ATTRIBUTION_PREFIX@ =~= seq!['\u{2014}', ' ']);
}

/// A measure is at least one column wide, and a frame rate from one to 240 a
/// second; within that, what is asked for is what there is.
pub proof fn what_is_asked_for_is_kept_within_bounds(
    cli: Cli,
    env: Env,
    file: FileConfig,
    reads: Reads,
    all: Seq<Seq<char>>,
    fresh_seed: u64,
    s: SettingsView,
)
    requires
        resolved(cli, env, file, reads, all, fresh_seed) == Ok::<SettingsView, ConfigFault>(s),
    ensures
        cli.wrap is Some && cli.wrap->0 > 0 ==> s.measure.width == cli.wrap->0,
        cli.wrap == Some(0usize) ==> s.measure.width == 1,
        cli.frame_rate is Some && 1 <= cli.frame_rate->0 <= 240 ==> s.frame_rate
            == cli.frame_rate->0,
        cli.frame_rate == Some(0u32) ==> s.frame_rate == 1,
        cli.frame_rate is Some && cli.frame_rate->0 > 240 ==> s.frame_rate == 240,
{
}

/// The font is what was read from the file that is named for it.
pub proof fn the_font_is_what_was_read(
    cli: Cli,
    env: Env,
    file: FileConfig,
    reads: Reads,
    all: Seq<Seq<char>>,
    fresh_seed: u64,
    s: SettingsView,
)
    requires
        resolved(cli, env, file, reads, all, fresh_seed) == Ok::<SettingsView, ConfigFault>(s),
        all_read(cli, env, file, reads),
    ensures
        cli.font is Some || file.font is Some ==> reads.font is Some && reads.font->0 is Ok
            && s.font == Some(reads.font->0->Ok_0@),
        cli.font is Some ==> font_place(cli, file) == Some(cli.font->0@),
        cli.font is None && file.font is Some ==> font_place(cli, file) == Some(file.font->0@),
        cli.font is None && file.font is None ==> font_place(cli, file) is None,
{
}

/// The lock lives in the runtime directory, where there is one.
pub proof fn the_lock_lives_in_the_runtime_directory(
    cli: Cli,
    env: Env,
    file: FileConfig,
    reads: Reads,
    all: Seq<Seq<char>>,
    fresh_seed: u64,
    s: SettingsView,
)
    requires
        resolved(cli, env, file, reads, all, fresh_seed) == Ok::<SettingsView, ConfigFault>(s),
    ensures
        env.runtime_dir is None ==> s.lock_path is None,
        env.runtime_dir is Some ==> s.lock_path == Some(
            inside(env.runtime_dir->0@, encode_utf8("nirisaver.lock"@)),
        ),
{
}

/// The configuration lives in a directory of its own: under the config home
/// where one is set, else under `.config` at home.
pub proof fn the_configuration_has_a_directory(env: Env)
    ensures
        env.config_home is Some ==> config_home(env) == Some(
            inside(env.config_home->0@, encode_utf8("nirisaver"@)),
        ),
        env.config_home is None && env.home is Some ==> config_home(env) == Some(
            inside(
                inside(env.home->0@, encode_utf8(".config"@)),
                encode_utf8("nirisaver"@),
            ),
        ),
        env.config_home is None && env.home is None ==> config_home(env) is None,
{
}

/// An empty variable counts as unset, and any other is taken as it is.
pub proof fn an_empty_variable_counts_as_unset(var: FilePath)
    ensures
        var.bytes@.len() == 0 ==> path_set(Some(var)) is None,
        var.bytes@.len() > 0 ==> path_set(Some(var)) == Some(var.bytes@),
        path_set(None) is None,
{
}

/// The config file that is read: none where there is to be no configuration,
/// else the one that is named, else the one in the config directory.
pub proof fn a_named_config_file_comes_before_the_default(cli: Cli, env: Env)
    ensures
        cli.no_config ==> config_place(cli, env) is Nothing && dir_in_play(cli, env) is None,
        !cli.no_config && cli.config is Some ==> config_place(cli, env) == ConfigPlace::Named(
            cli.config->0@,
        ),
        !cli.no_config && cli.config is None && env.config_home is Some ==> config_place(cli, env)
            == ConfigPlace::Default(
            inside(
                inside(env.config_home->0@, encode_utf8("nirisaver"@)),
                encode_utf8("config.toml"@),
            ),
        ),
        !cli.no_config && cli.config is None && env.config_home is None && env.home is Some
            ==> config_place(cli, env) == ConfigPlace::Default(
            inside(
                inside(
                    inside(env.home->0@, encode_utf8(".config"@)),
                    encode_utf8("nirisaver"@),
                ),
                encode_utf8("config.toml"@),
            ),
        ),
        !cli.no_config && cli.config is None && env.config_home is None && env.home is None
            ==> config_place(cli, env) is Nothing,
{
}

/// A text is animated as it is given: inline before a file, and the file as it
/// reads.
pub proof fn a_text_is_animated_as_it_is_given(
    cli: Cli,
    env: Env,
    file: FileConfig,
    reads: Reads,
    all: Seq<Seq<char>>,
    fresh_seed: u64,
    s: SettingsView,
)
    requires
        resolved(cli, env, file, reads, all, fresh_seed) == Ok::<SettingsView, ConfigFault>(s),
        all_read(cli, env, file, reads),
        cli.source is Some ==> cli.source->0@ == seq!['t', 'e', 'x', 't'],
        cli.source is None ==> file.source is None,
    ensures
        cli.text is Some ==> s.content == ContentView::Text(cli.text->0@),
        cli.text is None && file.text is Some ==> s.content == ContentView::Text(file.text->0@),
        cli.text is None && file.text is None && (cli.text_file is Some || file.text_file is Some)
            ==> reads.content is Some && reads.content->0 is Ok && s.content == ContentView::Text(
            reads.content->0->Ok_0@,
        ),
{
    reveal_strlit("text");
    assert("text"@ =~= seq!['t', 'e', 'x', 't']);
}

/// Quotes are read off their list, with the separator that is given for it or
/// else a long dash between spaces; a list that someone named has to be there
/// and has to hold one, and the default list need not.
pub proof fn quotes_are_read_off_their_list(
    cli: Cli,
    env: Env,
    file: FileConfig,
    reads: Reads,
    all: Seq<Seq<char>>,
    fresh_seed: u64,
    s: SettingsView,
)
    requires
        resolved(cli, env, file, reads, all, fresh_seed) == Ok::<SettingsView, ConfigFault>(s),
        all_read(cli, env, file, reads),
        cli.source is Some ==> cli.source->0@ == seq!['q', 'u', 'o', 't', 'e', 's'],
        cli.source is None ==> file.source is None && cli.text is None && file.text is None
            && cli.text_file is None && file.text_file is None,
    ensures
        ({
            let separator = match (cli.separator, file.separator) {
                (Some(separator), _) => separator@,
                (None, Some(separator)) => separator@,
                (None, None) => seq![' ', '\u{2014}', ' '],
            };
            let named = cli.quotes is Some || file.quotes is Some;
            let asked = named || (!cli.no_config && (env.config_home is Some || env.home
                is Some));
            let quotes = quotes_on(chars::lines(reads.content->0->Ok_0@), separator);
            let builtin = ContentView::Text(
                seq!['n', 'i', 'r', 'i', 's', 'a', 'v', 'e', 'r'],
            );
            &&& named ==> reads.content is Some && reads.content->0 is Ok && quotes.len() > 0
                && s.content == ContentView::Quotes(quotes)
            &&& !named && asked && reads.content is Some && reads.content->0 is Ok && quotes.len()
                > 0 ==> s.content == ContentView::Quotes(quotes)
            &&& !named && asked && reads.content is Some && reads.content->0 is Ok && quotes.len()
                == 0 ==> s.content == builtin
            &&& !named && (!asked || reads.content is None || reads.content->0 is Err)
                ==> s.content == builtin
        }),
{
    reveal_strlit("text");
    reveal_strlit("quotes");
    reveal_strlit(" \u{2014} ");
    reveal_strlit("nirisaver");
    assert("text"@.len() != "quotes"@.len());
    assert("quotes"@ =~= seq!['q', 'u', 'o', 't', 'e', 's']);
    assert(DEFAULT_SEPARATOR@ =~= seq![' ', '\u{2014}', ' ']);
    assert(BUILTIN_TEXT@ =~= seq!['n', 'i', 'r', 'i', 's', 'a', 'v', 'e', 'r']);
}

/// The file that is asked for is the one that is named for what is animated,
/// or the quote list in the config directory.
pub proof fn the_file_asked_for_is_the_one_named(cli: Cli, env: Env, file: FileConfig)
    requires
        cli.source is None,
        file.source is None,
    ensures
        ({
            let asked = origin_path(content_origin(cli, file, dir_in_play(cli, env)));
            let text = cli.text is Some || file.text is Some;
            let text_file = cli.text_file is Some || file.text_file is Some;
            &&& text ==> asked is None
            &&& !text && cli.text_file is Some ==> asked == Some(cli.text_file->0@)
            &&& !text && cli.text_file is None && file.text_file is Some ==> asked == Some(
                file.text_file->0@,
            )
            &&& !text && !text_file && cli.quotes is Some ==> asked == Some(cli.quotes->0@)
            &&& !text && !text_file && cli.quotes is None && file.quotes is Some ==> asked == Some(
                file.quotes->0@,
            )
            &&& !text && !text_file && cli.quotes is None && file.quotes is None ==> match config_home(
                env,
            ) {
                Some(dir) => if cli.no_config {
                    asked is None
                } else {
                    asked == Some(inside(dir, encode_utf8("quotes.txt"@)))
                },
                None => asked is None,
            }
        }),
{
    reveal_strlit("text");
    reveal_strlit("quotes");
    assert("text"@.len() != "quotes"@.len());
}

/// Whether nothing is wrong with a colour.
pub open spec fn no_bad_color(flag: Option<String>, key: Option<String>) -> bool {
    match (flag, key) {
        (Some(hex), _) => hex_color(hex@) is Some,
        (None, Some(hex)) => hex_color(hex@) is Some,
        (None, None) => true,
    }
}

/// A colour that is none is complained about, the background's before anything
/// else and the foreground's next, each with the text that was given for it.
pub proof fn a_colour_that_is_none_is_complained_about(
    cli: Cli,
    env: Env,
    file: FileConfig,
    reads: Reads,
    all: Seq<Seq<char>>,
    fresh_seed: u64,
)
    ensures
        ({
            let r = resolved(cli, env, file, reads, all, fresh_seed);
            &&& !no_bad_color(cli.background, file.background) ==> r == Err::<
                SettingsView,
                ConfigFault,
            >(
                ConfigFault::Background {
                    hex: if cli.background is Some {
                        cli.background->0@
                    } else {
                        file.background->0@
                    },
                },
            )
            &&& no_bad_color(cli.background, file.background) && !no_bad_color(
                cli.foreground,
                file.foreground,
            ) ==> r == Err::<SettingsView, ConfigFault>(
                ConfigFault::Foreground {
                    hex: if cli.foreground is Some {
                        cli.foreground->0@
                    } else {
                        file.foreground->0@
                    },
                },
            )
            &&& r is Ok ==> no_bad_color(cli.background, file.background) && no_bad_color(
                cli.foreground,
                file.foreground,
            )
        }),
{
}

/// An effect that nothing is known of is complained about, once the colours
/// are in order.
pub proof fn a_bad_choice_of_effects_is_complained_about(
    cli: Cli,
    env: Env,
    file: FileConfig,
    reads: Reads,
    all: Seq<Seq<char>>,
    fresh_seed: u64,
)
    requires
        no_bad_color(cli.background, file.background),
        no_bad_color(cli.foreground, file.foreground),
    ensures
        ({
            let r = resolved(cli, env, file, reads, all, fresh_seed);
            let pinned = if cli.effect is Some {
                cli.effect->0@
            } else {
                file.effect->0@
            };
            &&& (cli.effect is Some || file.effect is Some) && !all.contains(pinned) ==> r == Err::<
                SettingsView,
                ConfigFault,
            >(
                ConfigFault::Effects(
                    EffectFault::Unknown {
                        name: pinned,
                        option: EffectOption::Effect,
                        available: all,
                    },
                ),
            )
            &&& cli.effect is None && file.effect is None && (cli.include_effects@.len() > 0
                || file.include_effects is None) && (cli.exclude_effects@.len() > 0
                || file.exclude_effects is None) ==> match pool_of(
                None,
                strings(cli.include_effects@),
                strings(cli.exclude_effects@),
                all,
            ) {
                Ok(_) => r is Ok || !(r->Err_0 is Effects),
                Err(fault) => r == Err::<SettingsView, ConfigFault>(ConfigFault::Effects(fault)),
            }
        }),
{
    if cli.include_effects@.len() == 0 {
        assert(strings(cli.include_effects@) =~= Seq::<Seq<char>>::empty());
    }
    if cli.exclude_effects@.len() == 0 {
        assert(strings(cli.exclude_effects@) =~= Seq::<Seq<char>>::empty());
    }
}

/// What is wrong with a font or with what is to be animated is complained
/// about last: the file that could not be read, the list that holds no quotes,
/// the source there is none of. Nothing else stands in the way.
pub proof fn a_file_that_is_no_use_is_complained_about(
    cli: Cli,
    env: Env,
    file: FileConfig,
    reads: Reads,
    all: Seq<Seq<char>>,
    fresh_seed: u64,
)
    requires
        no_bad_color(cli.background, file.background),
        no_bad_color(cli.foreground, file.foreground),
        cli.effect is Some,
        all.contains(cli.effect->0@),
        all_read(cli, env, file, reads),
    ensures
        ({
            let r = resolved(cli, env, file, reads, all, fresh_seed);
            let font = cli.font is Some || file.font is Some;
            let font_path = if cli.font is Some {
                cli.font->0@
            } else {
                file.font->0@
            };
            let good_font = font ==> reads.font->0 is Ok;
            let text = cli.text is Some || file.text is Some;
            let text_file = cli.text_file is Some || file.text_file is Some;
            let text_path = if cli.text_file is Some {
                cli.text_file->0@
            } else {
                file.text_file->0@
            };
            let list = cli.quotes is Some || file.quotes is Some;
            let list_path = if cli.quotes is Some {
                cli.quotes->0@
            } else {
                file.quotes->0@
            };
            let separator = match (cli.separator, file.separator) {
                (Some(separator), _) => separator@,
                (None, Some(separator)) => separator@,
                (None, None) => seq![' ', '\u{2014}', ' '],
            };
            let source = cli.source->0@;
            &&& !good_font ==> r == Err::<SettingsView, ConfigFault>(
                ConfigFault::ReadingFont { path: font_path, cause: reads.font->0->Err_0.cause@ },
            )
            &&& good_font && cli.source is Some && source == seq!['t', 'e', 'x', 't'] && text
                ==> r is Ok
            &&& good_font && cli.source is Some && source == seq!['t', 'e', 'x', 't'] && !text
                && text_file && reads.content->0 is Ok ==> r is Ok
            &&& good_font && cli.source is Some && source == seq!['t', 'e', 'x', 't'] && !text
                && text_file && reads.content->0 is Err ==> r == Err::<SettingsView, ConfigFault>(
                ConfigFault::ReadingText {
                    path: text_path,
                    cause: reads.content->0->Err_0.cause@,
                },
            )
            &&& good_font && cli.source is Some && source == seq!['t', 'e', 'x', 't'] && !text
                && !text_file ==> r == Err::<SettingsView, ConfigFault>(ConfigFault::NoText)
            &&& good_font && cli.source is Some && source == seq!['q', 'u', 'o', 't', 'e', 's']
                && list && reads.content->0 is Err ==> r == Err::<SettingsView, ConfigFault>(
                ConfigFault::ReadingQuotes {
                    path: list_path,
                    cause: reads.content->0->Err_0.cause@,
                },
            )
            &&& good_font && cli.source is Some && source == seq!['q', 'u', 'o', 't', 'e', 's']
                && list && reads.content->0 is Ok ==> if quotes_on(
                chars::lines(reads.content->0->Ok_0@),
                separator,
            ).len() == 0 {
                r == Err::<SettingsView, ConfigFault>(ConfigFault::NoQuotes { path: list_path })
            } else {
                r is Ok
            }
            &&& good_font && cli.source is Some && source == seq!['q', 'u', 'o', 't', 'e', 's']
                && !list ==> r is Ok
            &&& good_font && cli.source is Some && source != seq!['t', 'e', 'x', 't'] && source
                != seq!['q', 'u', 'o', 't', 'e', 's'] ==> r == Err::<SettingsView, ConfigFault>(
                ConfigFault::UnknownSource { source },
            )
        }),
{
    reveal_strlit("text");
    reveal_strlit("quotes");
    reveal_strlit(" \u{2014} ");
    assert("text"@ =~= seq!['t', 'e', 'x', 't']);
    assert("quotes"@ =~= seq!['q', 'u', 'o', 't', 'e', 's']);
    assert("text"@.len() != "quotes"@.len());
    assert(DEFAULT_SEPARATOR@ =~= seq![' ', '\u{2014}', ' ']);
}

/// A hexadecimal digit is worth as much in either case.
pub proof fn a_digit_is_worth_as_much_in_either_case(d: int)
    requires
        0 <= d < 16,
    ensures
        d < 10 ==> hex_value((48 + d) as char) == Some(d),
        d >= 10 ==> hex_value((97 + d - 10) as char) == Some(d),
        d >= 10 ==> hex_value((65 + d - 10) as char) == Some(d),
{
}

/// A colour has two digits a channel, the higher first, red before green
/// before blue.
pub proof fn a_colour_has_two_digits_a_channel(digits: Seq<char>, values: Seq<int>)
    requires
        digits.len() == 6,
        values.len() == 6,
        forall|i: int| 0 <= i < 6 ==> hex_value(#[trigger] digits[i]) == Some(values[i]),
    ensures
        hex_color(digits) is Some,
        hex_color(digits)->0[0] == 16 * values[0] + values[1],
        hex_color(digits)->0[1] == 16 * values[2] + values[3],
        hex_color(digits)->0[2] == 16 * values[4] + values[5],
{
    assert(hex_value(digits[0]) is Some && hex_value(digits[1]) is Some && hex_value(digits[2])
        is Some && hex_value(digits[3]) is Some && hex_value(digits[4]) is Some && hex_value(
        digits[5],
    ) is Some);
    assert(digits[0] != '#');
    assert(six_digits(digits));
}

/// What is not six hexadecimal digits is no colour: too few, too many, another
/// character among them.
pub proof fn what_is_not_six_digits_is_no_colour(s: Seq<char>, i: int)
    requires
        s.len() == 0 || s[0] != '#',
        s.len() != 6 || (0 <= i < 6 && !('0' <= s[i] <= '9' || 'a' <= s[i] <= 'f' || 'A' <= s[i]
            <= 'F')),
    ensures
        hex_color(s) is None,
        hex_color(seq!['#'] + s) is None,
{
    colours_parse_with_or_without_the_hash(s);
    if s.len() == 6 {
        assert(hex_value(s[i]) is None);
    }
}

/// What is said of a file names it, and says why.
pub proof fn a_complaint_about_a_file_names_it(path: Seq<u8>, cause: Seq<char>)
    ensures
        config_message(ConfigFault::ReadingConfig { path, cause }) == "reading config "@ + lossy(
            path,
        ) + ": "@ + cause,
        config_message(ConfigFault::ParsingConfig { path, cause }) == "parsing config "@ + lossy(
            path,
        ) + ": "@ + cause,
        config_message(ConfigFault::ReadingFont { path, cause }) == "reading font "@ + lossy(path)
            + ": "@ + cause,
        config_message(ConfigFault::ReadingText { path, cause }) == "reading text file "@ + lossy(
            path,
        ) + ": "@ + cause,
        config_message(ConfigFault::ReadingQuotes { path, cause }) == "reading quotes "@ + lossy(
            path,
        ) + ": "@ + cause,
        config_message(ConfigFault::NoQuotes { path }) == lossy(path) + " contains no quotes"@,
{
}

/// What is said of a flag or a key names it, and shows what was given for it.
pub proof fn a_complaint_about_a_flag_shows_its_value(given: Seq<char>, fault: EffectFault)
    ensures
        config_message(ConfigFault::Background { hex: given }) == "background: "@ + (quoted(given)
            + " is not a #rrggbb colour"@),
        config_message(ConfigFault::Foreground { hex: given }) == "foreground: "@ + (quoted(given)
            + " is not a #rrggbb colour"@),
        config_message(ConfigFault::UnknownSource { source: given }) == "unknown source "@
            + quoted(given) + " (expected \"quotes\" or \"text\")"@,
        config_message(ConfigFault::NoText)
            == "source is \"text\" but neither --text nor --text-file was given"@,
        config_message(ConfigFault::Effects(fault)) == effect_message(fault),
{
}

/// The pool of a choice that came to one holds what is drawn from and not left
/// out.
proof fn lemma_pool_members(
    included: Seq<Seq<char>>,
    exclude: Seq<Seq<char>>,
    all: Seq<Seq<char>>,
    name: Seq<char>,
)
    ensures
        match pool_of(None, included, exclude, all) {
            Ok(pool) => {
                let drawn_from = if included.len() > 0 {
                    included
                } else {
                    all
                };
                pool.contains(name) <==> drawn_from.contains(name) && !exclude.contains(name)
            },
            Err(_) => true,
        },
{
    if pool_of(None, included, exclude, all) is Ok {
        assert forall|i: int| 0 <= i < included.len() implies all.contains(
            #[trigger] included[i],
        ) by {
            lemma_all_known(included, all, i);
        }
        assert forall|i: int| 0 <= i < exclude.len() implies all.contains(
            #[trigger] exclude[i],
        ) by {
            lemma_all_known(exclude, all, i);
        }
        a_pool_holds_what_is_drawn_from_and_not_left_out(included, exclude, all, name);
    }
}

/// What is said of settings is what their fields hold.
pub proof fn settings_say_what_they_hold(s: Settings)
    ensures
        s@.content == s.content@,
        s@.measure == s.measure@,
        s@.hold == s.hold,
        s@.fade_in == s.fade_in,
        s@.fade_out == s.fade_out,
        s@.frame_rate == s.frame_rate,
        s@.effects == strings(s.effects@),
        s.font is Some ==> s@.font == Some(s.font->0@),
        s.font is None ==> s@.font is None,
        s@.background == s.background,
        s@.foreground == s.foreground,
        s@.seed == s.seed,
        s.lock_path is Some ==> s@.lock_path == Some(s.lock_path->0@),
        s.lock_path is None ==> s@.lock_path is None,
{
}

/// What is said of a place or of a plan is what it holds, and a plan's file is
/// the one it holds.
pub proof fn a_plan_says_what_it_holds(path: FilePath, text: String)
    ensures
        ConfigSource::Nothing@ == ConfigPlace::Nothing,
        ConfigSource::Named(path)@ == ConfigPlace::Named(path@),
        ConfigSource::Default(path)@ == ConfigPlace::Default(path@),
        ContentPlan::Text(text)@ == ContentOrigin::Text(text@),
        ContentPlan::TextFile(path)@ == ContentOrigin::TextFile(path@),
        ContentPlan::NoText@ == ContentOrigin::NoText,
        ContentPlan::Quotes(path)@ == ContentOrigin::Quotes(path@),
        ContentPlan::DefaultQuotes(Some(path))@ == ContentOrigin::DefaultQuotes(Some(path@)),
        ContentPlan::DefaultQuotes(None)@ == ContentOrigin::DefaultQuotes(None),
        ContentPlan::Unknown(text)@ == ContentOrigin::Unknown(text@),
        origin_path(ContentPlan::TextFile(path)@) == Some(path@),
        origin_path(ContentPlan::Quotes(path)@) == Some(path@),
        origin_path(ContentPlan::DefaultQuotes(Some(path))@) == Some(path@),
        origin_path(ContentPlan::DefaultQuotes(None)@) is None,
        origin_path(ContentPlan::Text(text)@) is None,
        origin_path(ContentPlan::NoText@) is None,
        origin_path(ContentPlan::Unknown(text)@) is None,
{
}

/// What is said of an error is what it holds.
pub proof fn a_config_error_says_what_it_holds(path: FilePath, text: String, fault: EffectError)
    ensures
        (ConfigError::ReadingConfig { path, cause: text })@ == (ConfigFault::ReadingConfig {
            path: path@,
            cause: text@,
        }),
        (ConfigError::ParsingConfig { path, cause: text })@ == (ConfigFault::ParsingConfig {
            path: path@,
            cause: text@,
        }),
        (ConfigError::Background { hex: text })@ == (ConfigFault::Background { hex: text@ }),
        (ConfigError::Foreground { hex: text })@ == (ConfigFault::Foreground { hex: text@ }),
        ConfigError::Effects(fault)@ == ConfigFault::Effects(fault@),
        (ConfigError::ReadingFont { path, cause: text })@ == (ConfigFault::ReadingFont {
            path: path@,
            cause: text@,
        }),
        (ConfigError::ReadingText { path, cause: text })@ == (ConfigFault::ReadingText {
            path: path@,
            cause: text@,
        }),
        ConfigError::NoText@ == ConfigFault::NoText,
        (ConfigError::ReadingQuotes { path, cause: text })@ == (ConfigFault::ReadingQuotes {
            path: path@,
            cause: text@,
        }),
        (ConfigError::NoQuotes { path })@ == (ConfigFault::NoQuotes { path: path@ }),
        (ConfigError::UnknownSource { source: text })@ == (ConfigFault::UnknownSource {
            source: text@,
        }),
{
}

/// The built-in settings, in numbers.
pub proof fn the_builtin_settings_are_these(all: Seq<Seq<char>>)
    ensures
        ({
            let s = builtin_settings(all);
            &&& s.content == ContentView::Text(
                seq!['n', 'i', 'r', 'i', 's', 'a', 'v', 'e', 'r'],
            )
            &&& s.measure.width == 64
            &&& s.measure.align is Center
            &&& s.measure.attribution_prefix == seq!['\u{2014}', ' ']
            &&& s.hold == 14_000
            &&& s.fade_in == 700
            &&& s.fade_out == 250
            &&& s.frame_rate == 30
            &&& s.effects == all
            &&& s.font is None
            &&& s.background == [0u8, 0, 0]
            &&& s.foreground == [235u8, 235, 235]
            &&& s.seed == 0
            &&& s.lock_path is None
        }),
{
    reveal_strlit("nirisaver");
    reveal_strlit("\u{2014} ");
    assert(BUILTIN_TEXT@ =~= seq!['n', 'i', 'r', 'i', 's', 'a', 'v', 'e', 'r']);
    assert(DEFAULT_ATTRIBUTION_PREFIX@ =~= seq!['\u{2014}', ' ']);
}

/// One hash is taken off and no more: what stands behind it has to be the six
/// digits.
pub proof fn only_one_hash_is_taken_off(s: Seq<char>)
    ensures
        hex_color(seq!['#'] + s) is Some ==> s.len() == 6 && forall|i: int|
            0 <= i < 6 ==> '0' <= #[trigger] s[i] <= '9' || 'a' <= s[i] <= 'f' || 'A' <= s[i]
                <= 'F',
{
    assert((seq!['#'] + s).skip(1) =~= s);
    if hex_color(seq!['#'] + s) is Some {
        assert forall|i: int| 0 <= i < 6 implies '0' <= #[trigger] s[i] <= '9' || 'a' <= s[i]
            <= 'f' || 'A' <= s[i] <= 'F' by {
            assert(hex_value(s[i]) is Some);
        }
    }
}

} // verus!
