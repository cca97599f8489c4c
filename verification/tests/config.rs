//! Flags, config files and what they come to.

use nirisaver::cli::{Cli, HeadlessSize};
use nirisaver::config::{
    config_dir_in_play, config_source, content_path, font_path, load_file_config, parse_hex,
    plan_content, resolve, ConfigError, ConfigOutcome, ConfigSource, Env, FileConfig, ReadFailure,
    Reads, Settings, BUILTIN_TEXT, DEFAULT_HOLD_MS, DEFAULT_SEPARATOR,
};
use nirisaver::engine::EffectError;
use nirisaver::paths::FilePath;
use nirisaver::text::{Align, Content, Quote};

/// The files of a machine: a name and what it holds.
struct Files(Vec<(String, String)>);

impl Files {
    fn none() -> Files {
        Files(Vec::new())
    }

    fn with(name: &str, body: &str) -> Files {
        Files(vec![(name.to_string(), body.to_string())])
    }

    fn read(&self, path: &FilePath) -> Result<String, ReadFailure> {
        let name = path.display();
        match self.0.iter().find(|(n, _)| *n == name) {
            Some((_, body)) => Ok(body.clone()),
            None => Err(ReadFailure { missing: true, cause: "No such file".to_string() }),
        }
    }
}

fn env() -> Env {
    Env {
        config_home: Some(FilePath::new("/scratch")),
        home: Some(FilePath::new("/home/someone")),
        runtime_dir: Some(FilePath::new("/scratch")),
    }
}

fn effects() -> Vec<String> {
    ["beams", "matrix", "print", "rain"].iter().map(|s| s.to_string()).collect()
}

/// Resolve as the program does: the config file, then the files it names.
fn settle(
    cli: &Cli,
    env: &Env,
    files: &Files,
    parsed: Option<FileConfig>,
) -> Result<Settings, ConfigError> {
    let source = config_source(cli, env);
    let outcome = match &source {
        ConfigSource::Nothing => None,
        ConfigSource::Named(path) | ConfigSource::Default(path) => Some(match parsed {
            Some(file) => ConfigOutcome::Parsed(file),
            None => match files.read(path) {
                Ok(_) => ConfigOutcome::Malformed("unknown field".to_string()),
                Err(e) => ConfigOutcome::Failed(e),
            },
        }),
    };
    let file = load_file_config(&source, outcome)?;
    let font = font_path(cli, &file).map(|p| files.read(&p).map(String::into_bytes));
    let plan = plan_content(cli, &file, &config_dir_in_play(cli, env));
    let content = content_path(&plan).map(|p| files.read(&p));
    resolve(cli, env, &file, Reads { font, content }, &effects(), 42)
}

fn path(name: &str) -> Option<FilePath> {
    Some(FilePath::new(name))
}

fn text(s: &str) -> Option<String> {
    Some(s.to_string())
}

#[test]
fn builtin_settings_touch_nothing() {
    // The property the benchmark depends on: identical everywhere,
    // whatever is or is not in the user's config directory.
    let a = Settings::builtin(effects());
    let b = Settings::builtin(effects());
    assert_eq!(a, b);
    assert_eq!(a.content, Content::Text(BUILTIN_TEXT.to_string()));
    assert_eq!(a.font, None);
    assert_eq!(a.seed, 0);
    assert_eq!(a.lock_path, None);
}

#[test]
fn an_absent_config_is_not_an_error() {
    let settings = settle(&Cli::default(), &env(), &Files::none(), None).unwrap();
    assert_eq!(settings.hold, DEFAULT_HOLD_MS);
}

#[test]
fn a_named_config_that_is_missing_is_an_error() {
    let cli = Cli { config: path("/nonexistent/nirisaver.toml"), ..Cli::default() };
    let err = settle(&cli, &env(), &Files::none(), None).unwrap_err().message();
    assert!(err.contains("nirisaver.toml"), "{err}");
    assert_eq!(err, "reading config /nonexistent/nirisaver.toml: No such file");
}

#[test]
fn the_config_file_sets_everything_the_flags_do() {
    let file = FileConfig {
        source: text("text"),
        text: text("from the file"),
        align: Some(Align::Left),
        wrap: Some(33),
        hold: Some(1234),
        fade_in: Some(10),
        fade_out: Some(20),
        frame_rate: Some(45),
        effect: text("matrix"),
        background: text("#101112"),
        foreground: text("#a0b0c0"),
        seed: Some(77),
        ..FileConfig::default()
    };
    let s = settle(&Cli::default(), &env(), &Files::none(), Some(file)).unwrap();
    assert_eq!(s.content, Content::Text("from the file".into()));
    assert_eq!(s.measure.align, Align::Left);
    assert_eq!(s.measure.width, 33);
    assert_eq!(s.hold, 1234);
    assert_eq!(s.fade_in, 10);
    assert_eq!(s.fade_out, 20);
    assert_eq!(s.frame_rate, 45);
    assert_eq!(s.effects, vec!["matrix".to_string()]);
    assert_eq!(s.background, [0x10, 0x11, 0x12]);
    assert_eq!(s.foreground, [0xa0, 0xb0, 0xc0]);
    assert_eq!(s.seed, 77);
}

#[test]
fn flags_override_the_file() {
    let file = FileConfig { hold: Some(1000), wrap: Some(20), ..FileConfig::default() };
    let cli = Cli { hold: Some(5), ..Cli::default() };
    let s = settle(&cli, &env(), &Files::none(), Some(file)).unwrap();
    assert_eq!(s.hold, 5);
    assert_eq!(s.measure.width, 20, "unmentioned keys keep the file's value");
}

#[test]
fn no_config_ignores_the_file() {
    let file = FileConfig { hold: Some(1000), ..FileConfig::default() };
    let cli = Cli { no_config: true, ..Cli::default() };
    let s = settle(&cli, &env(), &Files::none(), Some(file)).unwrap();
    assert_eq!(s.hold, DEFAULT_HOLD_MS);
}

#[test]
fn no_config_ignores_the_default_quote_list_too() {
    // The flag exists to make a run reproducible, and a run that still
    // read the machine's quote list would not be.
    let files = Files::with("/scratch/nirisaver/quotes.txt", "One. — A\nTwo. — B\n");
    let cli = Cli { no_config: true, ..Cli::default() };
    let s = settle(&cli, &env(), &files, None).unwrap();
    assert_eq!(s.content, Content::Text(BUILTIN_TEXT.to_string()));
}

#[test]
fn no_config_still_honours_an_explicitly_named_quote_list() {
    // Naming a file is not reading the config directory.
    let files = Files::with("/scratch/nirisaver/elsewhere.txt", "Named. — Someone\n");
    let cli = Cli {
        no_config: true,
        quotes: path("/scratch/nirisaver/elsewhere.txt"),
        ..Cli::default()
    };
    let s = settle(&cli, &env(), &files, None).unwrap();
    match s.content {
        Content::Quotes(q) => assert_eq!(q.len(), 1),
        other => panic!("expected quotes, got {other:?}"),
    }
}

#[test]
fn an_unknown_key_is_reported_rather_than_ignored() {
    let files = Files::with("/scratch/nirisaver/config.toml", "holdd = 1000\n");
    let err = settle(&Cli::default(), &env(), &files, None).unwrap_err().message();
    assert!(err.contains("parsing config"), "{err}");
    assert_eq!(err, "parsing config /scratch/nirisaver/config.toml: unknown field");
}

#[test]
fn the_default_quote_list_turns_quotes_on_by_itself() {
    let files = Files::with(
        "/scratch/nirisaver/quotes.txt",
        "# a list\n\nOne thing. — Someone\nAnother. — Nobody\n",
    );
    let s = settle(&Cli::default(), &env(), &files, None).unwrap();
    match s.content {
        Content::Quotes(q) => assert_eq!(q.len(), 2),
        other => panic!("expected quotes, got {other:?}"),
    }
}

#[test]
fn an_absent_default_quote_list_falls_back_rather_than_failing() {
    let s = settle(&Cli::default(), &env(), &Files::none(), None).unwrap();
    assert_eq!(s.content, Content::Text(BUILTIN_TEXT.to_string()));
}

#[test]
fn an_empty_default_quote_list_falls_back_too() {
    let files = Files::with("/scratch/nirisaver/quotes.txt", "# nothing\n");
    let s = settle(&Cli::default(), &env(), &files, None).unwrap();
    assert_eq!(s.content, Content::Text(BUILTIN_TEXT.to_string()));
}

#[test]
fn a_named_quote_list_that_is_missing_is_an_error() {
    let cli = Cli { quotes: path("/nonexistent/quotes.txt"), ..Cli::default() };
    let err = settle(&cli, &env(), &Files::none(), None).unwrap_err().message();
    assert!(err.contains("quotes.txt"), "{err}");
    assert_eq!(err, "reading quotes /nonexistent/quotes.txt: No such file");
}

#[test]
fn a_named_quote_list_without_quotes_is_an_error() {
    let files = Files::with("/q", "# only a comment\n");
    let cli = Cli { quotes: path("/q"), ..Cli::default() };
    let err = settle(&cli, &env(), &files, None).unwrap_err();
    assert_eq!(err, ConfigError::NoQuotes { path: FilePath::new("/q") });
    assert_eq!(err.message(), "/q contains no quotes");
}

#[test]
fn the_separator_is_configurable_end_to_end() {
    let files = Files::with("/scratch/nirisaver/quotes.txt", "A thought :: Someone\n");
    let file = FileConfig { separator: text(" :: "), ..FileConfig::default() };
    let s = settle(&Cli::default(), &env(), &files, Some(file)).unwrap();
    match s.content {
        Content::Quotes(q) => assert_eq!(q[0].attribution.as_deref(), Some("Someone")),
        other => panic!("expected quotes, got {other:?}"),
    }
}

#[test]
fn naming_a_text_implies_the_text_source() {
    let files = Files::with("/scratch/nirisaver/quotes.txt", "A — B\n");
    let cli = Cli { text: text("just this"), ..Cli::default() };
    let s = settle(&cli, &env(), &files, None).unwrap();
    assert_eq!(s.content, Content::Text("just this".into()));
}

#[test]
fn a_text_file_is_read() {
    let files = Files::with("/t", "a block\n");
    let cli = Cli { text_file: path("/t"), ..Cli::default() };
    let s = settle(&cli, &env(), &files, None).unwrap();
    assert_eq!(s.content, Content::Text("a block\n".into()));
    let err = settle(&cli, &env(), &Files::none(), None).unwrap_err().message();
    assert_eq!(err, "reading text file /t: No such file");
}

#[test]
fn a_text_source_with_no_text_is_an_error() {
    let cli = Cli { source: text("text"), ..Cli::default() };
    let err = settle(&cli, &env(), &Files::none(), None).unwrap_err().message();
    assert!(err.contains("--text"), "{err}");
    assert_eq!(err, "source is \"text\" but neither --text nor --text-file was given");
}

#[test]
fn an_unknown_source_is_an_error() {
    let file = FileConfig { source: text("poems"), ..FileConfig::default() };
    let err = settle(&Cli::default(), &env(), &Files::none(), Some(file)).unwrap_err();
    assert_eq!(err.message(), "unknown source \"poems\" (expected \"quotes\" or \"text\")");
}

#[test]
fn effect_filters_come_from_either_place() {
    let filters = || FileConfig {
        exclude_effects: Some(vec!["matrix".to_string()]),
        ..FileConfig::default()
    };
    let s = settle(&Cli::default(), &env(), &Files::none(), Some(filters())).unwrap();
    assert!(!s.effects.contains(&"matrix".to_string()));
    let cli = Cli {
        include_effects: vec!["beams".to_string(), "rain".to_string()],
        ..Cli::default()
    };
    let s = settle(&cli, &env(), &Files::none(), Some(filters())).unwrap();
    assert_eq!(s.effects, vec!["beams".to_string(), "rain".to_string()]);
}

#[test]
fn a_bad_effect_is_refused() {
    let cli = Cli { exclude_effects: effects(), ..Cli::default() };
    let err = settle(&cli, &env(), &Files::none(), None).unwrap_err();
    assert_eq!(err, ConfigError::Effects(EffectError::NoneLeft));
    assert_eq!(err.message(), "no effects left after filtering");
}

#[test]
fn a_bad_colour_says_which_one() {
    let cli = Cli { background: text("nope"), foreground: text("#12"), ..Cli::default() };
    let err = settle(&cli, &env(), &Files::none(), None).unwrap_err().message();
    assert!(err.contains("background"), "{err}");
    assert_eq!(err, "background: \"nope\" is not a #rrggbb colour");
    let cli = Cli { foreground: text("#12"), effect: text("nonesuch"), ..Cli::default() };
    let err = settle(&cli, &env(), &Files::none(), None).unwrap_err().message();
    assert_eq!(err, "foreground: \"#12\" is not a #rrggbb colour");
}

#[test]
fn colours_parse_with_or_without_the_hash() {
    assert_eq!(parse_hex("#0a141e").unwrap(), [10, 20, 30]);
    assert_eq!(parse_hex("0A141E").unwrap(), [10, 20, 30]);
    assert!(parse_hex("#fff").is_err());
}

#[test]
fn what_is_no_colour_is_quoted() {
    assert_eq!(parse_hex("##0a141e").unwrap_err(), "\"##0a141e\" is not a #rrggbb colour");
    assert_eq!(parse_hex("0a141\t").unwrap_err(), "\"0a141\\t\" is not a #rrggbb colour");
    assert!(parse_hex("").is_err());
    assert!(parse_hex("+1+2+3").is_err());
    assert!(parse_hex("ééé").is_err());
}

#[test]
fn a_font_is_read_where_one_is_named() {
    let files = Files::with("/f.otf", "glyphs");
    let cli = Cli { font: path("/f.otf"), ..Cli::default() };
    let s = settle(&cli, &env(), &files, None).unwrap();
    assert_eq!(s.font, Some(b"glyphs".to_vec()));
    let err = settle(&cli, &env(), &Files::none(), None).unwrap_err().message();
    assert_eq!(err, "reading font /f.otf: No such file");
}

#[test]
fn the_lock_lives_in_the_runtime_directory() {
    let s = settle(&Cli::default(), &env(), &Files::none(), None).unwrap();
    assert_eq!(s.lock_path, Some(FilePath::new("/scratch/nirisaver.lock")));
}

#[test]
fn an_empty_environment_resolves_to_the_builtin_content() {
    let s = settle(&Cli::default(), &Env::default(), &Files::none(), None).unwrap();
    assert_eq!(s.content, Content::Text(BUILTIN_TEXT.to_string()));
    assert_eq!(s.lock_path, None);
    assert_eq!(s, Settings { seed: 42, ..Settings::builtin(effects()) });
}

#[test]
fn numbers_are_kept_within_bounds() {
    let cli = Cli { wrap: Some(0), frame_rate: Some(0), ..Cli::default() };
    let s = settle(&cli, &Env::default(), &Files::none(), None).unwrap();
    assert_eq!((s.measure.width, s.frame_rate), (1, 1));
    let cli = Cli { frame_rate: Some(1000), seed: Some(3), ..Cli::default() };
    let s = settle(&cli, &Env::default(), &Files::none(), None).unwrap();
    assert_eq!((s.frame_rate, s.seed), (240, 3));
    let a = s.animation(7, 5);
    assert_eq!((a.cols, a.rows, a.frame_rate, a.hold), (7, 5, 240, 14_000));
    assert_eq!(a.effects, s.effects);
    assert_eq!(a.content, s.content);
    assert_eq!(a.default_fg, [235, 235, 235]);
}

#[test]
fn the_config_directory_follows_the_environment() {
    assert_eq!(env().config_dir(), path("/scratch/nirisaver"));
    let home = Env { home: path("/home/someone"), ..Env::default() };
    assert_eq!(home.config_dir(), path("/home/someone/.config/nirisaver"));
    assert_eq!(Env::default().config_dir(), None);
    assert_eq!(FilePath::new("/a/").join("b"), FilePath::new("/a/b"));
    assert_eq!(FilePath::new("").join("b"), FilePath::new("b"));
}

#[test]
fn a_path_that_is_no_text_is_still_shown() {
    let odd = FilePath { bytes: vec![b'/', 0xff, b'q'] };
    assert_eq!(odd.display(), "/\u{fffd}q");
    assert_eq!(odd.clone(), odd);
}

#[test]
fn a_default_config_that_cannot_be_read_is_an_error() {
    let source = ConfigSource::Default(FilePath::new("/c"));
    let denied = ReadFailure { missing: false, cause: "denied".to_string() };
    let err = load_file_config(&source, Some(ConfigOutcome::Failed(denied))).unwrap_err();
    assert_eq!(err.message(), "reading config /c: denied");
}

#[test]
fn the_defaults_are_dashes() {
    assert_eq!(DEFAULT_SEPARATOR, " — ");
    let files = Files::with("/q", "Words — Who\n");
    let cli = Cli { quotes: path("/q"), ..Cli::default() };
    let s = settle(&cli, &env(), &files, None).unwrap();
    assert_eq!(s.measure.attribution_prefix, "— ");
    assert_eq!(
        s.content,
        Content::Quotes(vec![Quote { text: "Words".into(), attribution: text("Who") }])
    );
}

#[test]
fn a_headless_run_has_a_size() {
    assert_eq!(
        Cli::default().headless_size(),
        HeadlessSize { cols: 96, rows: 28, frames: 120 }
    );
    let cli = Cli { cols: Some(0), rows: Some(5), frames: Some(0), ..Cli::default() };
    assert_eq!(cli.headless_size(), HeadlessSize { cols: 1, rows: 5, frames: 0 });
}

#[test]
fn an_empty_variable_counts_as_unset() {
    let env = Env::from_vars(path(""), path("/home/me"), path(""));
    assert_eq!(env, Env { config_home: None, home: path("/home/me"), runtime_dir: None });
    assert_eq!(env.config_dir(), path("/home/me/.config/nirisaver"));
    let env = Env::from_vars(path("/c"), None, path("/run"));
    let set = Env { config_home: path("/c"), home: None, runtime_dir: path("/run") };
    assert_eq!(env, set);
    assert_eq!(env.clone(), env);
}

#[test]
fn settings_copy_whole() {
    let mut settings = Settings::builtin(effects());
    settings.font = Some(vec![1, 2, 3]);
    settings.lock_path = path("/run/lock");
    assert_eq!(settings.clone(), settings);
}
