use vstd::prelude::*;

use crate::error::AppError;

verus! {

#[verifier::external_type_specification]
#[verifier::external_body]
pub struct ExBuiltinConfig(ferrous_opencc::config::BuiltinConfig);

#[verifier::external_type_specification]
#[verifier::external_body]
pub struct ExOpenCC(ferrous_opencc::OpenCC);

/// The conversion modes that the tool accepts, one for each built-in configuration.
#[derive(Clone, Copy, Debug, PartialEq, Eq, Structural)]
pub enum Mode {
    S2t,
    T2s,
    S2tw,
    Tw2s,
    S2hk,
    Hk2s,
    S2twp,
    Tw2sp,
    T2tw,
    Tw2t,
    T2hk,
    Hk2t,
    T2jp,
    Jp2t,
}

/// The name by which a mode is selected.
pub open spec fn mode_name(m: Mode) -> Seq<char> {
    match m {
        Mode::S2t => "s2t"@,
        Mode::T2s => "t2s"@,
        Mode::S2tw => "s2tw"@,
        Mode::Tw2s => "tw2s"@,
        Mode::S2hk => "s2hk"@,
        Mode::Hk2s => "hk2s"@,
        Mode::S2twp => "s2twp"@,
        Mode::Tw2sp => "tw2sp"@,
        Mode::T2tw => "t2tw"@,
        Mode::Tw2t => "tw2t"@,
        Mode::T2hk => "t2hk"@,
        Mode::Hk2t => "hk2t"@,
        Mode::T2jp => "t2jp"@,
        Mode::Jp2t => "jp2t"@,
    }
}

/// The mode that a name selects, if any.
pub open spec fn mode_from_name(name: Seq<char>) -> Option<Mode> {
    if name == "s2t"@ {
        Some(Mode::S2t)
    } else if name == "t2s"@ {
        Some(Mode::T2s)
    } else if name == "s2tw"@ {
        Some(Mode::S2tw)
    } else if name == "tw2s"@ {
        Some(Mode::Tw2s)
    } else if name == "s2hk"@ {
        Some(Mode::S2hk)
    } else if name == "hk2s"@ {
        Some(Mode::Hk2s)
    } else if name == "s2twp"@ {
        Some(Mode::S2twp)
    } else if name == "tw2sp"@ {
        Some(Mode::Tw2sp)
    } else if name == "t2tw"@ {
        Some(Mode::T2tw)
    } else if name == "tw2t"@ {
        Some(Mode::Tw2t)
    } else if name == "t2hk"@ {
        Some(Mode::T2hk)
    } else if name == "hk2t"@ {
        Some(Mode::Hk2t)
    } else if name == "t2jp"@ {
        Some(Mode::T2jp)
    } else if name == "jp2t"@ {
        Some(Mode::Jp2t)
    } else {
        None
    }
}

/// The file name of the built-in configuration that carries out a mode.
pub open spec fn mode_config_file(m: Mode) -> Seq<char> {
    match m {
        Mode::S2t => "s2t.json"@,
        Mode::T2s => "t2s.json"@,
        Mode::S2tw => "s2tw.json"@,
        Mode::Tw2s => "tw2s.json"@,
        Mode::S2hk => "s2hk.json"@,
        Mode::Hk2s => "hk2s.json"@,
        Mode::S2twp => "s2twp.json"@,
        Mode::Tw2sp => "tw2sp.json"@,
        Mode::T2tw => "t2tw.json"@,
        Mode::Tw2t => "tw2t.json"@,
        Mode::T2hk => "t2hk.json"@,
        Mode::Hk2t => "hk2t.json"@,
        Mode::T2jp => "t2jp.json"@,
        Mode::Jp2t => "jp2t.json"@,
    }
}

/// Whether a file name is that of one of the built-in configurations.
pub open spec fn is_builtin_config_file(name: Seq<char>) -> bool {
    exists|m: Mode| #[trigger] mode_config_file(m) == name
}

/// What the conversion engine built from a built-in configuration file makes
/// of a text.
pub uninterp spec fn opencc_output(config_file: Seq<char>, text: Seq<char>) -> Seq<char>;

/// A built-in configuration, together with the file name that selected it.
pub struct Config {
    file: String,
    config: ferrous_opencc::config::BuiltinConfig,
}

impl View for Config {
    type V = Seq<char>;

    closed spec fn view(&self) -> Seq<char> {
        self.file@
    }
}

/// A conversion engine, together with the configuration file it was built from.
pub struct Engine {
    file: String,
    engine: ferrous_opencc::OpenCC,
}

impl View for Engine {
    type V = Seq<char>;

    closed spec fn view(&self) -> Seq<char> {
        self.file@
    }
}

/// `ferrous_opencc::config::BuiltinConfig::from_filename`: its source matches
/// the fourteen configuration file names, each to its own configuration, and
/// fails on any other name. Claimed: success exactly on those names, and the
/// configuration that comes back is the one of the name given.
#[verifier::external_body]
fn config_from_file(name: &str) -> (r: Result<Config, String>)
    ensures
        r is Ok <==> is_builtin_config_file(name@),
        r matches Ok(c) ==> c@ == name@,
{
    match ferrous_opencc::config::BuiltinConfig::from_filename(name) {
        Ok(config) => Ok(Config { file: name.to_string(), config }),
        Err(e) => Err(e.to_string()),
    }
}

/// `ferrous_opencc::OpenCC::from_config`: builds the engine of a built-in
/// configuration from the configuration and dictionaries that the crate's
/// build embeds for every configuration (all of them with the `full`
/// feature). Claimed: it succeeds, and the engine is that of the
/// configuration given.
#[verifier::external_body]
fn open_engine(config: Config) -> (r: Result<Engine, String>)
    ensures
        r is Ok,
        r matches Ok(e) ==> e@ == config@,
{
    match ferrous_opencc::OpenCC::from_config(config.config) {
        Ok(engine) => Ok(Engine { file: config.file, engine }),
        Err(e) => Err(e.to_string()),
    }
}

/// `ferrous_opencc::OpenCC::convert`. Claimed: the result is a function of
/// the configuration the engine was built from and of the text alone (the
/// engine only applies the dictionaries of its configuration), and an empty
/// text stays empty (the source hands back its input when no dictionary
/// matched anything).
#[verifier::external_body]
fn run_engine(engine: &Engine, text: &str) -> (r: String)
    ensures
        r@ == opencc_output(engine@, text@),
        text@.len() == 0 ==> r@.len() == 0,
{
    engine.engine.convert(text)
}

/// A conversion engine, together with the mode it carries out: the engine is
/// the one of that mode's configuration file.
pub struct Converter {
    mode: Mode,
    engine: Engine,
}

impl Converter {
    #[verifier::type_invariant]
    spec fn engine_matches_mode(self) -> bool {
        self.engine@ == mode_config_file(self.mode)
    }

    /// The mode this converter carries out.
    pub fn mode(&self) -> (m: Mode)
        ensures
            m == self@,
    {
        self.mode
    }
}

impl View for Converter {
    type V = Mode;

    closed spec fn view(&self) -> Mode {
        self.mode
    }
}

fn str_equal(a: &str, b: &str) -> (r: bool)
    ensures
        r == (a@ == b@),
{
    broadcast use vstd::string::group_string_axioms;

    let x = a.to_string();
    let y = b.to_string();
    x == y
}

/// The mode that a name selects, or `UnsupportedMode` with the name.
pub fn mode_to_config(mode: &str) -> (r: Result<Mode, AppError>)
    ensures
        match mode_from_name(mode@) {
            Some(m) => r matches Ok(x) && x == m,
            None => r matches Err(AppError::UnsupportedMode(s)) && s@ == mode@,
        },
{
    broadcast use vstd::string::group_string_axioms;

    if str_equal(mode, "s2t") {
        Ok(Mode::S2t)
    } else if str_equal(mode, "t2s") {
        Ok(Mode::T2s)
    } else if str_equal(mode, "s2tw") {
        Ok(Mode::S2tw)
    } else if str_equal(mode, "tw2s") {
        Ok(Mode::Tw2s)
    } else if str_equal(mode, "s2hk") {
        Ok(Mode::S2hk)
    } else if str_equal(mode, "hk2s") {
        Ok(Mode::Hk2s)
    } else if str_equal(mode, "s2twp") {
        Ok(Mode::S2twp)
    } else if str_equal(mode, "tw2sp") {
        Ok(Mode::Tw2sp)
    } else if str_equal(mode, "t2tw") {
        Ok(Mode::T2tw)
    } else if str_equal(mode, "tw2t") {
        Ok(Mode::Tw2t)
    } else if str_equal(mode, "t2hk") {
        Ok(Mode::T2hk)
    } else if str_equal(mode, "hk2t") {
        Ok(Mode::Hk2t)
    } else if str_equal(mode, "t2jp") {
        Ok(Mode::T2jp)
    } else if str_equal(mode, "jp2t") {
        Ok(Mode::Jp2t)
    } else {
        Err(AppError::UnsupportedMode(mode.to_string()))
    }
}

/// The file name of the built-in configuration for a mode.
pub fn config_file(m: Mode) -> (r: &'static str)
    ensures
        r@ == mode_config_file(m),
{
    match m {
        Mode::S2t => "s2t.json",
        Mode::T2s => "t2s.json",
        Mode::S2tw => "s2tw.json",
        Mode::Tw2s => "tw2s.json",
        Mode::S2hk => "s2hk.json",
        Mode::Hk2s => "hk2s.json",
        Mode::S2twp => "s2twp.json",
        Mode::Tw2sp => "tw2sp.json",
        Mode::T2tw => "t2tw.json",
        Mode::Tw2t => "tw2t.json",
        Mode::T2hk => "t2hk.json",
        Mode::Hk2t => "hk2t.json",
        Mode::T2jp => "t2jp.json",
        Mode::Jp2t => "jp2t.json",
    }
}

/// A converter for the mode that a name selects.
pub fn create_converter(mode: &str) -> (r: Result<Converter, AppError>)
    ensures
        match mode_from_name(mode@) {
            Some(m) => r matches Ok(c) && c@ == m,
            None => r matches Err(AppError::UnsupportedMode(s)) && s@ == mode@,
        },
{
    let m = match mode_to_config(mode) {
        Ok(m) => m,
        Err(e) => return Err(e),
    };
    let file = config_file(m);
    assert(is_builtin_config_file(file@)) by {
        assert(mode_config_file(m) == file@);
    }
    let config = match config_from_file(file) {
        Ok(c) => c,
        Err(msg) => return Err(AppError::OpenCC(msg)),
    };
    match open_engine(config) {
        Ok(engine) => Ok(Converter { mode: m, engine }),
        Err(msg) => Err(AppError::OpenCC(msg)),
    }
}

/// Converts a text with the converter's mode.
pub fn convert_text(converter: &Converter, text: &str) -> (r: String)
    ensures
        r@ == opencc_output(mode_config_file(converter@), text@),
        text@.len() == 0 ==> r@.len() == 0,
{
    proof {
        use_type_invariant(converter);
    }
    run_engine(&converter.engine, text)
}

/// Each mode is selected by its own name, and only by it: the names of two
/// different modes differ, and no other string selects a mode.
pub proof fn mode_names_select_their_modes(m: Mode, name: Seq<char>)
    ensures
        mode_from_name(mode_name(m)) == Some(m),
        mode_from_name(name) == Some(m) <==> name == mode_name(m),
{
    reveal_strlit("s2t");
    assert("s2t"@ =~= seq!['s', '2', 't']);
    reveal_strlit("t2s");
    assert("t2s"@ =~= seq!['t', '2', 's']);
    reveal_strlit("s2tw");
    assert("s2tw"@ =~= seq!['s', '2', 't', 'w']);
    reveal_strlit("tw2s");
    assert("tw2s"@ =~= seq!['t', 'w', '2', 's']);
    reveal_strlit("s2hk");
    assert("s2hk"@ =~= seq!['s', '2', 'h', 'k']);
    reveal_strlit("hk2s");
    assert("hk2s"@ =~= seq!['h', 'k', '2', 's']);
    reveal_strlit("s2twp");
    assert("s2twp"@ =~= seq!['s', '2', 't', 'w', 'p']);
    reveal_strlit("tw2sp");
    assert("tw2sp"@ =~= seq!['t', 'w', '2', 's', 'p']);
    reveal_strlit("t2tw");
    assert("t2tw"@ =~= seq!['t', '2', 't', 'w']);
    reveal_strlit("tw2t");
    assert("tw2t"@ =~= seq!['t', 'w', '2', 't']);
    reveal_strlit("t2hk");
    assert("t2hk"@ =~= seq!['t', '2', 'h', 'k']);
    reveal_strlit("hk2t");
    assert("hk2t"@ =~= seq!['h', 'k', '2', 't']);
    reveal_strlit("t2jp");
    assert("t2jp"@ =~= seq!['t', '2', 'j', 'p']);
    reveal_strlit("jp2t");
    assert("jp2t"@ =~= seq!['j', 'p', '2', 't']);
}

} // verus!
