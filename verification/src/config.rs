//! The application's settings: where the home directory is, where its
//! catalogue lives, and the window layout.

use vstd::prelude::*;

use crate::paths::{join, spec_join};

verus! {

/// Name of the catalogue file inside the catalogue directory.
pub const DB_FILENAME: &'static str = "skdata.db";

/// Name of the settings file inside the application's config directory.
pub const APP_CONFIG_FILE: &'static str = "sk.json";

/// Name of the catalogue directory inside the home directory.
pub const HOMEDIR_CONFIG_DIR: &'static str = ".sk";

/// IEEE-754 bit pattern of the default main-window width, 800.0.
pub const DEFAULT_MAIN_WINDOW_WIDTH_BITS: u64 = 0x4089_0000_0000_0000;

/// IEEE-754 bit pattern of the default main-window height, 600.0.
pub const DEFAULT_MAIN_WINDOW_HEIGHT_BITS: u64 = 0x4082_c000_0000_0000;

/// Default width of the sidebar, in percent of the window.
pub const DEFAULT_SIDEBAR_PERCENT: u64 = 15;

/// Default width of the entry preview, in percent of the window.
pub const DEFAULT_PREVIEW_PERCENT: u64 = 20;

/// The settings. The window size is kept as the bit pattern of the `f64`
/// that the settings file holds: the library only carries it.
#[derive(Debug, Clone, PartialEq, Eq)]
pub struct Config {
    pub home_dir: String,
    pub db_dirname: String,
    pub width_bits: u64,
    pub height_bits: u64,
    pub sidebar_size: u64,
    pub entry_preview_size: u64,
}

pub struct ConfigView {
    pub home_dir: Seq<char>,
    pub db_dirname: Seq<char>,
    pub width_bits: u64,
    pub height_bits: u64,
    pub sidebar_size: u64,
    pub entry_preview_size: u64,
}

impl View for Config {
    type V = ConfigView;

    open spec fn view(&self) -> ConfigView {
        ConfigView {
            home_dir: self.home_dir@,
            db_dirname: self.db_dirname@,
            width_bits: self.width_bits,
            height_bits: self.height_bits,
            sidebar_size: self.sidebar_size,
            entry_preview_size: self.entry_preview_size,
        }
    }
}

/// The catalogue directory of a home directory: `<home>/.sk`.
pub open spec fn spec_home_db_dir(home_dir: Seq<char>) -> Seq<char> {
    spec_join(home_dir, HOMEDIR_CONFIG_DIR@)
}

/// The catalogue directory of a home directory: `<home>/.sk`.
pub fn home_db_dir(home_dir: &str) -> (r: String)
    ensures
        r@ == spec_home_db_dir(home_dir@),
{
    join(home_dir, HOMEDIR_CONFIG_DIR)
}

/// The catalogue file inside a catalogue directory: `<dir>/skdata.db`.
pub fn db_file_path(db_dir: &str) -> (r: String)
    ensures
        r@ == spec_join(db_dir@, DB_FILENAME@),
{
    join(db_dir, DB_FILENAME)
}

impl Config {
    /// The settings for a newly chosen home directory: its catalogue
    /// directory is `<home>/.sk`, and the layout takes its defaults.
    pub fn new(home_dir: String) -> (r: Config)
        ensures
            r@ == (ConfigView {
                home_dir: home_dir@,
                db_dirname: spec_home_db_dir(home_dir@),
                width_bits: DEFAULT_MAIN_WINDOW_WIDTH_BITS,
                height_bits: DEFAULT_MAIN_WINDOW_HEIGHT_BITS,
                sidebar_size: DEFAULT_SIDEBAR_PERCENT,
                entry_preview_size: DEFAULT_PREVIEW_PERCENT,
            }),
    {
        let db_dirname = home_db_dir(home_dir.as_str());
        Config {
            home_dir,
            db_dirname,
            width_bits: DEFAULT_MAIN_WINDOW_WIDTH_BITS,
            height_bits: DEFAULT_MAIN_WINDOW_HEIGHT_BITS,
            sidebar_size: DEFAULT_SIDEBAR_PERCENT,
            entry_preview_size: DEFAULT_PREVIEW_PERCENT,
        }
    }

    /// Where the settings file is, given the application's config directory.
    pub fn get_config_file_path(app_config_dir: &str) -> (r: String)
        ensures
            r@ == spec_join(app_config_dir@, APP_CONFIG_FILE@),
    {
        join(app_config_dir, APP_CONFIG_FILE)
    }

    /// The catalogue file: `<db_dirname>/skdata.db`.
    pub fn get_db_file_path(&self) -> (r: String)
        ensures
            r@ == spec_join(self.db_dirname@, DB_FILENAME@),
    {
        db_file_path(self.db_dirname.as_str())
    }

    /// Replaces the home directory; nothing else changes (the catalogue
    /// directory stays where it was).
    pub fn set_home_dir(&mut self, home_dir: String)
        ensures
            final(self)@ == (ConfigView { home_dir: home_dir@, ..old(self)@ }),
    {
        self.home_dir = home_dir;
    }
}


/// The catalogue file of a home directory `h` (not empty, not ending in
/// `/`) is `h/.sk/skdata.db`, whether it is reached through the settings
/// made for `h` or probed directly.
pub proof fn law_catalogue_file_of_home(home: Seq<char>)
    requires
        home.len() > 0,
        home.last() != '/',
    ensures
        spec_join(spec_home_db_dir(home), DB_FILENAME@) == home + "/.sk/skdata.db"@,
{
    reveal_strlit(".sk");
    reveal_strlit("skdata.db");
    reveal_strlit("/.sk/skdata.db");
    let d = spec_home_db_dir(home);
    assert(d =~= home + seq!['/', '.', 's', 'k']);
    assert(d.last() == 'k');
    assert(spec_join(d, DB_FILENAME@) =~= home + "/.sk/skdata.db"@);
}

} // verus!
