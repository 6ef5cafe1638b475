//! The settings, and the state that commands share.

use crate::models::copy_opt;
use crate::text::{opt_text, same_text, trim, trim_text};
use crate::winpath::{join_path, joined};
use vstd::prelude::*;

verus! {

/// The settings, as `config.json` holds them.
#[derive(Clone, Debug)]
pub struct AppConfig {
    /// The data directory; the directory of the settings themselves unless chosen otherwise.
    pub storage_path: String,
    /// For how many days records are kept: without end where it is zero.
    pub retention_days: u32,
    pub auto_start: bool,
    /// A data directory that was left behind and is to be cleaned up at the next start.
    pub pending_cleanup_dir: Option<String>,
}

/// The view of an [`AppConfig`].
pub struct ConfigView {
    pub storage_path: Seq<char>,
    pub retention_days: u32,
    pub auto_start: bool,
    pub pending_cleanup_dir: Option<Seq<char>>,
}

impl View for AppConfig {
    type V = ConfigView;

    open spec fn view(&self) -> ConfigView {
        ConfigView {
            storage_path: self.storage_path@,
            retention_days: self.retention_days,
            auto_start: self.auto_start,
            pending_cleanup_dir: opt_text(self.pending_cleanup_dir),
        }
    }
}

/// The settings that hold unless chosen otherwise, with the data directory `dir`.
pub open spec fn default_config(dir: Seq<char>) -> ConfigView {
    ConfigView {
        storage_path: dir,
        retention_days: 7,
        auto_start: false,
        pending_cleanup_dir: None,
    }
}

impl Default for AppConfig {
    fn default() -> (r: AppConfig)
        ensures
            r@ == default_config(seq![]),
    {
        let storage_path = String::new();
        assert(storage_path@ =~= seq![]);
        AppConfig { storage_path, retention_days: 7, auto_start: false, pending_cleanup_dir: None }
    }
}

/// What there is at the place of `config.json`.
pub enum ConfigFile {
    /// No file that can be read.
    Missing,
    /// A file that does not hold settings.
    Broken,
    /// A file with these settings.
    Read(AppConfig),
}

/// The settings to go by, after what there is at the place of `config.json` in the directory `dir`:
/// the default ones where nothing was read, or no data directory was.
pub open spec fn loaded(dir: Seq<char>, file: ConfigFile) -> ConfigView {
    match file {
        ConfigFile::Read(c) => if trim(c@.storage_path).len() == 0 {
            default_config(dir)
        } else {
            c@
        },
        _ => default_config(dir),
    }
}

impl AppConfig {
    /// A copy of the settings.
    pub fn copy(&self) -> (r: AppConfig)
        ensures
            r@ == self@,
    {
        AppConfig {
            storage_path: self.storage_path.clone(),
            retention_days: self.retention_days,
            auto_start: self.auto_start,
            pending_cleanup_dir: copy_opt(&self.pending_cleanup_dir),
        }
    }

    /// Whether records are kept without end, so that nothing is cleaned up by itself.
    pub fn retention_forever(&self) -> (r: bool)
        ensures
            r == (self@.retention_days == 0),
    {
        self.retention_days == 0
    }
}

/// The place of `config.json` in the directory `config_dir`, the settings to go by after what is
/// there, and the settings to write to it where there was nothing.
pub fn load_config(config_dir: &str, file: ConfigFile) -> (r: (
    String,
    AppConfig,
    Option<AppConfig>,
))
    ensures
        r.0@ == joined(config_dir@, "config.json"@),
        r.1@ == loaded(config_dir@, file),
        r.2 is Some <==> file is Missing,
        r.2 matches Some(c) ==> c@ == default_config(config_dir@),
{
    let path = join_path(config_dir, "config.json");
    let fallback = AppConfig { storage_path: config_dir.to_string(), ..AppConfig::default() };
    match file {
        ConfigFile::Missing => (path, fallback.copy(), Some(fallback)),
        ConfigFile::Broken => (path, fallback, None),
        ConfigFile::Read(c) => {
            let t = trim_text(&c.storage_path);
            proof {
                reveal_strlit("");
                if trim(c@.storage_path).len() == 0 {
                    assert(trim(c@.storage_path) =~= ""@);
                }
            }
            if same_text(&t, "") {
                (path, fallback, None)
            } else {
                (path, c, None)
            }
        },
    }
}

/// Whatever settings are loaded name a data directory, as long as the directory of the settings has
/// a name.
pub proof fn law_loaded_config_has_a_data_dir(dir: Seq<char>, file: ConfigFile)
    requires
        trim(dir).len() > 0,
    ensures
        trim(loaded(dir, file).storage_path).len() > 0,
{
}

/// Settings that were read and name a data directory are taken as they are.
pub proof fn law_saved_config_loads(dir: Seq<char>, c: AppConfig)
    requires
        trim(c@.storage_path).len() > 0,
    ensures
        loaded(dir, ConfigFile::Read(c)) == c@,
{
}

/// What has to be done for the program to start with the system, or not to, as `wanted`: nothing
/// where that is so already. `actual` is what the system says, if it does.
pub fn autostart_change(wanted: bool, actual: Option<bool>) -> (r: Option<bool>)
    ensures
        r == if actual == Some(wanted) {
            None::<bool>
        } else {
            Some(wanted)
        },
{
    let is: bool = match actual {
        Some(v) => v,
        None => !wanted,
    };
    if is == wanted {
        None
    } else {
        Some(wanted)
    }
}

/// The state that commands share: the settings with the place where they are stored, and the
/// records that the program itself has last put on the clipboard.
pub struct AppState {
    pub config_path: String,
    pub config: AppConfig,
    pub internal_copy: Vec<i64>,
}

impl AppState {
    /// The state at the start.
    pub fn new(config_path: String, config: AppConfig) -> (r: AppState)
        ensures
            r.config_path == config_path,
            r.config == config,
            r.internal_copy@.len() == 0,
    {
        AppState { config_path, config, internal_copy: Vec::new() }
    }

    /// Notes that the program itself puts these records on the clipboard.
    pub fn mark_internal_copy(&mut self, ids: Vec<i64>)
        ensures
            final(self).internal_copy == ids,
            final(self).config_path == old(self).config_path,
            final(self).config == old(self).config,
    {
        self.internal_copy = ids;
    }

    /// The records that the program itself has put on the clipboard, which are then forgotten.
    pub fn take_internal_copy(&mut self) -> (r: Vec<i64>)
        ensures
            r@ == old(self).internal_copy@,
            final(self).internal_copy@.len() == 0,
            final(self).config_path == old(self).config_path,
            final(self).config == old(self).config,
    {
        let mut ids: Vec<i64> = Vec::new();
        std::mem::swap(&mut ids, &mut self.internal_copy);
        ids
    }

    /// The settings.
    pub fn get_settings(&self) -> (r: AppConfig)
        ensures
            r@ == self.config@,
    {
        self.config.copy()
    }

    /// Takes over settings, which are to be stored. What is to be done about starting with the
    /// system is said by [`autostart_change`] afterwards.
    pub fn save_settings(&mut self, settings: AppConfig)
        ensures
            final(self).config == settings,
            final(self).config_path == old(self).config_path,
            final(self).internal_copy == old(self).internal_copy,
    {
        self.config = settings;
    }

    /// The data directory that was left behind, if one is still to be cleaned up, which is then
    /// forgotten.
    pub fn take_pending_cleanup(&mut self) -> (r: Option<String>)
        ensures
            opt_text(r) == old(self).config@.pending_cleanup_dir,
            final(self).config@ == (ConfigView {
                pending_cleanup_dir: None,
                ..old(self).config@
            }),
            final(self).config_path == old(self).config_path,
            final(self).internal_copy == old(self).internal_copy,
    {
        let dir = copy_opt(&self.config.pending_cleanup_dir);
        self.config.pending_cleanup_dir = None;
        dir
    }
}

} // verus!
