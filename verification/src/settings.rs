pub mod chords;
pub mod keybindings;

use crate::key_mode::KeyMode;
use crate::settings::keybindings::{text_of, KeyBindings, KeyBindingsNode};
use vstd::prelude::*;
use vstd::string::*;

verus! {

/// What the configuration of a session holds.
#[derive(Debug)]
pub struct Settings {
    /// The seconds between two refreshes of the torrent list.
    pub update_torrent_list_interval: u8,
    pub keybindings: KeyBindings,
}

impl Default for Settings {
    /// Settings without any binding.
    fn default() -> (r: Self)
        ensures
            r.update_torrent_list_interval == 0,
            r.keybindings@ == Map::<KeyMode, KeyBindingsNode>::empty(),
    {
        Settings { update_torrent_list_interval: 0, keybindings: KeyBindings::default() }
    }
}

/// The directory to use where the platform names none.
pub open spec fn fallback_config_dir() -> Seq<char> {
    "./.config"@
}

/// The configuration directory, given the one that the platform names for
/// this program, if it names one.
pub open spec fn config_dir_given(found: Option<Seq<char>>) -> Seq<char> {
    match found {
        Some(path) => path,
        None => fallback_config_dir(),
    }
}

/// Asks `directories::ProjectDirs::from` for the directories of the
/// program so named and returns `config_local_dir()` of the answer as
/// text, with a replacement character where the path is no Unicode. The
/// answer depends on the platform and the user's environment, so nothing
/// is claimed of it.
#[verifier::external_body]
fn project_config_dir(qualifier: &str, organization: &str, application: &str) -> (r: Option<String>) {
    match directories::ProjectDirs::from(qualifier, organization, application) {
        Some(dirs) => Some(dirs.config_local_dir().to_string_lossy().into_owned()),
        None => None,
    }
}

/// The configuration directory to use when the platform answered `found`.
pub fn config_dir_from(found: Option<String>) -> (r: String)
    ensures
        r@ == config_dir_given(text_of(found)),
{
    match found {
        Some(path) => path,
        None => String::from_str("./.config"),
    }
}

/// The directory in which the configuration file is looked for: the one
/// that the platform names for this program, else `./.config`. Which of
/// the two comes back depends on the user's environment; `config_dir_from`
/// says what is returned for each answer of the platform.
pub fn get_config_dir() -> String {
    config_dir_from(project_config_dir("com", "fucaluca", "keychords"))
}

} // verus!
