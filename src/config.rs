//! The tool's settings, read from a TOML document.

use vstd::prelude::*;

verus! {

#[verifier::external_type_specification]
#[verifier::external_body]
pub struct ExTomlValue(toml::Value);

#[verifier::external_type_specification]
#[verifier::external_body]
#[verifier::reject_recursive_types(K)]
#[verifier::reject_recursive_types(V)]
pub struct ExTomlMap<K, V>(toml::map::Map<K, V>);

#[verifier::external_type_specification]
#[verifier::external_body]
pub struct ExTomlError(toml::de::Error);

/// Whether a text is a TOML document.
pub uninterp spec fn toml_document(text: Seq<char>) -> bool;

/// Relies on `toml::Table`'s `FromStr`: whether it succeeds depends on the
/// text alone.
#[verifier::external_body]
fn parse_toml(text: &str) -> (r: Result<toml::Table, toml::de::Error>)
    ensures
        r is Ok <==> toml_document(text@),
{
    text.parse::<toml::Table>()
}

/// Relies on `toml::Table::get`: the value under a key, if any.
#[verifier::external_body]
fn toml_get<'a>(table: &'a toml::Table, key: &str) -> (r: Option<&'a toml::Value>) {
    table.get(key)
}

/// Relies on `toml::Value::as_str`: the text of a string value.
#[verifier::external_body]
fn toml_as_str<'a>(value: &'a toml::Value) -> (r: Option<&'a str>) {
    value.as_str()
}

/// The text of the string value under `key`, if there is one.
fn string_setting(table: &toml::Table, key: &str) -> Option<String> {
    match toml_get(table, key) {
        Some(v) => match toml_as_str(v) {
            Some(s) => Some(s.to_owned()),
            None => None,
        },
        None => None,
    }
}

/// Where the mod is named and written, and where the game's data lies.
pub struct Config {
    pub mod_name: String,
    pub target_path: String,
    pub game_path: String,
}

#[derive(Debug, Clone, Copy, PartialEq, Eq)]
pub enum ConfigError {
    /// The text is no TOML document.
    Syntax,
    /// `mod_name` is missing or not a string.
    MissingModName,
    /// `target_path` is missing or not a string.
    MissingTargetPath,
    /// `game_path` is missing or not a string.
    MissingGamePath,
}

impl Config {
    /// A configuration from its three settings; the first one missing, in
    /// the order `mod_name`, `target_path`, `game_path`, is the error.
    pub fn from_settings(
        mod_name: Option<String>,
        target_path: Option<String>,
        game_path: Option<String>,
    ) -> (r: Result<Config, ConfigError>)
        ensures
            r is Ok <==> mod_name is Some && target_path is Some && game_path is Some,
            r matches Ok(c) ==> c.mod_name == mod_name.unwrap() && c.target_path
                == target_path.unwrap() && c.game_path == game_path.unwrap(),
            mod_name is None ==> r == Err::<Config, ConfigError>(ConfigError::MissingModName),
            mod_name is Some && target_path is None ==> r == Err::<Config, ConfigError>(
                ConfigError::MissingTargetPath,
            ),
            mod_name is Some && target_path is Some && game_path is None ==> r == Err::<
                Config,
                ConfigError,
            >(ConfigError::MissingGamePath),
    {
        match (mod_name, target_path, game_path) {
            (None, _, _) => Err(ConfigError::MissingModName),
            (Some(_), None, _) => Err(ConfigError::MissingTargetPath),
            (Some(_), Some(_), None) => Err(ConfigError::MissingGamePath),
            (Some(mod_name), Some(target_path), Some(game_path)) => Ok(
                Config { mod_name, target_path, game_path },
            ),
        }
    }

    /// Reads the settings `mod_name`, `target_path` and `game_path` from a
    /// TOML document.
    pub fn from_toml(text: &str) -> (r: Result<Config, ConfigError>)
        ensures
            r == Err::<Config, ConfigError>(ConfigError::Syntax) <==> !toml_document(text@),
    {
        let table = match parse_toml(text) {
            Ok(t) => t,
            Err(_) => return Err(ConfigError::Syntax),
        };
        let mod_name = string_setting(&table, "mod_name");
        let target_path = string_setting(&table, "target_path");
        let game_path = string_setting(&table, "game_path");
        Config::from_settings(mod_name, target_path, game_path)
    }
}

} // verus!
