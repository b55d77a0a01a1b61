//! Reading and writing the brace-delimited key/value text format of
//! strategy-game data files, with the settings and tag helpers of the
//! tool that rewrites them.

pub mod codepage;
pub mod config;
pub mod grammar;
pub mod laws;
pub mod parse;
pub mod province;
pub mod round_trip;
pub mod serialize;
pub mod shatter;
pub mod tags;
pub mod text;
pub mod value;

pub use codepage::decode_windows_1252;
pub use config::{Config, ConfigError};
pub use province::province_id_and_name;
pub use shatter::{localisation_lines, split_province, FileTable, NewCountry, ShatterError};
pub use tags::{clear_events, get_next_valid_tag, get_tag_for_num, TAG_LIMIT};
pub use value::{Eu4Error, Eu4KeyValue, Eu4Table, Eu4Value};
