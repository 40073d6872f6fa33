//! What a repository says of its own sound, in the `.gitfugue.toml` at its root. Flags win
//! over it.

use vstd::prelude::*;
use vstd::string::StringExecFns;

use crate::model::{scale_of, Scale};

verus! {

/// What a repository chooses for itself.
#[derive(Debug, Clone, Copy)]
pub struct RepoConfig {
    pub scale: Option<Scale>,
    pub bpm: Option<u16>,
}

impl Default for RepoConfig {
    /// No choice at all.
    fn default() -> (r: RepoConfig)
        ensures
            r == (RepoConfig { scale: None, bpm: None }),
    {
        RepoConfig { scale: None, bpm: None }
    }
}

/// A value of the configuration, as far as it is looked at.
#[derive(Debug, Clone, PartialEq, Eq)]
pub enum Entry {
    Text(String),
    Integer(i64),
    Other,
}

/// What an `Entry` says.
#[verifier::ext_equal]
pub enum EntryView {
    Text(Seq<char>),
    Integer(i64),
    Other,
}

impl View for Entry {
    type V = EntryView;

    open spec fn view(&self) -> EntryView {
        match self {
            Entry::Text(t) => EntryView::Text(t@),
            Entry::Integer(n) => EntryView::Integer(*n),
            Entry::Other => EntryView::Other,
        }
    }
}

/// Why a configuration is refused.
#[derive(Debug, Clone, PartialEq, Eq)]
pub enum ConfigError {
    /// The file is no TOML; with what the parser says of it.
    InvalidToml(String),
    ScaleNotText,
    UnknownScale(String),
    BpmNotInteger,
    BpmOutOfRange,
}

/// What a `ConfigError` says.
#[verifier::ext_equal]
pub enum ConfigFault {
    InvalidToml(Seq<char>),
    ScaleNotText,
    UnknownScale(Seq<char>),
    BpmNotInteger,
    BpmOutOfRange,
}

impl View for ConfigError {
    type V = ConfigFault;

    open spec fn view(&self) -> ConfigFault {
        match self {
            ConfigError::InvalidToml(words) => ConfigFault::InvalidToml(words@),
            ConfigError::ScaleNotText => ConfigFault::ScaleNotText,
            ConfigError::UnknownScale(s) => ConfigFault::UnknownScale(s@),
            ConfigError::BpmNotInteger => ConfigFault::BpmNotInteger,
            ConfigError::BpmOutOfRange => ConfigFault::BpmOutOfRange,
        }
    }
}

/// What is said of an error in the configuration at the path `file`.
pub open spec fn config_message(e: ConfigError, file: Seq<char>) -> Seq<char> {
    match e {
        ConfigError::InvalidToml(words) => "invalid TOML in "@ + file + ": "@ + words@,
        ConfigError::ScaleNotText => ".gitfugue.toml: `scale` must be a string"@,
        ConfigError::UnknownScale(s) => ".gitfugue.toml: unknown scale '"@ + s@
            + "' (pentatonic | minor-pentatonic | dorian | aeolian)"@,
        ConfigError::BpmNotInteger => ".gitfugue.toml: `bpm` must be an integer"@,
        ConfigError::BpmOutOfRange => ".gitfugue.toml: bpm out of range 30-240"@,
    }
}

impl ConfigError {
    /// What is said of this error in the configuration at the path `file`.
    pub fn message(&self, file: &str) -> (r: String)
        ensures
            r@ == config_message(*self, file@),
    {
        match self {
            ConfigError::InvalidToml(words) => {
                let mut text = String::from_str("invalid TOML in ");
                text.append(file);
                text.append(": ");
                text.append(words.as_str());
                text
            },
            ConfigError::ScaleNotText => String::from_str(
                ".gitfugue.toml: `scale` must be a string",
            ),
            ConfigError::UnknownScale(s) => {
                let mut text = String::from_str(".gitfugue.toml: unknown scale '");
                text.append(s.as_str());
                text.append("' (pentatonic | minor-pentatonic | dorian | aeolian)");
                text
            },
            ConfigError::BpmNotInteger => String::from_str(
                ".gitfugue.toml: `bpm` must be an integer",
            ),
            ConfigError::BpmOutOfRange => String::from_str(
                ".gitfugue.toml: bpm out of range 30-240",
            ),
        }
    }
}

/// A table of toml.
#[verifier::external_type_specification]
#[verifier::external_body]
#[verifier::reject_recursive_types(K)]
#[verifier::reject_recursive_types(V)]
pub struct ExTable<K, V>(toml::map::Map<K, V>);

/// A value of toml.
#[verifier::external_type_specification]
#[verifier::external_body]
pub struct ExValue(toml::Value);

/// The entries of a table, by their keys.
pub uninterp spec fn table_entries(table: toml::map::Map<String, toml::Value>) -> Map<
    Seq<char>,
    EntryView,
>;

/// The entries at the top of a TOML text, by their keys, or what toml's parser says of a
/// text that is no TOML.
pub uninterp spec fn toml_entries(text: Seq<char>) -> Result<Map<Seq<char>, EntryView>, Seq<char>>;

/// `toml::Table::from_str`, with the `Display` of its error: the table that a text holds, or
/// what the parser says of the text. Either depends on the text alone.
#[verifier::external_body]
fn parse_table(text: &str) -> (r: Result<toml::map::Map<String, toml::Value>, String>)
    ensures
        match r {
            Ok(table) => toml_entries(text@) == Ok::<_, Seq<char>>(table_entries(table)),
            Err(words) => toml_entries(text@) == Err::<Map<Seq<char>, EntryView>, _>(words@),
        },
{
    match text.parse::<toml::Table>() {
        Ok(table) => Ok(table),
        Err(e) => Err(e.to_string()),
    }
}

/// `toml::map::Map::get`: the entry under a key, if there is one. A string and an integer
/// keep their value.
#[verifier::external_body]
fn table_get(table: &toml::map::Map<String, toml::Value>, key: &str) -> (r: Option<Entry>)
    ensures
        match r {
            Some(e) => table_entries(*table).dom().contains(key@) && table_entries(*table)[key@]
                == e@,
            None => !table_entries(*table).dom().contains(key@),
        },
{
    match table.get(key) {
        Some(toml::Value::String(s)) => Some(Entry::Text(s.clone())),
        Some(toml::Value::Integer(n)) => Some(Entry::Integer(*n)),
        Some(toml::Value::Float(_)) => Some(Entry::Other),
        Some(toml::Value::Boolean(_)) => Some(Entry::Other),
        Some(toml::Value::Datetime(_)) => Some(Entry::Other),
        Some(toml::Value::Array(_)) => Some(Entry::Other),
        Some(toml::Value::Table(_)) => Some(Entry::Other),
        None => None,
    }
}

/// What entries choose, where they are there: a scale by its name, and a tempo between 30
/// and 240 beats a minute.
pub open spec fn choice(scale: Option<EntryView>, bpm: Option<EntryView>) -> Result<
    RepoConfig,
    ConfigFault,
> {
    let chosen: Result<Option<Scale>, ConfigFault> = match scale {
        None => Ok(None),
        Some(EntryView::Text(s)) => match scale_of(s) {
            Some(scale) => Ok(Some(scale)),
            None => Err(ConfigFault::UnknownScale(s)),
        },
        Some(_) => Err(ConfigFault::ScaleNotText),
    };
    match chosen {
        Err(e) => Err(e),
        Ok(scale) => match bpm {
            None => Ok(RepoConfig { scale, bpm: None }),
            Some(EntryView::Integer(n)) => if 30 <= n <= 240 {
                Ok(RepoConfig { scale, bpm: Some(n as u16) })
            } else {
                Err(ConfigFault::BpmOutOfRange)
            },
            Some(_) => Err(ConfigFault::BpmNotInteger),
        },
    }
}

/// What a result of reading a configuration says.
pub open spec fn outcome<T>(r: Result<T, ConfigError>) -> Result<T, ConfigFault> {
    match r {
        Ok(c) => Ok(c),
        Err(e) => Err(e@),
    }
}

/// What an entry that may be missing says.
pub open spec fn entry_view(e: Option<Entry>) -> Option<EntryView> {
    match e {
        Some(e) => Some(e@),
        None => None,
    }
}

/// What the entries `scale` and `bpm` choose.
pub fn choose_config(scale: Option<Entry>, bpm: Option<Entry>) -> (r: Result<
    RepoConfig,
    ConfigError,
>)
    ensures
        outcome(r) == choice(entry_view(scale), entry_view(bpm)),
{
    let scale: Option<Scale> = match scale {
        None => None,
        Some(Entry::Text(s)) => match Scale::parse(s.as_str()) {
            Some(scale) => Some(scale),
            None => return Err(ConfigError::UnknownScale(s)),
        },
        Some(_) => return Err(ConfigError::ScaleNotText),
    };
    match bpm {
        None => Ok(RepoConfig { scale, bpm: None }),
        Some(Entry::Integer(n)) => {
            if 30 <= n && n <= 240 {
                Ok(RepoConfig { scale, bpm: Some(n as u16) })
            } else {
                Err(ConfigError::BpmOutOfRange)
            }
        },
        Some(_) => Err(ConfigError::BpmNotInteger),
    }
}

/// The entry under a key, if there is one.
pub open spec fn entry_at(entries: Map<Seq<char>, EntryView>, key: Seq<char>) -> Option<EntryView> {
    if entries.dom().contains(key) {
        Some(entries[key])
    } else {
        None
    }
}

/// What a repository chooses for itself, by the text of its configuration, and whether a
/// `palette` in it is passed over. No file is no choice.
pub open spec fn loaded(text: Option<Seq<char>>) -> Result<(RepoConfig, bool), ConfigFault> {
    match text {
        None => Ok((RepoConfig { scale: None, bpm: None }, false)),
        Some(text) => match toml_entries(text) {
            Err(words) => Err(ConfigFault::InvalidToml(words)),
            Ok(entries) => match choice(
                entry_at(entries, "scale"@),
                entry_at(entries, "bpm"@),
            ) {
                Ok(c) => Ok((c, entries.dom().contains("palette"@))),
                Err(e) => Err(e),
            },
        },
    }
}

/// What a repository chooses for itself, by the text of its configuration if it has one.
/// The second value tells whether there is a `palette` in it, which is passed over.
pub fn load(text: Option<&str>) -> (r: Result<(RepoConfig, bool), ConfigError>)
    ensures
        outcome(r) == loaded(
            match text {
                Some(t) => Some(t@),
                None => None,
            },
        ),
{
    match text {
        None => Ok((RepoConfig::default(), false)),
        Some(text) => match parse_table(text) {
            Err(words) => Err(ConfigError::InvalidToml(words)),
            Ok(table) => {
                let scale: Option<Entry> = table_get(&table, "scale");
                let bpm: Option<Entry> = table_get(&table, "bpm");
                let palette: bool = table_get(&table, "palette").is_some();
                match choose_config(scale, bpm) {
                    Ok(c) => Ok((c, palette)),
                    Err(e) => Err(e),
                }
            },
        },
    }
}

/// A configuration that is taken holds a tempo that a piece can be in.
pub proof fn lemma_loaded_bpm(text: Option<Seq<char>>)
    ensures
        match loaded(text) {
            Ok((c, _)) => c.bpm matches Some(n) ==> 30 <= n <= 240,
            Err(_) => true,
        },
{
}

} // verus!
