//! User configuration: defaults, the sparse document in `config.toml`, its
//! validation, and reading and updating one key.
use vstd::prelude::*;
use vstd::string::*;

use crate::duration::{
    duration_outcome, duration_result, duration_text, format_duration,
    lemma_duration_text_round_trip, parse_duration,
};
use crate::error::{PortaError, PortaResult};
use crate::state::StatePaths;
use crate::text::{bounded_unsigned, decimal_string, decimal_text, parse_unsigned, str_eq, unsigned_literal};

verus! {

pub const DEFAULT_PORT: u16 = 55000;

/// Two minutes, in seconds.
pub const DEFAULT_LEASE_TIMEOUT: u64 = 120;

/// One week, in seconds.
pub const DEFAULT_MISSING_FOR: u64 = 604800;

pub const DEFAULT_CLEANUP_TRIGGER_START: usize = 30;

pub const DEFAULT_CLEANUP_TRIGGER_STEP: usize = 15;

/// Effective configuration. Durations are in seconds.
#[derive(Clone, Copy, Debug, PartialEq, Eq, Structural)]
pub struct Config {
    pub default_port: u16,
    pub lease_timeout: u64,
    pub missing_for: u64,
    pub cleanup_trigger_start: usize,
    pub cleanup_trigger_step: usize,
}

pub open spec fn default_config() -> Config {
    Config {
        default_port: DEFAULT_PORT,
        lease_timeout: DEFAULT_LEASE_TIMEOUT,
        missing_for: DEFAULT_MISSING_FOR,
        cleanup_trigger_start: DEFAULT_CLEANUP_TRIGGER_START,
        cleanup_trigger_step: DEFAULT_CLEANUP_TRIGGER_STEP,
    }
}

impl Default for Config {
    fn default() -> (config: Self)
        ensures
            config == default_config(),
    {
        Config {
            default_port: DEFAULT_PORT,
            lease_timeout: DEFAULT_LEASE_TIMEOUT,
            missing_for: DEFAULT_MISSING_FOR,
            cleanup_trigger_start: DEFAULT_CLEANUP_TRIGGER_START,
            cleanup_trigger_step: DEFAULT_CLEANUP_TRIGGER_STEP,
        }
    }
}

/// The keys that `config.toml` may set, as written in the file. Durations are
/// kept as text; only present keys are set.
#[derive(Debug)]
pub struct ConfigDocument {
    pub default_port: Option<u16>,
    pub lease_timeout: Option<String>,
    pub missing_for: Option<String>,
    pub cleanup_trigger_start: Option<usize>,
    pub cleanup_trigger_step: Option<usize>,
}

pub struct ConfigDocumentModel {
    pub default_port: Option<u16>,
    pub lease_timeout: Option<Seq<char>>,
    pub missing_for: Option<Seq<char>>,
    pub cleanup_trigger_start: Option<usize>,
    pub cleanup_trigger_step: Option<usize>,
}

pub open spec fn text_view(text: Option<String>) -> Option<Seq<char>> {
    match text {
        Some(t) => Some(t@),
        None => None,
    }
}

impl View for ConfigDocument {
    type V = ConfigDocumentModel;

    open spec fn view(&self) -> ConfigDocumentModel {
        ConfigDocumentModel {
            default_port: self.default_port,
            lease_timeout: text_view(self.lease_timeout),
            missing_for: text_view(self.missing_for),
            cleanup_trigger_start: self.cleanup_trigger_start,
            cleanup_trigger_step: self.cleanup_trigger_step,
        }
    }
}

impl ConfigDocument {
    /// A document that sets nothing.
    pub fn empty() -> (document: Self)
        ensures
            document@ == (ConfigDocumentModel {
                default_port: None,
                lease_timeout: None,
                missing_for: None,
                cleanup_trigger_start: None,
                cleanup_trigger_step: None,
            }),
    {
        ConfigDocument {
            default_port: None,
            lease_timeout: None,
            missing_for: None,
            cleanup_trigger_start: None,
            cleanup_trigger_step: None,
        }
    }
}

/// A configuration value: integers are numbers, durations canonical text.
#[derive(Debug, PartialEq, Eq)]
pub enum ConfigValue {
    Integer(u64),
    Duration(String),
}

pub enum ConfigValueModel {
    Integer(u64),
    Duration(Seq<char>),
}

impl View for ConfigValue {
    type V = ConfigValueModel;

    open spec fn view(&self) -> ConfigValueModel {
        match self {
            ConfigValue::Integer(v) => ConfigValueModel::Integer(*v),
            ConfigValue::Duration(s) => ConfigValueModel::Duration(s@),
        }
    }
}

/// One row of the configuration listing.
#[derive(Debug)]
pub struct ConfigEntry {
    pub key: &'static str,
    pub value: ConfigValue,
    pub default: ConfigValue,
    pub is_set: bool,
}

/// The plain-text spelling of a value.
pub open spec fn plain_text(value: ConfigValueModel) -> Seq<char> {
    match value {
        ConfigValueModel::Integer(v) => decimal_text(v as nat),
        ConfigValueModel::Duration(s) => s,
    }
}

impl ConfigValue {
    /// The plain-text spelling: the number, or the canonical duration.
    pub fn plain(&self) -> (text: String)
        ensures
            text@ == plain_text(self@),
    {
        match self {
            ConfigValue::Integer(v) => decimal_string(*v),
            ConfigValue::Duration(s) => s.clone(),
        }
    }
}

pub open spec fn is_known_key(key: Seq<char>) -> bool {
    key == "default_port"@ || key == "lease_timeout"@ || key == "missing_for"@ || key
        == "cleanup_trigger_start"@ || key == "cleanup_trigger_step"@
}

/// The value that the configuration has under `key`, if `key` is known.
pub open spec fn config_value(config: Config, key: Seq<char>) -> Option<ConfigValueModel> {
    if key == "default_port"@ {
        Some(ConfigValueModel::Integer(config.default_port as u64))
    } else if key == "lease_timeout"@ {
        Some(ConfigValueModel::Duration(duration_text(config.lease_timeout as nat)))
    } else if key == "missing_for"@ {
        Some(ConfigValueModel::Duration(duration_text(config.missing_for as nat)))
    } else if key == "cleanup_trigger_start"@ {
        Some(ConfigValueModel::Integer(config.cleanup_trigger_start as u64))
    } else if key == "cleanup_trigger_step"@ {
        Some(ConfigValueModel::Integer(config.cleanup_trigger_step as u64))
    } else {
        None
    }
}

/// The configuration after setting `key` to the text `value`, or `None`
/// when the value is invalid for a known key.
pub open spec fn config_after_set(config: Config, key: Seq<char>, value: Seq<char>) -> Option<
    Config,
> {
    if key == "default_port"@ {
        match bounded_unsigned(value, 65535) {
            Some(port) => if port == 0 {
                None
            } else {
                Some(Config { default_port: port as u16, ..config })
            },
            None => None,
        }
    } else if key == "lease_timeout"@ {
        match duration_outcome(value, true, false) {
            Some(seconds) => Some(Config { lease_timeout: seconds as u64, ..config }),
            None => None,
        }
    } else if key == "missing_for"@ {
        match duration_outcome(value, false, true) {
            Some(seconds) => Some(Config { missing_for: seconds as u64, ..config }),
            None => None,
        }
    } else if key == "cleanup_trigger_start"@ {
        match unsigned_literal(value) {
            Some(v) => if 1 <= v <= 100 {
                Some(Config { cleanup_trigger_start: v as usize, ..config })
            } else {
                None
            },
            None => None,
        }
    } else {
        match unsigned_literal(value) {
            Some(v) => if 10 <= v <= 15 {
                Some(Config { cleanup_trigger_step: v as usize, ..config })
            } else {
                None
            },
            None => None,
        }
    }
}

/// The effective configuration of a document, or `None` when it is invalid.
pub open spec fn document_outcome(document: ConfigDocumentModel) -> Option<Config> {
    if document.default_port == Some(0u16) {
        None
    } else if document.lease_timeout matches Some(t) && duration_outcome(t, true, false) is None {
        None
    } else if document.missing_for matches Some(t) && duration_outcome(t, false, true) is None {
        None
    } else if document.cleanup_trigger_start matches Some(v) && !(1 <= v <= 100) {
        None
    } else if document.cleanup_trigger_step matches Some(v) && !(10 <= v <= 15) {
        None
    } else {
        Some(
            Config {
                default_port: match document.default_port {
                    Some(p) => p,
                    None => DEFAULT_PORT,
                },
                lease_timeout: match document.lease_timeout {
                    Some(t) => duration_outcome(t, true, false).unwrap() as u64,
                    None => DEFAULT_LEASE_TIMEOUT,
                },
                missing_for: match document.missing_for {
                    Some(t) => duration_outcome(t, false, true).unwrap() as u64,
                    None => DEFAULT_MISSING_FOR,
                },
                cleanup_trigger_start: match document.cleanup_trigger_start {
                    Some(v) => v,
                    None => DEFAULT_CLEANUP_TRIGGER_START,
                },
                cleanup_trigger_step: match document.cleanup_trigger_step {
                    Some(v) => v,
                    None => DEFAULT_CLEANUP_TRIGGER_STEP,
                },
            },
        )
    }
}

/// The message with which `validate_document` refuses a document: that of
/// the first field, in reading order, that it does not accept.
pub open spec fn document_error(document: ConfigDocumentModel) -> Seq<char> {
    if document.default_port == Some(0u16) {
        "default_port must be between 1 and 65535"@
    } else if document.lease_timeout matches Some(t) && duration_outcome(t, true, false) is None {
        match duration_result(document.lease_timeout.unwrap(), true, false) {
            Err(message) => message,
            Ok(_) => Seq::empty(),
        }
    } else if document.missing_for matches Some(t) && duration_outcome(t, false, true) is None {
        match duration_result(document.missing_for.unwrap(), false, true) {
            Err(message) => message,
            Ok(_) => Seq::empty(),
        }
    } else if document.cleanup_trigger_start matches Some(v) && !(1 <= v <= 100) {
        "cleanup_trigger_start must be between 1 and 100"@
    } else {
        "cleanup_trigger_step must be between 10 and 15"@
    }
}

/// The error of a configuration document that cannot be read as a whole.
pub open spec fn config_refused(error: PortaError, document: ConfigDocumentModel) -> bool {
    has_code(error, "invalid_config"@, 2) && error.message@ == document_error(document)
}

/// Whether the document sets `key`.
pub open spec fn document_sets(document: ConfigDocumentModel, key: Seq<char>) -> bool {
    if key == "default_port"@ {
        document.default_port is Some
    } else if key == "lease_timeout"@ {
        document.lease_timeout is Some
    } else if key == "missing_for"@ {
        document.missing_for is Some
    } else if key == "cleanup_trigger_start"@ {
        document.cleanup_trigger_start is Some
    } else if key == "cleanup_trigger_step"@ {
        document.cleanup_trigger_step is Some
    } else {
        false
    }
}

/// The document with `key` set to its canonical value in `config`.
pub open spec fn document_with(document: ConfigDocumentModel, config: Config, key: Seq<char>) -> ConfigDocumentModel {
    if key == "default_port"@ {
        ConfigDocumentModel { default_port: Some(config.default_port), ..document }
    } else if key == "lease_timeout"@ {
        ConfigDocumentModel {
            lease_timeout: Some(duration_text(config.lease_timeout as nat)),
            ..document
        }
    } else if key == "missing_for"@ {
        ConfigDocumentModel {
            missing_for: Some(duration_text(config.missing_for as nat)),
            ..document
        }
    } else if key == "cleanup_trigger_start"@ {
        ConfigDocumentModel { cleanup_trigger_start: Some(config.cleanup_trigger_start), ..document }
    } else {
        ConfigDocumentModel { cleanup_trigger_step: Some(config.cleanup_trigger_step), ..document }
    }
}

/// A valid configuration: the constraints that `config.toml` must meet.
pub open spec fn config_valid(config: Config) -> bool {
    &&& config.default_port >= 1
    &&& config.lease_timeout > 0
    &&& 1 <= config.cleanup_trigger_start <= 100
    &&& 10 <= config.cleanup_trigger_step <= 15
}

pub open spec fn has_code(error: PortaError, code: Seq<char>, exit_code: u8) -> bool {
    error.code@ == code && error.exit_code == exit_code
}

/// The error of a value that a known key does not accept.
pub open spec fn value_refused(error: PortaError, key: Seq<char>) -> bool {
    has_code(error, "invalid_config_value"@, 2) && error.message@
        == "Invalid value for configuration key: "@ + key
}

/// The error of a key that the configuration does not know.
pub open spec fn key_unknown(error: PortaError, key: Seq<char>) -> bool {
    has_code(error, "invalid_config_key"@, 2) && error.message@ == "Unknown configuration key: "@
        + key
}

fn invalid_config(message: String) -> (error: PortaError)
    ensures
        has_code(error, "invalid_config"@, 2),
        error.message@ == message@,
{
    PortaError::invalid("invalid_config", message)
}

fn invalid_value(key: &str) -> (error: PortaError)
    ensures
        value_refused(error, key@),
{
    let mut message = String::from_str("Invalid value for configuration key: ");
    message.append(key);
    PortaError::invalid("invalid_config_value", message)
}

fn unknown_key(key: &str) -> (error: PortaError)
    ensures
        key_unknown(error, key@),
{
    let mut message = String::from_str("Unknown configuration key: ");
    message.append(key);
    PortaError::invalid("invalid_config_key", message)
}

impl Config {
    /// The effective value of one key.
    pub fn get(&self, key: &str) -> (result: PortaResult<ConfigValue>)
        ensures
            match result {
                Ok(value) => config_value(*self, key@) == Some(value@),
                Err(error) => config_value(*self, key@) is None && key_unknown(error, key@),
            },
    {
        if str_eq(key, "default_port") {
            Ok(ConfigValue::Integer(self.default_port as u64))
        } else if str_eq(key, "lease_timeout") {
            Ok(ConfigValue::Duration(format_duration(self.lease_timeout)))
        } else if str_eq(key, "missing_for") {
            Ok(ConfigValue::Duration(format_duration(self.missing_for)))
        } else if str_eq(key, "cleanup_trigger_start") {
            Ok(ConfigValue::Integer(self.cleanup_trigger_start as u64))
        } else if str_eq(key, "cleanup_trigger_step") {
            Ok(ConfigValue::Integer(self.cleanup_trigger_step as u64))
        } else {
            Err(unknown_key(key))
        }
    }

    /// Parses `value` for `key` and stores it.
    pub fn set(&mut self, key: &str, value: &str) -> (result: PortaResult<()>)
        ensures
            match result {
                Ok(()) => is_known_key(key@) && config_after_set(*old(self), key@, value@) == Some(
                    *final(self),
                ),
                Err(error) => *final(self) == *old(self) && (if is_known_key(key@) {
                    config_after_set(*old(self), key@, value@) is None && value_refused(error, key@)
                } else {
                    key_unknown(error, key@)
                }),
            },
    {
        if str_eq(key, "default_port") {
            let port = match parse_unsigned(value, 65535) {
                Some(p) => p,
                None => return Err(invalid_value(key)),
            };
            if port == 0 {
                return Err(invalid_value(key));
            }
            self.default_port = port as u16;
        } else if str_eq(key, "lease_timeout") {
            self.lease_timeout = match parse_duration(value, true, false) {
                Ok(seconds) => seconds,
                Err(_) => return Err(invalid_value(key)),
            };
        } else if str_eq(key, "missing_for") {
            self.missing_for = match parse_duration(value, false, true) {
                Ok(seconds) => seconds,
                Err(_) => return Err(invalid_value(key)),
            };
        } else if str_eq(key, "cleanup_trigger_start") {
            let trigger = match parse_unsigned(value, usize::MAX as u64) {
                Some(v) => v,
                None => return Err(invalid_value(key)),
            };
            if trigger < 1 || trigger > 100 {
                return Err(invalid_value(key));
            }
            self.cleanup_trigger_start = trigger as usize;
        } else if str_eq(key, "cleanup_trigger_step") {
            let step = match parse_unsigned(value, usize::MAX as u64) {
                Some(v) => v,
                None => return Err(invalid_value(key)),
            };
            if step < 10 || step > 15 {
                return Err(invalid_value(key));
            }
            self.cleanup_trigger_step = step as usize;
        } else {
            return Err(unknown_key(key));
        }
        Ok(())
    }
}

/// The effective configuration of a document.
pub fn validate_document(document: &ConfigDocument) -> (result: PortaResult<Config>)
    ensures
        match result {
            Ok(config) => document_outcome(document@) == Some(config) && config_valid(config),
            Err(error) => document_outcome(document@) is None && config_refused(error, document@),
        },
{
    let mut config = Config::default();
    if let Some(default_port) = document.default_port {
        if default_port == 0 {
            return Err(invalid_config(String::from_str("default_port must be between 1 and 65535")));
        }
        config.default_port = default_port;
    }
    if let Some(lease_timeout) = &document.lease_timeout {
        config.lease_timeout = match parse_duration(lease_timeout.as_str(), true, false) {
            Ok(seconds) => seconds,
            Err(error) => return Err(invalid_config(error.message)),
        };
    }
    if let Some(missing_for) = &document.missing_for {
        config.missing_for = match parse_duration(missing_for.as_str(), false, true) {
            Ok(seconds) => seconds,
            Err(error) => return Err(invalid_config(error.message)),
        };
    }
    if let Some(cleanup_trigger_start) = document.cleanup_trigger_start {
        if cleanup_trigger_start < 1 || cleanup_trigger_start > 100 {
            return Err(invalid_config(String::from_str("cleanup_trigger_start must be between 1 and 100")));
        }
        config.cleanup_trigger_start = cleanup_trigger_start;
    }
    if let Some(cleanup_trigger_step) = document.cleanup_trigger_step {
        if cleanup_trigger_step < 10 || cleanup_trigger_step > 15 {
            return Err(invalid_config(String::from_str("cleanup_trigger_step must be between 10 and 15")));
        }
        config.cleanup_trigger_step = cleanup_trigger_step;
    }
    Ok(config)
}

/// Reads and updates `config.toml`; the reading and writing happen outside
/// the library, which decides what is read and written.
#[derive(Debug)]
pub struct ConfigStore {
    paths: StatePaths,
}

impl ConfigStore {
    pub fn new(paths: StatePaths) -> (store: Self)
        ensures
            store.paths() == paths,
    {
        ConfigStore { paths }
    }

    pub closed spec fn paths(&self) -> StatePaths {
        self.paths
    }

    /// The state files this store reads and writes.
    pub fn state_paths(&self) -> (paths: &StatePaths)
        ensures
            *paths == self.paths(),
    {
        &self.paths
    }

    /// The effective configuration of the stored document; a missing
    /// `config.toml` reads as the empty document.
    pub fn load(&self, document: &ConfigDocument) -> (result: PortaResult<Config>)
        ensures
            match result {
                Ok(config) => document_outcome(document@) == Some(config) && config_valid(config),
                Err(error) => document_outcome(document@) is None && config_refused(error, document@),
            },
    {
        validate_document(document)
    }

    /// The effective value of `key` in the stored document.
    pub fn get(&self, document: &ConfigDocument, key: &str) -> (result: PortaResult<ConfigValue>)
        ensures
            match result {
                Ok(value) => document_outcome(document@) matches Some(config) && config_value(
                    config,
                    key@,
                ) == Some(value@),
                Err(error) => match document_outcome(document@) {
                    None => config_refused(error, document@),
                    Some(config) => config_value(config, key@) is None && key_unknown(error, key@),
                },
            },
    {
        let config = self.load(document)?;
        config.get(key)
    }

    /// Every supported key of the stored document, as `ConfigDocument::entries`.
    pub fn list(&self, document: &ConfigDocument) -> (result: PortaResult<Vec<ConfigEntry>>)
        ensures
            match result {
                Ok(entries) => document_outcome(document@) is Some && entries@.len()
                    == SUPPORTED_KEY_COUNT && forall|i: int|
                    0 <= i < SUPPORTED_KEY_COUNT ==> {
                        let e = #[trigger] entries@[i];
                        &&& e.key@ == supported_key(i)
                        &&& config_value(document_outcome(document@).unwrap(), supported_key(i))
                            == Some(e.value@)
                        &&& config_value(default_config(), supported_key(i)) == Some(e.default@)
                        &&& e.is_set == document_sets(document@, supported_key(i))
                    },
                Err(error) => document_outcome(document@) is None && config_refused(error, document@),
            },
    {
        document.entries()
    }

    /// Sets `key` in the stored document, which the caller then writes
    /// back, as `ConfigDocument::set`.
    pub fn set(&self, document: &mut ConfigDocument, key: &str, value: &str) -> (result: PortaResult<
        ConfigValue,
    >)
        ensures
            match result {
                Ok(stored) => {
                    &&& document_outcome(old(document)@) matches Some(before)
                    &&& config_after_set(before, key@, value@) matches Some(after)
                    &&& is_known_key(key@)
                    &&& final(document)@ == document_with(old(document)@, after, key@)
                    &&& config_value(after, key@) == Some(stored@)
                },
                Err(error) => final(document)@ == old(document)@ && (match document_outcome(
                    old(document)@,
                ) {
                    None => config_refused(error, old(document)@),
                    Some(before) => if is_known_key(key@) {
                        config_after_set(before, key@, value@) is None && value_refused(error, key@)
                    } else {
                        key_unknown(error, key@)
                    },
                }),
            },
    {
        document.set(key, value)
    }
}

/// The supported keys, in canonical order.
pub open spec fn supported_key(index: int) -> Seq<char> {
    if index == 0 {
        "default_port"@
    } else if index == 1 {
        "lease_timeout"@
    } else if index == 2 {
        "missing_for"@
    } else if index == 3 {
        "cleanup_trigger_start"@
    } else {
        "cleanup_trigger_step"@
    }
}

pub const SUPPORTED_KEY_COUNT: usize = 5;

fn entry_for(key: &'static str, effective: &Config, defaults: &Config, is_set: bool) -> (entry:
    PortaResult<ConfigEntry>)
    requires
        is_known_key(key@),
    ensures
        entry matches Ok(e) && e.key == key && config_value(*effective, key@) == Some(e.value@)
            && config_value(*defaults, key@) == Some(e.default@) && e.is_set == is_set,
{
    let value = effective.get(key)?;
    let default = defaults.get(key)?;
    Ok(ConfigEntry { key, value, default, is_set })
}

impl ConfigDocument {
    /// Whether the document sets `key`.
    pub fn is_set(&self, key: &str) -> (set: bool)
        ensures
            set == document_sets(self@, key@),
    {
        if str_eq(key, "default_port") {
            self.default_port.is_some()
        } else if str_eq(key, "lease_timeout") {
            self.lease_timeout.is_some()
        } else if str_eq(key, "missing_for") {
            self.missing_for.is_some()
        } else if str_eq(key, "cleanup_trigger_start") {
            self.cleanup_trigger_start.is_some()
        } else if str_eq(key, "cleanup_trigger_step") {
            self.cleanup_trigger_step.is_some()
        } else {
            false
        }
    }

    /// Every supported key in canonical order, with its effective value,
    /// its default and whether the document sets it.
    pub fn entries(&self) -> (result: PortaResult<Vec<ConfigEntry>>)
        ensures
            match result {
                Ok(entries) => document_outcome(self@) is Some && entries@.len()
                    == SUPPORTED_KEY_COUNT && forall|i: int|
                    0 <= i < SUPPORTED_KEY_COUNT ==> {
                        let e = #[trigger] entries@[i];
                        &&& e.key@ == supported_key(i)
                        &&& config_value(document_outcome(self@).unwrap(), supported_key(i))
                            == Some(e.value@)
                        &&& config_value(default_config(), supported_key(i)) == Some(e.default@)
                        &&& e.is_set == document_sets(self@, supported_key(i))
                    },
                Err(error) => document_outcome(self@) is None && config_refused(error, self@),
            },
    {
        let effective = validate_document(self)?;
        let defaults = Config::default();
        let mut entries: Vec<ConfigEntry> = Vec::new();
        let e0 = entry_for("default_port", &effective, &defaults, self.default_port.is_some())?;
        entries.push(e0);
        let e1 = entry_for("lease_timeout", &effective, &defaults, self.lease_timeout.is_some())?;
        entries.push(e1);
        let e2 = entry_for("missing_for", &effective, &defaults, self.missing_for.is_some())?;
        entries.push(e2);
        let e3 = entry_for(
            "cleanup_trigger_start",
            &effective,
            &defaults,
            self.cleanup_trigger_start.is_some(),
        )?;
        entries.push(e3);
        let e4 = entry_for(
            "cleanup_trigger_step",
            &effective,
            &defaults,
            self.cleanup_trigger_step.is_some(),
        )?;
        entries.push(e4);
        assert forall|i: int| 0 <= i < SUPPORTED_KEY_COUNT implies {
            let e = #[trigger] entries@[i];
            &&& e.key@ == supported_key(i)
            &&& config_value(document_outcome(self@).unwrap(), supported_key(i)) == Some(e.value@)
            &&& config_value(default_config(), supported_key(i)) == Some(e.default@)
            &&& e.is_set == document_sets(self@, supported_key(i))
        } by {
            reveal_strlit("default_port");
            reveal_strlit("lease_timeout");
            reveal_strlit("missing_for");
            reveal_strlit("cleanup_trigger_start");
            reveal_strlit("cleanup_trigger_step");
            if i == 0 {
                assert(entries@[0].key@ == supported_key(0));
                assert(config_value(document_outcome(self@).unwrap(), supported_key(0)) == Some(
                    entries@[0].value@,
                ));
                assert(config_value(default_config(), supported_key(0)) == Some(
                    entries@[0].default@,
                ));
                assert(entries@[0].is_set == document_sets(self@, supported_key(0)));
            } else if i == 1 {
                assert(entries@[1].key@ == supported_key(1));
                assert(config_value(document_outcome(self@).unwrap(), supported_key(1)) == Some(
                    entries@[1].value@,
                ));
                assert(config_value(default_config(), supported_key(1)) == Some(
                    entries@[1].default@,
                ));
                assert(entries@[1].is_set == document_sets(self@, supported_key(1)));
            } else if i == 2 {
                assert(entries@[2].key@ == supported_key(2));
                assert(config_value(document_outcome(self@).unwrap(), supported_key(2)) == Some(
                    entries@[2].value@,
                ));
                assert(config_value(default_config(), supported_key(2)) == Some(
                    entries@[2].default@,
                ));
                assert(entries@[2].is_set == document_sets(self@, supported_key(2)));
            } else if i == 3 {
                assert(entries@[3].key@ == supported_key(3));
                assert(config_value(document_outcome(self@).unwrap(), supported_key(3)) == Some(
                    entries@[3].value@,
                ));
                assert(config_value(default_config(), supported_key(3)) == Some(
                    entries@[3].default@,
                ));
                assert(entries@[3].is_set == document_sets(self@, supported_key(3)));
            } else {
                assert(entries@[4].key@ == supported_key(4));
                assert(config_value(document_outcome(self@).unwrap(), supported_key(4)) == Some(
                    entries@[4].value@,
                ));
                assert(config_value(default_config(), supported_key(4)) == Some(
                    entries@[4].default@,
                ));
                assert(entries@[4].is_set == document_sets(self@, supported_key(4)));
            }
        }
        Ok(entries)
    }

    /// Sets `key` to `value`, validated against the whole document, and
    /// stores its canonical spelling. Returns the stored value.
    pub fn set(&mut self, key: &str, value: &str) -> (result: PortaResult<ConfigValue>)
        ensures
            match result {
                Ok(stored) => {
                    &&& document_outcome(old(self)@) matches Some(before)
                    &&& config_after_set(before, key@, value@) matches Some(after)
                    &&& is_known_key(key@)
                    &&& final(self)@ == document_with(old(self)@, after, key@)
                    &&& config_value(after, key@) == Some(stored@)
                },
                Err(error) => final(self)@ == old(self)@ && (match document_outcome(old(self)@) {
                    None => config_refused(error, old(self)@),
                    Some(before) => if is_known_key(key@) {
                        config_after_set(before, key@, value@) is None && value_refused(error, key@)
                    } else {
                        key_unknown(error, key@)
                    },
                }),
            },
    {
        let mut effective = validate_document(self)?;
        effective.set(key, value)?;
        if str_eq(key, "default_port") {
            self.default_port = Some(effective.default_port);
            Ok(ConfigValue::Integer(effective.default_port as u64))
        } else if str_eq(key, "lease_timeout") {
            let text = format_duration(effective.lease_timeout);
            self.lease_timeout = Some(text.clone());
            Ok(ConfigValue::Duration(text))
        } else if str_eq(key, "missing_for") {
            let text = format_duration(effective.missing_for);
            self.missing_for = Some(text.clone());
            Ok(ConfigValue::Duration(text))
        } else if str_eq(key, "cleanup_trigger_start") {
            self.cleanup_trigger_start = Some(effective.cleanup_trigger_start);
            Ok(ConfigValue::Integer(effective.cleanup_trigger_start as u64))
        } else {
            self.cleanup_trigger_step = Some(effective.cleanup_trigger_step);
            Ok(ConfigValue::Integer(effective.cleanup_trigger_step as u64))
        }
    }
}

/// Setting a key through the document keeps the document valid, marks the key
/// as set, and reading the key back gives the value that was stored; the
/// other keys keep their effective values.
pub proof fn lemma_document_set_then_get(
    document: ConfigDocumentModel,
    key: Seq<char>,
    value: Seq<char>,
)
    requires
        document_outcome(document) is Some,
        is_known_key(key),
        config_after_set(document_outcome(document).unwrap(), key, value) is Some,
    ensures
        ({
            let after = config_after_set(document_outcome(document).unwrap(), key, value).unwrap();
            let updated = document_with(document, after, key);
            &&& document_outcome(updated) == Some(after)
            &&& document_sets(updated, key)
            &&& config_value(document_outcome(updated).unwrap(), key) == config_value(after, key)
        }),
{
    let before = document_outcome(document).unwrap();
    let after = config_after_set(before, key, value).unwrap();
    lemma_duration_text_round_trip(after.lease_timeout, true);
    lemma_duration_text_round_trip(after.missing_for, false);
    if key == "lease_timeout"@ {
        assert(after.lease_timeout > 0);
    }
}

} // verus!
