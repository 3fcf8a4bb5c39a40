//! The tracker's settings, and the environment variables that override them.

use crate::address::{parse_socket, socket_of, IpAddress, SocketAddress};
use crate::text::{
    bounded_unsigned, number_refusal, parse_unsigned, quoted, quoted_text, refuse_number, same_bytes,
    same_text,
};
use vstd::prelude::*;
use vstd::utf8::encode_utf8;

verus! {

/// The listeners that run.
#[derive(Clone, Copy, Debug, Eq, PartialEq, Structural)]
pub enum Protocol {
    Http,
    Udp,
    Both,
}

/// A text that names no protocol.
#[derive(Debug, PartialEq)]
pub struct ProtocolParseError {
    value: String,
}

impl View for ProtocolParseError {
    type V = Seq<char>;

    closed spec fn view(&self) -> Seq<char> {
        self.value@
    }
}

/// The text for a name of no protocol.
pub open spec fn protocol_refusal(value: Seq<char>) -> Seq<char> {
    "expected http, udp, or both; got "@ + value
}

impl ProtocolParseError {
    /// The text for this refusal.
    pub fn message(&self) -> (message: String)
        ensures
            message@ == protocol_refusal(self@),
    {
        let mut message: String = "expected http, udp, or both; got ".to_owned();
        message.append(self.value.as_str());
        message
    }
}

/// A byte in lower case, where it is an ASCII letter.
pub open spec fn lower(byte: u8) -> u8 {
    if 65 <= byte <= 90 {
        (byte + 32) as u8
    } else {
        byte
    }
}

/// Bytes in lower case.
pub open spec fn lowercase(bytes: Seq<u8>) -> Seq<u8> {
    bytes.map_values(|byte: u8| lower(byte))
}

/// The protocol that a text names, in any case.
pub open spec fn protocol_of(text: Seq<char>) -> Option<Protocol> {
    let name = lowercase(encode_utf8(text));
    if name == encode_utf8("http"@) {
        Some(Protocol::Http)
    } else if name == encode_utf8("udp"@) {
        Some(Protocol::Udp)
    } else if name == encode_utf8("both"@) {
        Some(Protocol::Both)
    } else {
        None
    }
}

/// Bytes in lower case.
fn to_lowercase(bytes: &[u8]) -> (result: Vec<u8>)
    ensures
        result@ == lowercase(bytes@),
{
    let mut result: Vec<u8> = Vec::new();
    let mut index: usize = 0;
    while index < bytes.len()
        invariant
            0 <= index <= bytes@.len(),
            result@ == lowercase(bytes@.take(index as int)),
        decreases bytes@.len() - index,
    {
        let byte: u8 = bytes[index];
        let ghost before = result@;
        if 65 <= byte && byte <= 90 {
            result.push(byte + 32);
        } else {
            result.push(byte);
        }
        assert(lowercase(bytes@.take(index + 1)) =~= before.push(lower(byte)));
        index = index + 1;
    }
    assert(bytes@.take(index as int) =~= bytes@);
    result
}

impl Protocol {
    /// Reads the name of a protocol, in any case.
    pub fn parse(value: &str) -> (result: Result<Protocol, ProtocolParseError>)
        ensures
            match result {
                Ok(protocol) => protocol_of(value@) == Some(protocol),
                Err(error) => protocol_of(value@) is None && error@ == value@,
            },
    {
        let name: Vec<u8> = to_lowercase(value.as_bytes());
        if same_bytes(name.as_slice(), "http".as_bytes()) {
            Ok(Protocol::Http)
        } else if same_bytes(name.as_slice(), "udp".as_bytes()) {
            Ok(Protocol::Udp)
        } else if same_bytes(name.as_slice(), "both".as_bytes()) {
            Ok(Protocol::Both)
        } else {
            Err(ProtocolParseError { value: value.to_owned() })
        }
    }

    /// Whether HTTP announces are served.
    pub fn serves_http_announces(self) -> (serves: bool)
        ensures
            serves == (self is Http || self is Both),
    {
        match self {
            Protocol::Http => true,
            Protocol::Udp => false,
            Protocol::Both => true,
        }
    }

    /// Whether the UDP listener runs.
    pub fn runs_udp(self) -> (runs: bool)
        ensures
            runs == (self is Udp || self is Both),
    {
        match self {
            Protocol::Http => false,
            Protocol::Udp => true,
            Protocol::Both => true,
        }
    }
}

impl std::str::FromStr for Protocol {
    type Err = ProtocolParseError;

    /// Reads the name of a protocol, in any case.
    fn from_str(value: &str) -> (result: Result<Self, Self::Err>)
        ensures
            match result {
                Ok(protocol) => protocol_of(value@) == Some(protocol),
                Err(error) => protocol_of(value@) is None && error@ == value@,
            },
    {
        Protocol::parse(value)
    }
}

/// The settings as a configuration file gives them.
#[derive(Debug)]
pub struct FileConfig {
    pub default_protocol: Protocol,
    pub enable_http_scrape: bool,
    pub enable_udp_scrape: bool,
    pub http_addr: SocketAddress,
    pub udp_addr: SocketAddress,
    pub database_path: String,
    pub announce_interval: u32,
    pub peer_timeout: u64,
    pub persistence_interval: u64,
    pub rate_limit_per_minute: u32,
    pub max_concurrent_http_requests: usize,
    pub log_filter: String,
}

/// The settings as plain values.
#[verifier::ext_equal]
pub struct ConfigModel {
    pub default_protocol: Protocol,
    pub enable_http_scrape: bool,
    pub enable_udp_scrape: bool,
    pub http_addr: (Seq<u8>, nat, nat),
    pub udp_addr: (Seq<u8>, nat, nat),
    pub database_path: Seq<char>,
    pub announce_interval: nat,
    pub peer_timeout: nat,
    pub persistence_interval: nat,
    pub rate_limit_per_minute: nat,
    pub max_concurrent_http_requests: nat,
    pub log_filter: Seq<char>,
}

/// A socket address as plain values: its octets, scope and port.
pub open spec fn socket_model(address: SocketAddress) -> (Seq<u8>, nat, nat) {
    (address.ip.octets(), address.scope as nat, address.port as nat)
}

impl View for FileConfig {
    type V = ConfigModel;

    open spec fn view(&self) -> ConfigModel {
        ConfigModel {
            default_protocol: self.default_protocol,
            enable_http_scrape: self.enable_http_scrape,
            enable_udp_scrape: self.enable_udp_scrape,
            http_addr: socket_model(self.http_addr),
            udp_addr: socket_model(self.udp_addr),
            database_path: self.database_path@,
            announce_interval: self.announce_interval as nat,
            peer_timeout: self.peer_timeout as nat,
            persistence_interval: self.persistence_interval as nat,
            rate_limit_per_minute: self.rate_limit_per_minute as nat,
            max_concurrent_http_requests: self.max_concurrent_http_requests as nat,
            log_filter: self.log_filter@,
        }
    }
}

/// The settings where nothing else is given.
pub open spec fn default_settings() -> ConfigModel {
    ConfigModel {
        default_protocol: Protocol::Both,
        enable_http_scrape: true,
        enable_udp_scrape: true,
        http_addr: (seq![0u8, 0u8, 0u8, 0u8], 0, 3000),
        udp_addr: (seq![0u8, 0u8, 0u8, 0u8], 0, 6969),
        database_path: "hive.db"@,
        announce_interval: 1800,
        peer_timeout: 3600,
        persistence_interval: 30,
        rate_limit_per_minute: 120,
        max_concurrent_http_requests: 128,
        log_filter: "hive_tracker=info"@,
    }
}

/// A socket address on every IPv4 interface.
fn any_ipv4(port: u16) -> (address: SocketAddress)
    ensures
        socket_model(address) == (seq![0u8, 0u8, 0u8, 0u8], 0nat, port as nat),
{
    let octets: [u8; 4] = [0, 0, 0, 0];
    assert(octets@ =~= seq![0u8, 0u8, 0u8, 0u8]);
    SocketAddress { ip: IpAddress::V4(octets), scope: 0, port }
}

impl Default for FileConfig {
    fn default() -> (config: Self)
        ensures
            config@ == default_settings(),
    {
        FileConfig {
            default_protocol: Protocol::Both,
            enable_http_scrape: true,
            enable_udp_scrape: true,
            http_addr: any_ipv4(3000),
            udp_addr: any_ipv4(6969),
            database_path: "hive.db".to_owned(),
            announce_interval: 1800,
            peer_timeout: 3600,
            persistence_interval: 30,
            rate_limit_per_minute: 120,
            max_concurrent_http_requests: 128,
            log_filter: "hive_tracker=info".to_owned(),
        }
    }
}

/// Settings that are refused: an environment variable with a value that it
/// cannot have, an empty database path, or no room for requests.
#[derive(Debug)]
pub enum ConfigError {
    Invalid { name: String, value: String, cause: String },
    EmptyDatabasePath,
    NoConcurrentRequests,
}

/// Refused settings as plain values.
pub enum ConfigFault {
    Invalid { name: Seq<char>, value: Seq<char>, cause: Seq<char> },
    EmptyDatabasePath,
    NoConcurrentRequests,
}

impl View for ConfigError {
    type V = ConfigFault;

    open spec fn view(&self) -> ConfigFault {
        match self {
            ConfigError::Invalid { name, value, cause } => ConfigFault::Invalid {
                name: name@,
                value: value@,
                cause: cause@,
            },
            ConfigError::EmptyDatabasePath => ConfigFault::EmptyDatabasePath,
            ConfigError::NoConcurrentRequests => ConfigFault::NoConcurrentRequests,
        }
    }
}

/// The text for refused settings.
pub open spec fn config_fault_text(fault: ConfigFault) -> Seq<char> {
    match fault {
        ConfigFault::Invalid { name, value, cause } => "invalid "@ + name + " value "@
            + quoted_text(value) + ": "@ + cause,
        ConfigFault::EmptyDatabasePath => "HIVE_DATABASE_PATH cannot be empty"@,
        ConfigFault::NoConcurrentRequests =>
            "max_concurrent_http_requests must be greater than zero"@,
    }
}

impl ConfigError {
    /// The text for this refusal.
    pub fn message(&self) -> (message: String)
        ensures
            message@ == config_fault_text(self@),
    {
        match self {
            ConfigError::Invalid { name, value, cause } => {
                let mut message: String = "invalid ".to_owned();
                message.append(name.as_str());
                message.append(" value ");
                message.append(quoted(value.as_str()).as_str());
                message.append(": ");
                message.append(cause.as_str());
                message
            },
            ConfigError::EmptyDatabasePath => "HIVE_DATABASE_PATH cannot be empty".to_owned(),
            ConfigError::NoConcurrentRequests =>
                "max_concurrent_http_requests must be greater than zero".to_owned(),
        }
    }
}

/// Environment variables, as names and values.
pub type Environment = Vec<(String, String)>;

/// The value of a variable, where it is set.
pub open spec fn variable(environment: Seq<(String, String)>, name: Seq<char>) -> Option<Seq<char>>
    decreases environment.len(),
{
    if environment.len() == 0 {
        None
    } else if environment[0].0@ == name {
        Some(environment[0].1@)
    } else {
        variable(environment.subrange(1, environment.len() as int), name)
    }
}

/// The truth value that a text names.
pub open spec fn truth_of(text: Seq<char>) -> Option<bool> {
    if text == "true"@ {
        Some(true)
    } else if text == "false"@ {
        Some(false)
    } else {
        None
    }
}

/// The number that a text holds, at most `limit`.
pub open spec fn number_of(text: Seq<char>, limit: nat) -> Option<nat> {
    bounded_unsigned(encode_utf8(text), limit)
}

/// How many variables there are.
pub const VARIABLES: usize = 12;

/// The variables, in the order in which they are applied.
pub open spec fn variable_name(step: int) -> Seq<char> {
    if step == 0 {
        "HIVE_PROTOCOL"@
    } else if step == 1 {
        "HIVE_ENABLE_HTTP_SCRAPE"@
    } else if step == 2 {
        "HIVE_ENABLE_UDP_SCRAPE"@
    } else if step == 3 {
        "HIVE_HTTP_ADDR"@
    } else if step == 4 {
        "HIVE_UDP_ADDR"@
    } else if step == 5 {
        "HIVE_ANNOUNCE_INTERVAL"@
    } else if step == 6 {
        "HIVE_PEER_TIMEOUT"@
    } else if step == 7 {
        "HIVE_PERSISTENCE_INTERVAL"@
    } else if step == 8 {
        "HIVE_RATE_LIMIT_PER_MINUTE"@
    } else if step == 9 {
        "HIVE_MAX_CONCURRENT_HTTP_REQUESTS"@
    } else if step == 10 {
        "HIVE_DATABASE_PATH"@
    } else {
        "HIVE_LOG_FILTER"@
    }
}

/// The settings with the value of one variable, where it can have that value.
pub open spec fn with_variable(config: ConfigModel, step: int, value: Seq<char>) -> Option<
    ConfigModel,
> {
    if step == 0 {
        match protocol_of(value) {
            Some(protocol) => Some(ConfigModel { default_protocol: protocol, ..config }),
            None => None,
        }
    } else if step == 1 {
        match truth_of(value) {
            Some(truth) => Some(ConfigModel { enable_http_scrape: truth, ..config }),
            None => None,
        }
    } else if step == 2 {
        match truth_of(value) {
            Some(truth) => Some(ConfigModel { enable_udp_scrape: truth, ..config }),
            None => None,
        }
    } else if step == 3 {
        match socket_of(encode_utf8(value)) {
            Some(address) => Some(ConfigModel { http_addr: address, ..config }),
            None => None,
        }
    } else if step == 4 {
        match socket_of(encode_utf8(value)) {
            Some(address) => Some(ConfigModel { udp_addr: address, ..config }),
            None => None,
        }
    } else if step == 5 {
        match number_of(value, u32::MAX as nat) {
            Some(number) => Some(ConfigModel { announce_interval: number, ..config }),
            None => None,
        }
    } else if step == 6 {
        match number_of(value, u64::MAX as nat) {
            Some(number) => Some(ConfigModel { peer_timeout: number, ..config }),
            None => None,
        }
    } else if step == 7 {
        match number_of(value, u64::MAX as nat) {
            Some(number) => Some(ConfigModel { persistence_interval: number, ..config }),
            None => None,
        }
    } else if step == 8 {
        match number_of(value, u32::MAX as nat) {
            Some(number) => Some(ConfigModel { rate_limit_per_minute: number, ..config }),
            None => None,
        }
    } else if step == 9 {
        match number_of(value, usize::MAX as nat) {
            Some(number) => Some(ConfigModel { max_concurrent_http_requests: number, ..config }),
            None => None,
        }
    } else if step == 10 {
        if value.len() > 0 {
            Some(ConfigModel { database_path: value, ..config })
        } else {
            None
        }
    } else {
        Some(ConfigModel { log_filter: value, ..config })
    }
}

/// The largest number that a variable can have.
pub open spec fn number_limit(step: int) -> nat {
    if step == 5 || step == 8 {
        u32::MAX as nat
    } else if step == 9 {
        usize::MAX as nat
    } else {
        u64::MAX as nat
    }
}

/// What is wrong with a variable's value.
pub open spec fn variable_cause(step: int, value: Seq<char>) -> Seq<char> {
    if step == 0 {
        protocol_refusal(value)
    } else if step == 1 || step == 2 {
        "provided string was not `true` or `false`"@
    } else if step == 3 || step == 4 {
        "invalid socket address syntax"@
    } else {
        number_refusal(encode_utf8(value), number_limit(step))
    }
}

/// Why a variable's value is refused.
pub open spec fn variable_fault(step: int, value: Seq<char>) -> ConfigFault {
    if step == 10 {
        ConfigFault::EmptyDatabasePath
    } else {
        ConfigFault::Invalid {
            name: variable_name(step),
            value,
            cause: variable_cause(step, value),
        }
    }
}

/// The settings once the variables from `step` on were applied, and the first
/// fault, behind which nothing is applied.
pub open spec fn with_environment(
    config: ConfigModel,
    environment: Seq<(String, String)>,
    step: int,
) -> (ConfigModel, Option<ConfigFault>)
    decreases VARIABLES - step,
{
    if step >= VARIABLES {
        (config, None)
    } else {
        match variable(environment, variable_name(step)) {
            None => with_environment(config, environment, step + 1),
            Some(value) => match with_variable(config, step, value) {
                Some(next) => with_environment(next, environment, step + 1),
                None => (config, Some(variable_fault(step, value))),
            },
        }
    }
}

/// The value of a variable, where it is set.
fn lookup<'a>(environment: &'a Environment, name: &str) -> (value: Option<&'a String>)
    ensures
        match value {
            Some(value) => variable(environment@, name@) == Some(value@),
            None => variable(environment@, name@) is None,
        },
{
    let mut index: usize = 0;
    assert(environment@.subrange(0, environment@.len() as int) =~= environment@);
    while index < environment.len()
        invariant
            0 <= index <= environment@.len(),
            variable(environment@, name@) == variable(
                environment@.subrange(index as int, environment@.len() as int),
                name@,
            ),
        decreases environment@.len() - index,
    {
        let ghost rest = environment@.subrange(index as int, environment@.len() as int);
        assert(rest[0] == environment@[index as int]);
        if same_text(environment[index].0.as_str(), name) {
            return Some(&environment[index].1);
        }
        assert(rest.subrange(1, rest.len() as int) =~= environment@.subrange(
            index + 1,
            environment@.len() as int,
        ));
        index = index + 1;
    }
    None
}

/// Reads a truth value.
fn parse_truth(text: &str) -> (truth: Option<bool>)
    ensures
        truth == truth_of(text@),
{
    if same_text(text, "true") {
        Some(true)
    } else if same_text(text, "false") {
        Some(false)
    } else {
        None
    }
}

/// The name of a variable.
fn name_of(step: usize) -> (name: &'static str)
    requires
        step < VARIABLES,
    ensures
        name@ == variable_name(step as int),
{
    match step {
        0 => "HIVE_PROTOCOL",
        1 => "HIVE_ENABLE_HTTP_SCRAPE",
        2 => "HIVE_ENABLE_UDP_SCRAPE",
        3 => "HIVE_HTTP_ADDR",
        4 => "HIVE_UDP_ADDR",
        5 => "HIVE_ANNOUNCE_INTERVAL",
        6 => "HIVE_PEER_TIMEOUT",
        7 => "HIVE_PERSISTENCE_INTERVAL",
        8 => "HIVE_RATE_LIMIT_PER_MINUTE",
        9 => "HIVE_MAX_CONCURRENT_HTTP_REQUESTS",
        10 => "HIVE_DATABASE_PATH",
        _ => "HIVE_LOG_FILTER",
    }
}

/// What is wrong with a variable's value.
fn cause_of(step: usize, value: &str) -> (cause: String)
    ensures
        cause@ == variable_cause(step as int, value@),
{
    if step == 0 {
        let error = ProtocolParseError { value: value.to_owned() };
        error.message()
    } else if step == 1 || step == 2 {
        "provided string was not `true` or `false`".to_owned()
    } else if step == 3 || step == 4 {
        "invalid socket address syntax".to_owned()
    } else {
        let limit: u128 = if step == 5 || step == 8 {
            u32::MAX as u128
        } else if step == 9 {
            usize::MAX as u128
        } else {
            u64::MAX as u128
        };
        refuse_number(value.as_bytes(), limit).to_owned()
    }
}

/// The variables that are read from the environment.
pub fn variable_names() -> (names: Vec<&'static str>)
    ensures
        names@.len() == VARIABLES,
        forall|step: int| 0 <= step < VARIABLES ==> (#[trigger] names@[step])@ == variable_name(
            step,
        ),
{
    let mut names: Vec<&'static str> = Vec::new();
    let mut step: usize = 0;
    while step < VARIABLES
        invariant
            0 <= step <= VARIABLES,
            names@.len() == step,
            forall|i: int| 0 <= i < step ==> (#[trigger] names@[i])@ == variable_name(i),
        decreases VARIABLES - step,
    {
        names.push(name_of(step));
        step = step + 1;
    }
    names
}

impl FileConfig {
    /// Applies the value of one variable, and tells whether it can have that
    /// value.
    fn apply(&mut self, step: usize, value: &String) -> (applied: bool)
        requires
            step < VARIABLES,
        ensures
            applied == with_variable(old(self)@, step as int, value@) is Some,
            final(self)@ == match with_variable(old(self)@, step as int, value@) {
                Some(next) => next,
                None => old(self)@,
            },
    {
        let text: &str = value.as_str();
        let bytes: &[u8] = text.as_bytes();
        if step == 0 {
            match Protocol::parse(text) {
                Ok(protocol) => {
                    self.default_protocol = protocol;
                    true
                },
                Err(_) => false,
            }
        } else if step == 1 {
            match parse_truth(text) {
                Some(truth) => {
                    self.enable_http_scrape = truth;
                    true
                },
                None => false,
            }
        } else if step == 2 {
            match parse_truth(text) {
                Some(truth) => {
                    self.enable_udp_scrape = truth;
                    true
                },
                None => false,
            }
        } else if step == 3 {
            match parse_socket(bytes) {
                Some(address) => {
                    self.http_addr = address;
                    true
                },
                None => false,
            }
        } else if step == 4 {
            match parse_socket(bytes) {
                Some(address) => {
                    self.udp_addr = address;
                    true
                },
                None => false,
            }
        } else if step == 5 {
            match parse_unsigned(bytes, u32::MAX as u128) {
                Some(number) => {
                    self.announce_interval = number as u32;
                    true
                },
                None => false,
            }
        } else if step == 6 {
            match parse_unsigned(bytes, u64::MAX as u128) {
                Some(number) => {
                    self.peer_timeout = number as u64;
                    true
                },
                None => false,
            }
        } else if step == 7 {
            match parse_unsigned(bytes, u64::MAX as u128) {
                Some(number) => {
                    self.persistence_interval = number as u64;
                    true
                },
                None => false,
            }
        } else if step == 8 {
            match parse_unsigned(bytes, u32::MAX as u128) {
                Some(number) => {
                    self.rate_limit_per_minute = number as u32;
                    true
                },
                None => false,
            }
        } else if step == 9 {
            match parse_unsigned(bytes, usize::MAX as u128) {
                Some(number) => {
                    self.max_concurrent_http_requests = number as usize;
                    true
                },
                None => false,
            }
        } else if step == 10 {
            proof {
                reveal_strlit("");
            }
            if same_text(text, "") {
                assert(text@.len() == 0);
                false
            } else {
                assert(text@.len() > 0) by {
                    if text@.len() == 0 {
                        assert(text@ =~= ""@);
                    }
                }
                self.database_path = value.clone();
                true
            }
        } else {
            self.log_filter = value.clone();
            true
        }
    }

    /// Applies the environment variables that are set. The first one with a
    /// value that it cannot have is reported, and those behind it are not
    /// applied.
    pub fn apply_environment(&mut self, environment: &Environment) -> (result: Result<
        (),
        ConfigError,
    >)
        ensures
            final(self)@ == with_environment(old(self)@, environment@, 0).0,
            match result {
                Ok(()) => with_environment(old(self)@, environment@, 0).1 is None,
                Err(error) => with_environment(old(self)@, environment@, 0).1 == Some(error@),
            },
    {
        let mut step: usize = 0;
        while step < VARIABLES
            invariant
                0 <= step <= VARIABLES,
                with_environment(old(self)@, environment@, 0) == with_environment(
                    self@,
                    environment@,
                    step as int,
                ),
            decreases VARIABLES - step,
        {
            let name: &'static str = name_of(step);
            if let Some(value) = lookup(environment, name) {
                if !self.apply(step, value) {
                    if step == 10 {
                        return Err(ConfigError::EmptyDatabasePath);
                    }
                    return Err(
                        ConfigError::Invalid {
                            name: name.to_owned(),
                            value: value.clone(),
                            cause: cause_of(step, value.as_str()),
                        },
                    );
                }
            }
            step = step + 1;
        }
        Ok(())
    }

    /// Refuses settings without room for a single request.
    pub fn validate(&self) -> (result: Result<(), ConfigError>)
        ensures
            result is Ok <==> self@.max_concurrent_http_requests > 0,
            result matches Err(error) ==> error@ == ConfigFault::NoConcurrentRequests,
    {
        if self.max_concurrent_http_requests > 0 {
            Ok(())
        } else {
            Err(ConfigError::NoConcurrentRequests)
        }
    }
}

/// The settings that the tracker runs with. The times are in seconds.
#[derive(Clone, Debug)]
pub struct AppConfig {
    pub default_protocol: Protocol,
    pub enable_http_scrape: bool,
    pub enable_udp_scrape: bool,
    pub http_addr: SocketAddress,
    pub udp_addr: SocketAddress,
    pub database_path: String,
    pub announce_interval: u32,
    pub peer_timeout: u64,
    pub persistence_interval: u64,
    pub rate_limit_per_minute: u32,
    pub max_concurrent_http_requests: usize,
    pub log_filter: String,
}

impl From<FileConfig> for AppConfig {
    fn from(config: FileConfig) -> (settings: Self) {
        AppConfig {
            default_protocol: config.default_protocol,
            enable_http_scrape: config.enable_http_scrape,
            enable_udp_scrape: config.enable_udp_scrape,
            http_addr: config.http_addr,
            udp_addr: config.udp_addr,
            database_path: config.database_path,
            announce_interval: config.announce_interval,
            peer_timeout: config.peer_timeout,
            persistence_interval: config.persistence_interval,
            rate_limit_per_minute: config.rate_limit_per_minute,
            max_concurrent_http_requests: config.max_concurrent_http_requests,
            log_filter: config.log_filter,
        }
    }
}

impl vstd::std_specs::convert::FromSpecImpl<FileConfig> for AppConfig {
    open spec fn obeys_from_spec() -> bool {
        true
    }

    open spec fn from_spec(config: FileConfig) -> AppConfig {
        AppConfig {
            default_protocol: config.default_protocol,
            enable_http_scrape: config.enable_http_scrape,
            enable_udp_scrape: config.enable_udp_scrape,
            http_addr: config.http_addr,
            udp_addr: config.udp_addr,
            database_path: config.database_path,
            announce_interval: config.announce_interval,
            peer_timeout: config.peer_timeout,
            persistence_interval: config.persistence_interval,
            rate_limit_per_minute: config.rate_limit_per_minute,
            max_concurrent_http_requests: config.max_concurrent_http_requests,
            log_filter: config.log_filter,
        }
    }
}

/// The protocol to run: the command line's where it names one.
pub fn resolve_protocol(command_line: Option<Protocol>, configured: Protocol) -> (protocol:
    Protocol)
    ensures
        protocol == match command_line {
            Some(chosen) => chosen,
            None => configured,
        },
{
    match command_line {
        Some(chosen) => chosen,
        None => configured,
    }
}

/// Variables that are set override the settings, and no other setting changes.
pub proof fn law_unset_variables_change_nothing(
    config: ConfigModel,
    environment: Seq<(String, String)>,
)
    requires
        forall|step: int|
            0 <= step < VARIABLES ==> variable(environment, #[trigger] variable_name(step)) is None,
    ensures
        with_environment(config, environment, 0) == (config, None::<ConfigFault>),
{
    lemma_unset_from(config, environment, 0);
}

proof fn lemma_unset_from(config: ConfigModel, environment: Seq<(String, String)>, step: int)
    requires
        0 <= step <= VARIABLES,
        forall|i: int|
            0 <= i < VARIABLES ==> variable(environment, #[trigger] variable_name(i)) is None,
    ensures
        with_environment(config, environment, step) == (config, None::<ConfigFault>),
    decreases VARIABLES - step,
{
    if step < VARIABLES {
        assert(variable(environment, variable_name(step)) is None);
        lemma_unset_from(config, environment, step + 1);
    }
}

} // verus!
